//! What a pump comes to as a whole: what the target says reaches the clients of its
//! channel, and what they send reaches the target.

use crate::delivery::{round_delivers_what_fits, Place};
use crate::dialogue::{converses, effect, served, Dialogue, Next};
use crate::inputs::{deliverable, has_buffer, lists_waiting, Fills, FillsNext};
use crate::memory::Reply;
use crate::outputs::{
    ascending, drainable, is_served, lists_served, only_read, round_drains_each_channel, sayings,
    told, up_ring, Drains, DrainsNext, Output,
};
use crate::pump::{output_for, PumpNext, RoundView};
use crate::rtt::{waits, RttView};
use crate::up::drained;
use vstd::prelude::*;

verus! {

/// `talk` is a conversation with the target's memory that leads the pump from `first` to
/// `last`, and the memory that answers it from `before` to `after`.
pub open spec fn pump_converses(
    first: PumpNext,
    before: Map<int, u8>,
    talk: Seq<(Reply, PumpNext)>,
    last: PumpNext,
    after: Map<int, u8>,
) -> bool
    decreases talk.len(),
{
    if talk.len() == 0 {
        &&& last == first
        &&& after == before
    } else {
        &&& first is Memory
        &&& served(before, first->Memory_0, talk[0].0)
        &&& first->Memory_1.continues(talk[0].0, talk[0].1)
        &&& pump_converses(
            talk[0].1,
            effect(before, first->Memory_0),
            talk.drop_first(),
            last,
            after,
        )
    }
}

/// The first part of the pump is a round of drains.
proof fn lemma_drains_part(
    inst: u32,
    cb: u64,
    state: RttView,
    drains: DrainsNext,
    next: PumpNext,
    mem: Map<int, u8>,
    talk: Seq<(Reply, PumpNext)>,
    last: PumpNext,
    after: Map<int, u8>,
) -> (r: (
    Seq<(Reply, DrainsNext)>,
    DrainsNext,
    Map<int, u8>,
    PumpNext,
    Seq<(Reply, PumpNext)>,
))
    requires
        next.after_drains(inst, cb, state, drains),
        pump_converses(next, mem, talk, last, after),
    ensures
        converses(drains, mem, r.0, r.1, r.2),
        r.3.after_drains(inst, cb, state, r.1),
        pump_converses(r.3, r.2, r.4, last, after),
        r.1 is Ask ==> r.4.len() == 0,
    decreases talk.len(),
{
    if drains is Ask && talk.len() > 0 {
        let reply = talk[0].0;
        let then = choose|then: DrainsNext| #[trigger]
            drains->Ask_1.continues(reply, then) && talk[0].1.after_drains(inst, cb, state, then);
        let m = effect(mem, drains->Ask_0);
        let r = lemma_drains_part(
            inst,
            cb,
            state,
            then,
            talk[0].1,
            m,
            talk.drop_first(),
            last,
            after,
        );
        let whole = seq![(reply, then)] + r.0;
        assert(whole.drop_first() =~= r.0);
        assert(whole[0] == (reply, then));
        (whole, r.1, r.2, r.3, r.4)
    } else {
        (Seq::empty(), drains, mem, next, talk)
    }
}

/// Two lists of the same served channels are the same list.
proof fn lemma_one_list(a: Seq<u32>, b: Seq<u32>)
    requires
        ascending(a),
        ascending(b),
        forall|ch: u32| a.contains(ch) <==> #[trigger] b.contains(ch),
    ensures
        a == b,
    decreases a.len(),
{
    if a.len() > 0 && b.len() > 0 {
        let x = a.drop_last();
        let y = b.drop_last();
        assert(a.last() == b.last()) by {
            assert(a.contains(a.last()));
            assert(b.contains(b.last()));
            assert(b.contains(a.last()));
            assert(a.contains(b.last()));
            let i = choose|i: int| 0 <= i < b.len() && b[i] == a.last();
            let j = choose|j: int| 0 <= j < a.len() && a[j] == b.last();
            assert(b[i] <= b.last());
            assert(a[j] <= a.last());
        }
        assert forall|ch: u32| x.contains(ch) <==> #[trigger] y.contains(ch) by {
            if x.contains(ch) {
                let k = choose|k: int| 0 <= k < x.len() && x[k] == ch;
                assert(a[k] == ch && a[k] < a.last());
                assert(a.contains(ch));
                assert(b.contains(ch));
                let l = choose|l: int| 0 <= l < b.len() && b[l] == ch;
                assert(y[l] == ch);
            }
            if y.contains(ch) {
                let k = choose|k: int| 0 <= k < y.len() && y[k] == ch;
                assert(b[k] == ch && b[k] < b.last());
                assert(b.contains(ch));
                assert(a.contains(ch));
                let l = choose|l: int| 0 <= l < a.len() && a[l] == ch;
                assert(x[l] == ch);
            }
        }
        lemma_one_list(x, y);
        assert(a =~= x.push(a.last()));
        assert(b =~= y.push(b.last()));
    } else {
        if a.len() > 0 {
            assert(a.contains(a[0]));
            assert(b.contains(a[0]));
        }
        if b.len() > 0 {
            assert(b.contains(b[0]));
            assert(a.contains(b[0]));
        }
        assert(a =~= b);
    }
}

/// A pump goes on to the servers with what each served channel had to say, in the order of
/// the channels. Until then nothing but the read offsets of those channels has changed.
pub proof fn the_pump_hears_each_channel(
    inst: u32,
    cb: u64,
    state: RttView,
    channels: Seq<u32>,
    first: PumpNext,
    mem: Map<int, u8>,
    talk: Seq<(Reply, PumpNext)>,
    last: PumpNext,
    after: Map<int, u8>,
)
    requires
        state.servers.len() > 0,
        first.drains(inst, cb, state),
        pump_converses(first, mem, talk, last, after),
        lists_served(channels, state.servers),
        forall|i: int|
            0 <= i < channels.len() ==> drainable(mem, cb, #[trigger] channels[i], channels),
    ensures
        only_read(mem, after, cb, channels),
        last !is Memory ==> last.services(
            RoundView {
                inst,
                cb,
                rtt: RttView { servers: Seq::empty(), ..state },
                outputs: sayings(mem, cb, channels),
                rest: state.servers,
            },
        ) && forall|i: int|
            0 <= i < channels.len() ==> drained(
                after,
                up_ring(after, cb, #[trigger] channels[i]),
            ).len() == 0,
{
    let (listed, drains) = choose|listed: Seq<u32>, drains: DrainsNext| #[trigger]
        lists_served(listed, state.servers) && #[trigger] Drains::goes_on(
            inst,
            cb,
            listed,
            Seq::empty(),
            drains,
        ) && first.after_drains(inst, cb, state, drains);
    assert forall|ch: u32| listed.contains(ch) <==> #[trigger] channels.contains(ch) by {
        assert(listed.contains(ch) <==> is_served(state.servers, ch));
    }
    lemma_one_list(listed, channels);
    let r = lemma_drains_part(inst, cb, state, drains, first, mem, talk, last, after);
    round_drains_each_channel(
        inst,
        cb,
        channels,
        Seq::empty(),
        drains,
        mem,
        r.0,
        r.1,
        r.2,
    );
    if let Next::Done(outputs) = r.1 {
        assert(told(Seq::<Output>::empty()) + sayings(mem, cb, channels) =~= sayings(
            mem,
            cb,
            channels,
        ));
        assert(r.3 is Accept);
        assert(r.4.len() == 0);
    }
}

/// What the servers are given for a channel is what waited in its ring.
pub proof fn a_channels_output_is_what_waited(
    mem: Map<int, u8>,
    cb: u64,
    channels: Seq<u32>,
    i: int,
)
    requires
        ascending(channels),
        0 <= i < channels.len(),
    ensures
        ({
            let said = drained(mem, up_ring(mem, cb, channels[i]));
            output_for(sayings(mem, cb, channels), channels[i]) == (if said.len() == 0 {
                None
            } else {
                Some(said)
            })
        }),
    decreases channels.len(),
{
    let rest = channels.drop_first();
    let others = sayings(mem, cb, rest);
    let said = drained(mem, up_ring(mem, cb, channels[0]));
    let all = sayings(mem, cb, channels);
    assert(ascending(rest));
    if said.len() > 0 {
        assert(all[0] == (channels[0], said));
        assert(all.drop_first() =~= others);
    }
    if i > 0 {
        assert(rest[i - 1] == channels[i]);
        a_channels_output_is_what_waited(mem, cb, rest, i - 1);
    } else {
        lemma_no_output(mem, cb, rest, channels[0]);
    }
}

/// A channel that is not listed has no output.
proof fn lemma_no_output(mem: Map<int, u8>, cb: u64, channels: Seq<u32>, ch: u32)
    requires
        forall|i: int| 0 <= i < channels.len() ==> #[trigger] channels[i] != ch,
    ensures
        output_for(sayings(mem, cb, channels), ch) is None,
    decreases channels.len(),
{
    if channels.len() > 0 {
        let rest = channels.drop_first();
        assert forall|i: int| 0 <= i < rest.len() implies #[trigger] rest[i] != ch by {
            assert(rest[i] == channels[i + 1]);
        }
        lemma_no_output(mem, cb, rest, ch);
        let said = drained(mem, up_ring(mem, cb, channels[0]));
        let all = sayings(mem, cb, channels);
        if said.len() > 0 {
            assert(all[0] == (channels[0], said));
            assert(all.drop_first() =~= sayings(mem, cb, rest));
        }
    }
}

/// The last part of the pump is a round of fills.
proof fn lemma_fills_part(
    fills: FillsNext,
    next: PumpNext,
    mem: Map<int, u8>,
    talk: Seq<(Reply, PumpNext)>,
    last: PumpNext,
    after: Map<int, u8>,
) -> (r: (Seq<(Reply, FillsNext)>, FillsNext))
    requires
        next.after_fills(fills),
        pump_converses(next, mem, talk, last, after),
    ensures
        converses(fills, mem, r.0, r.1, after),
        last.after_fills(r.1),
    decreases talk.len(),
{
    if fills is Ask && talk.len() > 0 {
        let reply = talk[0].0;
        let then = choose|then: FillsNext| #[trigger]
            fills->Ask_1.continues(reply, then) && talk[0].1.after_fills(then);
        let m = effect(mem, fills->Ask_0);
        let r = lemma_fills_part(then, talk[0].1, m, talk.drop_first(), last, after);
        let whole = seq![(reply, then)] + r.0;
        assert(whole.drop_first() =~= r.0);
        assert(whole[0] == (reply, then));
        (whole, r.1)
    } else {
        (Seq::empty(), fills)
    }
}

/// The input of channel `ch` is to be delivered.
pub open spec fn has_input(state: RttView, ch: u32) -> bool {
    has_buffer(state.num_down, ch) && waits(state.queues, ch).len() > 0
}

/// `a` lies neither in the buffer nor in the write offset of a channel with input.
pub open spec fn untouched(place: Place, mem: Map<int, u8>, state: RttView, a: int) -> bool {
    forall|ch: u32| #[trigger] has_input(state, ch) ==> !place.touches(mem, ch, a)
}

/// A pump ends with the input delivered. To each channel that has a down buffer goes as
/// much of what waits for it as the ring has room for, and the rest waits on; the input of
/// any other channel is dropped. As long as the number of down buffers is not known, all
/// input waits on. Nothing else of the state changes, and at no time has anything else of
/// the memory changed than the buffers and the write offsets of channels with input.
pub proof fn the_pump_delivers_the_input(
    inst: u32,
    place: Place,
    state: RttView,
    first: PumpNext,
    mem: Map<int, u8>,
    talk: Seq<(Reply, PumpNext)>,
    last: PumpNext,
    after: Map<int, u8>,
)
    requires
        state.num_up == place.num_up,
        first.fills(inst, place.cb, state),
        pump_converses(first, mem, talk, last, after),
        forall|ch: u32| #[trigger] has_input(state, ch) ==> place.sound(mem, ch),
        forall|a: u32, b: u32|
            a != b && #[trigger] has_input(state, a) && #[trigger] has_input(state, b)
                ==> place.separate(mem, a, b),
    ensures
        forall|a: int| #[trigger] mem.contains_key(a) == after.contains_key(a),
        forall|a: int|
            mem.contains_key(a) && untouched(place, mem, state, a) ==> #[trigger] mem[a]
                == after[a],
        last matches PumpNext::Done(rtt) ==> {
            &&& rtt@ == (RttView { queues: rtt@.queues, ..state })
            &&& forall|ch: u32|
                #[trigger] has_input(state, ch) ==> place.delivered(
                    mem,
                    after,
                    ch,
                    waits(state.queues, ch),
                    waits(rtt@.queues, ch),
                )
            &&& forall|ch: u32|
                !#[trigger] has_input(state, ch) ==> waits(rtt@.queues, ch) == (
                if state.num_down is None {
                    waits(state.queues, ch)
                } else {
                    Seq::empty()
                })
        },
{
    let fills = choose|fills: FillsNext| #[trigger]
        Fills::begins(inst, place.cb, state, fills) && first.after_fills(fills);
    let queues = deliverable(state.queues, state.num_down);
    let now = RttView { queues, ..state };
    let channels = choose|channels: Seq<u32>| #[trigger]
        lists_waiting(channels, queues, state.num_down) && Fills::goes_on(
            inst,
            place.cb,
            now,
            channels,
            fills,
        );
    let r = lemma_fills_part(fills, first, mem, talk, last, after);
    assert forall|ch: u32| #[trigger] has_input(state, ch) <==> channels.contains(ch) by {
        assert(channels.contains(ch) <==> has_buffer(state.num_down, ch) && waits(
            queues,
            ch,
        ).len() > 0);
    }
    assert(place.fillable(mem, channels)) by {
        assert forall|i: int| 0 <= i < channels.len() implies place.sound(
            mem,
            #[trigger] channels[i],
        ) by {
            assert(channels.contains(channels[i]));
            assert(has_input(state, channels[i]));
        }
        assert forall|i: int, j: int|
            0 <= i < channels.len() && 0 <= j < channels.len() && i != j implies place.separate(
            mem,
            #[trigger] channels[i],
            #[trigger] channels[j],
        ) by {
            assert(channels.contains(channels[i]) && channels.contains(channels[j]));
            assert(has_input(state, channels[i]) && has_input(state, channels[j]));
            assert(channels[i] != channels[j]);
        }
    }
    round_delivers_what_fits(inst, place, now, channels, fills, mem, r.0, r.1, after);
    assert forall|a: int|
        mem.contains_key(a) && untouched(place, mem, state, a) implies #[trigger] mem[a]
        == after[a] by {
        assert forall|i: int| 0 <= i < channels.len() implies !place.touches(
            mem,
            #[trigger] channels[i],
            a,
        ) by {
            assert(channels.contains(channels[i]));
            assert(has_input(state, channels[i]));
        }
    }
    if let PumpNext::Done(rtt) = last {
        assert(r.1 is Done);
        assert forall|ch: u32| #[trigger] has_input(state, ch) implies place.delivered(
            mem,
            after,
            ch,
            waits(state.queues, ch),
            waits(rtt@.queues, ch),
        ) by {
            let i = choose|i: int| 0 <= i < channels.len() && channels[i] == ch;
            assert(channels.contains(ch));
            assert(place.delivered(
                mem,
                after,
                channels[i],
                waits(now.queues, channels[i]),
                waits(rtt@.queues, channels[i]),
            ));
            assert(waits(now.queues, ch) == waits(state.queues, ch));
        }
        assert forall|ch: u32| !#[trigger] has_input(state, ch) implies waits(
            rtt@.queues,
            ch,
        ) == (if state.num_down is None {
            waits(state.queues, ch)
        } else {
            Seq::empty()
        }) by {
            assert(!channels.contains(ch));
            assert(waits(rtt@.queues, ch) == waits(now.queues, ch));
            assert(waits(state.queues, ch).len() == 0 ==> waits(state.queues, ch)
                =~= Seq::empty());
        }
    }
}

} // verus!
