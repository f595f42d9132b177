//! A pump as a whole: what is heard, what is delivered, and what it asks.

use crate::delivery::Place;
use crate::dialogue::{converses, effect, served, Dialogue, Next};
use crate::down::{accepted, slot, FillNext};
use crate::flow::{
    a_channels_output_is_what_waited, has_input, pump_converses, the_pump_delivers_the_input,
    the_pump_hears_each_channel, untouched,
};
use crate::inputs::{deliverable, lists_waiting, taken, Fills, FillsNext};
use crate::laws::rings::{
    as_numbers, at, can_be_told, drain_is_for, fill_is_for, goes_to, in_number, lemma_ring,
    lemma_told, told_by, what_waits, Numbers,
};
use crate::laws::rounds::{lemma_goes_on, lemma_serves, serves};
use crate::laws::search::{is_found, lemma_located, lemma_look_step, look_is_for};
use crate::laws::sockets::{
    goes, lemma_roll, lemma_said, lemma_services_present, present, roll, round_of, rtt_of, said,
    silent, Answer,
};
use crate::laws::state::{
    lemma_queue, lemma_same, queue_of, same_block, same_queues, same_rtt, same_search, servers_of,
};
use crate::locate::{block_at, locating_reads_the_header, Locate, LocateNext};
use crate::memory::Reply;
use crate::model::{all_mapped, number_in, smaller, spelled_at, wrapped};
use crate::outputs::{
    clear, drainable, in_rdoff, is_served, lists_served, only_read, sayings, told, up_ring, Drains,
    DrainsNext,
};
use crate::pump::{block_found, queued_up, MemoryWait, PumpNext, RoundView};
use crate::ring::{lemma_pending, lemma_wrap, waiting, waiting_slot};
use crate::rtt::{views, waits, Rtt, RttView, Server, ServerView};
use crate::scan::{Scan, ScanNext};
use crate::up::{drained, DrainNext};
use vstd::prelude::*;
use vstd::utf8::encode_utf8;

verus! {

/// `talk` leads the pump from `first` to `last`, each access answered by the memory, which
/// it leads from `before` to `after`.
pub open spec fn pump_talks(
    first: PumpNext,
    before: Map<int, u8>,
    talk: Seq<(Reply, PumpNext)>,
    last: PumpNext,
    after: Map<int, u8>,
) -> bool
    decreases talk.len(),
{
    if talk.len() == 0 {
        &&& last == first
        &&& after == before
    } else {
        &&& first is Memory
        &&& served(before, first->Memory_0, talk[0].0)
        &&& call_ensures(MemoryWait::resume, (first->Memory_1, talk[0].0), talk[0].1)
        &&& pump_talks(
            talk[0].1,
            effect(before, first->Memory_0),
            talk.drop_first(),
            last,
            after,
        )
    }
}

proof fn lemma_pump_talks(
    first: PumpNext,
    before: Map<int, u8>,
    talk: Seq<(Reply, PumpNext)>,
    last: PumpNext,
    after: Map<int, u8>,
)
    requires
        pump_talks(first, before, talk, last, after),
    ensures
        pump_converses(first, before, talk, last, after),
    decreases talk.len(),
{
    if talk.len() > 0 {
        lemma_pump_talks(
            talk[0].1,
            effect(before, first->Memory_0),
            talk.drop_first(),
            last,
            after,
        );
    }
}

/// All but the count of polls is the same.
pub open spec fn same_but_count(a: Rtt, b: Rtt) -> bool {
    &&& same_search(a, b)
    &&& same_block(a, b)
    &&& servers_of(a) == servers_of(b)
    &&& same_queues(a, b)
}

/// As long as nothing is served, neither a poll nor a flush does anything. A poll counts,
/// up to where the count begins anew, and pumps when the count is a multiple of four; on
/// any other it does nothing more. Where it is not known where the control block is, nor
/// where to look for it, a pump does nothing. Where it is known, a pump begins with an
/// access to the memory.
pub proof fn one_poll_in_four_pumps(rtt: Rtt, inst: u32, polled: PumpNext, flushed: PumpNext)
    requires
        call_ensures(Rtt::poll, (rtt, inst), polled),
        call_ensures(Rtt::flush, (rtt, inst), flushed),
    ensures
        rtt.servers@.len() == 0 ==> {
            &&& polled is Done
            &&& same_rtt(polled->Done_0, rtt)
            &&& flushed is Done
            &&& same_rtt(flushed->Done_0, rtt)
        },
        rtt.servers@.len() > 0 ==> {
            let count = (rtt.poll_counter + 1) % 0x1_0000_0000;
            let idle = rtt.control_block is None && rtt.search is None;
            &&& rtt_of(polled).poll_counter == count
            &&& rtt_of(flushed).poll_counter == rtt.poll_counter
            &&& count % 4 != 0 || idle ==> polled is Done && same_but_count(polled->Done_0, rtt)
            &&& idle ==> flushed is Done && same_rtt(flushed->Done_0, rtt)
            &&& count % 4 == 0 && rtt.control_block is Some ==> polled is Memory
            &&& rtt.control_block is Some ==> flushed is Memory
        },
{
    assert(rtt@.servers.len() == rtt.servers@.len());
    lemma_same(rtt_of(polled), rtt);
    lemma_same(rtt_of(flushed), rtt);
    if rtt.servers@.len() > 0 {
        let count = rtt.poll_counter.wrapping_add(1);
        let counted = RttView { poll_counter: count, ..rtt@ };
        if count % 4 == 0 {
            lemma_pump_begins(polled, inst, counted);
        }
        lemma_pump_begins(flushed, inst, rtt@);
    }
}

/// How a pump begins.
proof fn lemma_pump_begins(first: PumpNext, inst: u32, state: RttView)
    requires
        state.servers.len() > 0,
        first.pumps(inst, state),
    ensures
        rtt_of(first)@.poll_counter == state.poll_counter,
        state.control_block is Some ==> first is Memory,
        state.control_block is None && state.search is None ==> first is Done
            && first->Done_0@ == state,
{
    match state.control_block {
        Some(cb) => {
            lemma_drains_begin(first, inst, cb, state);
        },
        None => {
            if let Some((addr, size, id)) = state.search {
                let id = encode_utf8(id);
                let locate = choose|locate: LocateNext| #[trigger]
                    Locate::begins(inst, true, addr, size, id, locate)
                        && first.after_locate(inst, state, locate);
                if let Next::Done(found) = locate {
                    if let Some(block) = block_found(found) {
                        lemma_drains_begin(first, inst, block.cb, state.with_block(block));
                    }
                }
            }
        },
    }
}

/// How the drains of a pump begin.
proof fn lemma_drains_begin(first: PumpNext, inst: u32, cb: u64, state: RttView)
    requires
        state.servers.len() > 0,
        first.drains(inst, cb, state),
    ensures
        first is Memory,
        rtt_of(first)@ == state,
{
    let (listed, drains) = choose|listed: Seq<u32>, drains: DrainsNext| #[trigger]
        lists_served(listed, state.servers) && #[trigger] Drains::goes_on(
            inst,
            cb,
            listed,
            Seq::empty(),
            drains,
        ) && first.after_drains(inst, cb, state, drains);
    assert(is_served(state.servers, state.servers[0].channel));
    assert(listed.contains(state.servers[0].channel));
    assert(listed.len() > 0);
}

/// The first part of a pump that does not know the control block is a look for it.
proof fn lemma_locate_part(
    inst: u32,
    state: RttView,
    locate: LocateNext,
    next: PumpNext,
    mem: Map<int, u8>,
    talk: Seq<(Reply, PumpNext)>,
    last: PumpNext,
    after: Map<int, u8>,
) -> (r: (
    Seq<(Reply, LocateNext)>,
    LocateNext,
    Map<int, u8>,
    PumpNext,
    Seq<(Reply, PumpNext)>,
))
    requires
        next.after_locate(inst, state, locate),
        pump_converses(next, mem, talk, last, after),
    ensures
        converses(locate, mem, r.0, r.1, r.2),
        r.3.after_locate(inst, state, r.1),
        pump_converses(r.3, r.2, r.4, last, after),
        r.1 is Ask ==> r.4.len() == 0,
    decreases talk.len(),
{
    if locate is Ask && talk.len() > 0 {
        let reply = talk[0].0;
        let then = choose|then: LocateNext| #[trigger]
            locate->Ask_1.continues(reply, then) && talk[0].1.after_locate(inst, state, then);
        let m = effect(mem, locate->Ask_0);
        let r = lemma_locate_part(
            inst,
            state,
            then,
            talk[0].1,
            m,
            talk.drop_first(),
            last,
            after,
        );
        let whole = seq![(reply, then)] + r.0;
        assert(whole.drop_first() =~= r.0);
        assert(whole[0] == (reply, then));
        (whole, r.1, r.2, r.3, r.4)
    } else {
        (Seq::empty(), locate, mem, next, talk)
    }
}

/// A pump of `rtt` has begun with `first`: something is served, and it was flushed, or
/// polled when it was time for it.
pub open spec fn pumps(rtt: Rtt, inst: u32, first: PumpNext) -> bool {
    &&& rtt.servers@.len() > 0
    &&& call_ensures(Rtt::flush, (rtt, inst), first) || call_ensures(
        Rtt::poll,
        (rtt, inst),
        first,
    ) && (rtt.poll_counter + 1) % 4 == 0
}

/// The state of RTT at the beginning of the pump, as it is spoken of.
spec fn counted(rtt: Rtt, state: RttView) -> bool {
    state == (RttView { poll_counter: state.poll_counter, ..rtt@ })
}

proof fn lemma_pumps(rtt: Rtt, inst: u32, first: PumpNext) -> (state: RttView)
    requires
        pumps(rtt, inst, first),
    ensures
        counted(rtt, state),
        state.servers.len() > 0,
        first.pumps(inst, state),
{
    assert(rtt@.servers.len() == rtt.servers@.len());
    if call_ensures(Rtt::flush, (rtt, inst), first) {
        rtt@
    } else {
        let count = rtt.poll_counter.wrapping_add(1);
        assert(count % 4 == 0);
        RttView { poll_counter: count, ..rtt@ }
    }
}

/// The control block is at `cb`: it was found there before, or it is found there now.
pub open spec fn is_known(mem: Map<int, u8>, rtt: Rtt, cb: u64) -> bool {
    match (rtt.control_block, rtt.search) {
        (Some(known), _) => known == cb,
        (None, Some((addr, size, id))) => {
            &&& encode_utf8(id@).len() > 0
            &&& is_found(mem, addr, size, encode_utf8(id@), Some(cb))
        },
        (None, None) => false,
    }
}

/// The control block is not to be found.
pub open spec fn is_unknown(mem: Map<int, u8>, rtt: Rtt) -> bool {
    &&& rtt.control_block is None
    &&& match rtt.search {
        Some((addr, size, id)) => encode_utf8(id@).len() == 0 || is_found(
            mem,
            addr,
            size,
            encode_utf8(id@),
            None,
        ),
        None => true,
    }
}

/// The numbers of channels that the control block at `cb` tells: of the up channels, zero
/// where it cannot be read, and of the down channels, if it can.
pub open spec fn has_channels(
    mem: Map<int, u8>,
    cb: u64,
    num_up: u32,
    num_down: Option<u32>,
) -> bool {
    &&& num_up == (if all_mapped(mem, wrapped(cb + 16), 4) {
        number_in(mem, wrapped(cb + 16))
    } else {
        0
    })
    &&& match num_down {
        Some(n) => all_mapped(mem, wrapped(cb + 20), 4) && n == number_in(mem, wrapped(cb + 20)),
        None => !all_mapped(mem, wrapped(cb + 20), 4),
    }
}

/// What is found is found in one place.
proof fn lemma_found_once(
    mem: Map<int, u8>,
    addr: u64,
    size: u64,
    id: Seq<u8>,
    a: Option<u64>,
    b: Option<u64>,
)
    requires
        is_found(mem, addr, size, id, a),
        is_found(mem, addr, size, id, b),
    ensures
        a == b,
{
    match (a, b) {
        (Some(x), Some(y)) => {
            assert(spelled_at(mem, x as int, id) && spelled_at(mem, y as int, id));
        },
        (Some(x), None) => {
            assert(spelled_at(mem, x as int, id));
        },
        (None, Some(y)) => {
            assert(spelled_at(mem, y as int, id));
        },
        (None, None) => {},
    }
}

/// A pump finds the control block, if it does not know it, and goes on with the channels.
proof fn lemma_resolved(
    rtt: Rtt,
    inst: u32,
    state: RttView,
    first: PumpNext,
    mem: Map<int, u8>,
    talk: Seq<(Reply, PumpNext)>,
    last: PumpNext,
    after: Map<int, u8>,
    cb: u64,
) -> (r: (RttView, PumpNext, Seq<(Reply, PumpNext)>, bool))
    requires
        counted(rtt, state),
        first.pumps(inst, state),
        pump_converses(first, mem, talk, last, after),
        is_known(mem, rtt, cb),
    ensures
        r.0 == (RttView {
            control_block: Some(cb),
            num_up: r.0.num_up,
            num_down: r.0.num_down,
            ..state
        }),
        rtt.control_block is Some ==> r.0 == state,
        !r.3 ==> last is Memory && after == mem,
        r.3 ==> {
            &&& r.1.drains(inst, cb, r.0)
            &&& pump_converses(r.1, mem, r.2, last, after)
            &&& rtt.control_block is None ==> has_channels(mem, cb, r.0.num_up, r.0.num_down)
        },
{
    if rtt.control_block is Some {
        (state, first, talk, true)
    } else {
        let (addr, size, id) = rtt.search->Some_0;
        let text = encode_utf8(id@);
        let begun = choose|begun: LocateNext| #[trigger]
            Locate::begins(inst, true, addr, size, text, begun) && first.after_locate(
                inst,
                state,
                begun,
            );
        let r = lemma_locate_part(inst, state, begun, first, mem, talk, last, after);
        locating_reads_the_header(inst, true, addr, size, text, begun, mem, r.0, r.1, r.2);
        match r.1 {
            Next::Ask(_, _) => (
                RttView { control_block: Some(cb), ..state },
                first,
                talk,
                false,
            ),
            Next::Done(found) => {
                lemma_located(mem, addr, size, text, true, found);
                lemma_found_once(mem, addr, size, text, Some(cb), block_at(found));
                let block = block_found(found)->Some_0;
                (state.with_block(block), r.3, r.4, true)
            },
        }
    }
}

/// The descriptors of all served channels can be read, and their buffers, and no buffer
/// overlaps a read offset.
pub open spec fn can_be_heard(mem: Map<int, u8>, cb: u64, servers: Seq<Server>) -> bool {
    forall|ch: u32| #[trigger]
        serves(servers, ch) ==> {
            let t = told_by(mem, cb, ch as int);
            &&& can_be_told(mem, cb, ch as int)
            &&& t.is_ring() ==> all_mapped(mem, t.buffer, t.size) && forall|other: u32| #[trigger]
                serves(servers, other) ==> t.is_beside(at(cb, other as int, 16))
        }
}

/// `x` lies in the read offset of a served channel.
pub open spec fn in_read_offset(cb: u64, servers: Seq<Server>, x: int) -> bool {
    exists|ch: u32| #[trigger] serves(servers, ch) && in_number(x, at(cb, ch as int, 16))
}

/// What can be heard can be drained.
proof fn lemma_drainable(mem: Map<int, u8>, cb: u64, servers: Seq<Server>, channels: Seq<u32>)
    requires
        can_be_heard(mem, cb, servers),
        lists_served(channels, views(servers)),
    ensures
        forall|i: int|
            0 <= i < channels.len() ==> drainable(mem, cb, #[trigger] channels[i], channels),
{
    assert forall|i: int| 0 <= i < channels.len() implies serves(
        servers,
        #[trigger] channels[i],
    ) by {
        assert(channels.contains(channels[i]));
        assert(is_served(views(servers), channels[i]));
        lemma_serves(servers, channels[i]);
    }
    assert forall|i: int| 0 <= i < channels.len() implies drainable(
        mem,
        cb,
        #[trigger] channels[i],
        channels,
    ) by {
        let ch = channels[i];
        assert(serves(servers, ch));
        lemma_told(mem, cb, ch as int);
        let ring = up_ring(mem, cb, ch);
        lemma_ring(ring);
        if ring.usable() {
            assert forall|j: int| 0 <= j < channels.len() implies clear(
                cb,
                ring,
                #[trigger] channels[j],
            ) by {
                assert(serves(servers, channels[j]));
                lemma_told(mem, cb, channels[j] as int);
            }
        }
    }
}

/// What waits is what is drained.
proof fn lemma_drained(mem: Map<int, u8>, cb: u64, ch: u32, bytes: Seq<u8>)
    requires
        what_waits(mem, told_by(mem, cb, ch as int), bytes),
    ensures
        drained(mem, up_ring(mem, cb, ch)) == bytes,
{
    let ring = up_ring(mem, cb, ch);
    lemma_told(mem, cb, ch as int);
    lemma_ring(ring);
    if ring.usable() {
        lemma_pending(ring);
        assert forall|k: int| 0 <= k < bytes.len() implies #[trigger] bytes[k] == waiting(
            mem,
            ring,
        )[k] by {
            assert(waiting_slot(ring, k) == as_numbers(ring).place(ring.rdoff as int, k));
        }
        assert(waiting(mem, ring) =~= bytes);
    } else {
        assert(drained(mem, ring) =~= bytes);
    }
}

/// A pump drains every served channel, and then goes on to the first server. What a channel
/// is then said to have said are the bytes that waited in its ring, all of them, oldest
/// first; nothing waits there any more. Until then nothing but the read offsets of served
/// channels has changed. Where the control block was not known, it is noted, with its
/// numbers of channels; nothing else of the state changes.
pub proof fn all_that_waits_is_heard(
    rtt: Rtt,
    inst: u32,
    first: PumpNext,
    mem: Map<int, u8>,
    talk: Seq<(Reply, PumpNext)>,
    last: PumpNext,
    after: Map<int, u8>,
    cb: u64,
    ch: u32,
    bytes: Seq<u8>,
)
    requires
        pumps(rtt, inst, first),
        pump_talks(first, mem, talk, last, after),
        is_known(mem, rtt, cb),
        can_be_heard(mem, cb, rtt.servers@),
        serves(rtt.servers@, ch),
        what_waits(mem, told_by(mem, cb, ch as int), bytes),
    ensures
        forall|x: int| #[trigger] after.contains_key(x) == mem.contains_key(x),
        forall|x: int|
            mem.contains_key(x) && !in_read_offset(cb, rtt.servers@, x) ==> #[trigger] after[x]
                == mem[x],
        last !is Memory ==> {
            let now = rtt_of(last);
            let t = told_by(after, cb, ch as int);
            &&& last is Accept
            &&& last->Accept_0 == rtt.servers@[0].port
            &&& last->Accept_1.round.inst == inst
            &&& last->Accept_1.round.cb == cb
            &&& if bytes.len() == 0 {
                silent(last->Accept_1.round.outputs@, ch)
            } else {
                said(last->Accept_1.round.outputs@, ch, bytes)
            }
            &&& t.is_ring() ==> t.waiting() == 0
            &&& present(last) == servers_of(rtt)
            &&& now.control_block == Some(cb)
            &&& rtt.control_block is Some ==> same_block(now, rtt)
            &&& rtt.control_block is None ==> has_channels(mem, cb, now.num_up, now.num_down)
            &&& same_search(now, rtt)
            &&& same_queues(now, rtt)
        },
{
    lemma_pump_talks(first, mem, talk, last, after);
    let begun = lemma_pumps(rtt, inst, first);
    let r = lemma_resolved(rtt, inst, begun, first, mem, talk, last, after, cb);
    let state = r.0;
    if r.3 {
        let (channels, _) = choose|channels: Seq<u32>, drains: DrainsNext| #[trigger]
            lists_served(channels, state.servers) && #[trigger] Drains::goes_on(
                inst,
                cb,
                channels,
                Seq::empty(),
                drains,
            ) && r.1.after_drains(inst, cb, state, drains);
        lemma_drainable(mem, cb, rtt.servers@, channels);
        the_pump_hears_each_channel(
            inst,
            cb,
            state,
            channels,
            r.1,
            mem,
            r.2,
            last,
            after,
        );
        lemma_read_offsets(mem, after, cb, rtt.servers@, channels);
        if last !is Memory {
            lemma_serves(rtt.servers@, ch);
            assert(channels.contains(ch));
            let i = choose|i: int| 0 <= i < channels.len() && channels[i] == ch;
            a_channels_output_is_what_waited(mem, cb, channels, i);
            lemma_drained(mem, cb, ch, bytes);
            let round = last->Accept_1.round;
            lemma_said(round.outputs@, ch);
            assert(state.servers[0] == rtt.servers@[0]@);
            lemma_services_present(
                last,
                RoundView {
                    inst,
                    cb,
                    rtt: RttView { servers: Seq::empty(), ..state },
                    outputs: sayings(mem, cb, channels),
                    rest: state.servers,
                },
            );
            lemma_roll(rtt);
            assert(roll(Seq::empty()) + roll(state.servers) =~= roll(state.servers));
            lemma_same(rtt_of(last), rtt);
            let ring = up_ring(after, cb, ch);
            assert(drained(after, up_ring(after, cb, channels[i])).len() == 0);
            lemma_told(after, cb, ch as int);
            lemma_ring(ring);
            if ring.usable() {
                lemma_pending(ring);
                assert(waiting(after, ring).len() == ring.pending());
            }
        }
    }
}

proof fn lemma_read_offsets(
    mem: Map<int, u8>,
    after: Map<int, u8>,
    cb: u64,
    servers: Seq<Server>,
    channels: Seq<u32>,
)
    requires
        only_read(mem, after, cb, channels),
        lists_served(channels, views(servers)),
    ensures
        forall|x: int|
            mem.contains_key(x) && !in_read_offset(cb, servers, x) ==> #[trigger] after[x]
                == mem[x],
{
    assert forall|x: int|
        mem.contains_key(x) && !in_read_offset(cb, servers, x) implies #[trigger] after[x]
        == mem[x] by {
        assert forall|i: int| 0 <= i < channels.len() implies !in_rdoff(
            cb,
            #[trigger] channels[i],
            x,
        ) by {
            assert(channels.contains(channels[i]));
            assert(is_served(views(servers), channels[i]));
            lemma_serves(servers, channels[i]);
            lemma_told(mem, cb, channels[i] as int);
            assert(!in_number(x, at(cb, channels[i] as int, 16)));
        }
        assert(mem[x] == after[x]);
    }
}

/// Where the control block is not to be found, a pump ends, with all as it was but the
/// count of polls.
pub proof fn a_pump_without_a_block_changes_nothing(
    rtt: Rtt,
    inst: u32,
    first: PumpNext,
    mem: Map<int, u8>,
    talk: Seq<(Reply, PumpNext)>,
    last: PumpNext,
    after: Map<int, u8>,
)
    requires
        pumps(rtt, inst, first),
        pump_talks(first, mem, talk, last, after),
        is_unknown(mem, rtt),
    ensures
        after == mem,
        last is Done || last is Memory,
        last is Done ==> same_but_count(last->Done_0, rtt),
{
    lemma_pump_talks(first, mem, talk, last, after);
    let state = lemma_pumps(rtt, inst, first);
    lemma_same(rtt_of(last), rtt);
    if let Some((addr, size, id)) = rtt.search {
        let text = encode_utf8(id@);
        let begun = choose|begun: LocateNext| #[trigger]
            Locate::begins(inst, true, addr, size, text, begun) && first.after_locate(
                inst,
                state,
                begun,
            );
        let r = lemma_locate_part(inst, state, begun, first, mem, talk, last, after);
        if text.len() > 0 {
            locating_reads_the_header(inst, true, addr, size, text, begun, mem, r.0, r.1, r.2);
            if let Next::Done(found) = r.1 {
                lemma_located(mem, addr, size, text, true, found);
                lemma_found_once(mem, addr, size, text, None, block_at(found));
                assert(r.3 is Done);
                assert(r.4.len() == 0);
            }
        } else {
            assert(begun is Done);
            assert(talk.len() == 0);
        }
    }
}

/// A round over the servers that is through is followed by the fills.
proof fn lemma_turns_through(
    next: PumpNext,
    round: RoundView,
    server: ServerView,
    others: Seq<u64>,
    got: Seq<u8>,
) -> (state: RttView)
    requires
        next.turns(round, server, others, got),
        round_of(next) is None,
    ensures
        next.fills(round.inst, round.cb, state),
        state.num_up == round.rtt.num_up,
        state.num_down == round.rtt.num_down,
{
    RttView {
        servers: round.rtt.servers.push(server),
        queues: queued_up(round.rtt.queues, server.channel, got),
        ..round.rtt
    }
}

proof fn lemma_servers_through(now: PumpNext, answer: Answer, next: PumpNext) -> (state: RttView)
    requires
        round_of(now) is Some,
        goes(now, answer, next),
        round_of(next) is None,
    ensures
        next.fills(round_of(now)->Some_0.inst, round_of(now)->Some_0.cb, state),
        state.num_up == rtt_of(now).num_up,
        state.num_down == rtt_of(now).num_down,
{
    match now {
        PumpNext::Accept(_, wait) => {
            assert(wait.goes_on(answer->Accepted_0, next));
            lemma_turns_through(
                next,
                wait.round@,
                ServerView { clients: Seq::empty(), ..wait.server@ },
                wait.server@.clients,
                Seq::empty(),
            )
        },
        PumpNext::Receive(_, _, wait) => {
            assert(wait.goes_on(answer->Received_0, next));
            let turn = wait.turn@;
            if next.turns(turn.round, turn.server, turn.others, turn.got) {
                lemma_turns_through(next, turn.round, turn.server, turn.others, turn.got)
            } else {
                lemma_turns_through(next, turn.round, turn.stays(), turn.others, turn.got)
            }
        },
        PumpNext::Send(_, _, _, wait) => {
            assert(wait.goes_on(answer->Sent_0, next));
            let turn = wait.turn@;
            if next.turns(turn.round, turn.server, turn.others, turn.got) {
                lemma_turns_through(next, turn.round, turn.server, turn.others, turn.got)
            } else {
                lemma_turns_through(next, turn.round, turn.stays(), turn.others, turn.got)
            }
        },
        _ => now.state(),
    }
}

/// Input waits for down channel `ch`, which is known to be there.
pub open spec fn can_be_given(rtt: Rtt, ch: u32) -> bool {
    &&& rtt.num_down is Some
    &&& ch < rtt.num_down->Some_0
    &&& queue_of(rtt.pending_down@, ch).len() > 0
}

/// The buffer does not overlap the numbers of descriptor number `index`.
pub open spec fn is_beside_all(t: Numbers, cb: u64, index: int) -> bool {
    &&& t.is_beside(at(cb, index, 4))
    &&& t.is_beside(at(cb, index, 8))
    &&& t.is_beside(at(cb, index, 12))
    &&& t.is_beside(at(cb, index, 16))
}

/// Of two rings, one has its buffer behind that of the other.
pub open spec fn are_apart(t: Numbers, u: Numbers) -> bool {
    t.is_ring() && u.is_ring() ==> t.buffer + t.size <= u.buffer || u.buffer + u.size <= t.buffer
}

/// The descriptors of the down channels to which something can be given can be read, and
/// their buffers, and none of the buffers overlaps any of the others, or any of the
/// descriptors.
pub open spec fn can_be_filled(mem: Map<int, u8>, cb: u64, rtt: Rtt) -> bool {
    &&& forall|ch: u32| #[trigger]
        can_be_given(rtt, ch) ==> can_be_told(mem, cb, rtt.num_up + ch) && (told_by(
            mem,
            cb,
            rtt.num_up + ch,
        ).is_ring() ==> all_mapped(
            mem,
            told_by(mem, cb, rtt.num_up + ch).buffer,
            told_by(mem, cb, rtt.num_up + ch).size,
        ))
    &&& forall|ch: u32, other: u32| #[trigger]
        can_be_given(rtt, ch) && #[trigger] can_be_given(rtt, other) ==> {
            let t = told_by(mem, cb, rtt.num_up + ch);
            &&& t.is_ring() ==> is_beside_all(t, cb, rtt.num_up + other)
            &&& ch != other ==> are_apart(t, told_by(mem, cb, rtt.num_up + other))
        }
}

/// `x` lies in the buffer or the write offset of a ring to which something can be given.
pub open spec fn in_filled(mem: Map<int, u8>, cb: u64, rtt: Rtt, x: int) -> bool {
    exists|ch: u32| #[trigger]
        can_be_given(rtt, ch) && {
            let t = told_by(mem, cb, rtt.num_up + ch);
            t.is_ring() && (t.buffer <= x < t.buffer + t.size || in_number(
                x,
                at(cb, rtt.num_up + ch, 12),
            ))
        }
}

/// What has been given to the ring that was `t`: the first `n` of `queue` stand behind
/// those that waited, and the write offset is behind them. The other places of the buffer
/// are as they were.
pub open spec fn is_given(
    mem: Map<int, u8>,
    after: Map<int, u8>,
    t: Numbers,
    then: Numbers,
    queue: Seq<u8>,
    n: int,
) -> bool {
    &&& then == (Numbers { write: t.behind(t.write, n), ..t })
    &&& forall|k: int| 0 <= k < n ==> #[trigger] queue[k] == after[t.place(t.write, k)]
    &&& forall|k: int|
        n <= k < t.size ==> mem[#[trigger] t.place(t.write, k)] == after[t.place(t.write, k)]
}

/// What was delivered was given.
proof fn lemma_given(
    place: Place,
    mem: Map<int, u8>,
    after: Map<int, u8>,
    ch: u32,
    queue: Seq<u8>,
    left: Seq<u8>,
)
    requires
        place.delivered(mem, after, ch, queue, left),
    ensures
        ({
            let t = told_by(mem, place.cb, place.num_up + ch);
            let then = told_by(after, place.cb, place.num_up + ch);
            let n = smaller(queue.len() as int, t.free());
            if t.is_ring() {
                left == queue.skip(n) && is_given(mem, after, t, then, queue, n)
            } else {
                left == queue && then == t
            }
        }),
{
    let index = place.num_up + ch;
    let ring = place.ring(mem, ch);
    let then = place.ring(after, ch);
    let t = told_by(mem, place.cb, index);
    let n = smaller(queue.len() as int, t.free());
    lemma_told(mem, place.cb, index);
    lemma_told(after, place.cb, index);
    lemma_ring(ring);
    lemma_ring(then);
    if ring.usable() {
        lemma_pending(ring);
        lemma_pending(then);
        lemma_wrap(ring.size, ring.wroff, n);
        assert(n == accepted(ring, queue.len() as int));
        assert forall|k: int| 0 <= k < n implies #[trigger] queue[k] == after[t.place(
            t.write,
            k,
        )] by {
            let j = ring.pending() + k;
            assert(waiting(after, then)[j] == (waiting(mem, ring) + queue.take(n))[j]);
            assert(waiting_slot(then, j) == as_numbers(then).place(then.rdoff as int, j));
            assert(t.place(t.write, k) == waiting_slot(then, j));
        }
        assert forall|k: int| n <= k < t.size implies mem[#[trigger] t.place(t.write, k)]
            == after[t.place(t.write, k)] by {
            assert(slot(ring, k) == t.place(t.write, k));
        }
    }
}

/// What can be filled in numbers can be filled.
proof fn lemma_fillable(
    mem: Map<int, u8>,
    cb: u64,
    rtt: Rtt,
    state: RttView,
)
    requires
        can_be_filled(mem, cb, rtt),
        state.num_up == rtt.num_up,
        forall|ch: u32| #[trigger] has_input(state, ch) <==> can_be_given(rtt, ch),
    ensures
        ({
            let place = Place { cb, num_up: rtt.num_up };
            &&& forall|ch: u32| #[trigger] has_input(state, ch) ==> place.sound(mem, ch)
            &&& forall|a: u32, b: u32|
                a != b && #[trigger] has_input(state, a) && #[trigger] has_input(state, b)
                    ==> place.separate(mem, a, b)
        }),
{
    let place = Place { cb, num_up: rtt.num_up };
    assert forall|ch: u32| #[trigger] has_input(state, ch) implies place.sound(mem, ch) by {
        assert(can_be_given(rtt, ch));
        lemma_told(mem, cb, rtt.num_up + ch);
        lemma_ring(place.ring(mem, ch));
    }
    assert forall|a: u32, b: u32|
        a != b && #[trigger] has_input(state, a) && #[trigger] has_input(
            state,
            b,
        ) implies place.separate(mem, a, b) by {
        assert(can_be_given(rtt, a) && can_be_given(rtt, b));
        lemma_told(mem, cb, rtt.num_up + a);
        lemma_told(mem, cb, rtt.num_up + b);
        lemma_ring(place.ring(mem, a));
        lemma_ring(place.ring(mem, b));
    }
}

/// What became of what waited for channel `ch` in the state `rtt`: as much as fits has been
/// given to its ring, if it has one, and the rest waits in the state `end`. But for that
/// the states are the same.
pub open spec fn is_delivered(
    mem: Map<int, u8>,
    after: Map<int, u8>,
    cb: u64,
    rtt: Rtt,
    end: Rtt,
    ch: u32,
) -> bool {
    let t = told_by(mem, cb, rtt.num_up + ch);
    let then = told_by(after, cb, rtt.num_up + ch);
    let queue = queue_of(rtt.pending_down@, ch);
    let left = queue_of(end.pending_down@, ch);
    let n = smaller(queue.len() as int, t.free());
    &&& same_search(end, rtt)
    &&& same_block(end, rtt)
    &&& servers_of(end) == servers_of(rtt)
    &&& end.poll_counter == rtt.poll_counter
    &&& if can_be_given(rtt, ch) && t.is_ring() {
        left == queue.skip(n) && is_given(mem, after, t, then, queue, n)
    } else {
        left == queue
    }
}

/// Once all servers have had their turns, a pump gives each down channel that is known to
/// be there as much of what waits for it as fits into its ring, and keeps the rest; then it
/// ends. What waits for a channel that is known not to be there is dropped, and as long as
/// the number of down channels is not known, all is kept. Nothing else of the state
/// changes, and nothing of the memory but the rings to which something can be given.
pub proof fn what_waits_is_delivered(
    now: PumpNext,
    answer: Answer,
    first: PumpNext,
    mem: Map<int, u8>,
    talk: Seq<(Reply, PumpNext)>,
    last: PumpNext,
    after: Map<int, u8>,
    cb: u64,
    ch: u32,
)
    requires
        round_of(now) is Some,
        round_of(now)->Some_0.cb == cb,
        goes(now, answer, first),
        round_of(first) is None,
        pump_talks(first, mem, talk, last, after),
        can_be_filled(mem, cb, rtt_of(first)),
    ensures
        rtt_of(first).num_up == rtt_of(now).num_up,
        rtt_of(first).num_down == rtt_of(now).num_down,
        rtt_of(first).num_down matches Some(n) ==> ch < n || queue_of(
            rtt_of(first).pending_down@,
            ch,
        ).len() == 0,
        forall|x: int| #[trigger] after.contains_key(x) == mem.contains_key(x),
        forall|x: int|
            mem.contains_key(x) && !in_filled(mem, cb, rtt_of(first), x) ==> #[trigger] after[x]
                == mem[x],
        last is Memory || last is Done,
        last matches PumpNext::Done(rtt) ==> is_delivered(mem, after, cb, rtt_of(first), rtt, ch),
{
    lemma_pump_talks(first, mem, talk, last, after);
    let inst = round_of(now)->Some_0.inst;
    let state = lemma_servers_through(now, answer, first);
    let rtt = rtt_of(first);
    lemma_kept(first, inst, cb, state);
    lemma_fillable(mem, cb, rtt, state);
    let place = Place { cb, num_up: rtt.num_up };
    the_pump_delivers_the_input(inst, place, state, first, mem, talk, last, after);
    assert forall|x: int| mem.contains_key(x) && !in_filled(mem, cb, rtt, x) implies
        #[trigger] after[x] == mem[x] by {
        lemma_not_filled(mem, cb, rtt, state, x);
        assert(mem[x] == after[x]);
    }
    assert(last is Done || last is Memory) by {
        lemma_fills_end(first, mem, talk, last, after);
    }
    assert(rtt.num_down matches Some(n) ==> ch < n || queue_of(rtt.pending_down@, ch).len()
        == 0) by {
        lemma_queue(rtt.pending_down@, ch);
    }
    if let PumpNext::Done(end) = last {
        lemma_delivered(mem, after, cb, rtt, state, end, ch);
    }
}

/// The state with which a pump ends.
proof fn lemma_delivered(
    mem: Map<int, u8>,
    after: Map<int, u8>,
    cb: u64,
    rtt: Rtt,
    state: RttView,
    end: Rtt,
    ch: u32,
)
    requires
        rtt@ == (RttView { queues: deliverable(state.queues, state.num_down), ..state }),
        end@ == (RttView { queues: end@.queues, ..state }),
        has_input(state, ch) <==> can_be_given(rtt, ch),
        has_input(state, ch) ==> (Place { cb, num_up: rtt.num_up }).delivered(
            mem,
            after,
            ch,
            waits(state.queues, ch),
            waits(end@.queues, ch),
        ),
        !has_input(state, ch) ==> waits(end@.queues, ch) == (if state.num_down is None {
            waits(state.queues, ch)
        } else {
            Seq::empty()
        }),
    ensures
        is_delivered(mem, after, cb, rtt, end, ch),
{
    lemma_queue(rtt.pending_down@, ch);
    lemma_queue(end.pending_down@, ch);
    lemma_same(end, rtt);
    if has_input(state, ch) {
        lemma_given(
            Place { cb, num_up: rtt.num_up },
            mem,
            after,
            ch,
            waits(state.queues, ch),
            waits(end@.queues, ch),
        );
    } else {
        assert(queue_of(end.pending_down@, ch) =~= queue_of(rtt.pending_down@, ch));
    }
}

/// The state with which the fills begin.
proof fn lemma_kept(first: PumpNext, inst: u32, cb: u64, state: RttView)
    requires
        first.fills(inst, cb, state),
    ensures
        rtt_of(first)@ == (RttView {
            queues: deliverable(state.queues, state.num_down),
            ..state
        }),
        forall|ch: u32| #[trigger] has_input(state, ch) <==> can_be_given(rtt_of(first), ch),
        first is Done || first is Memory && first->Memory_1 is Filling,
{
    let fills = choose|fills: FillsNext| #[trigger]
        Fills::begins(inst, cb, state, fills) && first.after_fills(fills);
    let queues = deliverable(state.queues, state.num_down);
    let kept = RttView { queues, ..state };
    let channels = choose|channels: Seq<u32>| #[trigger]
        lists_waiting(channels, queues, state.num_down) && Fills::goes_on(
            inst,
            cb,
            kept,
            channels,
            fills,
        );
    lemma_goes_on(inst, cb, kept, channels, fills);
    let rtt = rtt_of(first);
    assert forall|ch: u32| #[trigger] has_input(state, ch) <==> can_be_given(rtt, ch) by {
        lemma_queue(rtt.pending_down@, ch);
    }
}

/// What is not to be filled is not touched.
proof fn lemma_not_filled(mem: Map<int, u8>, cb: u64, rtt: Rtt, state: RttView, x: int)
    requires
        !in_filled(mem, cb, rtt, x),
        forall|ch: u32| #[trigger] has_input(state, ch) <==> can_be_given(rtt, ch),
    ensures
        untouched(Place { cb, num_up: rtt.num_up }, mem, state, x),
{
    let place = Place { cb, num_up: rtt.num_up };
    assert forall|ch: u32| #[trigger] has_input(state, ch) implies !place.touches(mem, ch, x) by {
        assert(can_be_given(rtt, ch));
        lemma_told(mem, cb, rtt.num_up + ch);
        lemma_ring(place.ring(mem, ch));
    }
}

/// The fills lead to the end of the pump.
proof fn lemma_fills_end(
    first: PumpNext,
    mem: Map<int, u8>,
    talk: Seq<(Reply, PumpNext)>,
    last: PumpNext,
    after: Map<int, u8>,
)
    requires
        first is Done || first is Memory && first->Memory_1 is Filling,
        pump_converses(first, mem, talk, last, after),
    ensures
        last is Done || last is Memory && last->Memory_1 is Filling,
    decreases talk.len(),
{
    if talk.len() > 0 {
        lemma_fills_end(
            talk[0].1,
            effect(mem, first->Memory_0),
            talk.drop_first(),
            last,
            after,
        );
    }
}

/// Told the answers of `path` one after the other, the pump gets from `first` to `last`.
pub open spec fn gets(first: PumpNext, path: Seq<(Answer, PumpNext)>, last: PumpNext) -> bool
    decreases path.len(),
{
    if path.len() == 0 {
        last == first
    } else {
        goes(first, path[0].0, path[0].1) && gets(path[0].1, path.drop_first(), last)
    }
}

/// What the pump wants, it wants of the instance.
spec fn is_for(next: PumpNext, inst: u32) -> bool {
    match next {
        PumpNext::Memory(request, MemoryWait::Resolving { inst: i, locate, .. }) => {
            &&& i == inst
            &&& look_is_for(Next::Ask(request, locate), inst)
        },
        PumpNext::Memory(request, MemoryWait::Draining { inst: i, drains, .. }) => {
            &&& i == inst
            &&& drains.inst == inst
            &&& drain_is_for(Next::Ask(request, drains.drain), inst)
        },
        PumpNext::Memory(request, MemoryWait::Filling(fills)) => {
            &&& fills.inst == inst
            &&& fill_is_for(Next::Ask(request, fills.fill), inst)
        },
        PumpNext::Done(_) => true,
        _ => round_of(next)->Some_0.inst == inst,
    }
}

proof fn lemma_fills_for(inst: u32, cb: u64, state: RttView, rest: Seq<u32>, next: FillsNext)
    requires
        Fills::goes_on(inst, cb, state, rest, next),
    ensures
        next matches Next::Ask(request, fills) ==> fills.inst == inst && fill_is_for(
            Next::Ask(request, fills.fill),
            inst,
        ),
    decreases rest.len(),
{
    if rest.len() > 0 && waits(state.queues, rest[0]).len() == 0 {
        lemma_fills_for(inst, cb, state, rest.drop_first(), next);
    }
}

proof fn lemma_services_for(next: PumpNext, round: RoundView)
    requires
        next.services(round),
    ensures
        is_for(next, round.inst),
{
    if round.rest.len() == 0 {
        let inst = round.inst;
        let cb = round.cb;
        let state = round.rtt;
        let fills = choose|fills: FillsNext| #[trigger]
            Fills::begins(inst, cb, state, fills) && next.after_fills(fills);
        let queues = deliverable(state.queues, state.num_down);
        let channels = choose|channels: Seq<u32>| #[trigger]
            lists_waiting(channels, queues, state.num_down) && Fills::goes_on(
                inst,
                cb,
                RttView { queues, ..state },
                channels,
                fills,
            );
        lemma_fills_for(inst, cb, RttView { queues, ..state }, channels, fills);
    }
}

proof fn lemma_turns_for(
    next: PumpNext,
    round: RoundView,
    server: ServerView,
    others: Seq<u64>,
    got: Seq<u8>,
)
    requires
        next.turns(round, server, others, got),
    ensures
        is_for(next, round.inst),
{
    if others.len() == 0 {
        lemma_services_for(
            next,
            RoundView {
                rtt: RttView {
                    servers: round.rtt.servers.push(server),
                    queues: queued_up(round.rtt.queues, server.channel, got),
                    ..round.rtt
                },
                ..round
            },
        );
    }
}

proof fn lemma_after_drains_for(
    next: PumpNext,
    inst: u32,
    cb: u64,
    state: RttView,
    drains: DrainsNext,
)
    requires
        next.after_drains(inst, cb, state, drains),
        drains matches Next::Ask(request, d) ==> d.inst == inst && drain_is_for(
            Next::Ask(request, d.drain),
            inst,
        ),
    ensures
        is_for(next, inst),
{
    if let Next::Done(outputs) = drains {
        lemma_services_for(
            next,
            RoundView {
                inst,
                cb,
                rtt: RttView { servers: Seq::empty(), ..state },
                outputs: told(outputs@),
                rest: state.servers,
            },
        );
    }
}

proof fn lemma_drains_for(next: PumpNext, inst: u32, cb: u64, state: RttView)
    requires
        next.drains(inst, cb, state),
    ensures
        is_for(next, inst),
{
    let (listed, drains) = choose|listed: Seq<u32>, drains: DrainsNext| #[trigger]
        lists_served(listed, state.servers) && #[trigger] Drains::goes_on(
            inst,
            cb,
            listed,
            Seq::empty(),
            drains,
        ) && next.after_drains(inst, cb, state, drains);
    lemma_after_drains_for(next, inst, cb, state, drains);
}

proof fn lemma_locate_for(next: PumpNext, inst: u32, state: RttView, locate: LocateNext)
    requires
        next.after_locate(inst, state, locate),
        look_is_for(locate, inst),
    ensures
        is_for(next, inst),
{
    if let Next::Done(found) = locate {
        if let Some(block) = block_found(found) {
            lemma_drains_for(next, inst, block.cb, state.with_block(block));
        }
    }
}

proof fn lemma_memory_for(now: PumpNext, inst: u32, reply: Reply, next: PumpNext)
    requires
        now is Memory,
        is_for(now, inst),
        now->Memory_1.continues(reply, next),
    ensures
        is_for(next, inst),
{
    let request = now->Memory_0;
    match now->Memory_1 {
        MemoryWait::Resolving { inst: i, rtt, locate } => {
            let then = choose|then: LocateNext| #[trigger]
                locate.continues(reply, then) && next.after_locate(i, rtt@, then);
            lemma_look_step(inst, Next::Ask(request, locate), reply, then);
            lemma_locate_for(next, inst, rtt@, then);
        },
        MemoryWait::Draining { inst: i, cb, rtt, drains } => {
            let then = choose|then: DrainsNext| #[trigger]
                drains.continues(reply, then) && next.after_drains(i, cb, rtt@, then);
            let drain = choose|drain: DrainNext| #[trigger]
                drains.drain.continues(reply, drain) && drains.after_drain(drain, then);
            assert(drain_is_for(drain, inst));
            lemma_after_drains_for(next, inst, cb, rtt@, then);
        },
        MemoryWait::Filling(fills) => {
            let then = choose|then: FillsNext| #[trigger]
                fills.continues(reply, then) && next.after_fills(then);
            let fill = choose|fill: FillNext| #[trigger]
                fills.fill.continues(reply, fill) && fills.after_fill(fill, then);
            assert(fill_is_for(fill, inst));
            if let Next::Done(r) = fill {
                lemma_fills_for(
                    fills.inst,
                    fills.cb,
                    RttView { queues: taken(fills.rtt@.queues, fills.ch, r), ..fills.rtt@ },
                    fills.rest@,
                    then,
                );
            }
        },
    }
}

proof fn lemma_step_for(now: PumpNext, inst: u32, answer: Answer, next: PumpNext)
    requires
        is_for(now, inst),
        goes(now, answer, next),
    ensures
        is_for(next, inst),
{
    match now {
        PumpNext::Memory(_, wait) => {
            lemma_memory_for(now, inst, answer->Memory_0, next);
        },
        PumpNext::Accept(_, wait) => {
            assert(wait.goes_on(answer->Accepted_0, next));
            if answer->Accepted_0 is None {
                lemma_turns_for(
                    next,
                    wait.round@,
                    ServerView { clients: Seq::empty(), ..wait.server@ },
                    wait.server@.clients,
                    Seq::empty(),
                );
            }
        },
        PumpNext::Receive(_, _, wait) => {
            assert(wait.goes_on(answer->Received_0, next));
            let turn = wait.turn@;
            if next.turns(turn.round, turn.server, turn.others, turn.got) {
                lemma_turns_for(next, turn.round, turn.server, turn.others, turn.got);
            } else if next.turns(turn.round, turn.stays(), turn.others, turn.got) {
                lemma_turns_for(next, turn.round, turn.stays(), turn.others, turn.got);
            }
        },
        PumpNext::Send(_, _, _, wait) => {
            assert(wait.goes_on(answer->Sent_0, next));
            let turn = wait.turn@;
            if next.turns(turn.round, turn.server, turn.others, turn.got) {
                lemma_turns_for(next, turn.round, turn.server, turn.others, turn.got);
            } else {
                lemma_turns_for(next, turn.round, turn.stays(), turn.others, turn.got);
            }
        },
        PumpNext::Done(_) => {},
    }
}

proof fn lemma_path_for(
    first: PumpNext,
    inst: u32,
    path: Seq<(Answer, PumpNext)>,
    last: PumpNext,
)
    requires
        is_for(first, inst),
        gets(first, path, last),
    ensures
        is_for(last, inst),
    decreases path.len(),
{
    if path.len() > 0 {
        lemma_step_for(first, inst, path[0].0, path[0].1);
        lemma_path_for(path[0].1, inst, path.drop_first(), last);
    }
}

/// Whatever a pump is told, every access to memory that it asks for goes to its instance.
pub proof fn every_access_goes_to_the_instance(
    rtt: Rtt,
    inst: u32,
    first: PumpNext,
    path: Seq<(Answer, PumpNext)>,
    last: PumpNext,
)
    requires
        pumps(rtt, inst, first),
        gets(first, path, last),
    ensures
        last matches PumpNext::Memory(request, _) ==> goes_to(request, inst),
{
    let state = lemma_pumps(rtt, inst, first);
    match state.control_block {
        Some(cb) => {
            lemma_drains_for(first, inst, cb, state);
        },
        None => {
            if let Some((addr, size, id)) = state.search {
                let text = encode_utf8(id);
                let begun = choose|begun: LocateNext| #[trigger]
                    Locate::begins(inst, true, addr, size, text, begun) && first.after_locate(
                        inst,
                        state,
                        begun,
                    );
                let scan = choose|scan: ScanNext| #[trigger]
                    Scan::begins(inst, addr, size, text, scan) && begun == Locate::after_scan(
                        inst,
                        true,
                        scan,
                    );
                assert(look_is_for(begun, inst));
                lemma_locate_for(first, inst, state, begun);
            }
        },
    }
    lemma_path_for(first, inst, path, last);
}

} // verus!
