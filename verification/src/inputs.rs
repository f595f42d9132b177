//! What the target is to be told: the down channels for which input waits, filled one
//! after the other.

use crate::dialogue::{Dialogue, Next};
use crate::down::{fill_down_channel, FillDown, FillNext};
use crate::error::RttError;
use crate::memory::Reply;
use crate::rtt::{held, waits, Rtt, RttView};
use std::collections::HashMap;
use vstd::prelude::*;

verus! {

broadcast use vstd::std_specs::hash::group_hash_axioms;

/// Channel `ch` is known to have a down buffer.
pub open spec fn has_buffer(num_down: Option<u32>, ch: u32) -> bool {
    num_down matches Some(n) && ch < n
}

/// The queues that are kept. What waits for a channel that has no down buffer is dropped;
/// as long as the number of down buffers is not known, nothing is.
pub open spec fn deliverable(queues: Map<u32, Seq<u8>>, num_down: Option<u32>) -> Map<
    u32,
    Seq<u8>,
> {
    Map::new(
        |ch: u32| queues.contains_key(ch) && (num_down is None || has_buffer(num_down, ch)),
        |ch: u32| queues[ch],
    )
}

/// `channels` are those that are known to have a down buffer and for which something waits,
/// each listed once.
pub open spec fn lists_waiting(
    channels: Seq<u32>,
    queues: Map<u32, Seq<u8>>,
    num_down: Option<u32>,
) -> bool {
    &&& channels.no_duplicates()
    &&& forall|ch: u32|
        channels.contains(ch) <==> has_buffer(num_down, ch) && #[trigger] waits(queues, ch).len()
            > 0
}

/// What is left of `queue` once `n` bytes of it have been taken.
pub open spec fn left_over(queue: Seq<u8>, n: int) -> Seq<u8> {
    if n <= queue.len() {
        queue.skip(n)
    } else {
        Seq::empty()
    }
}

/// The queues once the fill of `ch` has come to `r`. A fill that failed takes nothing.
pub open spec fn taken(
    queues: Map<u32, Seq<u8>>,
    ch: u32,
    r: Result<usize, RttError>,
) -> Map<u32, Seq<u8>> {
    match r {
        Ok(n) if n > 0 && queues.contains_key(ch) => queues.insert(
            ch,
            left_over(queues[ch], n as int),
        ),
        _ => queues,
    }
}

/// A round of fills that waits for a memory access.
#[derive(Debug)]
pub struct Fills {
    pub inst: u32,
    pub cb: u64,
    pub rtt: Rtt,
    /// The channel that is being filled.
    pub ch: u32,
    pub fill: FillDown,
    /// The channels that come after it.
    pub rest: Vec<u32>,
}

/// What a round of fills wants next. It results in the state of RTT.
pub type FillsNext = Next<Fills, Rtt>;

impl Fills {
    /// The round goes on with the first of the channels `rest` for which something waits,
    /// if there is one.
    pub open spec fn goes_on(
        inst: u32,
        cb: u64,
        state: RttView,
        rest: Seq<u32>,
        next: FillsNext,
    ) -> bool
        decreases rest.len(),
    {
        if rest.len() == 0 {
            next matches Next::Done(rtt) && rtt@ == state
        } else if waits(state.queues, rest[0]).len() == 0 {
            Fills::goes_on(inst, cb, state, rest.drop_first(), next)
        } else {
            &&& next is Ask
            &&& FillDown::begins(
                inst,
                cb,
                state.num_up,
                rest[0],
                waits(state.queues, rest[0]),
                FillNext::Ask(next->Ask_0, next->Ask_1.fill),
            )
            &&& next->Ask_1.inst == inst
            &&& next->Ask_1.cb == cb
            &&& next->Ask_1.rtt@ == state
            &&& next->Ask_1.ch == rest[0]
            &&& next->Ask_1.rest@ == rest.drop_first()
        }
    }

    /// The beginning of a round: what cannot be delivered is dropped, and the channels
    /// for which something waits are filled, in some order.
    pub open spec fn begins(inst: u32, cb: u64, state: RttView, next: FillsNext) -> bool {
        let queues = deliverable(state.queues, state.num_down);
        exists|channels: Seq<u32>| #[trigger]
            lists_waiting(channels, queues, state.num_down) && Fills::goes_on(
                inst,
                cb,
                RttView { queues, ..state },
                channels,
                next,
            )
    }

    /// What follows a step of the fill at hand.
    pub open spec fn after_fill(self, fill: FillNext, next: FillsNext) -> bool {
        match fill {
            Next::Ask(request, fill) => next == FillsNext::Ask(request, Fills { fill, ..self }),
            Next::Done(r) => Fills::goes_on(
                self.inst,
                self.cb,
                RttView { queues: taken(self.rtt@.queues, self.ch, r), ..self.rtt@ },
                self.rest@,
                next,
            ),
        }
    }
}

/// A copy of what waits for channel `ch`.
fn waiting_for(pending: &HashMap<u32, Vec<u8>>, ch: u32) -> (r: Vec<u8>)
    ensures
        r@ == waits(held(pending@), ch),
{
    match pending.get(&ch) {
        Some(queue) => {
            let r = queue.clone();
            assert(r@ =~= queue@);
            r
        },
        None => Vec::new(),
    }
}

/// The channels in `pending`, each listed once.
fn channels_of(pending: &HashMap<u32, Vec<u8>>) -> (channels: Vec<u32>)
    ensures
        channels@.no_duplicates(),
        forall|ch: u32| channels@.contains(ch) <==> #[trigger] pending@.contains_key(ch),
{
    let mut channels: Vec<u32> = Vec::new();
    for ch in iter: pending.keys()
        invariant
            channels@ == iter.seq().unref().take(iter.index() as int),
            iter.seq().unref().to_set() == pending@.dom(),
            iter.seq().no_duplicates(),
            iter.index() == iter.seq().len() ==> channels@ == iter.seq().unref(),
    {
        channels.push(*ch);
        assert(channels@ =~= iter.seq().unref().take(iter.index() + 1));
    }
    assert forall|ch: u32| channels@.contains(ch) <==> #[trigger] pending@.contains_key(ch) by {
        assert(channels@.to_set().contains(ch) <==> channels@.contains(ch));
    }
    channels
}

/// Begins to fill the channels for which input waits.
pub fn fill_channels(inst: u32, cb: u64, rtt: Rtt) -> (next: FillsNext)
    ensures
        Fills::begins(inst, cb, rtt@, next),
{
    let ghost frame = rtt@;
    let mut rtt = rtt;
    let num_down: u32 = match rtt.num_down {
        Some(num_down) => num_down,
        None => {
            let none: Vec<u32> = Vec::new();
            proof {
                let queues = deliverable(frame.queues, frame.num_down);
                assert(rtt@.queues =~= queues);
                assert(lists_waiting(none@, queues, frame.num_down));
            }
            return fill_rest(inst, cb, rtt, none);
        },
    };
    let all = channels_of(&rtt.pending_down);
    let mut channels: Vec<u32> = Vec::new();
    let mut i: usize = 0;
    while i < all.len()
        invariant
            i <= all@.len(),
            frame.num_down == Some(num_down),
            all@.no_duplicates(),
            forall|ch: u32| all@.contains(ch) <==> #[trigger] frame.queues.contains_key(ch),
            rtt@ == (RttView { queues: rtt@.queues, ..frame }),
            forall|ch: u32| #[trigger]
                rtt@.queues.contains_key(ch) <==> frame.queues.contains_key(ch) && !(ch
                    >= num_down && all@.take(i as int).contains(ch)),
            forall|ch: u32| #[trigger]
                rtt@.queues.contains_key(ch) ==> rtt@.queues[ch] == frame.queues[ch],
            channels@.no_duplicates(),
            forall|ch: u32| #[trigger]
                channels@.contains(ch) <==> all@.take(i as int).contains(ch) && ch < num_down
                    && waits(frame.queues, ch).len() > 0,
        decreases all@.len() - i,
    {
        let ch: u32 = all[i];
        let ghost before = rtt@.queues;
        let ghost listed = channels@;
        proof {
            assert(all@.contains(ch));
            assert(frame.queues.contains_key(ch));
            assert(!all@.take(i as int).contains(ch));
            assert forall|c: u32| #[trigger] all@.take(i + 1).contains(c) <==> all@.take(
                i as int,
            ).contains(c) || c == ch by {
                assert(all@.take(i + 1) =~= all@.take(i as int).push(ch));
                if all@.take(i as int).contains(c) {
                    let k = choose|k: int| 0 <= k < i && all@.take(i as int)[k] == c;
                    assert(all@.take(i + 1)[k] == c);
                }
                if c == ch {
                    assert(all@.take(i + 1)[i as int] == c);
                }
            }
        }
        if ch >= num_down {
            let _ = rtt.pending_down.remove(&ch);
            assert(rtt@.queues =~= before.remove(ch));
        } else {
            assert(before.contains_key(ch));
            if let Some(queue) = rtt.pending_down.get(&ch) {
                if queue.len() > 0 {
                    channels.push(ch);
                    assert(!listed.contains(ch));
                    assert(channels@.no_duplicates()) by {
                        assert forall|j: int| 0 <= j < listed.len() implies listed[j] != ch by {
                            assert(listed.contains(listed[j]));
                        }
                    }
                    assert forall|c: u32| #[trigger] channels@.contains(c) <==> listed.contains(c)
                        || c == ch by {
                        if listed.contains(c) {
                            let k = choose|k: int| 0 <= k < listed.len() && listed[k] == c;
                            assert(channels@[k] == c);
                        }
                        if c == ch {
                            assert(channels@[listed.len() as int] == c);
                        }
                    }
                }
            }
        }
        i = i + 1;
    }
    proof {
        assert(all@.take(all@.len() as int) =~= all@);
        let queues = deliverable(frame.queues, frame.num_down);
        assert(rtt@.queues =~= queues);
        assert(lists_waiting(channels@, queues, frame.num_down));
    }
    fill_rest(inst, cb, rtt, channels)
}

/// Goes on with the first of the channels `rest` for which something waits.
fn fill_rest(inst: u32, cb: u64, rtt: Rtt, rest: Vec<u32>) -> (next: FillsNext)
    ensures
        Fills::goes_on(inst, cb, rtt@, rest@, next),
    decreases rest@.len(),
{
    let mut rest = rest;
    if rest.len() == 0 {
        return Next::Done(rtt);
    }
    let ch: u32 = rest.remove(0);
    let data = waiting_for(&rtt.pending_down, ch);
    match fill_down_channel(inst, cb, rtt.num_up, ch, data) {
        Next::Ask(request, fill) => Next::Ask(request, Fills { inst, cb, rtt, ch, fill, rest }),
        Next::Done(_) => fill_rest(inst, cb, rtt, rest),
    }
}

impl Dialogue for Fills {
    type Out = Rtt;

    open spec fn continues(self, reply: Reply, next: FillsNext) -> bool {
        exists|fill: FillNext| #[trigger]
            self.fill.continues(reply, fill) && self.after_fill(fill, next)
    }

    fn resume(self, reply: Reply) -> (next: FillsNext) {
        let Fills { inst, cb, rtt, ch, fill, rest } = self;
        let step = fill.resume(reply);
        let ghost made = step;
        let next = match step {
            Next::Ask(request, fill) => Next::Ask(
                request,
                Fills { inst, cb, rtt, ch, fill, rest },
            ),
            Next::Done(r) => {
                let mut rtt = rtt;
                if let Ok(n) = r {
                    if n > 0 {
                        take_from(&mut rtt.pending_down, ch, n);
                    }
                }
                fill_rest(inst, cb, rtt, rest)
            },
        };
        assert(self.fill.continues(reply, made) && self.after_fill(made, next));
        next
    }
}

/// Takes the oldest `n` bytes out of what waits for channel `ch`.
fn take_from(pending: &mut HashMap<u32, Vec<u8>>, ch: u32, n: usize)
    requires
        n > 0,
    ensures
        held(final(pending)@) == taken(held(old(pending)@), ch, Ok(n)),
{
    let ghost before = pending@;
    if let Some(queue) = pending.remove(&ch) {
        let mut queue = queue;
        let left = if n <= queue.len() {
            queue.split_off(n)
        } else {
            Vec::new()
        };
        pending.insert(ch, left);
        assert(left@ =~= left_over(held(before)[ch], n as int));
    }
    assert(held(pending@) =~= taken(held(before), ch, Ok(n)));
}

} // verus!
