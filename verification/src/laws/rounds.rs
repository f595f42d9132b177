//! The rounds over the channels: none is left out, whatever comes of the others.

use crate::dialogue::{Dialogue, Next};
use crate::down::{FillDown, FillNext};
use crate::inputs::{deliverable, fill_channels, has_buffer, lists_waiting, taken, Fills, FillsNext};
use crate::laws::state::{lemma_queue, queue_of};
use crate::memory::Reply;
use crate::model::smaller;
use crate::outputs::{
    collected, drain_channels, is_served, served_channels, Drains, DrainsNext, Output,
};
use crate::rtt::{views, waits, Rtt, RttView, Server};
use crate::up::{DrainNext, DrainUp};
use vstd::prelude::*;

verus! {

/// Some server serves channel `ch`.
pub open spec fn serves(servers: Seq<Server>, ch: u32) -> bool {
    exists|i: int| 0 <= i < servers.len() && (#[trigger] servers[i]).channel == ch
}

/// The channels that are served, in both words.
pub proof fn lemma_serves(servers: Seq<Server>, ch: u32)
    ensures
        serves(servers, ch) == is_served(views(servers), ch),
{
    let v = views(servers);
    if serves(servers, ch) {
        let i = choose|i: int| 0 <= i < servers.len() && (#[trigger] servers[i]).channel == ch;
        assert(v[i].channel == ch);
    }
    if is_served(v, ch) {
        let i = choose|i: int| 0 <= i < v.len() && (#[trigger] v[i]).channel == ch;
        assert(servers[i].channel == ch);
    }
}

/// Every channel that is served is listed, once, and no other.
pub proof fn every_served_channel_is_listed(servers: Vec<Server>, channels: Vec<u32>)
    requires
        call_ensures(served_channels, (&servers,), channels),
    ensures
        forall|i: int, j: int| 0 <= i < j < channels@.len() ==> channels@[i] < channels@[j],
        forall|ch: u32| #[trigger] channels@.contains(ch) <==> serves(servers@, ch),
{
    assert forall|ch: u32| #[trigger] channels@.contains(ch) <==> serves(servers@, ch) by {
        lemma_serves(servers@, ch);
        assert(is_served(views(servers@), ch) <==> channels@.contains(ch));
    }
}

/// A round of drains that has the channels `rest` to come, and has heard `heard`.
pub open spec fn drains_on(next: DrainsNext, rest: Seq<u32>, heard: Seq<Output>) -> bool {
    match next {
        Next::Ask(_, drains) => {
            &&& rest.len() > 0
            &&& drains.ch == rest[0]
            &&& drains.rest@ == rest.drop_first()
            &&& drains.outputs@ == heard
        },
        Next::Done(all) => rest.len() == 0 && all@ == heard,
    }
}

/// What comes next in a round of drains that is told `reply`. Where the bytes of a channel
/// have been read and the read offset is moved, they are heard, and the next channel is
/// read. Where that fails, or anything before, the next channel is read, with nothing heard
/// of this one. Else this one is still being read, or has turned out to have nothing to say.
pub open spec fn drains_further(now: Drains, reply: Reply, next: DrainsNext) -> bool {
    match (now.drain, reply) {
        (_, Reply::Failed(_)) => drains_on(next, now.rest@, now.outputs@),
        (DrainUp::Commit { bytes }, _) if bytes@.len() > 0 => drains_on(
            next,
            now.rest@,
            now.outputs@.push(Output { channel: now.ch, bytes }),
        ),
        _ => {
            ||| drains_on(next, seq![now.ch] + now.rest@, now.outputs@)
            ||| drains_on(next, now.rest@, now.outputs@)
        },
    }
}

/// A round of drains takes the channels one after the other. Whatever comes of one of
/// them, the round goes on to the next, and ends only when there is none. What a channel
/// had to say is added to what was heard before, under its number; where it had nothing to
/// say, or could not be read, nothing is.
pub proof fn no_channel_is_left_undrained(
    inst: u32,
    cb: u64,
    channels: Vec<u32>,
    outputs: Vec<Output>,
    first: DrainsNext,
    now: Drains,
    reply: Reply,
    next: DrainsNext,
)
    requires
        call_ensures(drain_channels, (inst, cb, channels, outputs), first),
        call_ensures(Drains::resume, (now, reply), next),
    ensures
        drains_on(first, channels@, outputs@),
        drains_further(now, reply, next),
{
    let drain = choose|drain: DrainNext| #[trigger]
        now.drain.continues(reply, drain) && now.after_drain(drain, next);
    match drain {
        Next::Ask(request, drain) => {
            assert((seq![now.ch] + now.rest@).drop_first() =~= now.rest@);
            assert(drains_on(next, seq![now.ch] + now.rest@, now.outputs@));
        },
        Next::Done(r) => {
            assert(drains_on(next, now.rest@, collected(now.outputs@, now.ch, r)));
        },
    }
}

/// What is left of `queue` once a fill in the state `fill` has been told `reply`: where the
/// write offset has been moved behind `n` bytes, all but these, and else all.
pub open spec fn left_of(queue: Seq<u8>, fill: FillDown, reply: Reply) -> Seq<u8> {
    match (fill, reply) {
        (FillDown::Commit { n }, Reply::Words(_)) => queue.skip(
            smaller(n as int, queue.len() as int),
        ),
        _ => queue,
    }
}

/// The state of RTT that a round of fills holds.
pub open spec fn held_by(next: FillsNext) -> Rtt {
    match next {
        Next::Ask(_, fills) => fills.rtt,
        Next::Done(rtt) => rtt,
    }
}

/// Channel `ch` is being filled, or comes later.
pub open spec fn is_to_be_filled(next: FillsNext, ch: u32) -> bool {
    match next {
        Next::Ask(_, fills) => fills.ch == ch || fills.rest@.contains(ch),
        Next::Done(_) => false,
    }
}

/// A round of fills that goes on with the first of `rest` for which something waits, if
/// there is one.
pub proof fn lemma_goes_on(inst: u32, cb: u64, state: RttView, rest: Seq<u32>, next: FillsNext)
    requires
        Fills::goes_on(inst, cb, state, rest, next),
    ensures
        held_by(next)@ == state,
        forall|ch: u32| #[trigger]
            rest.contains(ch) && waits(state.queues, ch).len() > 0 ==> is_to_be_filled(next, ch),
        forall|ch: u32| #[trigger] is_to_be_filled(next, ch) ==> rest.contains(ch),
        next matches Next::Ask(_, fills) ==> fills.inst == inst && fills.cb == cb && waits(
            state.queues,
            fills.ch,
        ).len() > 0,
    decreases rest.len(),
{
    if rest.len() > 0 {
        let tail = rest.drop_first();
        assert forall|ch: u32| #[trigger] rest.contains(ch) implies ch == rest[0]
            || tail.contains(ch) by {
            let k = choose|k: int| 0 <= k < rest.len() && rest[k] == ch;
            if k > 0 {
                assert(tail[k - 1] == ch);
            }
        }
        assert forall|ch: u32| #[trigger] tail.contains(ch) implies rest.contains(ch) by {
            let k = choose|k: int| 0 <= k < tail.len() && tail[k] == ch;
            assert(rest[k + 1] == ch);
        }
        if waits(state.queues, rest[0]).len() == 0 {
            lemma_goes_on(inst, cb, state, tail, next);
        } else {
            assert(rest.contains(rest[0])) by {
                assert(rest[0] == rest[0]);
            }
        }
    }
}

/// A round of fills begins with all channels that are known to have a down buffer and for
/// which something waits. What waits for a channel that is known to have none is dropped,
/// and what waits for any other stays. Nothing else of the state changes.
pub proof fn what_can_be_delivered_is_to_be(
    inst: u32,
    cb: u64,
    rtt: Rtt,
    next: FillsNext,
    ch: u32,
)
    requires
        call_ensures(fill_channels, (inst, cb, rtt), next),
    ensures
        ({
            let queue = queue_of(rtt.pending_down@, ch);
            let now = queue_of(held_by(next).pending_down@, ch);
            match rtt.num_down {
                Some(n) if ch >= n => now.len() == 0 && !is_to_be_filled(next, ch),
                Some(n) => now == queue && (is_to_be_filled(next, ch) <==> queue.len() > 0),
                None => now == queue && !is_to_be_filled(next, ch),
            }
        }),
        held_by(next).num_up == rtt.num_up,
        held_by(next).num_down == rtt.num_down,
        held_by(next).control_block == rtt.control_block,
        held_by(next).poll_counter == rtt.poll_counter,
        next matches Next::Ask(_, fills) ==> fills.inst == inst && fills.cb == cb,
{
    let state = rtt@;
    let queues = deliverable(state.queues, state.num_down);
    let channels = choose|channels: Seq<u32>| #[trigger]
        lists_waiting(channels, queues, state.num_down) && Fills::goes_on(
            inst,
            cb,
            RttView { queues, ..state },
            channels,
            next,
        );
    lemma_goes_on(inst, cb, RttView { queues, ..state }, channels, next);
    lemma_queue(rtt.pending_down@, ch);
    lemma_queue(held_by(next).pending_down@, ch);
    assert(channels.contains(ch) <==> has_buffer(state.num_down, ch) && waits(queues, ch).len()
        > 0);
    assert(held_by(next)@.queues == queues);
}

/// A round of fills takes the channels one after the other. Whatever comes of one of them,
/// the round goes on to those that come later and for which something waits. Of what waits
/// for the channel that is being filled the bytes that the target has got are gone, once it
/// has them, and of no other anything; where the fill fails all of it waits on.
pub proof fn no_channel_is_left_unfilled(now: Fills, reply: Reply, next: FillsNext, ch: u32)
    requires
        call_ensures(Fills::resume, (now, reply), next),
    ensures
        ({
            let queue = queue_of(now.rtt.pending_down@, ch);
            let left = queue_of(held_by(next).pending_down@, ch);
            &&& ch != now.ch ==> left == queue
            &&& ch == now.ch ==> left == left_of(queue, now.fill, reply)
            &&& now.rest@.contains(ch) && ch != now.ch && queue.len() > 0 ==> is_to_be_filled(
                next,
                ch,
            )
            &&& is_to_be_filled(next, ch) ==> ch == now.ch || now.rest@.contains(ch)
        }),
        held_by(next).num_up == now.rtt.num_up,
        held_by(next).num_down == now.rtt.num_down,
        held_by(next).control_block == now.rtt.control_block,
        held_by(next).poll_counter == now.rtt.poll_counter,
        next matches Next::Ask(_, fills) ==> fills.inst == now.inst && fills.cb == now.cb,
{
    let fill = choose|fill: FillNext| #[trigger]
        now.fill.continues(reply, fill) && now.after_fill(fill, next);
    let queue = queue_of(now.rtt.pending_down@, ch);
    lemma_queue(now.rtt.pending_down@, ch);
    lemma_queue(held_by(next).pending_down@, ch);
    assert(queue.skip(0) =~= queue);
    assert(queue.skip(queue.len() as int) =~= Seq::empty());
    if let Next::Done(r) = fill {
        let queues = taken(now.rtt@.queues, now.ch, r);
        lemma_goes_on(
            now.inst,
            now.cb,
            RttView { queues, ..now.rtt@ },
            now.rest@,
            next,
        );
        if ch == now.ch {
            assert(queue_of(held_by(next).pending_down@, ch) =~= left_of(queue, now.fill, reply));
        }
    }
}

} // verus!
