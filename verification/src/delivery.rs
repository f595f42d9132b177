//! What a round of fills comes to: the input that waits is delivered to the target.

use crate::dialogue::{converses, effect, mapped, Dialogue, Next};
use crate::down::{
    accepted, apart, fill_appends_what_fits, fill_holds, moved, only_filled, slot, slots_kept,
    FillNext,
};
use crate::inputs::{left_over, taken, Fills, FillsNext};
use crate::memory::Reply;
use crate::ring::{
    described, descriptor, in_descriptor, in_field, lemma_descriptors, lemma_pending,
    lemma_same_ring, lemma_same_waiting, lemma_wrap, ring_in, same_buffer, waiting, Ring,
    BUF_WROFF,
};
use crate::rtt::{waits, RttView};
use vstd::prelude::*;

verus! {

/// A control block: where it is, and how many up channels stand before the down channels.
pub struct Place {
    pub cb: u64,
    pub num_up: u32,
}

impl Place {
    /// Where the descriptor of down channel `ch` is.
    pub open spec fn base(self, ch: u32) -> u64 {
        descriptor(self.cb, self.num_up + ch)
    }

    /// The ring of down channel `ch`.
    pub open spec fn ring(self, mem: Map<int, u8>, ch: u32) -> Ring {
        ring_in(mem, self.base(ch))
    }

    /// Down channel `ch` has a ring, and `a` lies in its buffer or in its write offset.
    pub open spec fn touches(self, mem: Map<int, u8>, ch: u32, a: int) -> bool {
        let ring = self.ring(mem, ch);
        ring.usable() && (ring.holds(a) || in_field(self.base(ch), BUF_WROFF, a))
    }

    /// Two memories differ in the buffers and the write offsets of `channels` only.
    pub open spec fn only_touched(
        self,
        mem: Map<int, u8>,
        after: Map<int, u8>,
        channels: Seq<u32>,
    ) -> bool {
        &&& forall|a: int| #[trigger] mem.contains_key(a) == after.contains_key(a)
        &&& forall|a: int|
            mem.contains_key(a) && (forall|i: int|
                0 <= i < channels.len() ==> !self.touches(mem, #[trigger] channels[i], a))
                ==> #[trigger] mem[a] == after[a]
    }

    /// The descriptor of channel `ch` is in memory, and its buffer too, beside it.
    pub open spec fn sound(self, mem: Map<int, u8>, ch: u32) -> bool {
        &&& described(mem, self.base(ch))
        &&& self.ring(mem, ch).usable() ==> apart(mem, self.base(ch), self.ring(mem, ch))
    }

    /// The buffer of channel `a` overlaps neither the descriptor nor the buffer of another
    /// channel `b`.
    pub open spec fn separate(self, mem: Map<int, u8>, a: u32, b: u32) -> bool {
        let ring = self.ring(mem, a);
        let other = self.ring(mem, b);
        &&& a != b
        &&& ring.usable() ==> ring.clear_of(self.base(b))
        &&& ring.usable() && other.usable() ==> other.pbuffer + other.size <= ring.pbuffer
            || ring.pbuffer + ring.size <= other.pbuffer
    }

    /// `channels` are sound, and each has nothing in common with any other.
    pub open spec fn fillable(self, mem: Map<int, u8>, channels: Seq<u32>) -> bool {
        &&& forall|i: int| 0 <= i < channels.len() ==> self.sound(mem, #[trigger] channels[i])
        &&& forall|i: int, j: int|
            0 <= i < channels.len() && 0 <= j < channels.len() && i != j ==> self.separate(
                mem,
                #[trigger] channels[i],
                #[trigger] channels[j],
            )
    }

    /// What the delivery of `queue` to channel `ch` is to come to: as many bytes as there
    /// is room for have been put behind those that wait in the ring, and `left` are the
    /// others. The slots behind them are as they were. To a channel whose descriptor
    /// describes no ring nothing is delivered.
    pub open spec fn delivered(
        self,
        mem: Map<int, u8>,
        after: Map<int, u8>,
        ch: u32,
        queue: Seq<u8>,
        left: Seq<u8>,
    ) -> bool {
        let ring = self.ring(mem, ch);
        let then = self.ring(after, ch);
        if ring.usable() {
            let n = accepted(ring, queue.len() as int);
            &&& then == (Ring { wroff: moved(ring, n), ..ring })
            &&& then.usable()
            &&& waiting(after, then) == waiting(mem, ring) + queue.take(n)
            &&& slots_kept(mem, after, ring, n)
            &&& left == queue.skip(n)
        } else {
            &&& then == ring
            &&& left == queue
        }
    }
}

/// What one fill touches.
proof fn lemma_one_filled(place: Place, mem: Map<int, u8>, after: Map<int, u8>, ch: u32)
    requires
        place.ring(mem, ch).usable() ==> only_filled(
            mem,
            after,
            place.base(ch),
            place.ring(mem, ch),
        ),
        !place.ring(mem, ch).usable() ==> after == mem,
    ensures
        place.only_touched(mem, after, seq![ch]),
{
    assert forall|a: int|
        mem.contains_key(a) && (forall|i: int|
            0 <= i < seq![ch].len() ==> !place.touches(mem, #[trigger] seq![ch][i], a)) implies
    #[trigger] mem[a] == after[a] by {
        assert(!place.touches(mem, seq![ch][0], a));
    }
}

/// What is mapped stays mapped.
proof fn lemma_still_mapped(
    place: Place,
    mem: Map<int, u8>,
    after: Map<int, u8>,
    channels: Seq<u32>,
    addr: int,
    n: int,
)
    requires
        place.only_touched(mem, after, channels),
        mapped(mem, addr, n),
    ensures
        mapped(after, addr, n),
{
    assert forall|a: int| addr <= a < addr + n implies #[trigger] after.contains_key(a) by {
        assert(mem.contains_key(a));
    }
}

/// A descriptor that is in memory stays there.
proof fn lemma_still_described(
    place: Place,
    mem: Map<int, u8>,
    after: Map<int, u8>,
    channels: Seq<u32>,
    base: u64,
)
    requires
        place.only_touched(mem, after, channels),
        described(mem, base),
    ensures
        described(after, base),
{
    assert forall|a: int| in_descriptor(base, a) implies #[trigger] after.contains_key(a) by {
        assert(mem.contains_key(a));
    }
}

/// A channel that has nothing in common with those that were filled is as it was.
proof fn lemma_other(
    place: Place,
    mem: Map<int, u8>,
    after: Map<int, u8>,
    ch: u32,
    channels: Seq<u32>,
)
    requires
        place.only_touched(mem, after, channels),
        place.sound(mem, ch),
        forall|i: int|
            0 <= i < channels.len() ==> place.separate(mem, ch, #[trigger] channels[i])
                && place.separate(mem, channels[i], ch),
    ensures
        place.ring(after, ch) == place.ring(mem, ch),
        place.ring(mem, ch).usable() ==> same_buffer(mem, after, place.ring(mem, ch)),
        place.sound(after, ch),
{
    let base = place.base(ch);
    let ring = place.ring(mem, ch);
    assert forall|a: int| in_descriptor(base, a) implies #[trigger] mem[a] == after[a] by {
        assert(mem.contains_key(a));
        assert forall|i: int| 0 <= i < channels.len() implies !place.touches(
            mem,
            #[trigger] channels[i],
            a,
        ) by {
            assert(place.separate(mem, channels[i], ch));
            lemma_descriptors(place.cb, place.num_up + ch, place.num_up + channels[i], a);
        }
    }
    lemma_same_ring(mem, after, base);
    lemma_still_described(place, mem, after, channels, base);
    if ring.usable() {
        assert forall|a: int| ring.holds(a) implies #[trigger] mem[a] == after[a] by {
            assert(mem.contains_key(a));
            assert forall|i: int| 0 <= i < channels.len() implies !place.touches(
                mem,
                #[trigger] channels[i],
                a,
            ) by {
                assert(place.separate(mem, ch, channels[i]));
            }
        }
        lemma_still_mapped(
            place,
            mem,
            after,
            channels,
            ring.pbuffer as int,
            ring.size as int,
        );
    }
}

/// The first part of a round is the fill at hand, which ends where the rest of the round
/// begins.
proof fn lemma_fill_part(
    round: Fills,
    fill: FillNext,
    next: FillsNext,
    mem: Map<int, u8>,
    talk: Seq<(Reply, FillsNext)>,
    last: FillsNext,
    after: Map<int, u8>,
) -> (r: (Seq<(Reply, FillNext)>, FillNext, Map<int, u8>, FillsNext, Seq<(Reply, FillsNext)>))
    requires
        round.after_fill(fill, next),
        converses(next, mem, talk, last, after),
    ensures
        converses(fill, mem, r.0, r.1, r.2),
        round.after_fill(r.1, r.3),
        converses(r.3, r.2, r.4, last, after),
        r.1 is Ask ==> r.4.len() == 0,
        talk.len() == r.0.len() + r.4.len(),
    decreases talk.len(),
{
    if fill is Ask && talk.len() > 0 {
        let reply = talk[0].0;
        let then = choose|then: FillNext| #[trigger]
            fill->Ask_1.continues(reply, then) && next->Ask_1.after_fill(then, talk[0].1);
        assert(round.after_fill(then, talk[0].1));
        let m = effect(mem, fill->Ask_0);
        let r = lemma_fill_part(round, then, talk[0].1, m, talk.drop_first(), last, after);
        let whole = seq![(reply, then)] + r.0;
        assert(whole.drop_first() =~= r.0);
        assert(whole[0] == (reply, then));
        (whole, r.1, r.2, r.3, r.4)
    } else {
        (Seq::empty(), fill, mem, next, talk)
    }
}

/// Changes one after the other are changes.
proof fn lemma_touched_in_turn(
    place: Place,
    mem: Map<int, u8>,
    between: Map<int, u8>,
    after: Map<int, u8>,
    channels: Seq<u32>,
)
    requires
        channels.len() > 0,
        place.only_touched(mem, between, seq![channels[0]]),
        place.only_touched(between, after, channels.drop_first()),
        forall|i: int|
            0 < i < channels.len() ==> place.ring(between, #[trigger] channels[i]) == place.ring(
                mem,
                channels[i],
            ),
    ensures
        place.only_touched(mem, after, channels),
{
    assert forall|a: int| #[trigger] mem.contains_key(a) == after.contains_key(a) by {
        assert(between.contains_key(a) == mem.contains_key(a));
    }
    assert forall|a: int|
        mem.contains_key(a) && (forall|i: int|
            0 <= i < channels.len() ==> !place.touches(
                mem,
                #[trigger] channels[i],
                a,
            )) implies #[trigger] mem[a] == after[a] by {
        assert(!place.touches(mem, channels[0], a));
        assert(mem.contains_key(a) == between.contains_key(a));
        assert(mem[a] == between[a]);
        let rest = channels.drop_first();
        assert forall|i: int| 0 <= i < rest.len() implies !place.touches(
            between,
            #[trigger] rest[i],
            a,
        ) by {
            assert(rest[i] == channels[i + 1]);
        }
        assert(between[a] == after[a]);
    }
}

/// What is to hold of a round of fills that has come to `last`.
pub open spec fn round_holds(
    place: Place,
    mem: Map<int, u8>,
    channels: Seq<u32>,
    state: RttView,
    last: FillsNext,
    after: Map<int, u8>,
) -> bool {
    &&& place.only_touched(mem, after, channels)
    &&& last matches Next::Done(rtt) ==> {
        &&& rtt@ == (RttView { queues: rtt@.queues, ..state })
        &&& forall|i: int|
            0 <= i < channels.len() ==> place.delivered(
                mem,
                after,
                #[trigger] channels[i],
                waits(state.queues, channels[i]),
                waits(rtt@.queues, channels[i]),
            )
        &&& forall|ch: u32|
            !channels.contains(ch) ==> #[trigger] waits(rtt@.queues, ch) == waits(
                state.queues,
                ch,
            )
    }
}

/// The channels behind the first one can be filled after it as before it.
proof fn lemma_rest_fillable(
    place: Place,
    mem: Map<int, u8>,
    between: Map<int, u8>,
    channels: Seq<u32>,
)
    requires
        channels.len() > 0,
        place.fillable(mem, channels),
        place.only_touched(mem, between, seq![channels[0]]),
    ensures
        place.fillable(between, channels.drop_first()),
        forall|i: int|
            0 < i < channels.len() ==> place.ring(between, #[trigger] channels[i]) == place.ring(
                mem,
                channels[i],
            ) && (place.ring(mem, channels[i]).usable() ==> same_buffer(
                mem,
                between,
                place.ring(mem, channels[i]),
            )),
{
    let rest = channels.drop_first();
    assert forall|i: int| 0 < i < channels.len() implies place.ring(between, #[trigger] channels[i])
        == place.ring(mem, channels[i]) && place.sound(between, channels[i]) && (place.ring(
        mem,
        channels[i],
    ).usable() ==> same_buffer(mem, between, place.ring(mem, channels[i]))) by {
        assert(place.separate(mem, channels[i], channels[0]));
        assert(place.separate(mem, channels[0], channels[i]));
        lemma_other(place, mem, between, channels[i], seq![channels[0]]);
    }
    assert forall|i: int| 0 <= i < rest.len() implies place.sound(between, #[trigger] rest[i]) by {
        assert(rest[i] == channels[i + 1]);
    }
    assert forall|i: int, j: int|
        0 <= i < rest.len() && 0 <= j < rest.len() && i != j implies place.separate(
        between,
        #[trigger] rest[i],
        #[trigger] rest[j],
    ) by {
        assert(rest[i] == channels[i + 1]);
        assert(rest[j] == channels[j + 1]);
        assert(place.separate(mem, channels[i + 1], channels[j + 1]));
    }
}

/// A delivery stays what it was while nothing of the channel changes.
proof fn lemma_delivered_to(
    place: Place,
    mem: Map<int, u8>,
    between: Map<int, u8>,
    after: Map<int, u8>,
    ch: u32,
    queue: Seq<u8>,
    left: Seq<u8>,
)
    requires
        place.delivered(mem, between, ch, queue, left),
        place.ring(after, ch) == place.ring(between, ch),
        place.ring(between, ch).usable() ==> same_buffer(between, after, place.ring(between, ch)),
    ensures
        place.delivered(mem, after, ch, queue, left),
{
    let ring = place.ring(mem, ch);
    if ring.usable() {
        lemma_same_waiting(between, after, place.ring(between, ch));
        lemma_pending(ring);
        let n = accepted(ring, queue.len() as int);
        assert forall|k: int| n <= k < ring.size implies mem[#[trigger] slot(ring, k)]
            == after[slot(ring, k)] by {
            lemma_wrap(ring.size, ring.wroff, k);
            assert(between[slot(ring, k)] == after[slot(ring, k)]);
        }
    }
}

/// A channel whose ring is where it was is as separate from another as before.
proof fn lemma_still_separate(
    place: Place,
    mem: Map<int, u8>,
    between: Map<int, u8>,
    a: u32,
    b: u32,
)
    requires
        place.separate(mem, a, b),
        place.ring(between, a).usable() == place.ring(mem, a).usable(),
        place.ring(between, a).pbuffer == place.ring(mem, a).pbuffer,
        place.ring(between, a).size == place.ring(mem, a).size,
        place.ring(between, b).usable() == place.ring(mem, b).usable(),
        place.ring(between, b).pbuffer == place.ring(mem, b).pbuffer,
        place.ring(between, b).size == place.ring(mem, b).size,
    ensures
        place.separate(between, a, b),
{
}

/// A channel that has been filled is as sound as before.
proof fn lemma_still_sound(
    place: Place,
    mem: Map<int, u8>,
    between: Map<int, u8>,
    ch: u32,
    channels: Seq<u32>,
)
    requires
        place.sound(mem, ch),
        place.only_touched(mem, between, channels),
        place.ring(between, ch).usable() == place.ring(mem, ch).usable(),
        place.ring(between, ch).pbuffer == place.ring(mem, ch).pbuffer,
        place.ring(between, ch).size == place.ring(mem, ch).size,
    ensures
        place.sound(between, ch),
{
    let ring = place.ring(mem, ch);
    lemma_still_described(place, mem, between, channels, place.base(ch));
    if ring.usable() {
        lemma_still_mapped(
            place,
            mem,
            between,
            channels,
            ring.pbuffer as int,
            ring.size as int,
        );
    }
}

/// What was delivered to the first channel stays so while the others are filled.
proof fn lemma_first_stays(
    place: Place,
    mem: Map<int, u8>,
    between: Map<int, u8>,
    after: Map<int, u8>,
    channels: Seq<u32>,
    queue: Seq<u8>,
    left: Seq<u8>,
)
    requires
        channels.len() > 0,
        place.fillable(mem, channels),
        place.only_touched(mem, between, seq![channels[0]]),
        place.only_touched(between, after, channels.drop_first()),
        place.delivered(mem, between, channels[0], queue, left),
    ensures
        place.delivered(mem, after, channels[0], queue, left),
{
    let ch = channels[0];
    let rest = channels.drop_first();
    lemma_rest_fillable(place, mem, between, channels);
    assert(place.sound(mem, channels[0]));
    lemma_still_sound(place, mem, between, ch, seq![ch]);
    assert forall|i: int| 0 <= i < rest.len() implies place.separate(
        between,
        ch,
        #[trigger] rest[i],
    ) && place.separate(between, rest[i], ch) by {
        assert(rest[i] == channels[i + 1]);
        assert(place.ring(between, channels[i + 1]) == place.ring(mem, channels[i + 1]));
        assert(place.separate(mem, channels[0], channels[i + 1]));
        assert(place.separate(mem, channels[i + 1], channels[0]));
        lemma_still_separate(place, mem, between, ch, rest[i]);
        lemma_still_separate(place, mem, between, rest[i], ch);
    }
    lemma_other(place, between, after, ch, rest);
    lemma_delivered_to(place, mem, between, after, ch, queue, left);
}

/// A fill of one channel, in terms of its delivery.
proof fn lemma_one_delivered(
    place: Place,
    mem: Map<int, u8>,
    after: Map<int, u8>,
    ch: u32,
    queues: Map<u32, Seq<u8>>,
    fill: FillNext,
)
    requires
        queues.contains_key(ch),
        fill is Done,
        fill_holds(mem, place.base(ch), place.ring(mem, ch), queues[ch], fill, after),
    ensures
        place.delivered(
            mem,
            after,
            ch,
            queues[ch],
            waits(taken(queues, ch, fill->Done_0), ch),
        ),
        forall|c: u32|
            c != ch ==> #[trigger] waits(taken(queues, ch, fill->Done_0), c) == waits(queues, c),
{
    let ring = place.ring(mem, ch);
    let queue = queues[ch];
    if ring.usable() {
        lemma_pending(ring);
        let n = accepted(ring, queue.len() as int);
        assert(0 <= n <= queue.len());
        if n == 0 {
            assert(queue.skip(0) =~= queue);
        } else {
            assert(left_over(queue, n) == queue.skip(n));
        }
    }
}

/// Nothing is delivered where nothing waits.
proof fn lemma_none_delivered(place: Place, mem: Map<int, u8>, ch: u32)
    ensures
        place.delivered(mem, mem, ch, Seq::empty(), Seq::empty()),
        place.only_touched(mem, mem, seq![ch]),
{
    let ring = place.ring(mem, ch);
    if ring.usable() {
        lemma_pending(ring);
        lemma_wrap(ring.size, ring.wroff, 0);
        assert(accepted(ring, 0) == 0);
        assert(waiting(mem, ring) + Seq::<u8>::empty().take(0) =~= waiting(mem, ring));
        assert(Seq::<u8>::empty().skip(0) =~= Seq::empty());
    }
}

/// From the first of `channels` on.
#[verifier::rlimit(60)]
#[verifier::spinoff_prover]
proof fn lemma_round(
    inst: u32,
    place: Place,
    state: RttView,
    channels: Seq<u32>,
    next: FillsNext,
    mem: Map<int, u8>,
    talk: Seq<(Reply, FillsNext)>,
    last: FillsNext,
    after: Map<int, u8>,
)
    requires
        state.num_up == place.num_up,
        Fills::goes_on(inst, place.cb, state, channels, next),
        converses(next, mem, talk, last, after),
        place.fillable(mem, channels),
    ensures
        talk.len() <= 7 * channels.len(),
        round_holds(place, mem, channels, state, last, after),
    decreases channels.len(),
{
    if channels.len() > 0 {
        let ch = channels[0];
        let rest = channels.drop_first();
        let queue = waits(state.queues, ch);
        assert(place.sound(mem, channels[0]));
        assert forall|c: u32| #[trigger] channels.contains(c) <==> c == ch || rest.contains(c) by {
            lemma_contains(channels, c);
        }
        assert(!rest.contains(ch)) by {
            if rest.contains(ch) {
                let k = choose|k: int| 0 <= k < rest.len() && rest[k] == ch;
                assert(channels[k + 1] == ch);
                assert(place.separate(mem, channels[0], channels[k + 1]));
            }
        }
        if queue.len() == 0 {
            assert(queue =~= Seq::empty());
            lemma_none_delivered(place, mem, ch);
            lemma_rest_fillable(place, mem, mem, channels);
            lemma_round(inst, place, state, rest, next, mem, talk, last, after);
            lemma_touched_in_turn(place, mem, mem, after, channels);
            if last is Done {
                let rtt = last->Done_0;
                lemma_first_stays(place, mem, mem, after, channels, queue, queue);
                assert(waits(rtt@.queues, ch) == queue);
                lemma_all_delivered(place, mem, mem, after, channels, state, state, rtt@);
            }
        } else {
            let round = next->Ask_1;
            let first = FillNext::Ask(next->Ask_0, round.fill);
            let r = lemma_fill_part(round, first, next, mem, talk, last, after);
            let m = r.2;
            fill_appends_what_fits(
                inst,
                place.cb,
                place.num_up,
                ch,
                queue,
                first,
                mem,
                r.0,
                r.1,
                m,
            );
            lemma_one_filled(place, mem, m, ch);
            lemma_rest_fillable(place, mem, m, channels);
            if r.1 is Ask {
                assert(after == m);
                assert(place.only_touched(m, m, rest));
                lemma_touched_in_turn(place, mem, m, after, channels);
            } else {
                let queues = taken(state.queues, ch, r.1->Done_0);
                let now = RttView { queues, ..state };
                lemma_one_delivered(place, mem, m, ch, state.queues, r.1);
                lemma_round(inst, place, now, rest, r.3, m, r.4, last, after);
                lemma_touched_in_turn(place, mem, m, after, channels);
                if last is Done {
                    let rtt = last->Done_0;
                    assert(waits(rtt@.queues, ch) == waits(queues, ch));
                    lemma_first_stays(
                        place,
                        mem,
                        m,
                        after,
                        channels,
                        queue,
                        waits(queues, ch),
                    );
                    lemma_all_delivered(place, mem, m, after, channels, state, now, rtt@);
                }
            }
        }
    }
}

/// A sequence contains its first item and those of the rest.
proof fn lemma_contains(channels: Seq<u32>, c: u32)
    requires
        channels.len() > 0,
    ensures
        channels.contains(c) <==> c == channels[0] || channels.drop_first().contains(c),
{
    let rest = channels.drop_first();
    if rest.contains(c) {
        let k = choose|k: int| 0 <= k < rest.len() && rest[k] == c;
        assert(channels[k + 1] == c);
    }
    if channels.contains(c) {
        let k = choose|k: int| 0 <= k < channels.len() && channels[k] == c;
        if k > 0 {
            assert(rest[k - 1] == c);
        }
    }
}

/// A delivery is the same from a memory that agrees on the channel.
proof fn lemma_delivered_from(
    place: Place,
    mem: Map<int, u8>,
    between: Map<int, u8>,
    after: Map<int, u8>,
    ch: u32,
    queue: Seq<u8>,
    left: Seq<u8>,
)
    requires
        place.ring(between, ch) == place.ring(mem, ch),
        place.ring(mem, ch).usable() ==> same_buffer(mem, between, place.ring(mem, ch)),
        place.delivered(between, after, ch, queue, left),
    ensures
        place.delivered(mem, after, ch, queue, left),
{
    let ring = place.ring(mem, ch);
    if ring.usable() {
        lemma_same_waiting(mem, between, ring);
        lemma_pending(ring);
        let n = accepted(ring, queue.len() as int);
        assert forall|k: int| n <= k < ring.size implies mem[#[trigger] slot(ring, k)]
            == after[slot(ring, k)] by {
            lemma_wrap(ring.size, ring.wroff, k);
            assert(mem[slot(ring, k)] == between[slot(ring, k)]);
        }
    }
}

/// Where the first channel has been delivered, then the others, all have.
proof fn lemma_all_delivered(
    place: Place,
    mem: Map<int, u8>,
    between: Map<int, u8>,
    after: Map<int, u8>,
    channels: Seq<u32>,
    state: RttView,
    now: RttView,
    end: RttView,
)
    requires
        channels.len() > 0,
        place.delivered(
            mem,
            after,
            channels[0],
            waits(state.queues, channels[0]),
            waits(end.queues, channels[0]),
        ),
        forall|i: int|
            0 <= i < channels.drop_first().len() ==> place.delivered(
                between,
                after,
                #[trigger] channels.drop_first()[i],
                waits(now.queues, channels.drop_first()[i]),
                waits(end.queues, channels.drop_first()[i]),
            ),
        !channels.drop_first().contains(channels[0]),
        forall|c: u32|
            c != channels[0] ==> #[trigger] waits(now.queues, c) == waits(state.queues, c),
        forall|i: int|
            0 < i < channels.len() ==> place.ring(between, #[trigger] channels[i]) == place.ring(
                mem,
                channels[i],
            ) && (place.ring(mem, channels[i]).usable() ==> same_buffer(
                mem,
                between,
                place.ring(mem, channels[i]),
            )),
    ensures
        forall|i: int|
            0 <= i < channels.len() ==> place.delivered(
                mem,
                after,
                #[trigger] channels[i],
                waits(state.queues, channels[i]),
                waits(end.queues, channels[i]),
            ),
{
    let rest = channels.drop_first();
    assert forall|i: int| 0 <= i < channels.len() implies place.delivered(
        mem,
        after,
        #[trigger] channels[i],
        waits(state.queues, channels[i]),
        waits(end.queues, channels[i]),
    ) by {
        if i > 0 {
            assert(rest[i - 1] == channels[i]);
            assert(rest.contains(rest[i - 1]));
            assert(waits(now.queues, channels[i]) == waits(state.queues, channels[i]));
            lemma_delivered_from(
                place,
                mem,
                between,
                after,
                channels[i],
                waits(state.queues, channels[i]),
                waits(end.queues, channels[i]),
            );
        }
    }
}

/// A round of fills delivers to each channel as many of the bytes that wait for it as its
/// ring has room for, behind those that wait in the ring, and keeps the others, so no byte
/// is lost or delivered twice. Nothing but the slots of the new bytes and the write offsets
/// is touched, and nothing of the state of RTT but the queues. It takes at most seven
/// accesses a channel.
pub proof fn round_delivers_what_fits(
    inst: u32,
    place: Place,
    state: RttView,
    channels: Seq<u32>,
    first: FillsNext,
    mem: Map<int, u8>,
    talk: Seq<(Reply, FillsNext)>,
    last: FillsNext,
    after: Map<int, u8>,
)
    requires
        state.num_up == place.num_up,
        Fills::goes_on(inst, place.cb, state, channels, first),
        converses(first, mem, talk, last, after),
        place.fillable(mem, channels),
    ensures
        talk.len() <= 7 * channels.len(),
        round_holds(place, mem, channels, state, last, after),
{
    lemma_round(inst, place, state, channels, first, mem, talk, last, after);
}

} // verus!
