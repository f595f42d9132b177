//! Draining and filling a ring, in numbers.

use crate::dialogue::{lemma_talks, talks, Dialogue, Next};
use crate::down::{
    accepted, apart, fill_appends_what_fits, fill_down_channel, fill_holds, moved, slot, writable,
    FillDown, FillNext,
};
use crate::error::RttError;
use crate::memory::{Reply, Request};
use crate::model::{all_mapped, number_in, smaller, wrapped};
use crate::ring::{
    address, descriptor, descriptor_address, field, lemma_pending, lemma_wrap, ring_in, waiting,
    waiting_slot, Ring, BUF_PBUFFER, BUF_RDOFF, BUF_SIZE, BUF_WROFF,
};
use crate::up::{drain_takes_what_waits, drain_up_channel, readable, DrainNext, DrainUp};
use vstd::prelude::*;

verus! {

/// What a ring's descriptor says, in numbers.
pub struct Numbers {
    /// Where the buffer is.
    pub buffer: int,
    /// How many bytes it has.
    pub size: int,
    /// Where the producer writes next.
    pub write: int,
    /// Where the consumer reads next.
    pub read: int,
}

/// The address `offset` bytes into descriptor number `index` of the control block at `cb`:
/// the descriptors begin 24 bytes above it, and each has 24 bytes.
pub open spec fn at(cb: u64, index: int, offset: int) -> int {
    wrapped(cb + 24 + 24 * index + offset)
}

/// What descriptor number `index` says.
pub open spec fn told_by(mem: Map<int, u8>, cb: u64, index: int) -> Numbers {
    Numbers {
        buffer: number_in(mem, at(cb, index, 4)),
        size: number_in(mem, at(cb, index, 8)),
        write: number_in(mem, at(cb, index, 12)),
        read: number_in(mem, at(cb, index, 16)),
    }
}

/// What descriptor number `index` says can be read.
pub open spec fn can_be_told(mem: Map<int, u8>, cb: u64, index: int) -> bool {
    &&& all_mapped(mem, at(cb, index, 4), 4)
    &&& all_mapped(mem, at(cb, index, 8), 4)
    &&& all_mapped(mem, at(cb, index, 12), 4)
    &&& all_mapped(mem, at(cb, index, 16), 4)
}

impl Numbers {
    /// There is a ring: it has a buffer, and the offsets lie inside.
    pub open spec fn is_ring(self) -> bool {
        &&& self.buffer != 0
        &&& 0 <= self.write < self.size
        &&& 0 <= self.read < self.size
    }

    /// How many bytes wait: from the read offset on to the write offset, over the end.
    pub open spec fn waiting(self) -> int {
        if self.read <= self.write {
            self.write - self.read
        } else {
            self.size - self.read + self.write
        }
    }

    /// How many more fit: one place stays free.
    pub open spec fn free(self) -> int {
        self.size - 1 - self.waiting()
    }

    /// The offset `k` places behind the offset `from`.
    pub open spec fn behind(self, from: int, k: int) -> int {
        if from + k < self.size {
            from + k
        } else {
            from + k - self.size
        }
    }

    /// The buffer does not overlap the number at `a`.
    pub open spec fn is_beside(self, a: int) -> bool {
        self.buffer + self.size <= a || a + 4 <= self.buffer
    }

    /// The address of that place.
    pub open spec fn place(self, from: int, k: int) -> int {
        self.buffer + self.behind(from, k)
    }
}

/// The request goes to space zero of `inst`.
pub open spec fn goes_to(request: Request, inst: u32) -> bool {
    match request {
        Request::Read { inst: i, space, .. } => i == inst && space == 0,
        Request::Write { inst: i, space, .. } => i == inst && space == 0,
    }
}

/// The descriptors stand one behind the other, 24 bytes each, from 24 bytes above the
/// control block on: first those of the up channels, then those of the down channels.
pub proof fn descriptors_stand_back_to_back(
    cb: u64,
    first: u32,
    ch: u32,
    here: u64,
    offset: u64,
    there: u64,
)
    requires
        call_ensures(descriptor_address, (cb, first, ch), here),
        call_ensures(address, (here, offset), there),
    ensures
        here == wrapped(cb + 24 + 24 * (first + ch)),
        there == wrapped(here + offset),
        offset <= 24 ==> there == at(cb, first + ch, offset as int),
{
}

/// The one after is 24 bytes further on.
pub proof fn the_next_descriptor_is_next(cb: u64, first: u32, ch: u32, here: u64, next: u64)
    requires
        ch < u32::MAX,
        call_ensures(descriptor_address, (cb, first, ch), here),
        call_ensures(descriptor_address, (cb, first, (ch + 1) as u32), next),
    ensures
        next == wrapped(here + 24),
{
}

/// The numbers of a descriptor are those of its ring.
pub proof fn lemma_told(mem: Map<int, u8>, cb: u64, index: int)
    requires
        0 <= index <= 2 * u32::MAX,
    ensures
        ({
            let base = descriptor(cb, index);
            let ring = ring_in(mem, base);
            let t = told_by(mem, cb, index);
            &&& field(base, BUF_PBUFFER) == at(cb, index, 4)
            &&& field(base, BUF_SIZE) == at(cb, index, 8)
            &&& field(base, BUF_WROFF) == at(cb, index, 12)
            &&& field(base, BUF_RDOFF) == at(cb, index, 16)
            &&& t == as_numbers(ring)
        }),
{
    let base = descriptor(cb, index);
    assert(base == wrapped(cb + 24 + 24 * index));
    assert(field(base, BUF_PBUFFER) == at(cb, index, 4));
    assert(field(base, BUF_SIZE) == at(cb, index, 8));
    assert(field(base, BUF_WROFF) == at(cb, index, 12));
    assert(field(base, BUF_RDOFF) == at(cb, index, 16));
}

/// A ring in numbers.
pub open spec fn as_numbers(ring: Ring) -> Numbers {
    Numbers {
        buffer: ring.pbuffer as int,
        size: ring.size as int,
        write: ring.wroff as int,
        read: ring.rdoff as int,
    }
}

/// The numbers of a ring mean what they do.
pub proof fn lemma_ring(ring: Ring)
    ensures
        ring.usable() == as_numbers(ring).is_ring(),
        ring.usable() ==> {
            &&& ring.pending() == as_numbers(ring).waiting()
            &&& ring.room() == as_numbers(ring).free()
            &&& forall|k: int|
                0 <= k <= ring.size ==> #[trigger] waiting_slot(ring, k) == as_numbers(ring).place(
                    ring.rdoff as int,
                    k,
                )
            &&& forall|k: int|
                0 <= k <= ring.size ==> #[trigger] slot(ring, k) == as_numbers(ring).place(
                    ring.wroff as int,
                    k,
                )
        },
{
    if ring.usable() {
        lemma_pending(ring);
        assert forall|k: int| 0 <= k <= ring.size implies #[trigger] waiting_slot(ring, k)
            == as_numbers(ring).place(ring.rdoff as int, k) by {
            lemma_wrap(ring.size, ring.rdoff, k);
        }
        assert forall|k: int| 0 <= k <= ring.size implies #[trigger] slot(ring, k)
            == as_numbers(ring).place(ring.wroff as int, k) by {
            lemma_wrap(ring.size, ring.wroff, k);
        }
    }
}

/// The bytes that wait are in memory.
pub open spec fn waiting_is_mapped(mem: Map<int, u8>, t: Numbers) -> bool {
    t.is_ring() ==> forall|k: int|
        0 <= k < t.waiting() ==> mem.contains_key(#[trigger] t.place(t.read, k))
}

/// `bytes` are those that wait in the ring, oldest first.
pub open spec fn what_waits(mem: Map<int, u8>, t: Numbers, bytes: Seq<u8>) -> bool {
    if t.is_ring() {
        &&& bytes.len() == t.waiting()
        &&& forall|k: int| 0 <= k < bytes.len() ==> #[trigger] bytes[k] == mem[t.place(t.read, k)]
    } else {
        bytes.len() == 0
    }
}

/// `after` is `mem` but for the number at `a`, which is `val`.
pub open spec fn only_number_changed(
    mem: Map<int, u8>,
    after: Map<int, u8>,
    a: int,
    val: int,
) -> bool {
    &&& number_in(after, a) == val
    &&& forall|x: int| #[trigger] after.contains_key(x) == mem.contains_key(x)
    &&& forall|x: int|
        mem.contains_key(x) && !(a <= x < a + 4) ==> #[trigger] after[x] == mem[x]
}

/// A drain of up channel `ch` gives the bytes that wait in the ring of descriptor number
/// `ch`, oldest first. It then sets the read offset to the write offset, and changes
/// nothing else. All that it asks goes to the instance.
pub proof fn a_drain_gives_what_waits(
    inst: u32,
    cb: u64,
    ch: u32,
    begun: (Request, DrainUp),
    mem: Map<int, u8>,
    talk: Seq<(Reply, DrainNext)>,
    last: DrainNext,
    after: Map<int, u8>,
)
    requires
        call_ensures(drain_up_channel, (inst, cb, ch), begun),
        talks(Next::Ask(begun.0, begun.1), mem, talk, last, after),
        can_be_told(mem, cb, ch as int),
        waiting_is_mapped(mem, told_by(mem, cb, ch as int)),
    ensures
        talk.len() <= 7,
        last matches Next::Ask(request, _) ==> after == mem && goes_to(request, inst),
        last matches Next::Done(r) ==> {
            let t = told_by(mem, cb, ch as int);
            &&& r is Ok
            &&& what_waits(mem, t, r->Ok_0@)
            &&& if r->Ok_0@.len() == 0 {
                after == mem
            } else {
                only_number_changed(mem, after, at(cb, ch as int, 16), t.write)
            }
        },
{
    let base = descriptor(cb, ch as int);
    let ring = ring_in(mem, base);
    let t = told_by(mem, cb, ch as int);
    let first: DrainNext = Next::Ask(begun.0, begun.1);
    lemma_talks(first, mem, talk, last, after);
    lemma_told(mem, cb, ch as int);
    lemma_ring(ring);
    assert(readable(mem, base)) by {
        if ring.usable() {
            lemma_pending(ring);
            assert forall|k: int| 0 <= k < ring.pending() implies mem.contains_key(
                #[trigger] waiting_slot(ring, k),
            ) by {
                assert(mem.contains_key(t.place(t.read, k)));
            }
        }
    }
    drain_takes_what_waits(inst, cb, ch, mem, talk, last, after);
    if last is Ask {
        lemma_drain_goes_to(inst, first, mem, talk, last, after);
    } else if ring.usable() {
        lemma_pending(ring);
        let bytes = last->Done_0->Ok_0@;
        assert forall|k: int| 0 <= k < bytes.len() implies #[trigger] bytes[k] == mem[t.place(
            t.read,
            k,
        )] by {
            assert(bytes[k] == waiting(mem, ring)[k]);
            assert(waiting_slot(ring, k) == t.place(t.read, k));
        }
        if bytes.len() > 0 {
            lemma_number_set(mem, at(cb, ch as int, 16), ring.wroff);
        }
    }
}

/// A number that is stored is the only thing that changes.
proof fn lemma_number_set(mem: Map<int, u8>, a: int, val: u32)
    requires
        all_mapped(mem, a, 4),
    ensures
        only_number_changed(
            mem,
            crate::dialogue::stored(mem, a, crate::memory::u32_le(val)),
            a,
            val as int,
        ),
{
    let after = crate::dialogue::stored(mem, a, crate::memory::u32_le(val));
    assert(val == val % 0x100 + 0x100 * (val / 0x100 % 0x100) + 0x1_0000 * (val / 0x1_0000 % 0x100)
        + 0x100_0000 * (val / 0x100_0000));
    assert(after[a] == (val % 0x100) as u8);
    assert(after[a + 1] == (val / 0x100 % 0x100) as u8);
    assert(after[a + 2] == (val / 0x1_0000 % 0x100) as u8);
    assert(after[a + 3] == (val / 0x100_0000) as u8);
}

/// What a step of a drain asks goes to the instance, and is a read, but for the last.
pub open spec fn drain_is_for(next: DrainNext, inst: u32) -> bool {
    match next {
        Next::Done(_) => true,
        Next::Ask(request, wait) => goes_to(request, inst) && match wait {
            DrainUp::Header(header) => header.inst() == inst && request is Read,
            DrainUp::Span { inst: i, .. } => i == inst && request is Read,
            DrainUp::Tail { inst: i, .. } => i == inst && request is Read,
            DrainUp::Front { inst: i, .. } => i == inst && request is Read,
            DrainUp::Commit { .. } => request is Write,
        },
    }
}

proof fn lemma_drain_goes_to(
    inst: u32,
    first: DrainNext,
    mem: Map<int, u8>,
    talk: Seq<(Reply, DrainNext)>,
    last: DrainNext,
    after: Map<int, u8>,
)
    requires
        drain_is_for(first, inst),
        talks(first, mem, talk, last, after),
    ensures
        drain_is_for(last, inst),
        last matches Next::Done(r) && r is Ok || after == mem,
    decreases talk.len(),
{
    if talk.len() > 0 {
        assert(first->Ask_1.continues(talk[0].0, talk[0].1));
        assert(drain_is_for(talk[0].1, inst));
        if first->Ask_1 is Commit {
            let now = crate::dialogue::effect(mem, first->Ask_0);
            assert(talk[0].1 is Done);
            assert(talks(talk[0].1, now, talk.drop_first(), last, after));
            assert(talk.drop_first().len() == 0);
            assert(talk[0].0 is Failed ==> crate::dialogue::effect(mem, first->Ask_0) == mem);
        }
        lemma_drain_goes_to(
            inst,
            talk[0].1,
            crate::dialogue::effect(mem, first->Ask_0),
            talk.drop_first(),
            last,
            after,
        );
    }
}

/// A drain that has not come to its end, or that failed, has changed nothing: what waits
/// is still there. All that it asks goes to the instance.
pub proof fn a_drain_that_fails_changes_nothing(
    inst: u32,
    cb: u64,
    ch: u32,
    begun: (Request, DrainUp),
    mem: Map<int, u8>,
    talk: Seq<(Reply, DrainNext)>,
    last: DrainNext,
    after: Map<int, u8>,
)
    requires
        call_ensures(drain_up_channel, (inst, cb, ch), begun),
        talks(Next::Ask(begun.0, begun.1), mem, talk, last, after),
    ensures
        last matches Next::Ask(request, _) ==> after == mem && goes_to(request, inst),
        last matches Next::Done(r) ==> r is Ok || after == mem,
{
    lemma_drain_goes_to(inst, Next::Ask(begun.0, begun.1), mem, talk, last, after);
}

/// The buffer of the ring is in memory, and does not overlap the descriptor's numbers.
pub open spec fn buffer_is_beside(mem: Map<int, u8>, cb: u64, index: int) -> bool {
    let t = told_by(mem, cb, index);
    &&& all_mapped(mem, t.buffer, t.size)
    &&& t.is_beside(at(cb, index, 4))
    &&& t.is_beside(at(cb, index, 8))
    &&& t.is_beside(at(cb, index, 12))
    &&& t.is_beside(at(cb, index, 16))
}

/// `x` lies in the number at `a`.
pub open spec fn in_number(x: int, a: int) -> bool {
    a <= x < a + 4
}

/// `x` is one of the first `n` free places of the ring.
pub open spec fn in_free(t: Numbers, x: int, n: int) -> bool {
    exists|k: int| 0 <= k < n && x == #[trigger] t.place(t.write, k)
}

/// A fill of down channel `ch` puts the first of the bytes into the ring of descriptor
/// number `num_up + ch`, as many as fit, from the write offset on and over the end. It then
/// moves the write offset behind them, and tells how many there were. Until then the target
/// sees the ring as it was. Nothing else changes, and all that is asked goes to the
/// instance.
pub proof fn a_fill_adds_what_fits(
    inst: u32,
    cb: u64,
    num_up: u32,
    ch: u32,
    data: Vec<u8>,
    first: FillNext,
    mem: Map<int, u8>,
    talk: Seq<(Reply, FillNext)>,
    last: FillNext,
    after: Map<int, u8>,
)
    requires
        call_ensures(fill_down_channel, (inst, cb, num_up, ch, data), first),
        talks(first, mem, talk, last, after),
        can_be_told(mem, cb, num_up + ch),
        told_by(mem, cb, num_up + ch).is_ring() && told_by(mem, cb, num_up + ch).free() > 0
            ==> buffer_is_beside(mem, cb, num_up + ch),
    ensures
        talk.len() <= 7,
        ({
            let t = told_by(mem, cb, num_up + ch);
            let n = if t.is_ring() {
                smaller(data@.len() as int, t.free())
            } else {
                0
            };
            &&& n == 0 ==> after == mem
            &&& forall|x: int| #[trigger] after.contains_key(x) == mem.contains_key(x)
            &&& forall|x: int|
                mem.contains_key(x) && !in_free(t, x, n) && !in_number(
                    x,
                    at(cb, num_up + ch, 12),
                ) ==> #[trigger] after[x] == mem[x]
            &&& last matches Next::Ask(request, _) ==> {
                &&& goes_to(request, inst)
                &&& number_in(after, at(cb, num_up + ch, 12)) == t.write
            }
            &&& last matches Next::Done(r) ==> {
                &&& r == Ok::<usize, RttError>(n as usize)
                &&& n > 0 ==> number_in(after, at(cb, num_up + ch, 12)) == t.behind(t.write, n)
                &&& forall|k: int|
                    0 <= k < n ==> #[trigger] data@[k] == after[t.place(t.write, k)]
            }
        }),
{
    let index = num_up + ch;
    let base = descriptor(cb, index);
    let ring = ring_in(mem, base);
    let t = told_by(mem, cb, index);
    let n = if t.is_ring() {
        smaller(data@.len() as int, t.free())
    } else {
        0
    };
    lemma_told(mem, cb, index);
    lemma_told(after, cb, index);
    lemma_ring(ring);
    lemma_talks(first, mem, talk, last, after);
    if data@.len() == 0 {
        assert(talk.len() == 0);
    } else {
        assert(writable(mem, base)) by {
            if ring.usable() && ring.room() > 0 {
                lemma_beside(mem, cb, index, ring);
            }
        }
        fill_appends_what_fits(inst, cb, num_up, ch, data@, first, mem, talk, last, after);
        assert(fill_holds(mem, base, ring, data@, last, after));
        if last is Ask {
            lemma_fill_goes_to(inst, first, mem, talk, last, after);
        }
        if n > 0 {
            lemma_pending(ring);
            lemma_wrap(ring.size, ring.wroff, n);
            lemma_only_free(mem, after, cb, index, data@, last);
            if last is Done {
                lemma_new_bytes(mem, after, cb, index, data@, last);
            }
        }
    }
}

/// Nothing but the first free places and the write offset changes.
proof fn lemma_only_free(
    mem: Map<int, u8>,
    after: Map<int, u8>,
    cb: u64,
    index: int,
    data: Seq<u8>,
    last: FillNext,
)
    requires
        0 <= index <= 2 * u32::MAX,
        ring_in(mem, descriptor(cb, index)).usable(),
        fill_holds(
            mem,
            descriptor(cb, index),
            ring_in(mem, descriptor(cb, index)),
            data,
            last,
            after,
        ),
    ensures
        ({
            let t = told_by(mem, cb, index);
            let n = smaller(data.len() as int, t.free());
            forall|x: int|
                mem.contains_key(x) && !in_free(t, x, n) && !in_number(x, at(cb, index, 12))
                    ==> #[trigger] after[x] == mem[x]
        }),
{
    let ring = ring_in(mem, descriptor(cb, index));
    let t = told_by(mem, cb, index);
    let n = smaller(data.len() as int, t.free());
    lemma_told(mem, cb, index);
    lemma_ring(ring);
    lemma_pending(ring);
    assert(n == accepted(ring, data.len() as int));
    assert forall|x: int|
        mem.contains_key(x) && !in_free(t, x, n) && !in_number(
            x,
            at(cb, index, 12),
        ) implies #[trigger] after[x] == mem[x] by {
        if ring.holds(x) {
            let i = x - ring.pbuffer;
            let k = if i >= ring.wroff {
                i - ring.wroff
            } else {
                i - ring.wroff + ring.size
            };
            assert(t.place(t.write, k) == x);
            assert(slot(ring, k) == x);
            assert(k >= n);
        }
    }
}

/// The new bytes stand in the first free places.
proof fn lemma_new_bytes(
    mem: Map<int, u8>,
    after: Map<int, u8>,
    cb: u64,
    index: int,
    data: Seq<u8>,
    last: FillNext,
)
    requires
        0 <= index <= 2 * u32::MAX,
        last is Done,
        ring_in(mem, descriptor(cb, index)).usable(),
        fill_holds(
            mem,
            descriptor(cb, index),
            ring_in(mem, descriptor(cb, index)),
            data,
            last,
            after,
        ),
    ensures
        ({
            let t = told_by(mem, cb, index);
            let n = smaller(data.len() as int, t.free());
            forall|k: int| 0 <= k < n ==> #[trigger] data[k] == after[t.place(t.write, k)]
        }),
{
    let ring = ring_in(mem, descriptor(cb, index));
    let t = told_by(mem, cb, index);
    let n = smaller(data.len() as int, t.free());
    let then = Ring { wroff: moved(ring, n), ..ring };
    lemma_told(mem, cb, index);
    lemma_ring(ring);
    lemma_ring(then);
    lemma_pending(ring);
    lemma_pending(then);
    assert(n == accepted(ring, data.len() as int));
    assert forall|k: int| 0 <= k < n implies #[trigger] data[k] == after[t.place(t.write, k)] by {
        let j = ring.pending() + k;
        assert(waiting(after, then)[j] == (waiting(mem, ring) + data.take(n))[j]);
        assert(waiting_slot(then, j) == as_numbers(then).place(then.rdoff as int, j));
        assert(t.place(t.write, k) == waiting_slot(then, j));
    }
}

/// A buffer beside the numbers does not overlap the fields.
proof fn lemma_beside(mem: Map<int, u8>, cb: u64, index: int, ring: Ring)
    requires
        0 <= index <= 2 * u32::MAX,
        ring == ring_in(mem, descriptor(cb, index)),
        ring.usable(),
        buffer_is_beside(mem, cb, index),
    ensures
        apart(mem, descriptor(cb, index), ring),
{
    lemma_told(mem, cb, index);
}

/// What a step of a fill asks goes to the instance.
pub open spec fn fill_is_for(next: FillNext, inst: u32) -> bool {
    match next {
        Next::Done(_) => true,
        Next::Ask(request, wait) => goes_to(request, inst) && match wait {
            FillDown::Header { header, .. } => header.inst() == inst,
            FillDown::Head { inst: i, .. } => i == inst,
            FillDown::Front { inst: i, .. } => i == inst,
            FillDown::Commit { .. } => true,
        },
    }
}

proof fn lemma_fill_goes_to(
    inst: u32,
    first: FillNext,
    mem: Map<int, u8>,
    talk: Seq<(Reply, FillNext)>,
    last: FillNext,
    after: Map<int, u8>,
)
    requires
        fill_is_for(first, inst),
        talks(first, mem, talk, last, after),
    ensures
        fill_is_for(last, inst),
    decreases talk.len(),
{
    if talk.len() > 0 {
        assert(first->Ask_1.continues(talk[0].0, talk[0].1));
        assert(fill_is_for(talk[0].1, inst));
        lemma_fill_goes_to(
            inst,
            talk[0].1,
            crate::dialogue::effect(mem, first->Ask_0),
            talk.drop_first(),
            last,
            after,
        );
    }
}

} // verus!
