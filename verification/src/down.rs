//! Down channels: from the host to the target.

use crate::access::{
    lemma_bytes_stored, lemma_u32_stored, write_bytes, write_u32, written, written_in,
};
use crate::dialogue::{converses, effect, mapped, stored, Dialogue, Next};
use crate::error::RttError;
use crate::memory::{u32_le, words_of, Reply};
use crate::ring::{
    above, address, described, descriptor, descriptor_address, field, in_descriptor, in_field,
    lemma_pending, lemma_ring_read, lemma_same_ring, lemma_same_waiting, lemma_wrap,
    lemma_wroff_stored, ring_in, same_buffer, waiting, Ring, RingRead, BUF_WROFF,
};
use vstd::prelude::*;
use vstd::slice::{slice_subrange, slice_to_vec};

verus! {

/// Where the filling of a down channel has got to.
#[derive(Debug)]
pub enum FillDown {
    /// The descriptor is being read; `data` is to be written.
    Header { header: RingRead, data: Vec<u8> },
    /// The bytes that run up to the end of the ring are being written; `rest` are those
    /// that wrap to the front, `n` is the number of both, and `wroff` the write offset
    /// behind them.
    Head { inst: u32, base: u64, pbuffer: u32, wroff: u32, n: u32, rest: Vec<u8> },
    /// The bytes at the front of the ring are being written.
    Front { inst: u32, base: u64, wroff: u32, n: u32 },
    /// The target's write offset is being moved behind the `n` bytes.
    Commit { n: u32 },
}

/// What a fill wants next. It results in the number of bytes that the ring took.
pub type FillNext = Next<FillDown, Result<usize, RttError>>;

/// How many of `len` bytes `ring` takes: as many as there is room for.
pub open spec fn accepted(ring: Ring, len: int) -> int {
    if len <= ring.room() {
        len
    } else {
        ring.room()
    }
}

/// How many of `n` bytes fit between the write offset and the end of the ring.
pub open spec fn unwrapped(ring: Ring, n: int) -> int {
    if n <= ring.size - ring.wroff {
        n
    } else {
        ring.size - ring.wroff
    }
}

/// The write offset behind `n` more bytes.
pub open spec fn moved(ring: Ring, n: int) -> u32 {
    ((ring.wroff + n) % (ring.size as int)) as u32
}

impl FillDown {
    /// The beginning of a fill of down channel `ch` with `data`. The descriptors of the
    /// down channels stand behind those of the `num_up` up channels.
    pub open spec fn begins(
        inst: u32,
        cb: u64,
        num_up: u32,
        ch: u32,
        data: Seq<u8>,
        next: FillNext,
    ) -> bool {
        if data.len() == 0 {
            next == FillNext::Done(Ok(0))
        } else {
            let header = RingRead::Pbuffer { inst, base: descriptor(cb, num_up + ch) };
            &&& next is Ask
            &&& next->Ask_0 == header.asked()
            &&& next->Ask_1 matches FillDown::Header { header: h, data: d } && h == header && d@
                == data
        }
    }

    /// What follows the descriptor: nothing where no ring is described or it has no
    /// room, else the first write.
    pub open spec fn finds(
        inst: u32,
        base: u64,
        ring: Ring,
        data: Seq<u8>,
        next: FillNext,
    ) -> bool {
        let n = accepted(ring, data.len() as int);
        let first = unwrapped(ring, n);
        if !ring.usable() || ring.room() == 0 {
            next == FillNext::Done(Ok(0))
        } else if n == 0 {
            FillDown::commits(inst, base, moved(ring, 0), 0, next)
        } else {
            &&& next is Ask
            &&& next->Ask_0.writes(
                inst,
                (ring.pbuffer + ring.wroff) as u64,
                1,
                first as u64,
                words_of(data.take(first)),
            )
            &&& next->Ask_1 matches FillDown::Head {
                inst: i,
                base: b,
                pbuffer,
                wroff,
                n: m,
                rest,
            } && i == inst && b == base && pbuffer == ring.pbuffer && wroff == moved(ring, n) && m
                == n && rest@ == data.subrange(first, n)
        }
    }

    /// The write offset is moved to `wroff`, now that `n` bytes have been written.
    pub open spec fn commits(
        inst: u32,
        base: u64,
        wroff: u32,
        n: u32,
        next: FillNext,
    ) -> bool {
        &&& next is Ask
        &&& next->Ask_0.writes(inst, above(base, BUF_WROFF), 4, 1, seq![wroff as u64])
        &&& next->Ask_1 == (FillDown::Commit { n })
    }

    fn found(inst: u32, base: u64, ring: Ring, data: &[u8]) -> (next: FillNext)
        ensures
            FillDown::finds(inst, base, ring, data@, next),
    {
        if !ring.is_usable() {
            return Next::Done(Ok(0));
        }
        let free: u32 = ring.free();
        if free == 0 {
            return Next::Done(Ok(0));
        }
        let n: u32 = if data.len() as u64 <= free as u64 {
            data.len() as u32
        } else {
            free
        };
        let first: u32 = if n <= ring.size - ring.wroff {
            n
        } else {
            ring.size - ring.wroff
        };
        let head = slice_subrange(data, 0, first as usize);
        assert(head@ =~= data@.take(first as int));
        let wroff: u32 = ((ring.wroff as u64 + n as u64) % (ring.size as u64)) as u32;
        match write_bytes(inst, ring.pbuffer as u64 + ring.wroff as u64, head) {
            None => FillDown::commit(inst, base, wroff, n),
            Some(request) => Next::Ask(
                request,
                FillDown::Head {
                    inst,
                    base,
                    pbuffer: ring.pbuffer,
                    wroff,
                    n,
                    rest: slice_to_vec(slice_subrange(data, first as usize, n as usize)),
                },
            ),
        }
    }

    fn commit(inst: u32, base: u64, wroff: u32, n: u32) -> (next: FillNext)
        ensures
            FillDown::commits(inst, base, wroff, n, next),
    {
        Next::Ask(write_u32(inst, address(base, BUF_WROFF), wroff), FillDown::Commit { n })
    }
}

/// Begins to write as many bytes of `data` as fit into down channel `ch` of the control
/// block at `cb`, which has `num_up` up channels. The target's write offset is advanced
/// at the end.
pub fn fill_down_channel(
    inst: u32,
    cb: u64,
    num_up: u32,
    ch: u32,
    data: Vec<u8>,
) -> (next: FillNext)
    ensures
        FillDown::begins(inst, cb, num_up, ch, data@, next),
{
    if data.len() == 0 {
        return Next::Done(Ok(0));
    }
    let (request, header) = RingRead::begin(inst, descriptor_address(cb, num_up, ch));
    Next::Ask(request, FillDown::Header { header, data })
}

impl Dialogue for FillDown {
    type Out = Result<usize, RttError>;

    open spec fn continues(self, reply: Reply, next: FillNext) -> bool {
        match self {
            FillDown::Header { header, data } => match header.after(reply) {
                Next::Ask(request, then) => {
                    &&& next is Ask
                    &&& next->Ask_0 == request
                    &&& next->Ask_1 == (FillDown::Header { header: then, data })
                },
                Next::Done(Err(e)) => next == FillNext::Done(Err(e)),
                Next::Done(Ok(ring)) => FillDown::finds(
                    header.inst(),
                    header.base(),
                    ring,
                    data@,
                    next,
                ),
            },
            FillDown::Head { inst, base, pbuffer, wroff, n, rest } => match written_in(reply) {
                Err(e) => next == FillNext::Done(Err(e)),
                Ok(_) => if rest@.len() == 0 {
                    FillDown::commits(inst, base, wroff, n, next)
                } else {
                    &&& next is Ask
                    &&& next->Ask_0.writes(
                        inst,
                        pbuffer as u64,
                        1,
                        rest@.len() as u64,
                        words_of(rest@),
                    )
                    &&& next->Ask_1 == (FillDown::Front { inst, base, wroff, n })
                },
            },
            FillDown::Front { inst, base, wroff, n } => match written_in(reply) {
                Err(e) => next == FillNext::Done(Err(e)),
                Ok(_) => FillDown::commits(inst, base, wroff, n, next),
            },
            FillDown::Commit { n } => match written_in(reply) {
                Err(e) => next == FillNext::Done(Err(e)),
                Ok(_) => next == FillNext::Done(Ok(n as usize)),
            },
        }
    }

    fn resume(self, reply: Reply) -> (next: FillNext) {
        match self {
            FillDown::Header { header, data } => {
                let (inst, base) = header.whose();
                match header.resume(reply) {
                    Next::Ask(request, then) => Next::Ask(
                        request,
                        FillDown::Header { header: then, data },
                    ),
                    Next::Done(Err(e)) => Next::Done(Err(e)),
                    Next::Done(Ok(ring)) => FillDown::found(inst, base, ring, data.as_slice()),
                }
            },
            FillDown::Head { inst, base, pbuffer, wroff, n, rest } => match written(reply) {
                Err(e) => Next::Done(Err(e)),
                Ok(_) => match write_bytes(inst, pbuffer as u64, rest.as_slice()) {
                    None => FillDown::commit(inst, base, wroff, n),
                    Some(request) => Next::Ask(request, FillDown::Front { inst, base, wroff, n }),
                },
            },
            FillDown::Front { inst, base, wroff, n } => match written(reply) {
                Err(e) => Next::Done(Err(e)),
                Ok(_) => FillDown::commit(inst, base, wroff, n),
            },
            FillDown::Commit { n } => match written(reply) {
                Err(e) => Next::Done(Err(e)),
                Ok(_) => Next::Done(Ok(n as usize)),
            },
        }
    }
}

/// The memory once `bytes` have been put behind what waits in `ring`, over the end of
/// the ring where need be, with the write offset still where it was.
pub open spec fn placed(mem: Map<int, u8>, ring: Ring, bytes: Seq<u8>) -> Map<int, u8> {
    let first = unwrapped(ring, bytes.len() as int);
    stored(
        stored(mem, ring.pbuffer + ring.wroff, bytes.take(first)),
        ring.pbuffer as int,
        bytes.skip(first),
    )
}

/// The address of the slot `k` places behind the write offset.
pub open spec fn slot(ring: Ring, k: int) -> int {
    ring.pbuffer + (ring.wroff + k) % (ring.size as int)
}

/// Two memories agree on the slots of the ring but for the first `n` behind the write
/// offset.
pub open spec fn slots_kept(mem: Map<int, u8>, after: Map<int, u8>, ring: Ring, n: int) -> bool {
    forall|k: int| n <= k < ring.size ==> mem[#[trigger] slot(ring, k)] == after[slot(ring, k)]
}

/// Two memories differ inside the buffer of `ring` and in the write offset of the
/// descriptor at `base` only.
pub open spec fn only_filled(
    mem: Map<int, u8>,
    after: Map<int, u8>,
    base: u64,
    ring: Ring,
) -> bool {
    &&& forall|a: int| #[trigger] mem.contains_key(a) == after.contains_key(a)
    &&& forall|a: int|
        mem.contains_key(a) && !ring.holds(a) && !in_field(base, BUF_WROFF, a) ==> #[trigger] mem[a]
            == after[a]
}

/// Where no more bytes are placed than there is room for, they do not touch what waits,
/// and wait behind it once the write offset is moved.
proof fn lemma_placed(mem: Map<int, u8>, ring: Ring, bytes: Seq<u8>)
    requires
        ring.usable(),
        bytes.len() <= ring.room(),
        mapped(mem, ring.pbuffer as int, ring.size as int),
    ensures
        waiting(placed(mem, ring, bytes), ring) == waiting(mem, ring),
        ({
            let then = Ring { wroff: moved(ring, bytes.len() as int), ..ring };
            &&& then.usable()
            &&& then.pending() == ring.pending() + bytes.len()
            &&& waiting(placed(mem, ring, bytes), then) == waiting(mem, ring) + bytes
        }),
        forall|a: int|
            mem.contains_key(a) && !ring.holds(a) ==> #[trigger]
            mem[a] == placed(mem, ring, bytes)[a],
        forall|a: int| #[trigger]
            mem.contains_key(a) == placed(mem, ring, bytes).contains_key(a),
{
    let n = bytes.len() as int;
    let size = ring.size as int;
    let after = placed(mem, ring, bytes);
    let then = Ring { wroff: moved(ring, n), ..ring };
    lemma_pending(ring);
    lemma_wrap(ring.size, ring.wroff, n);
    lemma_pending(then);
    assert(then.pending() == ring.pending() + n);
    assert forall|k: int| 0 <= k < ring.pending() implies #[trigger] after[ring.pbuffer + (
    ring.rdoff + k) % size] == mem[ring.pbuffer + (ring.rdoff + k) % size] by {
        lemma_wrap(ring.size, ring.rdoff, k);
        assert(mem.contains_key(ring.pbuffer + (ring.rdoff + k) % size));
    }
    assert(waiting(after, ring) =~= waiting(mem, ring));
    assert forall|k: int| 0 <= k < then.pending() implies #[trigger] waiting(after, then)[k] == (
    waiting(mem, ring) + bytes)[k] by {
        lemma_wrap(ring.size, ring.rdoff, k);
        assert(mem.contains_key(ring.pbuffer + (ring.rdoff + k) % size));
        if k < ring.pending() {
            assert(after[ring.pbuffer + (ring.rdoff + k) % size] == mem[ring.pbuffer + (ring.rdoff
                + k) % size]);
        } else {
            let j = k - ring.pending();
            let first = unwrapped(ring, n);
            if j < first {
                assert(bytes.take(first)[j] == bytes[j]);
            } else {
                assert(bytes.skip(first)[j - first] == bytes[j]);
            }
        }
    }
    assert(waiting(after, then) =~= waiting(mem, ring) + bytes);
}

/// Placing the bytes up to the end of the ring is the first of the two writes.
proof fn lemma_placed_head(mem: Map<int, u8>, ring: Ring, bytes: Seq<u8>)
    requires
        ring.usable(),
    ensures
        ({
            let first = unwrapped(ring, bytes.len() as int);
            &&& placed(mem, ring, bytes.take(first)) == stored(
                mem,
                ring.pbuffer + ring.wroff,
                bytes.take(first),
            )
            &&& first == bytes.len() ==> placed(mem, ring, bytes) == stored(
                mem,
                ring.pbuffer + ring.wroff,
                bytes,
            )
        }),
{
    let first = unwrapped(ring, bytes.len() as int);
    let head = bytes.take(first);
    assert(unwrapped(ring, head.len() as int) == first);
    assert(head.take(first) =~= head);
    assert(head.skip(first) =~= Seq::empty());
    let m = stored(mem, ring.pbuffer + ring.wroff, head);
    assert(stored(m, ring.pbuffer as int, Seq::empty()) =~= m);
    if first == bytes.len() {
        assert(head =~= bytes);
    }
}

/// What is to hold where a fill of `ring` with `data` has got to `last`.
pub open spec fn fill_holds(
    mem: Map<int, u8>,
    base: u64,
    ring: Ring,
    data: Seq<u8>,
    last: FillNext,
    after: Map<int, u8>,
) -> bool {
    let n = if ring.usable() {
        accepted(ring, data.len() as int)
    } else {
        0
    };
    let then = Ring { wroff: moved(ring, n), ..ring };
    &&& only_filled(mem, after, base, ring)
    &&& slots_kept(mem, after, ring, n)
    &&& n == 0 ==> after == mem
    &&& last is Ask ==> {
        &&& ring_in(after, base) == ring
        &&& ring.usable() ==> waiting(after, ring) == waiting(mem, ring)
    }
    &&& last matches Next::Done(r) ==> {
        &&& r == Ok::<usize, RttError>(n as usize)
        &&& ring.usable() ==> {
            &&& ring_in(after, base) == then
            &&& then.usable()
            &&& then.pending() == ring.pending() + n
            &&& waiting(after, then) == waiting(mem, ring) + data.take(n)
        }
    }
}

/// The buffer of `ring` is mapped, and does not overlap the descriptor at `base`.
pub open spec fn apart(mem: Map<int, u8>, base: u64, ring: Ring) -> bool {
    &&& mapped(mem, ring.pbuffer as int, ring.size as int)
    &&& ring.clear_of(base)
}

/// The descriptor at `base` is in memory, and where its ring has room, the ring's buffer
/// is in memory beside it.
pub open spec fn writable(mem: Map<int, u8>, base: u64) -> bool {
    let ring = ring_in(mem, base);
    &&& described(mem, base)
    &&& ring.usable() && ring.room() > 0 ==> apart(mem, base, ring)
}

/// Bytes placed in the buffer leave the descriptor alone.
proof fn lemma_descriptor_kept(mem: Map<int, u8>, base: u64, ring: Ring, bytes: Seq<u8>)
    requires
        ring.usable(),
        bytes.len() <= ring.room(),
        apart(mem, base, ring),
        described(mem, base),
    ensures
        ring_in(placed(mem, ring, bytes), base) == ring_in(mem, base),
        described(placed(mem, ring, bytes), base),
        only_filled(mem, placed(mem, ring, bytes), base, ring),
{
    lemma_placed(mem, ring, bytes);
    let m = placed(mem, ring, bytes);
    assert forall|a: int| in_descriptor(base, a) implies #[trigger] mem[a] == m[a] by {
        assert(mem.contains_key(a));
    }
    lemma_same_ring(mem, m, base);
    assert forall|a: int| in_descriptor(base, a) implies #[trigger] m.contains_key(a) by {
        assert(mem.contains_key(a) == m.contains_key(a));
    }
}

/// A new write offset changes the descriptor in that field, and nothing that waits.
proof fn lemma_offset_moved(mem: Map<int, u8>, base: u64, then: Ring)
    requires
        then.usable(),
        apart(mem, base, then),
        described(mem, base),
    ensures
        ({
            let after = stored(mem, field(base, BUF_WROFF), u32_le(then.wroff));
            &&& ring_in(after, base) == (Ring { wroff: then.wroff, ..ring_in(mem, base) })
            &&& waiting(after, then) == waiting(mem, then)
        }),
{
    let after = stored(mem, field(base, BUF_WROFF), u32_le(then.wroff));
    lemma_wroff_stored(mem, base, then.wroff);
    assert(same_buffer(mem, after, then)) by {
        assert forall|a: int| then.holds(a) implies #[trigger] mem[a] == after[a] by {
            assert(mem.contains_key(a));
        }
    }
    lemma_same_waiting(mem, after, then);
}

/// Bytes that are placed leave the slots behind them alone.
proof fn lemma_slots(mem: Map<int, u8>, ring: Ring, bytes: Seq<u8>)
    requires
        ring.usable(),
        bytes.len() <= ring.room(),
        mapped(mem, ring.pbuffer as int, ring.size as int),
    ensures
        slots_kept(mem, placed(mem, ring, bytes), ring, bytes.len() as int),
{
    lemma_pending(ring);
    let after = placed(mem, ring, bytes);
    assert forall|k: int| bytes.len() <= k < ring.size implies mem[#[trigger] slot(ring, k)]
        == after[slot(ring, k)] by {
        lemma_wrap(ring.size, ring.wroff, k);
        assert(mem.contains_key(slot(ring, k)));
    }
}

/// A new write offset leaves the slots alone.
proof fn lemma_offset_slots(mem: Map<int, u8>, base: u64, ring: Ring, wroff: u32)
    requires
        ring.usable(),
        apart(mem, base, ring),
    ensures
        slots_kept(mem, stored(mem, field(base, BUF_WROFF), u32_le(wroff)), ring, 0),
{
    let after = stored(mem, field(base, BUF_WROFF), u32_le(wroff));
    assert forall|k: int| 0 <= k < ring.size implies mem[#[trigger] slot(ring, k)]
        == after[slot(ring, k)] by {
        lemma_wrap(ring.size, ring.wroff, k);
        assert(mem.contains_key(slot(ring, k)));
    }
}

/// A buffer that is mapped stays so, and stays beside the descriptor.
proof fn lemma_still_apart(mem: Map<int, u8>, base: u64, ring: Ring, bytes: Seq<u8>, wroff: u32)
    requires
        ring.usable(),
        bytes.len() <= ring.room(),
        apart(mem, base, ring),
    ensures
        apart(placed(mem, ring, bytes), base, Ring { wroff, ..ring }),
        apart(placed(mem, ring, bytes), base, ring),
{
    let m = placed(mem, ring, bytes);
    lemma_placed(mem, ring, bytes);
    assert forall|a: int| ring.pbuffer <= a < ring.pbuffer + ring.size implies #[trigger]
        m.contains_key(a) by {
        assert(mem.contains_key(a) == m.contains_key(a));
    }
}

/// The memory once `bytes` have been placed and the write offset has been moved.
pub open spec fn committed(mem: Map<int, u8>, base: u64, ring: Ring, bytes: Seq<u8>) -> Map<
    int,
    u8,
> {
    stored(
        placed(mem, ring, bytes),
        field(base, BUF_WROFF),
        u32_le(moved(ring, bytes.len() as int)),
    )
}

/// What the memory holds then.
proof fn lemma_committed(mem: Map<int, u8>, base: u64, ring: Ring, bytes: Seq<u8>)
    requires
        ring.usable(),
        ring == ring_in(mem, base),
        bytes.len() <= ring.room(),
        apart(mem, base, ring),
        described(mem, base),
    ensures
        ({
            let after = committed(mem, base, ring, bytes);
            let then = Ring { wroff: moved(ring, bytes.len() as int), ..ring };
            &&& only_filled(mem, after, base, ring)
            &&& slots_kept(mem, after, ring, bytes.len() as int)
            &&& ring_in(after, base) == then
            &&& then.usable()
            &&& then.pending() == ring.pending() + bytes.len()
            &&& waiting(after, then) == waiting(mem, ring) + bytes
        }),
{
    let wroff = moved(ring, bytes.len() as int);
    let then = Ring { wroff, ..ring };
    let m = placed(mem, ring, bytes);
    let after = committed(mem, base, ring, bytes);
    lemma_placed(mem, ring, bytes);
    lemma_descriptor_kept(mem, base, ring, bytes);
    lemma_still_apart(mem, base, ring, bytes, wroff);
    lemma_offset_moved(m, base, then);
    assert(slots_kept(mem, after, ring, bytes.len() as int)) by {
        lemma_slots(mem, ring, bytes);
        lemma_offset_slots(m, base, ring, wroff);
        assert forall|k: int| bytes.len() <= k < ring.size implies mem[#[trigger] slot(ring, k)]
            == after[slot(ring, k)] by {
            assert(m[slot(ring, k)] == after[slot(ring, k)]);
        }
    }
    assert(only_filled(mem, after, base, ring)) by {
        assert forall|a: int| #[trigger] mem.contains_key(a) == after.contains_key(a) by {
            assert(mem.contains_key(a) == m.contains_key(a));
            if in_field(base, BUF_WROFF, a) {
                assert(mem.contains_key(a));
            }
        }
    }
}

/// From the commit on.
#[verifier::rlimit(40)]
#[verifier::spinoff_prover]
proof fn lemma_commit(
    inst: u32,
    base: u64,
    ring: Ring,
    data: Seq<u8>,
    next: FillNext,
    mem: Map<int, u8>,
    talk: Seq<(Reply, FillNext)>,
    last: FillNext,
    after: Map<int, u8>,
)
    requires
        ring.usable(),
        accepted(ring, data.len() as int) > 0,
        ring == ring_in(mem, base),
        apart(mem, base, ring),
        described(mem, base),
        FillDown::commits(
            inst,
            base,
            moved(ring, accepted(ring, data.len() as int)),
            accepted(ring, data.len() as int) as u32,
            next,
        ),
        converses(
            next,
            placed(mem, ring, data.take(accepted(ring, data.len() as int))),
            talk,
            last,
            after,
        ),
    ensures
        talk.len() <= 1,
        fill_holds(mem, base, ring, data, last, after),
{
    let n = accepted(ring, data.len() as int);
    let bytes = data.take(n);
    lemma_pending(ring);
    if talk.len() > 0 {
        let m = placed(mem, ring, bytes);
        assert(described(m, base)) by {
            lemma_descriptor_kept(mem, base, ring, bytes);
        }
        lemma_u32_stored(m, next->Ask_0, inst, above(base, BUF_WROFF), moved(ring, n));
        assert(talk[0].1 is Done);
        assert(converses(talk[0].1, effect(m, next->Ask_0), talk.drop_first(), last, after));
        assert(after == committed(mem, base, ring, bytes));
        lemma_committed(mem, base, ring, bytes);
    } else {
        lemma_descriptor_kept(mem, base, ring, bytes);
        lemma_slots(mem, ring, bytes);
        assert(waiting(after, ring) == waiting(mem, ring)) by {
            lemma_placed(mem, ring, bytes);
        }
    }
}

/// From the second write on.
#[verifier::rlimit(40)]
#[verifier::spinoff_prover]
proof fn lemma_front(
    inst: u32,
    base: u64,
    ring: Ring,
    data: Seq<u8>,
    next: FillNext,
    mem: Map<int, u8>,
    talk: Seq<(Reply, FillNext)>,
    last: FillNext,
    after: Map<int, u8>,
)
    requires
        ring.usable(),
        ring == ring_in(mem, base),
        apart(mem, base, ring),
        described(mem, base),
        ({
            let n = accepted(ring, data.len() as int);
            let first = unwrapped(ring, n);
            let bytes = data.take(n);
            &&& 0 < first < n
            &&& next is Ask
            &&& next->Ask_0.writes(
                inst,
                ring.pbuffer as u64,
                1,
                (n - first) as u64,
                words_of(bytes.skip(first)),
            )
            &&& next->Ask_1 == (FillDown::Front {
                inst,
                base,
                wroff: moved(ring, n),
                n: n as u32,
            })
            &&& converses(next, placed(mem, ring, bytes.take(first)), talk, last, after)
        }),
    ensures
        talk.len() <= 2,
        fill_holds(mem, base, ring, data, last, after),
{
    let n = accepted(ring, data.len() as int);
    let first = unwrapped(ring, n);
    let bytes = data.take(n);
    let head = bytes.take(first);
    let m = placed(mem, ring, head);
    lemma_pending(ring);
    lemma_placed_head(mem, ring, bytes);
    if talk.len() == 0 {
        lemma_descriptor_kept(mem, base, ring, head);
        lemma_slots(mem, ring, head);
        assert(waiting(m, ring) == waiting(mem, ring)) by {
            lemma_placed(mem, ring, head);
        }
    } else {
        assert(mapped(m, ring.pbuffer as int, n - first)) by {
            assert forall|a: int|
                ring.pbuffer <= a < ring.pbuffer + (n - first) implies #[trigger] m.contains_key(
                a,
            ) by {
                assert(mem.contains_key(a));
            }
        }
        lemma_bytes_stored(m, next->Ask_0, inst, ring.pbuffer as u64, bytes.skip(first));
        assert(effect(m, next->Ask_0) == placed(mem, ring, bytes));
        let rest = talk.drop_first();
        assert(converses(talk[0].1, placed(mem, ring, bytes), rest, last, after));
        lemma_commit(inst, base, ring, data, talk[0].1, mem, rest, last, after);
    }
}

/// From the first write on, where there is one.
proof fn lemma_head(
    inst: u32,
    base: u64,
    ring: Ring,
    data: Seq<u8>,
    next: FillNext,
    mem: Map<int, u8>,
    talk: Seq<(Reply, FillNext)>,
    last: FillNext,
    after: Map<int, u8>,
)
    requires
        ring.usable(),
        ring.room() != 0,
        accepted(ring, data.len() as int) != 0,
        talk.len() > 0,
        ring == ring_in(mem, base),
        apart(mem, base, ring),
        described(mem, base),
        FillDown::finds(inst, base, ring, data, next),
        converses(next, mem, talk, last, after),
    ensures
        talk.len() <= 3,
        fill_holds(mem, base, ring, data, last, after),
{
    let n = accepted(ring, data.len() as int);
    let bytes = data.take(n);
    let first = unwrapped(ring, n);
    lemma_pending(ring);
    let head = bytes.take(first);
    assert(head =~= data.take(first));
    lemma_placed_head(mem, ring, bytes);
    let m = placed(mem, ring, head);
    assert(mapped(mem, ring.pbuffer + ring.wroff, first));
    lemma_bytes_stored(mem, next->Ask_0, inst, (ring.pbuffer + ring.wroff) as u64, head);
    let then = talk[0].1;
    let rest = talk.drop_first();
    assert(converses(then, m, rest, last, after));
    assert(data.subrange(first, n) =~= bytes.skip(first));
    if first == n {
        assert(head =~= bytes);
        lemma_commit(inst, base, ring, data, then, mem, rest, last, after);
    } else {
        lemma_front(inst, base, ring, data, then, mem, rest, last, after);
    }
}

/// From the descriptor on.
proof fn lemma_found(
    inst: u32,
    base: u64,
    ring: Ring,
    data: Seq<u8>,
    next: FillNext,
    mem: Map<int, u8>,
    talk: Seq<(Reply, FillNext)>,
    last: FillNext,
    after: Map<int, u8>,
)
    requires
        data.len() > 0,
        ring == ring_in(mem, base),
        writable(mem, base),
        FillDown::finds(inst, base, ring, data, next),
        converses(next, mem, talk, last, after),
    ensures
        talk.len() <= 3,
        fill_holds(mem, base, ring, data, last, after),
{
    let n = accepted(ring, data.len() as int);
    let bytes = data.take(n);
    if ring.usable() {
        lemma_pending(ring);
        if ring.room() == 0 {
            assert(bytes =~= Seq::empty());
            lemma_wrap(ring.size, ring.wroff, 0);
            assert(waiting(mem, ring) =~= waiting(mem, ring) + bytes);
        } else if talk.len() > 0 {
            lemma_head(inst, base, ring, data, next, mem, talk, last, after);
        }
    }
}

/// From the read of the descriptor on.
proof fn lemma_header(
    header: RingRead,
    data: Vec<u8>,
    mem: Map<int, u8>,
    talk: Seq<(Reply, FillNext)>,
    last: FillNext,
    after: Map<int, u8>,
)
    requires
        data@.len() > 0,
        header.agrees(ring_in(mem, header.base())),
        converses(
            FillNext::Ask(header.asked(), FillDown::Header { header, data }),
            mem,
            talk,
            last,
            after,
        ),
        writable(mem, header.base()),
    ensures
        talk.len() <= 3 + header.left(),
        fill_holds(
            mem,
            header.base(),
            ring_in(mem, header.base()),
            data@,
            last,
            after,
        ),
    decreases header.left(),
{
    if talk.len() > 0 {
        lemma_ring_read(header, mem, talk[0].0);
        let rest = talk.drop_first();
        match header.after(talk[0].0) {
            Next::Ask(request, then) => {
                lemma_header(then, data, mem, rest, last, after);
            },
            Next::Done(_) => {
                lemma_found(
                    header.inst(),
                    header.base(),
                    ring_in(mem, header.base()),
                    data@,
                    talk[0].1,
                    mem,
                    rest,
                    last,
                    after,
                );
            },
        }
    }
}

/// A fill puts as many bytes as there is room for behind those that wait in the
/// channel's ring, and tells how many. Neither what waits nor the slots behind the new
/// bytes are overwritten, nothing outside the ring's buffer and its write offset is
/// touched, and until the write offset has moved the target sees the ring as it was. It
/// takes at most seven accesses.
pub proof fn fill_appends_what_fits(
    inst: u32,
    cb: u64,
    num_up: u32,
    ch: u32,
    data: Seq<u8>,
    first: FillNext,
    mem: Map<int, u8>,
    talk: Seq<(Reply, FillNext)>,
    last: FillNext,
    after: Map<int, u8>,
)
    requires
        data.len() > 0,
        FillDown::begins(inst, cb, num_up, ch, data, first),
        converses(first, mem, talk, last, after),
        writable(mem, descriptor(cb, num_up + ch)),
    ensures
        talk.len() <= 7,
        fill_holds(
            mem,
            descriptor(cb, num_up + ch),
            ring_in(mem, descriptor(cb, num_up + ch)),
            data,
            last,
            after,
        ),
{
    let base = descriptor(cb, num_up + ch);
    let header = RingRead::Pbuffer { inst, base };
    match first->Ask_1 {
        FillDown::Header { header: h, data: d } => {
            lemma_header(header, d, mem, talk, last, after);
        },
        _ => {},
    }
}

/// A fill takes all that fits, so the next one with the rest takes nothing. Where the ring
/// is still described as the first has left it, the target not having moved its read
/// offset, the second gives zero and writes nothing, whatever else has become of the
/// memory.
pub proof fn a_second_fill_takes_nothing(
    inst: u32,
    cb: u64,
    num_up: u32,
    ch: u32,
    data: Seq<u8>,
    first: FillNext,
    mem: Map<int, u8>,
    talk: Seq<(Reply, FillNext)>,
    n: usize,
    after: Map<int, u8>,
    again: FillNext,
    later: Map<int, u8>,
    second: Seq<(Reply, FillNext)>,
    end: FillNext,
    finally: Map<int, u8>,
)
    requires
        FillDown::begins(inst, cb, num_up, ch, data, first),
        converses(first, mem, talk, FillNext::Done(Ok(n)), after),
        writable(mem, descriptor(cb, num_up + ch)),
        ring_in(later, descriptor(cb, num_up + ch)) == ring_in(after, descriptor(cb, num_up + ch)),
        described(later, descriptor(cb, num_up + ch)),
        FillDown::begins(inst, cb, num_up, ch, data.skip(n as int), again),
        converses(again, later, second, end, finally),
    ensures
        n <= data.len(),
        finally == later,
        end matches Next::Done(r) ==> r == Ok::<usize, RttError>(0),
{
    let base = descriptor(cb, num_up + ch);
    let ring = ring_in(mem, base);
    let then = ring_in(later, base);
    let rest = data.skip(n as int);
    if data.len() == 0 {
        assert(n == 0);
    } else {
        fill_appends_what_fits(
            inst,
            cb,
            num_up,
            ch,
            data,
            first,
            mem,
            talk,
            FillNext::Done(Ok(n)),
            after,
        );
        if ring.usable() {
            lemma_pending(ring);
        }
        if rest.len() > 0 {
            assert(then.usable() ==> then.room() == 0);
            fill_appends_what_fits(
                inst,
                cb,
                num_up,
                ch,
                rest,
                again,
                later,
                second,
                end,
                finally,
            );
        }
    }
}

} // verus!
