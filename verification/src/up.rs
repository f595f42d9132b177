//! Up channels: from the target to the host.

use crate::access::{
    bytes_in, bytes_read, lemma_read_served, lemma_u32_stored, read_bytes, write_u32, written,
    written_in,
};
use crate::dialogue::{contents, converses, effect, mapped, stored, Dialogue, Next};
use crate::error::RttError;
use crate::memory::{u32_le, Reply, Request, SPACE};
use crate::ring::{
    above, address, described, descriptor, descriptor_address, field, lemma_pending,
    lemma_rdoff_stored, lemma_ring_read, lemma_waiting, lemma_wrap, ring_in, waiting,
    waiting_slot, Ring, RingRead, BUF_RDOFF,
};
use vstd::prelude::*;

verus! {

/// Where the draining of an up channel has got to.
#[derive(Debug)]
pub enum DrainUp {
    /// The descriptor is being read.
    Header(RingRead),
    /// The pending bytes, which lie in one piece, were asked for.
    Span { inst: u32, base: u64, wroff: u32, n: u32 },
    /// The pending bytes up to the end of the ring were asked for.
    Tail { inst: u32, base: u64, pbuffer: u32, wroff: u32, n: u32 },
    /// Those at the front of the ring were asked for; `head` are the ones before.
    Front { inst: u32, base: u64, wroff: u32, head: Vec<u8> },
    /// The target's read offset is being moved behind `bytes`.
    Commit { bytes: Vec<u8> },
}

/// What a drain wants next. It results in the bytes that were pending.
pub type DrainNext = Next<DrainUp, Result<Vec<u8>, RttError>>;

impl DrainUp {
    /// The beginning of a drain of channel `ch`: its descriptor is read.
    pub open spec fn begins(inst: u32, cb: u64, ch: u32) -> DrainNext {
        let header = RingRead::Pbuffer { inst, base: descriptor(cb, ch as int) };
        Next::Ask(header.asked(), DrainUp::Header(header))
    }

    /// `n` bytes at `addr` are asked for, with `then` to follow.
    pub open spec fn asks(inst: u32, addr: int, n: int, then: DrainUp) -> DrainNext {
        Next::Ask(
            Request::Read { inst, space: SPACE, addr: addr as u64, width: 1, count: n as u64 },
            then,
        )
    }

    /// What follows the descriptor: nothing where no ring is described or no byte is
    /// pending, else the first read of pending bytes.
    pub open spec fn finds(inst: u32, base: u64, ring: Ring, next: DrainNext) -> bool {
        if !ring.usable() || ring.wroff == ring.rdoff {
            next matches Next::Done(Ok(bytes)) && bytes@ == Seq::<u8>::empty()
        } else if ring.wroff > ring.rdoff {
            let n = (ring.wroff - ring.rdoff) as u32;
            next == DrainUp::asks(
                inst,
                ring.pbuffer + ring.rdoff,
                n as int,
                DrainUp::Span { inst, base, wroff: ring.wroff, n },
            )
        } else {
            let n = (ring.size - ring.rdoff) as u32;
            next == DrainUp::asks(
                inst,
                ring.pbuffer + ring.rdoff,
                n as int,
                DrainUp::Tail { inst, base, pbuffer: ring.pbuffer, wroff: ring.wroff, n },
            )
        }
    }

    /// The read offset is moved to `wroff`, now that `bytes` have been read.
    pub open spec fn commits(
        inst: u32,
        base: u64,
        wroff: u32,
        bytes: Seq<u8>,
        next: DrainNext,
    ) -> bool {
        &&& next is Ask
        &&& next->Ask_0.writes(inst, above(base, BUF_RDOFF), 4, 1, seq![wroff as u64])
        &&& next->Ask_1 matches DrainUp::Commit { bytes: b } && b@ == bytes
    }

    fn found(inst: u32, base: u64, ring: Ring) -> (next: DrainNext)
        ensures
            DrainUp::finds(inst, base, ring, next),
    {
        if !ring.is_usable() || ring.wroff == ring.rdoff {
            return Next::Done(Ok(Vec::new()));
        }
        let addr: u64 = ring.pbuffer as u64 + ring.rdoff as u64;
        if ring.wroff > ring.rdoff {
            let n: u32 = ring.wroff - ring.rdoff;
            Next::Ask(
                Request::Read { inst, space: SPACE, addr, width: 1, count: n as u64 },
                DrainUp::Span { inst, base, wroff: ring.wroff, n },
            )
        } else {
            let n: u32 = ring.size - ring.rdoff;
            Next::Ask(
                Request::Read { inst, space: SPACE, addr, width: 1, count: n as u64 },
                DrainUp::Tail { inst, base, pbuffer: ring.pbuffer, wroff: ring.wroff, n },
            )
        }
    }

    fn commit(inst: u32, base: u64, wroff: u32, bytes: Vec<u8>) -> (next: DrainNext)
        ensures
            DrainUp::commits(inst, base, wroff, bytes@, next),
    {
        Next::Ask(
            write_u32(inst, address(base, BUF_RDOFF), wroff),
            DrainUp::Commit { bytes },
        )
    }
}

/// Begins to read all pending bytes of up channel `ch` of the control block at `cb`.
/// The target's read offset is advanced at the end, so that the ring keeps flowing.
pub fn drain_up_channel(inst: u32, cb: u64, ch: u32) -> (r: (Request, DrainUp))
    ensures
        DrainNext::Ask(r.0, r.1) == DrainUp::begins(inst, cb, ch),
{
    let (request, header) = RingRead::begin(inst, descriptor_address(cb, 0, ch));
    (request, DrainUp::Header(header))
}

impl Dialogue for DrainUp {
    type Out = Result<Vec<u8>, RttError>;

    open spec fn continues(self, reply: Reply, next: DrainNext) -> bool {
        match self {
            DrainUp::Header(header) => match header.after(reply) {
                Next::Ask(request, then) => next == DrainNext::Ask(request, DrainUp::Header(then)),
                Next::Done(Err(e)) => next == DrainNext::Done(Err(e)),
                Next::Done(Ok(ring)) => DrainUp::finds(header.inst(), header.base(), ring, next),
            },
            DrainUp::Span { inst, base, wroff, n } => match bytes_in(reply, n as u64) {
                Err(e) => next == DrainNext::Done(Err(e)),
                Ok(bytes) => DrainUp::commits(inst, base, wroff, bytes, next),
            },
            DrainUp::Tail { inst, base, pbuffer, wroff, n } => match bytes_in(reply, n as u64) {
                Err(e) => next == DrainNext::Done(Err(e)),
                Ok(bytes) => if wroff == 0 {
                    DrainUp::commits(inst, base, wroff, bytes, next)
                } else {
                    &&& next is Ask
                    &&& next->Ask_0.reads(inst, pbuffer as u64, wroff as u64)
                    &&& next->Ask_1 matches DrainUp::Front {
                        inst: i,
                        base: b,
                        wroff: w,
                        head,
                    } && i == inst && b == base && w == wroff && head@ == bytes
                },
            },
            DrainUp::Front { inst, base, wroff, head } => match bytes_in(reply, wroff as u64) {
                Err(e) => next == DrainNext::Done(Err(e)),
                Ok(bytes) => DrainUp::commits(inst, base, wroff, head@ + bytes, next),
            },
            DrainUp::Commit { bytes } => match written_in(reply) {
                Err(e) => next == DrainNext::Done(Err(e)),
                Ok(_) => next == DrainNext::Done(Ok(bytes)),
            },
        }
    }

    fn resume(self, reply: Reply) -> (next: DrainNext) {
        match self {
            DrainUp::Header(header) => {
                let (inst, base) = header.whose();
                match header.resume(reply) {
                    Next::Ask(request, then) => Next::Ask(request, DrainUp::Header(then)),
                    Next::Done(Err(e)) => Next::Done(Err(e)),
                    Next::Done(Ok(ring)) => DrainUp::found(inst, base, ring),
                }
            },
            DrainUp::Span { inst, base, wroff, n } => match bytes_read(reply, n as u64) {
                Err(e) => Next::Done(Err(e)),
                Ok(bytes) => DrainUp::commit(inst, base, wroff, bytes),
            },
            DrainUp::Tail { inst, base, pbuffer, wroff, n } => match bytes_read(reply, n as u64) {
                Err(e) => Next::Done(Err(e)),
                Ok(head) => match read_bytes(inst, pbuffer as u64, wroff as u64) {
                    None => DrainUp::commit(inst, base, wroff, head),
                    Some(request) => Next::Ask(
                        request,
                        DrainUp::Front { inst, base, wroff, head },
                    ),
                },
            },
            DrainUp::Front { inst, base, wroff, head } => match bytes_read(reply, wroff as u64) {
                Err(e) => Next::Done(Err(e)),
                Ok(front) => {
                    let mut bytes = head;
                    let mut front = front;
                    bytes.append(&mut front);
                    DrainUp::commit(inst, base, wroff, bytes)
                },
            },
            DrainUp::Commit { bytes } => match written(reply) {
                Err(e) => Next::Done(Err(e)),
                Ok(_) => Next::Done(Ok(bytes)),
            },
        }
    }
}

/// What a drain of `ring` is to give: the bytes that wait in it, none where no ring is
/// described.
pub open spec fn drained(mem: Map<int, u8>, ring: Ring) -> Seq<u8> {
    if ring.usable() {
        waiting(mem, ring)
    } else {
        Seq::empty()
    }
}

/// The slots in which bytes wait are in memory.
pub open spec fn waiting_mapped(mem: Map<int, u8>, ring: Ring) -> bool {
    forall|k: int|
        0 <= k < ring.pending() ==> mem.contains_key(#[trigger] waiting_slot(ring, k))
}

/// The descriptor at `base` is in memory, and so are the bytes that wait in its ring.
pub open spec fn readable(mem: Map<int, u8>, base: u64) -> bool {
    &&& described(mem, base)
    &&& ring_in(mem, base).usable() ==> waiting_mapped(mem, ring_in(mem, base))
}

/// A ring whose whole buffer is in memory can be read.
pub proof fn lemma_readable(mem: Map<int, u8>, base: u64)
    requires
        described(mem, base),
        ring_in(mem, base).usable() ==> mapped(
            mem,
            ring_in(mem, base).pbuffer as int,
            ring_in(mem, base).size as int,
        ),
    ensures
        readable(mem, base),
{
    let ring = ring_in(mem, base);
    if ring.usable() {
        lemma_pending(ring);
        assert forall|k: int| 0 <= k < ring.pending() implies mem.contains_key(
            #[trigger] waiting_slot(ring, k),
        ) by {
            lemma_wrap(ring.size, ring.rdoff, k);
        }
    }
}

/// The bytes that wait lie in one piece that is mapped, or in two.
proof fn lemma_pieces_mapped(mem: Map<int, u8>, ring: Ring)
    requires
        ring.usable(),
        waiting_mapped(mem, ring),
    ensures
        ring.rdoff <= ring.wroff ==> mapped(
            mem,
            ring.pbuffer + ring.rdoff,
            ring.wroff - ring.rdoff,
        ),
        ring.rdoff > ring.wroff ==> mapped(mem, ring.pbuffer + ring.rdoff, ring.size - ring.rdoff)
            && mapped(mem, ring.pbuffer as int, ring.wroff as int),
{
    lemma_pending(ring);
    let from = ring.pbuffer + ring.rdoff;
    let n = if ring.rdoff <= ring.wroff {
        ring.wroff - ring.rdoff
    } else {
        ring.size - ring.rdoff
    };
    assert forall|a: int| from <= a < from + n implies #[trigger] mem.contains_key(a) by {
        lemma_wrap(ring.size, ring.rdoff, a - from);
        assert(a == waiting_slot(ring, a - from));
    }
    if ring.rdoff > ring.wroff {
        assert forall|a: int|
            ring.pbuffer <= a < ring.pbuffer + ring.wroff implies #[trigger] mem.contains_key(
            a,
        ) by {
            let k = a - ring.pbuffer + n;
            lemma_wrap(ring.size, ring.rdoff, k);
            assert(a == waiting_slot(ring, k));
        }
    }
}

/// From the commit on, the drain ends with the bytes that were read and moves the read
/// offset.
proof fn lemma_commit(
    inst: u32,
    base: u64,
    wroff: u32,
    bytes: Seq<u8>,
    next: DrainNext,
    mem: Map<int, u8>,
    talk: Seq<(Reply, DrainNext)>,
    last: DrainNext,
    after: Map<int, u8>,
)
    requires
        DrainUp::commits(inst, base, wroff, bytes, next),
        converses(next, mem, talk, last, after),
        described(mem, base),
    ensures
        talk.len() <= 1,
        last is Ask ==> after == mem,
        last matches Next::Done(r) ==> r is Ok && r->Ok_0@ == bytes && after == stored(
            mem,
            field(base, BUF_RDOFF),
            u32_le(wroff),
        ),
{
    if talk.len() > 0 {
        lemma_u32_stored(mem, next->Ask_0, inst, above(base, BUF_RDOFF), wroff);
        let rest = talk.drop_first();
        assert(talk[0].1 is Done);
        assert(converses(talk[0].1, effect(mem, next->Ask_0), rest, last, after));
        assert(rest.len() == 0);
    }
}

/// From the last read on.
proof fn lemma_front(
    inst: u32,
    base: u64,
    pbuffer: u32,
    wroff: u32,
    head: Seq<u8>,
    next: DrainNext,
    mem: Map<int, u8>,
    talk: Seq<(Reply, DrainNext)>,
    last: DrainNext,
    after: Map<int, u8>,
)
    requires
        next is Ask,
        next->Ask_0.reads(inst, pbuffer as u64, wroff as u64),
        next->Ask_1 matches DrainUp::Front { inst: i, base: b, wroff: w, head: h } && i == inst
            && b == base && w == wroff && h@ == head,
        converses(next, mem, talk, last, after),
        described(mem, base),
        mapped(mem, pbuffer as int, wroff as int),
    ensures
        talk.len() <= 2,
        last is Ask ==> after == mem,
        last matches Next::Done(r) ==> r is Ok && r->Ok_0@ == head + contents(
            mem,
            pbuffer as int,
            wroff as nat,
        ) && after == stored(mem, field(base, BUF_RDOFF), u32_le(wroff)),
{
    if talk.len() > 0 {
        lemma_read_served(mem, next->Ask_0, talk[0].0, inst, pbuffer as u64, wroff as u64);
        lemma_commit(
            inst,
            base,
            wroff,
            head + contents(mem, pbuffer as int, wroff as nat),
            talk[0].1,
            mem,
            talk.drop_first(),
            last,
            after,
        );
    }
}

/// From the descriptor on.
proof fn lemma_found(
    inst: u32,
    base: u64,
    ring: Ring,
    next: DrainNext,
    mem: Map<int, u8>,
    talk: Seq<(Reply, DrainNext)>,
    last: DrainNext,
    after: Map<int, u8>,
)
    requires
        DrainUp::finds(inst, base, ring, next),
        converses(next, mem, talk, last, after),
        described(mem, base),
        ring.usable() ==> waiting_mapped(mem, ring),
    ensures
        talk.len() <= 3,
        last is Ask ==> after == mem,
        last matches Next::Done(r) ==> r is Ok && r->Ok_0@ == drained(mem, ring) && after == (
        if drained(mem, ring).len() == 0 {
            mem
        } else {
            stored(mem, field(base, BUF_RDOFF), u32_le(ring.wroff))
        }),
{
    if !ring.usable() || ring.wroff == ring.rdoff {
        if ring.usable() {
            lemma_pending(ring);
            assert(waiting(mem, ring) =~= Seq::empty());
        }
    } else {
        lemma_pending(ring);
        lemma_waiting(mem, ring);
        lemma_pieces_mapped(mem, ring);
        if talk.len() > 0 {
            let addr = ring.pbuffer + ring.rdoff;
            let n = if ring.wroff > ring.rdoff {
                ring.wroff - ring.rdoff
            } else {
                ring.size - ring.rdoff
            };
            lemma_read_served(mem, next->Ask_0, talk[0].0, inst, addr as u64, n as u64);
            let got = contents(mem, addr, n as nat);
            let rest = talk.drop_first();
            if ring.wroff > ring.rdoff || ring.wroff == 0 {
                assert(waiting(mem, ring) =~= got);
                lemma_commit(inst, base, ring.wroff, got, talk[0].1, mem, rest, last, after);
            } else {
                assert(waiting(mem, ring) =~= got + contents(
                    mem,
                    ring.pbuffer as int,
                    ring.wroff as nat,
                ));
                lemma_front(
                    inst,
                    base,
                    ring.pbuffer,
                    ring.wroff,
                    got,
                    talk[0].1,
                    mem,
                    rest,
                    last,
                    after,
                );
            }
        }
    }
}

/// From the read of the descriptor on.
proof fn lemma_header(
    header: RingRead,
    mem: Map<int, u8>,
    talk: Seq<(Reply, DrainNext)>,
    last: DrainNext,
    after: Map<int, u8>,
)
    requires
        header.agrees(ring_in(mem, header.base())),
        converses(DrainNext::Ask(header.asked(), DrainUp::Header(header)), mem, talk, last, after),
        readable(mem, header.base()),
    ensures
        talk.len() <= 3 + header.left(),
        last is Ask ==> after == mem,
        last matches Next::Done(r) ==> {
            let ring = ring_in(mem, header.base());
            &&& r is Ok
            &&& r->Ok_0@ == drained(mem, ring)
            &&& after == (if drained(mem, ring).len() == 0 {
                mem
            } else {
                stored(mem, field(header.base(), BUF_RDOFF), u32_le(ring.wroff))
            })
        },
    decreases header.left(),
{
    if talk.len() > 0 {
        lemma_ring_read(header, mem, talk[0].0);
        let rest = talk.drop_first();
        match header.after(talk[0].0) {
            Next::Ask(request, then) => {
                lemma_header(then, mem, rest, last, after);
            },
            Next::Done(_) => {
                lemma_found(
                    header.inst(),
                    header.base(),
                    ring_in(mem, header.base()),
                    talk[0].1,
                    mem,
                    rest,
                    last,
                    after,
                );
            },
        }
    }
}

/// A drain gives exactly the bytes that wait in the channel's ring, oldest first, and
/// leaves memory as it was but for the read offset, which has caught up with the write
/// offset: nothing waits any more. It takes at most seven accesses, and changes nothing
/// before the last one.
pub proof fn drain_takes_what_waits(
    inst: u32,
    cb: u64,
    ch: u32,
    mem: Map<int, u8>,
    talk: Seq<(Reply, DrainNext)>,
    last: DrainNext,
    after: Map<int, u8>,
)
    requires
        converses(DrainUp::begins(inst, cb, ch), mem, talk, last, after),
        readable(mem, descriptor(cb, ch as int)),
    ensures
        talk.len() <= 7,
        last is Ask ==> after == mem,
        last matches Next::Done(r) ==> {
            let base = descriptor(cb, ch as int);
            let ring = ring_in(mem, base);
            &&& r is Ok
            &&& r->Ok_0@ == drained(mem, ring)
            &&& after == (if drained(mem, ring).len() == 0 {
                mem
            } else {
                stored(mem, field(base, BUF_RDOFF), u32_le(ring.wroff))
            })
            &&& ring_in(after, base) == (if ring.usable() {
                Ring { rdoff: ring.wroff, ..ring }
            } else {
                ring
            })
            &&& drained(after, ring_in(after, base)).len() == 0
        },
{
    let base = descriptor(cb, ch as int);
    let ring = ring_in(mem, base);
    let header = RingRead::Pbuffer { inst, base };
    lemma_header(header, mem, talk, last, after);
    if last is Done && ring.usable() {
        lemma_pending(ring);
        lemma_pending(Ring { rdoff: ring.wroff, ..ring });
        if drained(mem, ring).len() != 0 {
            lemma_rdoff_stored(mem, base, ring.wroff);
        } else {
            assert(ring.wroff == ring.rdoff);
        }
    }
}

/// No byte is drained twice. Where the ring is still described as a drain has left it, the
/// target not having moved its write offset, the next drain gives nothing and writes
/// nothing, whatever else has become of the memory.
pub proof fn a_second_drain_finds_nothing(
    inst: u32,
    cb: u64,
    ch: u32,
    mem: Map<int, u8>,
    talk: Seq<(Reply, DrainNext)>,
    last: DrainNext,
    after: Map<int, u8>,
    later: Map<int, u8>,
    second: Seq<(Reply, DrainNext)>,
    end: DrainNext,
    finally: Map<int, u8>,
)
    requires
        converses(DrainUp::begins(inst, cb, ch), mem, talk, last, after),
        readable(mem, descriptor(cb, ch as int)),
        last is Done,
        ring_in(later, descriptor(cb, ch as int)) == ring_in(after, descriptor(cb, ch as int)),
        described(later, descriptor(cb, ch as int)),
        converses(DrainUp::begins(inst, cb, ch), later, second, end, finally),
    ensures
        finally == later,
        end matches Next::Done(r) ==> r is Ok && r->Ok_0@ == Seq::<u8>::empty(),
{
    let base = descriptor(cb, ch as int);
    let ring = ring_in(mem, base);
    let then = ring_in(later, base);
    drain_takes_what_waits(inst, cb, ch, mem, talk, last, after);
    if ring.usable() {
        lemma_pending(then);
    }
    drain_takes_what_waits(inst, cb, ch, later, second, end, finally);
    if let Next::Done(r) = end {
        assert(r->Ok_0@ =~= Seq::<u8>::empty());
    }
}

} // verus!
