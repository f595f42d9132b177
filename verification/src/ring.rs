//! The ring buffers of an RTT control block.
//!
//! A 32-bit target lays the block out as `char acID[16]; i32 MaxNumUpBuffers;
//! i32 MaxNumDownBuffers;`, then the descriptors of the up buffers, then those of
//! the down buffers. A descriptor is `const char* sName; char* pBuffer;
//! u32 SizeOfBuffer; u32 WrOff; u32 RdOff; u32 Flags;`.
//!
//! Addresses are computed modulo 2^64, as the target's bus would see them.

use crate::access::{lemma_read_served, read_u32, u32_in, u32_read};
use crate::dialogue::{contents, mapped, served, stored, Dialogue, Next};
use crate::error::RttError;
use crate::memory::{le_u32, u32_le, u32_round_trips, Reply, Request, SPACE};
use vstd::prelude::*;

verus! {

pub const CB_MAX_UP_OFFSET: u64 = 16;

pub const CB_MAX_DOWN_OFFSET: u64 = 20;

pub const CB_BUFFERS_OFFSET: u64 = 24;

pub const BUFFER_STRIDE: u64 = 24;

pub const BUF_PBUFFER: u64 = 4;

pub const BUF_SIZE: u64 = 8;

pub const BUF_WROFF: u64 = 12;

pub const BUF_RDOFF: u64 = 16;

/// The address `offset` bytes above `addr`.
pub open spec fn above(addr: u64, offset: u64) -> u64 {
    ((addr + offset) % 0x1_0000_0000_0000_0000) as u64
}

/// The address `offset` bytes above `addr`.
pub fn address(addr: u64, offset: u64) -> (r: u64)
    ensures
        r == above(addr, offset),
{
    addr.wrapping_add(offset)
}

/// The address of descriptor number `index` of the control block at `cb`, the up
/// buffers counted before the down buffers.
pub open spec fn descriptor(cb: u64, index: int) -> u64 {
    ((cb + CB_BUFFERS_OFFSET + index * BUFFER_STRIDE) % 0x1_0000_0000_0000_0000) as u64
}

/// The address of descriptor number `first + ch` of the control block at `cb`.
pub fn descriptor_address(cb: u64, first: u32, ch: u32) -> (r: u64)
    ensures
        r == descriptor(cb, first + ch),
{
    let offset: u64 = CB_BUFFERS_OFFSET + (first as u64 + ch as u64) * BUFFER_STRIDE;
    cb.wrapping_add(offset)
}

/// Where the field at `offset` of the descriptor at `base` is.
pub open spec fn field(base: u64, offset: u64) -> int {
    above(base, offset) as int
}

/// `a` lies in the field at `offset` of the descriptor at `base`.
pub open spec fn in_field(base: u64, offset: u64, a: int) -> bool {
    field(base, offset) <= a < field(base, offset) + 4
}

/// `a` lies in one of the fields by which the descriptor at `base` describes its ring.
pub open spec fn in_descriptor(base: u64, a: int) -> bool {
    ||| in_field(base, BUF_PBUFFER, a)
    ||| in_field(base, BUF_SIZE, a)
    ||| in_field(base, BUF_WROFF, a)
    ||| in_field(base, BUF_RDOFF, a)
}

/// The fields by which the descriptor at `base` describes its ring are in memory.
pub open spec fn described(mem: Map<int, u8>, base: u64) -> bool {
    &&& mapped(mem, field(base, BUF_PBUFFER), 4)
    &&& mapped(mem, field(base, BUF_SIZE), 4)
    &&& mapped(mem, field(base, BUF_WROFF), 4)
    &&& mapped(mem, field(base, BUF_RDOFF), 4)
}

/// Four bytes at `a` do not overlap four bytes at `b`.
pub open spec fn disjoint(a: int, b: int) -> bool {
    a + 4 <= b || b + 4 <= a
}

/// No two fields of a descriptor overlap.
pub proof fn lemma_fields(base: u64)
    ensures
        disjoint(field(base, BUF_PBUFFER), field(base, BUF_SIZE)),
        disjoint(field(base, BUF_PBUFFER), field(base, BUF_WROFF)),
        disjoint(field(base, BUF_PBUFFER), field(base, BUF_RDOFF)),
        disjoint(field(base, BUF_SIZE), field(base, BUF_WROFF)),
        disjoint(field(base, BUF_SIZE), field(base, BUF_RDOFF)),
        disjoint(field(base, BUF_WROFF), field(base, BUF_RDOFF)),
{
}

/// Addresses that are neither close nor a whole address space apart stay apart when they
/// wrap around.
proof fn lemma_apart_around(x: int, y: int)
    requires
        0 <= x,
        x + 4 <= y <= x + 0x1_0000_0000_0000,
    ensures
        disjoint(x % 0x1_0000_0000_0000_0000, y % 0x1_0000_0000_0000_0000),
{
}

/// Fields of two descriptors of a control block do not overlap.
proof fn lemma_fields_of_two(cb: u64, i: int, j: int, o: u64, p: u64)
    requires
        0 <= i < j <= 2 * u32::MAX,
        BUF_PBUFFER <= o <= BUF_RDOFF,
        BUF_PBUFFER <= p <= BUF_RDOFF,
    ensures
        disjoint(field(descriptor(cb, i), o), field(descriptor(cb, j), p)),
{
    let x = cb + CB_BUFFERS_OFFSET + i * BUFFER_STRIDE;
    let y = cb + CB_BUFFERS_OFFSET + j * BUFFER_STRIDE;
    assert(field(descriptor(cb, i), o) == (x + o) % 0x1_0000_0000_0000_0000);
    assert(field(descriptor(cb, j), p) == (y + p) % 0x1_0000_0000_0000_0000);
    lemma_apart_around(x + o, y + p);
}

/// The offset of the field of the descriptor at `base` that `a` lies in.
spec fn offset_of(base: u64, a: int) -> u64 {
    if in_field(base, BUF_PBUFFER, a) {
        BUF_PBUFFER
    } else if in_field(base, BUF_SIZE, a) {
        BUF_SIZE
    } else if in_field(base, BUF_WROFF, a) {
        BUF_WROFF
    } else {
        BUF_RDOFF
    }
}

/// No two descriptors of a control block overlap.
pub proof fn lemma_descriptors(cb: u64, i: int, j: int, a: int)
    requires
        i != j,
        0 <= i <= 2 * u32::MAX,
        0 <= j <= 2 * u32::MAX,
        in_descriptor(descriptor(cb, i), a),
    ensures
        !in_descriptor(descriptor(cb, j), a),
{
    if in_descriptor(descriptor(cb, j), a) {
        let o = offset_of(descriptor(cb, i), a);
        let p = offset_of(descriptor(cb, j), a);
        if i < j {
            lemma_fields_of_two(cb, i, j, o, p);
        } else {
            lemma_fields_of_two(cb, j, i, p, o);
        }
    }
}

/// What a descriptor says of its ring.
#[derive(Debug, Clone, Copy)]
pub struct Ring {
    /// Where the ring's bytes are.
    pub pbuffer: u32,
    /// How many there are.
    pub size: u32,
    /// Where the producer writes next.
    pub wroff: u32,
    /// Where the consumer reads next.
    pub rdoff: u32,
}

impl Ring {
    /// The descriptor describes a ring: it has been set up, and the offsets lie inside.
    pub open spec fn usable(self) -> bool {
        &&& self.size != 0
        &&& self.pbuffer != 0
        &&& self.wroff < self.size
        &&& self.rdoff < self.size
    }

    /// How many bytes wait for the consumer.
    pub open spec fn pending(self) -> int {
        (self.wroff - self.rdoff) % (self.size as int)
    }

    /// How many bytes the producer can add. One slot stays empty, so that a full ring
    /// differs from an empty one.
    pub open spec fn room(self) -> int {
        self.size - 1 - self.pending()
    }

    /// `a` lies in the ring's buffer.
    pub open spec fn holds(self, a: int) -> bool {
        self.pbuffer <= a < self.pbuffer + self.size
    }

    /// The ring's buffer does not overlap the four bytes at `at`.
    pub open spec fn beside(self, at: int) -> bool {
        self.pbuffer + self.size <= at || at + 4 <= self.pbuffer
    }

    /// The ring's buffer does not overlap the fields of the descriptor at `base`.
    pub open spec fn clear_of(self, base: u64) -> bool {
        &&& self.beside(field(base, BUF_PBUFFER))
        &&& self.beside(field(base, BUF_SIZE))
        &&& self.beside(field(base, BUF_WROFF))
        &&& self.beside(field(base, BUF_RDOFF))
    }

    /// Whether the descriptor describes a ring.
    pub fn is_usable(&self) -> (r: bool)
        ensures
            r == self.usable(),
    {
        !(self.size == 0 || self.pbuffer == 0 || self.wroff >= self.size || self.rdoff
            >= self.size)
    }

    /// How many bytes the producer can add.
    pub fn free(&self) -> (r: u32)
        requires
            self.usable(),
        ensures
            r == self.room(),
            self.pending() >= 0,
            r < self.size,
    {
        proof {
            lemma_pending(*self);
        }
        if self.rdoff <= self.wroff {
            self.size - 1 - self.wroff + self.rdoff
        } else {
            self.rdoff - self.wroff - 1
        }
    }
}

/// The pending bytes run from the read offset to the write offset, over the end of the
/// ring where the write offset is the smaller one.
pub proof fn lemma_pending(ring: Ring)
    requires
        ring.usable(),
    ensures
        ring.pending() == (if ring.rdoff <= ring.wroff {
            ring.wroff - ring.rdoff
        } else {
            ring.wroff - ring.rdoff + ring.size
        }),
        0 <= ring.pending() < ring.size,
{
    let d = ring.size as int;
    let x = ring.wroff - ring.rdoff;
    if x >= 0 {
        vstd::arithmetic::div_mod::lemma_small_mod(x as nat, d as nat);
    } else {
        vstd::arithmetic::div_mod::lemma_small_mod((x + d) as nat, d as nat);
        vstd::arithmetic::div_mod::lemma_mod_add_multiples_vanish(x, d);
    }
}

/// A ring without room is not taken for an empty one: as long as it has a slot to fill at
/// all, its offsets differ.
pub proof fn full_is_not_empty(ring: Ring)
    requires
        ring.usable(),
        ring.size > 1,
        ring.room() == 0,
    ensures
        ring.wroff != ring.rdoff,
        ring.pending() == ring.size - 1,
{
    lemma_pending(ring);
}

/// An offset counted on from the read offset leaves the ring at its end and comes back
/// in at its front.
pub proof fn lemma_wrap(size: u32, from: u32, k: int)
    requires
        from < size,
        0 <= k <= size,
    ensures
        (from + k) % (size as int) == (if from + k < size {
            from + k
        } else {
            from + k - size
        }),
{
    let d = size as int;
    if from + k < d {
        vstd::arithmetic::div_mod::lemma_small_mod((from + k) as nat, d as nat);
    } else {
        vstd::arithmetic::div_mod::lemma_small_mod((from + k - d) as nat, d as nat);
        vstd::arithmetic::div_mod::lemma_mod_add_multiples_vanish(from + k - d, d);
    }
}

/// The bytes that wait lie in one piece, or at the end and at the front of the ring.
pub proof fn lemma_waiting(mem: Map<int, u8>, ring: Ring)
    requires
        ring.usable(),
    ensures
        ring.rdoff <= ring.wroff ==> waiting(mem, ring) == contents(
            mem,
            ring.pbuffer + ring.rdoff,
            (ring.wroff - ring.rdoff) as nat,
        ),
        ring.rdoff > ring.wroff ==> waiting(mem, ring) == contents(
            mem,
            ring.pbuffer + ring.rdoff,
            (ring.size - ring.rdoff) as nat,
        ) + contents(mem, ring.pbuffer as int, ring.wroff as nat),
{
    lemma_pending(ring);
    assert forall|k: int| 0 <= k < ring.pending() implies #[trigger] waiting(mem, ring)[k] == (
    if ring.rdoff + k < ring.size {
        mem[ring.pbuffer + ring.rdoff + k]
    } else {
        mem[ring.pbuffer + (ring.rdoff + k - ring.size)]
    }) by {
        lemma_wrap(ring.size, ring.rdoff, k);
    }
    if ring.rdoff <= ring.wroff {
        assert(waiting(mem, ring) =~= contents(
            mem,
            ring.pbuffer + ring.rdoff,
            (ring.wroff - ring.rdoff) as nat,
        ));
    } else {
        assert(waiting(mem, ring) =~= contents(
            mem,
            ring.pbuffer + ring.rdoff,
            (ring.size - ring.rdoff) as nat,
        ) + contents(mem, ring.pbuffer as int, ring.wroff as nat));
    }
}

/// The ring that the descriptor at `base` describes in the memory `mem`.
pub open spec fn ring_in(mem: Map<int, u8>, base: u64) -> Ring {
    Ring {
        pbuffer: le_u32(contents(mem, field(base, BUF_PBUFFER), 4)),
        size: le_u32(contents(mem, field(base, BUF_SIZE), 4)),
        wroff: le_u32(contents(mem, field(base, BUF_WROFF), 4)),
        rdoff: le_u32(contents(mem, field(base, BUF_RDOFF), 4)),
    }
}

/// The address of the slot `k` places behind the read offset.
pub open spec fn waiting_slot(ring: Ring, k: int) -> int {
    ring.pbuffer + (ring.rdoff + k) % (ring.size as int)
}

/// The bytes that wait in the ring, oldest first.
pub open spec fn waiting(mem: Map<int, u8>, ring: Ring) -> Seq<u8> {
    Seq::new(ring.pending() as nat, |k: int| mem[waiting_slot(ring, k)])
}

/// Two memories agree on the buffer of `ring`.
pub open spec fn same_buffer(mem: Map<int, u8>, after: Map<int, u8>, ring: Ring) -> bool {
    forall|a: int| ring.holds(a) ==> #[trigger] mem[a] == after[a]
}

/// What waits in a ring is the same in two memories that agree on its buffer.
pub proof fn lemma_same_waiting(mem: Map<int, u8>, after: Map<int, u8>, ring: Ring)
    requires
        ring.usable(),
        same_buffer(mem, after, ring),
    ensures
        waiting(after, ring) == waiting(mem, ring),
{
    lemma_pending(ring);
    assert forall|k: int| 0 <= k < ring.pending() implies #[trigger] waiting(after, ring)[k]
        == waiting(mem, ring)[k] by {
        lemma_wrap(ring.size, ring.rdoff, k);
        let a = ring.pbuffer + (ring.rdoff + k) % (ring.size as int);
        assert(mem[a] == after[a]);
    }
    assert(waiting(after, ring) =~= waiting(mem, ring));
}

/// Two memories that agree on a descriptor describe the same ring there.
pub proof fn lemma_same_ring(mem: Map<int, u8>, after: Map<int, u8>, base: u64)
    requires
        forall|a: int| in_descriptor(base, a) ==> #[trigger] mem[a] == after[a],
    ensures
        ring_in(after, base) == ring_in(mem, base),
{
    assert(contents(after, field(base, BUF_PBUFFER), 4) =~= contents(
        mem,
        field(base, BUF_PBUFFER),
        4,
    ));
    assert(contents(after, field(base, BUF_SIZE), 4) =~= contents(mem, field(base, BUF_SIZE), 4));
    assert(contents(after, field(base, BUF_WROFF), 4) =~= contents(
        mem,
        field(base, BUF_WROFF),
        4,
    ));
    assert(contents(after, field(base, BUF_RDOFF), 4) =~= contents(
        mem,
        field(base, BUF_RDOFF),
        4,
    ));
}

/// A number that has been stored is there.
proof fn lemma_number_stored(mem: Map<int, u8>, at: int, val: u32)
    ensures
        le_u32(contents(stored(mem, at, u32_le(val)), at, 4)) == val,
{
    u32_round_trips(val);
    assert(contents(stored(mem, at, u32_le(val)), at, 4) =~= u32_le(val));
}

/// A number that is stored leaves another one alone.
proof fn lemma_number_kept(mem: Map<int, u8>, at: int, val: u32, other: int)
    requires
        disjoint(at, other),
        mapped(mem, other, 4),
    ensures
        contents(stored(mem, at, u32_le(val)), other, 4) == contents(mem, other, 4),
{
    assert forall|k: int| 0 <= k < 4 implies #[trigger] contents(
        stored(mem, at, u32_le(val)),
        other,
        4,
    )[k] == contents(mem, other, 4)[k] by {
        assert(mem.contains_key(other + k));
    }
    assert(contents(stored(mem, at, u32_le(val)), other, 4) =~= contents(mem, other, 4));
}

/// A descriptor whose write offset has been overwritten is the same but for that field.
pub proof fn lemma_wroff_stored(mem: Map<int, u8>, base: u64, wroff: u32)
    requires
        described(mem, base),
    ensures
        ring_in(stored(mem, field(base, BUF_WROFF), u32_le(wroff)), base) == (Ring {
            wroff,
            ..ring_in(mem, base)
        }),
{
    let at = field(base, BUF_WROFF);
    lemma_fields(base);
    lemma_number_stored(mem, at, wroff);
    lemma_number_kept(mem, at, wroff, field(base, BUF_PBUFFER));
    lemma_number_kept(mem, at, wroff, field(base, BUF_SIZE));
    lemma_number_kept(mem, at, wroff, field(base, BUF_RDOFF));
}

/// A descriptor whose read offset has been overwritten is the same but for that field.
pub proof fn lemma_rdoff_stored(mem: Map<int, u8>, base: u64, rdoff: u32)
    requires
        described(mem, base),
    ensures
        ring_in(stored(mem, field(base, BUF_RDOFF), u32_le(rdoff)), base) == (Ring {
            rdoff,
            ..ring_in(mem, base)
        }),
{
    let at = field(base, BUF_RDOFF);
    lemma_fields(base);
    lemma_number_stored(mem, at, rdoff);
    lemma_number_kept(mem, at, rdoff, field(base, BUF_PBUFFER));
    lemma_number_kept(mem, at, rdoff, field(base, BUF_SIZE));
    lemma_number_kept(mem, at, rdoff, field(base, BUF_WROFF));
}

/// Where the reading of a descriptor has got to: the field that was asked for, and what
/// the fields before it said.
#[derive(Debug)]
pub enum RingRead {
    Pbuffer { inst: u32, base: u64 },
    Size { inst: u32, base: u64, pbuffer: u32 },
    WrOff { inst: u32, base: u64, pbuffer: u32, size: u32 },
    RdOff { inst: u32, base: u64, pbuffer: u32, size: u32, wroff: u32 },
}

impl RingRead {
    /// Whose memory is read.
    pub open spec fn inst(self) -> u32 {
        match self {
            RingRead::Pbuffer { inst, .. } => inst,
            RingRead::Size { inst, .. } => inst,
            RingRead::WrOff { inst, .. } => inst,
            RingRead::RdOff { inst, .. } => inst,
        }
    }

    /// Where the descriptor is.
    pub open spec fn base(self) -> u64 {
        match self {
            RingRead::Pbuffer { base, .. } => base,
            RingRead::Size { base, .. } => base,
            RingRead::WrOff { base, .. } => base,
            RingRead::RdOff { base, .. } => base,
        }
    }

    /// The read of the field at `offset` that leads to `then`.
    pub open spec fn asks(
        offset: u64,
        then: RingRead,
    ) -> Next<RingRead, Result<Ring, RttError>> {
        Next::Ask(
            Request::Read {
                inst: then.inst(),
                space: SPACE,
                addr: above(then.base(), offset),
                width: 1,
                count: 4,
            },
            then,
        )
    }

    /// What follows the reply to the field that was asked for. A read that fails ends
    /// the reading with its error.
    pub open spec fn after(self, reply: Reply) -> Next<RingRead, Result<Ring, RttError>> {
        match u32_in(reply) {
            Err(e) => Next::Done(Err(e)),
            Ok(val) => match self {
                RingRead::Pbuffer { inst, base } => RingRead::asks(
                    BUF_SIZE,
                    RingRead::Size { inst, base, pbuffer: val },
                ),
                RingRead::Size { inst, base, pbuffer } => RingRead::asks(
                    BUF_WROFF,
                    RingRead::WrOff { inst, base, pbuffer, size: val },
                ),
                RingRead::WrOff { inst, base, pbuffer, size } => RingRead::asks(
                    BUF_RDOFF,
                    RingRead::RdOff { inst, base, pbuffer, size, wroff: val },
                ),
                RingRead::RdOff { inst, base, pbuffer, size, wroff } => Next::Done(
                    Ok(Ring { pbuffer, size, wroff, rdoff: val }),
                ),
            },
        }
    }

    /// The request whose reply is waited for.
    pub open spec fn asked(self) -> Request {
        let offset = match self {
            RingRead::Pbuffer { .. } => BUF_PBUFFER,
            RingRead::Size { .. } => BUF_SIZE,
            RingRead::WrOff { .. } => BUF_WROFF,
            RingRead::RdOff { .. } => BUF_RDOFF,
        };
        RingRead::asks(offset, self)->Ask_0
    }

    /// How many replies are to come.
    pub open spec fn left(self) -> nat {
        match self {
            RingRead::Pbuffer { .. } => 4,
            RingRead::Size { .. } => 3,
            RingRead::WrOff { .. } => 2,
            RingRead::RdOff { .. } => 1,
        }
    }

    /// The fields read so far are those of `ring`.
    pub open spec fn agrees(self, ring: Ring) -> bool {
        match self {
            RingRead::Pbuffer { .. } => true,
            RingRead::Size { pbuffer, .. } => pbuffer == ring.pbuffer,
            RingRead::WrOff { pbuffer, size, .. } => pbuffer == ring.pbuffer && size == ring.size,
            RingRead::RdOff { pbuffer, size, wroff, .. } => pbuffer == ring.pbuffer && size
                == ring.size && wroff == ring.wroff,
        }
    }

    /// Whose memory is read, and where the descriptor is.
    pub fn whose(&self) -> (r: (u32, u64))
        ensures
            r == (self.inst(), self.base()),
    {
        match self {
            RingRead::Pbuffer { inst, base } => (*inst, *base),
            RingRead::Size { inst, base, .. } => (*inst, *base),
            RingRead::WrOff { inst, base, .. } => (*inst, *base),
            RingRead::RdOff { inst, base, .. } => (*inst, *base),
        }
    }

    /// Begins to read the descriptor at `base`.
    pub fn begin(inst: u32, base: u64) -> (r: (Request, RingRead))
        ensures
            r.0 == r.1.asked(),
            r.1 == (RingRead::Pbuffer { inst, base }),
    {
        (read_u32(inst, address(base, BUF_PBUFFER)), RingRead::Pbuffer { inst, base })
    }
}

impl Dialogue for RingRead {
    type Out = Result<Ring, RttError>;

    open spec fn continues(
        self,
        reply: Reply,
        next: Next<RingRead, Result<Ring, RttError>>,
    ) -> bool {
        next == self.after(reply)
    }

    fn resume(self, reply: Reply) -> (next: Next<RingRead, Result<Ring, RttError>>) {
        let next = match u32_read(reply) {
            Err(e) => Next::Done(Err(e)),
            Ok(val) => match self {
                RingRead::Pbuffer { inst, base } => Next::Ask(
                    read_u32(inst, address(base, BUF_SIZE)),
                    RingRead::Size { inst, base, pbuffer: val },
                ),
                RingRead::Size { inst, base, pbuffer } => Next::Ask(
                    read_u32(inst, address(base, BUF_WROFF)),
                    RingRead::WrOff { inst, base, pbuffer, size: val },
                ),
                RingRead::WrOff { inst, base, pbuffer, size } => Next::Ask(
                    read_u32(inst, address(base, BUF_RDOFF)),
                    RingRead::RdOff { inst, base, pbuffer, size, wroff: val },
                ),
                RingRead::RdOff { inst: _, base: _, pbuffer, size, wroff } => Next::Done(
                    Ok(Ring { pbuffer, size, wroff, rdoff: val }),
                ),
            },
        };
        assert(self.continues(reply, next));
        next
    }
}

/// Reading a descriptor from mapped memory goes on from field to field, to the ring that
/// is described there.
pub proof fn lemma_ring_read(header: RingRead, mem: Map<int, u8>, reply: Reply)
    requires
        header.agrees(ring_in(mem, header.base())),
        described(mem, header.base()),
        served(mem, header.asked(), reply),
    ensures
        match header.after(reply) {
            Next::Ask(request, then) => {
                &&& request == then.asked()
                &&& then.left() + 1 == header.left()
                &&& then.base() == header.base()
                &&& then.inst() == header.inst()
                &&& then.agrees(ring_in(mem, header.base()))
            },
            Next::Done(r) => r == Ok::<Ring, RttError>(ring_in(mem, header.base())),
        },
{
    let offset = match header {
        RingRead::Pbuffer { .. } => BUF_PBUFFER,
        RingRead::Size { .. } => BUF_SIZE,
        RingRead::WrOff { .. } => BUF_WROFF,
        RingRead::RdOff { .. } => BUF_RDOFF,
    };
    lemma_read_served(
        mem,
        header.asked(),
        reply,
        header.inst(),
        above(header.base(), offset),
        4,
    );
}

} // verus!
