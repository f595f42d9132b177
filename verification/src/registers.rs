//! The ARMv7-M register file, as gdb sees it.

use crate::memory::{le_u32, push_u32_le, u32_from_le, u32_le, u32_round_trips};
use crate::text::same;
use vstd::prelude::*;

verus! {

/// The registers in gdb's order: R0 to R15 first, XPSR last. The ones between are
/// the floating-point registers of gdb's layout, which the core does not report.
#[derive(Debug, Clone, PartialEq)]
pub struct GuestState {
    pub regs: [u32; 26],
}

impl Default for GuestState {
    /// All registers zero.
    fn default() -> (r: Self)
        ensures
            forall|i: int| 0 <= i < 26 ==> #[trigger] r.regs@[i] == 0,
    {
        GuestState { regs: [0u32; 26] }
    }
}

/// gdb takes the register to be 96 bits wide.
pub open spec fn padded(num: int) -> bool {
    16 <= num < 24
}

/// What register `num` adds to the block: its four bytes, and eight zeros where gdb
/// takes it to be wider.
pub open spec fn register_bytes(num: int, val: u32) -> Seq<u8> {
    if padded(num) {
        u32_le(val) + Seq::new(8, |i: int| 0u8)
    } else {
        u32_le(val)
    }
}

/// The block of the first `n` registers.
pub open spec fn block(regs: Seq<u32>, n: nat) -> Seq<u8>
    decreases n,
{
    if n == 0 {
        Seq::empty()
    } else {
        block(regs, (n - 1) as nat) + register_bytes(n - 1, regs[n - 1])
    }
}

/// Where register `num` stands in the block.
pub open spec fn place(num: int) -> int {
    4 * num + 8 * (if num <= 16 {
        0
    } else if num <= 24 {
        num - 16
    } else {
        8
    })
}

/// How many bytes the block has.
pub const BLOCK: usize = 168;

/// Where register `num` stands in `len` bytes that gdb sends: at its place in a whole
/// block, else as the word of its number.
pub open spec fn source(len: nat, num: int) -> int {
    if len == BLOCK {
        place(num)
    } else {
        4 * num
    }
}

/// The registers once those that `bytes` reach have been taken over.
pub open spec fn overwritten(regs: Seq<u32>, bytes: Seq<u8>) -> Seq<u32> {
    Seq::new(
        regs.len(),
        |i: int|
            if source(bytes.len(), i) + 4 <= bytes.len() {
                le_u32(bytes.skip(source(bytes.len(), i)))
            } else {
                regs[i]
            },
    )
}

impl GuestState {
    /// The program counter.
    pub fn pc(&self) -> (r: u32)
        ensures
            r == self.regs@[15],
    {
        self.regs[15]
    }

    /// The register block that gdb reads.
    pub fn gdb_serialize(&self) -> (bytes: Vec<u8>)
        ensures
            bytes@ == block(self.regs@, 26),
    {
        let mut bytes: Vec<u8> = Vec::new();
        let mut num: usize = 0;
        while num < 26
            invariant
                num <= 26,
                bytes@ == block(self.regs@, num as nat),
            decreases 26 - num,
        {
            let ghost before = bytes@;
            push_u32_le(&mut bytes, self.regs[num]);
            if num >= 16 && num < 24 {
                let mut k: usize = 0;
                while k < 8
                    invariant
                        k <= 8,
                        bytes@ == before + u32_le(self.regs@[num as int]) + Seq::new(
                            k as nat,
                            |i: int| 0u8,
                        ),
                    decreases 8 - k,
                {
                    bytes.push(0);
                    k = k + 1;
                    assert(bytes@ =~= before + u32_le(self.regs@[num as int]) + Seq::new(
                        k as nat,
                        |i: int| 0u8,
                    ));
                }
            }
            assert(bytes@ =~= before + register_bytes(num as int, self.regs@[num as int]));
            num = num + 1;
        }
        bytes
    }

    /// Takes the registers over from what gdb sends: a block as [`gdb_serialize`] makes
    /// it, or plain 32-bit words, one for each register.
    ///
    /// What is not made of whole words changes nothing. Fewer words than there are
    /// registers are refused too, but the registers that there are words for are taken
    /// over.
    ///
    /// [`gdb_serialize`]: GuestState::gdb_serialize
    pub fn gdb_deserialize(&mut self, bytes: &[u8]) -> (r: Result<(), ()>)
        ensures
            r is Ok <==> bytes@.len() % 4 == 0 && bytes@.len() >= 4 * 26,
            final(self).regs@ == (if bytes@.len() % 4 == 0 {
                overwritten(old(self).regs@, bytes@)
            } else {
                old(self).regs@
            }),
    {
        if bytes.len() % 4 != 0 {
            return Err(());
        }
        let whole: bool = bytes.len() == BLOCK;
        let mut i: usize = 0;
        while i < 26
            invariant
                i <= 26,
                bytes@.len() % 4 == 0,
                whole == (bytes@.len() == BLOCK),
                4 * i <= bytes@.len(),
                self.regs@ == Seq::new(
                    26,
                    |k: int|
                        if k < i {
                            le_u32(bytes@.skip(source(bytes@.len(), k)))
                        } else {
                            old(self).regs@[k]
                        },
                ),
            decreases 26 - i,
        {
            if bytes.len() / 4 <= i {
                assert(self.regs@ =~= overwritten(old(self).regs@, bytes@));
                return Err(());
            }
            let pads: usize = if !whole || i <= 16 {
                0
            } else if i <= 24 {
                i - 16
            } else {
                8
            };
            let at: usize = 4 * i + 8 * pads;
            assert(at == source(bytes@.len(), i as int));
            self.regs[i] = u32_from_le(bytes, at);
            i = i + 1;
            assert(self.regs@ =~= Seq::new(
                26,
                |k: int|
                    if k < i {
                        le_u32(bytes@.skip(source(bytes@.len(), k)))
                    } else {
                        old(self).regs@[k]
                    },
            ));
        }
        assert(self.regs@ =~= overwritten(old(self).regs@, bytes@));
        Ok(())
    }
}

/// A register that gdb can ask for by itself.
#[derive(Debug, Clone, PartialEq)]
pub enum Register {
    R0,
    R1,
    R2,
    R3,
    R4,
    R5,
    R6,
    R7,
    R8,
    R9,
    R10,
    R11,
    R12,
    SP,
    LR,
    PC,
    XPSR,
}

impl Register {
    /// The number that gdb has for the register, its place in [`GuestState::regs`] too.
    pub open spec fn number(self) -> usize {
        match self {
            Register::R0 => 0,
            Register::R1 => 1,
            Register::R2 => 2,
            Register::R3 => 3,
            Register::R4 => 4,
            Register::R5 => 5,
            Register::R6 => 6,
            Register::R7 => 7,
            Register::R8 => 8,
            Register::R9 => 9,
            Register::R10 => 10,
            Register::R11 => 11,
            Register::R12 => 12,
            Register::SP => 13,
            Register::LR => 14,
            Register::PC => 15,
            Register::XPSR => 25,
        }
    }

    /// The register that gdb has the number `id` for, and how many bytes it has.
    pub fn from_raw_id(id: usize) -> (r: Option<(Register, usize)>)
        ensures
            r is Some <==> id <= 15 || id == 25,
            r matches Some((reg, size)) ==> reg.number() == id && size == 4,
    {
        let reg = match id {
            0 => Register::R0,
            1 => Register::R1,
            2 => Register::R2,
            3 => Register::R3,
            4 => Register::R4,
            5 => Register::R5,
            6 => Register::R6,
            7 => Register::R7,
            8 => Register::R8,
            9 => Register::R9,
            10 => Register::R10,
            11 => Register::R11,
            12 => Register::R12,
            13 => Register::SP,
            14 => Register::LR,
            15 => Register::PC,
            25 => Register::XPSR,
            _ => {
                return None;
            },
        };
        Some((reg, 4))
    }

    /// The place of the register in [`GuestState::regs`].
    pub fn block_index(&self) -> (r: usize)
        ensures
            r == self.number(),
            r < 26,
    {
        match self {
            Register::R0 => 0,
            Register::R1 => 1,
            Register::R2 => 2,
            Register::R3 => 3,
            Register::R4 => 4,
            Register::R5 => 5,
            Register::R6 => 6,
            Register::R7 => 7,
            Register::R8 => 8,
            Register::R9 => 9,
            Register::R10 => 10,
            Register::R11 => 11,
            Register::R12 => 12,
            Register::SP => 13,
            Register::LR => 14,
            Register::PC => 15,
            Register::XPSR => 25,
        }
    }
}

/// Two registers with one number are the same register.
pub proof fn numbers_are_distinct(a: Register, b: Register)
    requires
        a.number() == b.number(),
    ensures
        a == b,
{
}

/// The length of the block of the first `n` registers.
proof fn lemma_block_len(regs: Seq<u32>, n: nat)
    ensures
        block(regs, n).len() == place(n as int),
    decreases n,
{
    if n > 0 {
        lemma_block_len(regs, (n - 1) as nat);
    }
}

/// Each register stands at its place.
proof fn lemma_block_word(regs: Seq<u32>, n: nat, i: int)
    requires
        0 <= i < n,
    ensures
        place(i) + 4 <= block(regs, n).len(),
        block(regs, n).subrange(place(i), place(i) + 4) == u32_le(regs[i]),
    decreases n,
{
    let init = block(regs, (n - 1) as nat);
    lemma_block_len(regs, n);
    lemma_block_len(regs, (n - 1) as nat);
    if i == n - 1 {
        assert(block(regs, n).subrange(place(i), place(i) + 4) =~= u32_le(regs[i]));
    } else {
        lemma_block_word(regs, (n - 1) as nat, i);
        assert(block(regs, n).subrange(place(i), place(i) + 4) =~= init.subrange(
            place(i),
            place(i) + 4,
        ));
    }
}

/// The block of a register file is 168 bytes long, and made of whole words, so that taking
/// it over is not refused. Each register stands in it at its place, least significant byte
/// first.
pub proof fn block_is_complete(regs: Seq<u32>, i: int)
    requires
        0 <= i < 26,
    ensures
        block(regs, 26).len() == BLOCK,
        block(regs, 26).subrange(place(i), place(i) + 4) == u32_le(regs[i]),
{
    lemma_block_len(regs, 26);
    lemma_block_word(regs, 26, i);
}

/// All registers, taken over from the block that they were put into, come back.
pub proof fn registers_round_trip(regs: Seq<u32>, before: Seq<u32>)
    requires
        regs.len() == 26,
        before.len() == 26,
    ensures
        overwritten(before, block(regs, 26)) == regs,
{
    let b = block(regs, 26);
    lemma_block_len(regs, 26);
    assert forall|i: int| 0 <= i < 26 implies overwritten(before, b)[i] == regs[i] by {
        block_is_complete(regs, i);
        let w = b.skip(place(i));
        assert(w.take(4) =~= b.subrange(place(i), place(i) + 4));
        assert(forall|j: int| 0 <= j < 4 ==> w[j] == w.take(4)[j]);
        u32_round_trips(regs[i]);
    }
    assert(overwritten(before, b) =~= regs);
}

/// The register that the core reports under the name `name`.
pub open spec fn regnum(name: Seq<char>) -> Option<usize> {
    if name == "R0"@ {
        Some(0)
    } else if name == "R1"@ {
        Some(1)
    } else if name == "R2"@ {
        Some(2)
    } else if name == "R3"@ {
        Some(3)
    } else if name == "R4"@ {
        Some(4)
    } else if name == "R5"@ {
        Some(5)
    } else if name == "R6"@ {
        Some(6)
    } else if name == "R7"@ {
        Some(7)
    } else if name == "R8"@ {
        Some(8)
    } else if name == "R9"@ {
        Some(9)
    } else if name == "R10"@ {
        Some(10)
    } else if name == "R11"@ {
        Some(11)
    } else if name == "R12"@ {
        Some(12)
    } else if name == "R13"@ {
        Some(13)
    } else if name == "R14"@ {
        Some(14)
    } else if name == "R15"@ {
        Some(15)
    } else if name == "XPSR"@ {
        Some(25)
    } else {
        None
    }
}

/// The register that the core reports under the name `name`; none for a resource that
/// is no register of gdb's.
pub fn regnum_of(name: &str) -> (r: Option<usize>)
    ensures
        r == regnum(name@),
{
    if same(name, "R0") {
        Some(0)
    } else if same(name, "R1") {
        Some(1)
    } else if same(name, "R2") {
        Some(2)
    } else if same(name, "R3") {
        Some(3)
    } else if same(name, "R4") {
        Some(4)
    } else if same(name, "R5") {
        Some(5)
    } else if same(name, "R6") {
        Some(6)
    } else if same(name, "R7") {
        Some(7)
    } else if same(name, "R8") {
        Some(8)
    } else if same(name, "R9") {
        Some(9)
    } else if same(name, "R10") {
        Some(10)
    } else if same(name, "R11") {
        Some(11)
    } else if same(name, "R12") {
        Some(12)
    } else if same(name, "R13") {
        Some(13)
    } else if same(name, "R14") {
        Some(14)
    } else if same(name, "R15") {
        Some(15)
    } else if same(name, "XPSR") {
        Some(25)
    } else {
        None
    }
}

} // verus!
