//! Registers: gdb's block of them, their numbers and names, and the core's.

use crate::memory::{le_u32, u32_le, u32_round_trips};
use crate::model::number_of;
use crate::registers::{
    block, block_is_complete, overwritten, regnum, regnum_of, GuestState, Register,
};
use vstd::prelude::*;
use vstd::string::*;

verus! {

/// Where register number `i` stands in gdb's block: each has four bytes, and those from 16
/// to 23 have eight more behind them.
pub open spec fn stands_at(i: int) -> int {
    if i <= 16 {
        4 * i
    } else if i <= 24 {
        64 + 12 * (i - 16)
    } else {
        160 + 4 * (i - 24)
    }
}

/// The number at `a` in some bytes.
pub open spec fn number_at(bytes: Seq<u8>, a: int) -> int {
    number_of(bytes[a], bytes[a + 1], bytes[a + 2], bytes[a + 3])
}

/// gdb's block has 168 bytes. Each register stands in it at its place, and what stands
/// behind those from 16 to 23 is zero.
pub proof fn the_block_holds_each_register_at_its_place(state: &GuestState, bytes: Vec<u8>, i: int)
    requires
        0 <= i < 26,
        call_ensures(GuestState::gdb_serialize, (state,), bytes),
    ensures
        bytes@.len() == 168,
        number_at(bytes@, stands_at(i)) == state.regs@[i],
        16 <= i < 24 ==> forall|k: int|
            stands_at(i) + 4 <= k < stands_at(i) + 12 ==> #[trigger] bytes@[k] == 0,
{
    let regs = state.regs@;
    block_is_complete(regs, i);
    let w = bytes@.subrange(stands_at(i), stands_at(i) + 4);
    assert(w == u32_le(regs[i]));
    assert(w[0] == bytes@[stands_at(i)] && w[1] == bytes@[stands_at(i) + 1] && w[2]
        == bytes@[stands_at(i) + 2] && w[3] == bytes@[stands_at(i) + 3]);
    lemma_weights_of(regs[i]);
    if 16 <= i < 24 {
        lemma_padding(regs, 26, i);
    }
}

/// The four bytes of a number make it.
proof fn lemma_weights_of(val: u32)
    ensures
        number_of(u32_le(val)[0], u32_le(val)[1], u32_le(val)[2], u32_le(val)[3]) == val,
{
    u32_round_trips(val);
    let w = u32_le(val);
    let n = number_of(w[0], w[1], w[2], w[3]);
    assert(0 <= n <= u32::MAX);
    assert(le_u32(w) == n);
}

/// What stands behind a wide register is zero.
proof fn lemma_padding(regs: Seq<u32>, n: nat, i: int)
    requires
        16 <= i < 24,
        i < n <= 26,
    ensures
        block(regs, n).len() == stands_at(n as int),
        forall|k: int|
            stands_at(i) + 4 <= k < stands_at(i) + 12 ==> #[trigger] block(regs, n)[k] == 0,
    decreases n,
{
    lemma_len(regs, n);
    lemma_len(regs, (n - 1) as nat);
    let b = block(regs, n);
    let init = block(regs, (n - 1) as nat);
    if i == n - 1 {
        assert forall|k: int| stands_at(i) + 4 <= k < stands_at(i) + 12 implies #[trigger] b[k]
            == 0 by {
            assert(b[k] == crate::registers::register_bytes(i, regs[i])[k - stands_at(i)]);
        }
    } else {
        lemma_padding(regs, (n - 1) as nat, i);
        assert forall|k: int| stands_at(i) + 4 <= k < stands_at(i) + 12 implies #[trigger] b[k]
            == 0 by {
            assert(b[k] == init[k]);
        }
    }
}

/// The length of the block of the first `n` registers.
proof fn lemma_len(regs: Seq<u32>, n: nat)
    requires
        n <= 26,
    ensures
        block(regs, n).len() == stands_at(n as int),
    decreases n,
{
    if n > 0 {
        lemma_len(regs, (n - 1) as nat);
    }
}

/// Where register number `i` stands in `len` bytes from gdb: at its place in a whole block,
/// else as a word among words.
pub open spec fn comes_from(len: int, i: int) -> int {
    if len == 168 {
        stands_at(i)
    } else {
        4 * i
    }
}

/// Registers are taken over from what gdb sends, each from its place. What is not made of
/// whole words changes nothing, and where there are too few words the registers that have
/// none stay as they are. Both are refused.
pub proof fn registers_are_taken_from_their_places(
    state: &mut GuestState,
    bytes: &[u8],
    r: Result<(), ()>,
    i: int,
)
    requires
        0 <= i < 26,
        call_ensures(GuestState::gdb_deserialize, (state, bytes), r),
    ensures
        r is Ok <==> bytes@.len() % 4 == 0 && bytes@.len() >= 104,
        final(state).regs@[i] == (if bytes@.len() % 4 == 0 && comes_from(
            bytes@.len() as int,
            i,
        ) + 4 <= bytes@.len() {
            number_at(bytes@, comes_from(bytes@.len() as int, i))
        } else {
            old(state).regs@[i] as int
        }),
{
    let a = comes_from(bytes@.len() as int, i);
    if bytes@.len() % 4 == 0 && a + 4 <= bytes@.len() {
        let w = bytes@.skip(a);
        assert(w[0] == bytes@[a] && w[1] == bytes@[a + 1] && w[2] == bytes@[a + 2] && w[3]
            == bytes@[a + 3]);
        assert(final(state).regs@ == overwritten(old(state).regs@, bytes@));
        assert(final(state).regs@[i] == le_u32(w));
    }
}

/// What was put into a block is taken from it again, all of it.
pub proof fn registers_come_back_from_the_block(
    state: &GuestState,
    bytes: Vec<u8>,
    other: &mut GuestState,
    sent: &[u8],
    r: Result<(), ()>,
)
    requires
        call_ensures(GuestState::gdb_serialize, (state,), bytes),
        sent@ == bytes@,
        call_ensures(GuestState::gdb_deserialize, (other, sent), r),
    ensures
        r is Ok,
        forall|i: int| 0 <= i < 26 ==> #[trigger] final(other).regs@[i] == state.regs@[i],
{
    assert forall|i: int| 0 <= i < 26 implies #[trigger] final(other).regs@[i]
        == state.regs@[i] by {
        the_block_holds_each_register_at_its_place(state, bytes, i);
        registers_are_taken_from_their_places(other, sent, r, i);
    }
    the_block_holds_each_register_at_its_place(state, bytes, 0);
    registers_are_taken_from_their_places(other, sent, r, 0);
}

/// The program counter is register number 15, and at first all registers are zero.
pub proof fn the_program_counter_is_register_fifteen(
    state: &GuestState,
    pc: u32,
    first: GuestState,
    i: int,
)
    requires
        call_ensures(GuestState::pc, (state,), pc),
        call_ensures(GuestState::default, (), first),
        0 <= i < 26,
    ensures
        pc == state.regs@[15],
        first.regs@[i] == 0,
{
}

/// The registers in gdb's order: R0 to R12, SP, LR, PC.
pub open spec fn named(i: int) -> Register {
    if i == 0 {
        Register::R0
    } else if i == 1 {
        Register::R1
    } else if i == 2 {
        Register::R2
    } else if i == 3 {
        Register::R3
    } else if i == 4 {
        Register::R4
    } else if i == 5 {
        Register::R5
    } else if i == 6 {
        Register::R6
    } else if i == 7 {
        Register::R7
    } else if i == 8 {
        Register::R8
    } else if i == 9 {
        Register::R9
    } else if i == 10 {
        Register::R10
    } else if i == 11 {
        Register::R11
    } else if i == 12 {
        Register::R12
    } else if i == 13 {
        Register::SP
    } else if i == 14 {
        Register::LR
    } else {
        Register::PC
    }
}

/// gdb counts the registers in their order, and XPSR as number 25; no other number is a
/// register. Each has four bytes, and its number is its place in the block.
pub proof fn numbers_are_registers_in_their_order(
    id: usize,
    r: Option<(Register, usize)>,
    reg: &Register,
    index: usize,
)
    requires
        call_ensures(Register::from_raw_id, (id,), r),
        call_ensures(Register::block_index, (reg,), index),
    ensures
        r is Some <==> id <= 15 || id == 25,
        id <= 15 ==> r == Some((named(id as int), 4usize)),
        id == 25 ==> r == Some((Register::XPSR, 4usize)),
        *reg == Register::XPSR <==> index == 25,
        *reg != Register::XPSR ==> index <= 15 && *reg == named(index as int),
{
}

/// The name of register number `n` of the core: `R` and the number, or `XPSR` for 25.
pub open spec fn is_name(name: Seq<char>, n: int) -> bool {
    if n == 25 {
        name =~= seq!['X', 'P', 'S', 'R']
    } else if 0 <= n <= 9 {
        name =~= seq!['R', (0x30 + n) as char]
    } else if 10 <= n <= 15 {
        name =~= seq!['R', '1', (0x30 + n - 10) as char]
    } else {
        false
    }
}

/// What the names spell.
proof fn lemma_names()
    ensures
        "R0"@ == seq!['R', '0'],
        "R1"@ == seq!['R', '1'],
        "R2"@ == seq!['R', '2'],
        "R3"@ == seq!['R', '3'],
        "R4"@ == seq!['R', '4'],
        "R5"@ == seq!['R', '5'],
        "R6"@ == seq!['R', '6'],
        "R7"@ == seq!['R', '7'],
        "R8"@ == seq!['R', '8'],
        "R9"@ == seq!['R', '9'],
        "R10"@ == seq!['R', '1', '0'],
        "R11"@ == seq!['R', '1', '1'],
        "R12"@ == seq!['R', '1', '2'],
        "R13"@ == seq!['R', '1', '3'],
        "R14"@ == seq!['R', '1', '4'],
        "R15"@ == seq!['R', '1', '5'],
        "XPSR"@ == seq!['X', 'P', 'S', 'R'],
{
    reveal_strlit("R0");
    reveal_strlit("R1");
    reveal_strlit("R2");
    reveal_strlit("R3");
    reveal_strlit("R4");
    reveal_strlit("R5");
    reveal_strlit("R6");
    reveal_strlit("R7");
    reveal_strlit("R8");
    reveal_strlit("R9");
    reveal_strlit("R10");
    reveal_strlit("R11");
    reveal_strlit("R12");
    reveal_strlit("R13");
    reveal_strlit("R14");
    reveal_strlit("R15");
    reveal_strlit("XPSR");
    assert("R0"@ =~= seq!['R', '0']);
    assert("R1"@ =~= seq!['R', '1']);
    assert("R2"@ =~= seq!['R', '2']);
    assert("R3"@ =~= seq!['R', '3']);
    assert("R4"@ =~= seq!['R', '4']);
    assert("R5"@ =~= seq!['R', '5']);
    assert("R6"@ =~= seq!['R', '6']);
    assert("R7"@ =~= seq!['R', '7']);
    assert("R8"@ =~= seq!['R', '8']);
    assert("R9"@ =~= seq!['R', '9']);
    assert("R10"@ =~= seq!['R', '1', '0']);
    assert("R11"@ =~= seq!['R', '1', '1']);
    assert("R12"@ =~= seq!['R', '1', '2']);
    assert("R13"@ =~= seq!['R', '1', '3']);
    assert("R14"@ =~= seq!['R', '1', '4']);
    assert("R15"@ =~= seq!['R', '1', '5']);
    assert("XPSR"@ =~= seq!['X', 'P', 'S', 'R']);
}

/// A name has the number that it is the name of.
pub proof fn lemma_regnum(name: Seq<char>, n: int)
    ensures
        (regnum(name) is Some && regnum(name)->Some_0 == n) <==> is_name(name, n),
{
    lemma_names();
    if is_name(name, n) {
        lemma_named(name, n);
    }
}

/// A name is the name of one number.
proof fn lemma_named(name: Seq<char>, n: int)
    requires
        is_name(name, n),
    ensures
        regnum(name) is Some,
        regnum(name)->Some_0 == n,
{
    lemma_names();
    assert(name.len() >= 2);
    assert(name.len() == 2 ==> name[1] == (0x30 + n) as char);
    assert(name.len() == 3 ==> name[2] == (0x30 + n - 10) as char);
}

/// The core's resources are told by their names: `R0` to `R15` and `XPSR` are registers,
/// each by its number, and nothing else is one.
pub proof fn names_are_registers_by_their_numbers(name: &str, r: Option<usize>, n: int)
    requires
        call_ensures(regnum_of, (name,), r),
    ensures
        r is Some && r->Some_0 == n <==> is_name(name@, n),
        r matches Some(k) ==> k <= 15 || k == 25,
{
    lemma_regnum(name@, n);
}

} // verus!
