//! Bytes and words, and memory as gdb sees it.

use crate::access::{
    bytes_read, read_bytes, read_u32, u32_read, write_bytes, write_u32, written,
};
use crate::dialogue::{effect, served};
use crate::error::RttError;
use crate::memory::{
    bytes_of, le_u32, lemma_carried, overlaid, overlay, pack_le, packing_round_trips, push_u32_le,
    u32_from_le, u32_le, unpack_le, words_of, Reply, Request,
};
use crate::model::{all_mapped, carried, number_of};
use crate::stub::{a_read_gives_back_what_was_written, addrs_read, addrs_written, IrisGdbStub};
use vstd::prelude::*;

verus! {

/// Unpacking gives eight bytes for each word, byte after byte by their weight.
pub proof fn unpacking_takes_the_words_apart(words: Vec<u64>, bytes: Vec<u8>)
    requires
        call_ensures(unpack_le, (&words,), bytes),
    ensures
        bytes@.len() == 8 * words@.len(),
        forall|k: int|
            0 <= k < bytes@.len() ==> #[trigger] bytes@[k] as int == carried(words@, k),
{
    lemma_carried(words@);
}

/// Packing gives as few words as hold the bytes. Byte for byte they carry them, by their
/// weight, and zeros behind them.
pub proof fn packing_puts_the_words_together(bytes: &[u8], words: Vec<u64>)
    requires
        call_ensures(pack_le, (bytes,), words),
    ensures
        bytes@.len() <= 8 * words@.len() < bytes@.len() + 8,
        forall|k: int|
            0 <= k < 8 * words@.len() ==> #[trigger] carried(words@, k) == (if k < bytes@.len() {
                bytes@[k] as int
            } else {
                0
            }),
{
    lemma_carried(words@);
    packing_round_trips(bytes@);
    let all = bytes_of(words@);
    assert forall|k: int| 0 <= k < 8 * words@.len() implies #[trigger] carried(words@, k) == (
    if k < bytes@.len() {
        bytes@[k] as int
    } else {
        0
    }) by {
        assert(all[k] as int == carried(words@, k));
        if k < bytes@.len() {
            assert(all.take(bytes@.len() as int)[k] == bytes@[k]);
        }
    }
}

/// Four bytes are read as the number that they make.
pub proof fn numbers_are_read_by_weight(bytes: &[u8], at: usize, val: u32)
    requires
        at + 4 <= bytes@.len(),
        call_ensures(u32_from_le, (bytes, at), val),
    ensures
        val == number_of(bytes@[at as int], bytes@[at + 1], bytes@[at + 2], bytes@[at + 3]),
{
}

/// A number is appended as the four bytes that make it.
pub proof fn numbers_are_written_by_weight(bytes: &mut Vec<u8>, val: u32)
    requires
        call_ensures(push_u32_le, (bytes, val), ()),
    ensures
        ({
            let n = old(bytes)@.len() as int;
            let b = final(bytes)@;
            &&& b.len() == n + 4
            &&& forall|i: int| 0 <= i < n ==> #[trigger] b[i] == old(bytes)@[i]
            &&& number_of(b[n], b[n + 1], b[n + 2], b[n + 3]) == val
        }),
{
    let n = old(bytes)@.len() as int;
    let b = final(bytes)@;
    let w = u32_le(val);
    assert(b[n] == w[0] && b[n + 1] == w[1] && b[n + 2] == w[2] && b[n + 3] == w[3]);
    assert(val == val % 0x100 + 0x100 * (val / 0x100 % 0x100) + 0x1_0000 * (val / 0x1_0000 % 0x100)
        + 0x100_0000 * (val / 0x100_0000));
}

/// What is laid over some bytes replaces the first of them, and no others.
pub proof fn overlaying_replaces_the_first(data: &mut [u8], bytes: Vec<u8>)
    requires
        call_ensures(overlay, (data, &bytes), ()),
    ensures
        final(data)@.len() == old(data)@.len(),
        forall|i: int|
            0 <= i < final(data)@.len() ==> #[trigger] final(data)@[i] == (if i < bytes@.len() {
                bytes@[i]
            } else {
                old(data)@[i]
            }),
{
}

/// The request reads `n` bytes at `addr` from space zero of `inst`.
pub open spec fn a_read_of(request: Request, inst: u32, addr: int, n: int) -> bool {
    match request {
        Request::Read { inst: i, space, addr: a, width, count } => {
            &&& i == inst
            &&& space == 0
            &&& a == addr
            &&& width == 1
            &&& count == n
        },
        Request::Write { .. } => false,
    }
}

/// The request writes the bytes `what` at `addr` to space zero of `inst`, in items of `wide`
/// bytes. It carries them in as few words as hold them.
pub open spec fn a_write_of(
    request: Request,
    inst: u32,
    addr: int,
    wide: int,
    what: Seq<u8>,
) -> bool {
    match request {
        Request::Write { inst: i, space, addr: a, width, count, data } => {
            &&& i == inst
            &&& space == 0
            &&& a == addr
            &&& width == wide
            &&& width * count == what.len()
            &&& what.len() <= 8 * data@.len() < what.len() + 8
            &&& forall|k: int|
                0 <= k < what.len() ==> #[trigger] what[k] as int == carried(data@, k)
        },
        Request::Read { .. } => false,
    }
}

/// What packed bytes carry.
proof fn lemma_packed(bytes: Seq<u8>)
    ensures
        forall|k: int|
            0 <= k < bytes.len() ==> #[trigger] bytes[k] as int == carried(words_of(bytes), k),
{
    lemma_carried(words_of(bytes));
    packing_round_trips(bytes);
    let all = bytes_of(words_of(bytes));
    assert forall|k: int| 0 <= k < bytes.len() implies #[trigger] bytes[k] as int == carried(
        words_of(bytes),
        k,
    ) by {
        assert(all.take(bytes.len() as int)[k] == all[k]);
    }
}

/// Bytes and numbers are asked for where they are: as many bytes as are wanted, in space
/// zero of the instance. For no bytes nothing is asked.
pub proof fn reads_ask_for_what_is_wanted(
    inst: u32,
    addr: u64,
    n: u64,
    some: Option<Request>,
    one: Request,
)
    requires
        call_ensures(read_bytes, (inst, addr, n), some),
        call_ensures(read_u32, (inst, addr), one),
    ensures
        n == 0 ==> some is None,
        n > 0 ==> some is Some && a_read_of(some->Some_0, inst, addr as int, n as int),
        a_read_of(one, inst, addr as int, 4),
{
}

/// Bytes and numbers are sent to where they belong, byte by byte as they are. For no bytes
/// nothing is sent.
pub proof fn writes_send_what_is_given(
    inst: u32,
    addr: u64,
    bytes: &[u8],
    val: u32,
    some: Option<Request>,
    one: Request,
)
    requires
        bytes@.len() <= u64::MAX,
        call_ensures(write_bytes, (inst, addr, bytes), some),
        call_ensures(write_u32, (inst, addr, val), one),
    ensures
        bytes@.len() == 0 ==> some is None,
        bytes@.len() > 0 ==> some is Some && a_write_of(
            some->Some_0,
            inst,
            addr as int,
            1,
            bytes@,
        ),
        exists|four: Seq<u8>|
            four.len() == 4 && #[trigger] a_write_of(one, inst, addr as int, 4, four) && number_of(
                four[0],
                four[1],
                four[2],
                four[3],
            ) == val,
{
    lemma_packed(bytes@);
    let four = u32_le(val);
    crate::model::lemma_weights();
    assert(one->Write_data@ == seq![val as u64]);
    assert forall|k: int| 0 <= k < 4 implies #[trigger] four[k] as int == carried(
        one->Write_data@,
        k,
    ) by {
        assert(k / 8 == 0 && k % 8 == k);
    }
    assert(a_write_of(one, inst, addr as int, 4, four));
}

/// A reply to a read means the first of the bytes that its words carry. One that carries
/// fewer than were asked for is too short, and one that failed is passed on with its text.
pub proof fn replies_mean_what_they_carry(reply: Reply, n: u64, r: Result<Vec<u8>, RttError>)
    requires
        call_ensures(bytes_read, (reply, n), r),
    ensures
        match reply {
            Reply::Failed(text) => r == Err::<Vec<u8>, RttError>(RttError::Transport(text)),
            Reply::Words(words) => if 8 * words@.len() < n {
                r == Err::<Vec<u8>, RttError>(RttError::ShortRead)
            } else {
                &&& r is Ok
                &&& r->Ok_0@.len() == n
                &&& forall|k: int|
                    0 <= k < n ==> #[trigger] r->Ok_0@[k] as int == carried(words@, k)
            },
        },
{
    if let Reply::Words(words) = reply {
        lemma_carried(words@);
    }
}

/// A reply to the read of a number means the number that its first four bytes make. A
/// reply to a write means that it went through, or why it did not.
pub proof fn replies_mean_numbers(
    reply: Reply,
    r: Result<u32, RttError>,
    w: Result<(), RttError>,
)
    requires
        call_ensures(u32_read, (reply,), r),
        call_ensures(written, (reply,), w),
    ensures
        match reply {
            Reply::Failed(text) => {
                &&& r == Err::<u32, RttError>(RttError::Transport(text))
                &&& w == Err::<(), RttError>(RttError::Transport(text))
            },
            Reply::Words(words) => {
                &&& w is Ok
                &&& words@.len() == 0 ==> r == Err::<u32, RttError>(RttError::ShortRead)
                &&& words@.len() > 0 ==> r is Ok && r->Ok_0 == words@[0] % 0x1_0000_0000
            },
        },
{
    if let Reply::Words(words) = reply {
        lemma_carried(words@);
        crate::model::lemma_weights();
        if words@.len() > 0 {
            let b = bytes_of(words@);
            let four = b.take(4);
            assert(four[0] == b[0] && four[1] == b[1] && four[2] == b[2] && four[3] == b[3]);
            assert(b[0] as int == carried(words@, 0));
            assert(b[1] as int == carried(words@, 1));
            assert(b[2] as int == carried(words@, 2));
            assert(b[3] as int == carried(words@, 3));
            lemma_low(words@[0]);
            assert(r == Ok::<u32, RttError>(le_u32(four)));
        }
    }
}

/// The four low bytes of a word make its low half.
proof fn lemma_low(word: u64)
    ensures
        word % 0x1_0000_0000 == word % 0x100 + 0x100 * (word / 0x100 % 0x100) + 0x1_0000 * (word
            / 0x1_0000 % 0x100) + 0x100_0000 * (word / 0x100_0000 % 0x100),
{
    assert(word % 0x1_0000_0000 == word % 0x100 + 0x100 * (word / 0x100 % 0x100) + 0x1_0000 * (word
        / 0x1_0000 % 0x100) + 0x100_0000 * (word / 0x100_0000 % 0x100)) by (bit_vector);
}

/// gdb's memory accesses go to where gdb says: as many bytes as it wants or has, in space
/// zero of the CPU.
pub proof fn gdb_accesses_the_memory_it_names(
    stub: &IrisGdbStub,
    addr: u32,
    len: usize,
    data: &[u8],
    read: Request,
    write: Request,
)
    requires
        data@.len() <= u64::MAX,
        call_ensures(IrisGdbStub::read_addrs, (stub, addr, len), read),
        call_ensures(IrisGdbStub::write_addrs, (stub, addr, data), write),
    ensures
        a_read_of(read, stub.instance_id, addr as int, len as int),
        a_write_of(write, stub.instance_id, addr as int, 1, data@),
{
    lemma_packed(data@);
}

/// What comes back for a read is handed to gdb byte by byte, as the words carry it. Where
/// it is less than gdb has room for, the rest stays as it is; where nothing came back, all
/// does, and that is an error.
pub proof fn gdb_is_given_what_came_back(reply: Reply, data: &mut [u8], r: Result<(), ()>)
    requires
        call_ensures(addrs_read, (reply, data), r),
    ensures
        final(data)@.len() == old(data)@.len(),
        r is Ok <==> reply is Words,
        forall|k: int|
            0 <= k < final(data)@.len() ==> #[trigger] final(data)@[k] as int == (match reply {
                Reply::Words(words) if k < 8 * words@.len() => carried(words@, k),
                _ => old(data)@[k] as int,
            }),
{
    if let Reply::Words(words) = reply {
        lemma_carried(words@);
        assert(final(data)@ == overlaid(old(data)@, bytes_of(words@)));
    }
}

/// What gdb writes to memory that is there, gdb reads back.
pub proof fn gdb_reads_back_what_it_wrote(
    stub: &IrisGdbStub,
    addr: u32,
    what: &[u8],
    write: Request,
    read: Request,
    mem: Map<int, u8>,
    reply: Reply,
    data: &mut [u8],
    r: Result<(), ()>,
)
    requires
        old(data)@.len() == what@.len() <= u64::MAX,
        call_ensures(IrisGdbStub::write_addrs, (stub, addr, what), write),
        call_ensures(
            IrisGdbStub::read_addrs,
            (stub, addr, what@.len() as usize),
            read,
        ),
        what@.len() <= usize::MAX,
        all_mapped(mem, addr as int, what@.len() as int),
        served(effect(mem, write), read, reply),
        call_ensures(addrs_read, (reply, data), r),
    ensures
        r is Ok,
        final(data)@ == what@,
        forall|a: int|
            mem.contains_key(a) && !(addr <= a < addr + what@.len()) ==> #[trigger] effect(
                mem,
                write,
            )[a] == mem[a],
{
    a_read_gives_back_what_was_written(
        stub.instance_id,
        addr,
        what@,
        mem,
        write,
        read,
        reply,
        old(data)@,
    );
    crate::access::lemma_bytes_stored(mem, write, stub.instance_id, addr as u64, what@);
}

/// A reply to a write tells gdb whether it went through.
pub proof fn gdb_is_told_whether_it_was_written(reply: Reply, r: Result<(), ()>)
    requires
        call_ensures(addrs_written, (reply,), r),
    ensures
        r is Err <==> reply is Failed,
{
}

} // verus!
