//! Bytes and 32-bit fields in target memory.
//!
//! Each access comes in two parts: the request to send, and what its reply means.

use crate::dialogue::{contents, effect, mapped, served, stored, unpacked};
use crate::error::RttError;
use crate::memory::{
    bytes_of, le_u32, lemma_carried, pack_le, packing_round_trips, u32_from_le, u32_le, unpack_le,
    words_of, Reply, Request, SPACE,
};
use crate::model::{carried, lemma_weights};
use vstd::prelude::*;

verus! {

/// The bytes that a reply to a read of `n` bytes carries, or why it carries none.
pub open spec fn bytes_in(reply: Reply, n: u64) -> Result<Seq<u8>, RttError> {
    match reply {
        Reply::Failed(text) => Err(RttError::Transport(text)),
        Reply::Words(words) => if bytes_of(words@).len() < n {
            Err(RttError::ShortRead)
        } else {
            Ok(bytes_of(words@).take(n as int))
        },
    }
}

/// The number that a reply to a read of four bytes carries, or why it carries none.
pub open spec fn u32_in(reply: Reply) -> Result<u32, RttError> {
    match bytes_in(reply, 4) {
        Ok(bytes) => Ok(le_u32(bytes)),
        Err(e) => Err(e),
    }
}

/// The request that reads `n` bytes at `addr`; none where `n` is 0, since nothing
/// has to be asked for then.
pub fn read_bytes(inst: u32, addr: u64, n: u64) -> (request: Option<Request>)
    ensures
        request is None <==> n == 0,
        request matches Some(r) ==> r.reads(inst, addr, n),
{
    if n == 0 {
        None
    } else {
        Some(Request::Read { inst, space: SPACE, addr, width: 1, count: n })
    }
}

/// What the reply to a read of `n` bytes says. A reply may carry more than was asked
/// for, since it comes in whole words; one that carries less is an error.
pub fn bytes_read(reply: Reply, n: u64) -> (r: Result<Vec<u8>, RttError>)
    ensures
        match bytes_in(reply, n) {
            Ok(bytes) => r is Ok && r->Ok_0@ == bytes,
            Err(e) => r == Err::<Vec<u8>, RttError>(e),
        },
{
    match reply {
        Reply::Failed(text) => Err(RttError::Transport(text)),
        Reply::Words(words) => {
            let mut bytes = unpack_le(&words);
            if (bytes.len() as u64) < n {
                return Err(RttError::ShortRead);
            }
            bytes.truncate(n as usize);
            Ok(bytes)
        },
    }
}

/// The request that reads the 32-bit number at `addr`.
pub fn read_u32(inst: u32, addr: u64) -> (request: Request)
    ensures
        request.reads(inst, addr, 4),
{
    Request::Read { inst, space: SPACE, addr, width: 1, count: 4 }
}

/// What the reply to a read of a 32-bit number says.
pub fn u32_read(reply: Reply) -> (r: Result<u32, RttError>)
    ensures
        r == u32_in(reply),
{
    match bytes_read(reply, 4) {
        Ok(bytes) => Ok(u32_from_le(bytes.as_slice(), 0)),
        Err(e) => Err(e),
    }
}

/// The request that writes `val` at `addr`, as one 32-bit access.
pub fn write_u32(inst: u32, addr: u64, val: u32) -> (request: Request)
    ensures
        request.writes(inst, addr, 4, 1, seq![val as u64]),
{
    let mut data: Vec<u64> = Vec::new();
    data.push(val as u64);
    assert(data@ =~= seq![val as u64]);
    Request::Write { inst, space: SPACE, addr, width: 4, count: 1, data }
}

/// The request that writes `bytes` at `addr`; none where there are none.
pub fn write_bytes(inst: u32, addr: u64, bytes: &[u8]) -> (request: Option<Request>)
    ensures
        request is None <==> bytes@.len() == 0,
        request matches Some(r) ==> r.writes(
            inst,
            addr,
            1,
            bytes@.len() as u64,
            words_of(bytes@),
        ),
{
    if bytes.len() == 0 {
        None
    } else {
        Some(
            Request::Write {
                inst,
                space: SPACE,
                addr,
                width: 1,
                count: bytes.len() as u64,
                data: pack_le(bytes),
            },
        )
    }
}

/// What the reply to a write says.
pub open spec fn written_in(reply: Reply) -> Result<(), RttError> {
    match reply {
        Reply::Failed(text) => Err(RttError::Transport(text)),
        Reply::Words(_) => Ok(()),
    }
}

/// What the reply to a write says.
pub fn written(reply: Reply) -> (r: Result<(), RttError>)
    ensures
        r == written_in(reply),
{
    match reply {
        Reply::Failed(text) => Err(RttError::Transport(text)),
        Reply::Words(_) => Ok(()),
    }
}

/// A read of mapped memory tells what is there.
pub proof fn lemma_read_served(
    mem: Map<int, u8>,
    request: Request,
    reply: Reply,
    inst: u32,
    addr: u64,
    n: u64,
)
    requires
        request.reads(inst, addr, n),
        served(mem, request, reply),
        mapped(mem, addr as int, n as int),
    ensures
        bytes_in(reply, n) == Ok::<Seq<u8>, RttError>(contents(mem, addr as int, n as nat)),
        n == 4 ==> u32_in(reply) == Ok::<u32, RttError>(
            le_u32(contents(mem, addr as int, 4)),
        ),
{
    assert(1 * n == n);
    let words = reply->Words_0@;
    lemma_carried(words);
    let there = contents(mem, addr as int, n as nat);
    assert(bytes_of(words).take(n as int) =~= there) by {
        assert forall|k: int| 0 <= k < n implies #[trigger] bytes_of(words)[k] == there[k] by {
            assert(unpacked(words, n as nat)[k] == carried(words, k) as u8);
        }
    }
}

/// A 32-bit write to mapped memory stores the number's bytes.
pub proof fn lemma_u32_stored(
    mem: Map<int, u8>,
    request: Request,
    inst: u32,
    addr: u64,
    val: u32,
)
    requires
        request.writes(inst, addr, 4, 1, seq![val as u64]),
        mapped(mem, addr as int, 4),
    ensures
        effect(mem, request) == stored(mem, addr as int, u32_le(val)),
{
    let data = seq![val as u64];
    lemma_weights();
    assert forall|k: int| 0 <= k < 4 implies #[trigger] unpacked(data, 4)[k] == u32_le(val)[k] by {
        assert(k / 8 == 0 && k % 8 == k);
    }
    assert(unpacked(data, 4) =~= u32_le(val));
}

/// A write of bytes to mapped memory stores them.
pub proof fn lemma_bytes_stored(
    mem: Map<int, u8>,
    request: Request,
    inst: u32,
    addr: u64,
    bytes: Seq<u8>,
)
    requires
        bytes.len() <= u64::MAX,
        request.writes(inst, addr, 1, bytes.len() as u64, words_of(bytes)),
        mapped(mem, addr as int, bytes.len() as int),
    ensures
        effect(mem, request) == stored(mem, addr as int, bytes),
{
    packing_round_trips(bytes);
    assert(1 * (bytes.len() as u64) == bytes.len());
    let words = words_of(bytes);
    lemma_carried(words);
    assert(unpacked(words, bytes.len()) =~= bytes) by {
        assert forall|k: int| 0 <= k < bytes.len() implies #[trigger] unpacked(
            words,
            bytes.len(),
        )[k] == bytes[k] by {
            assert(bytes_of(words).take(bytes.len() as int)[k] == bytes_of(words)[k]);
        }
    }
}

} // verus!
