//! Memory accesses on the Iris connection.
//!
//! The server moves memory contents as 64-bit words, the bytes packed
//! little-endian. A [`Request`] is what the connection has to send, a [`Reply`]
//! what came back; the functions here convert between words and bytes.

use crate::model::{byte_of, carried, lemma_weights};
use vstd::bytes::*;
use vstd::prelude::*;

verus! {

/// The memory space of every CPU-side access. Cortex-M has a flat address map.
pub const SPACE: u64 = 0;

/// A memory access to be sent to the server.
#[derive(Debug)]
pub enum Request {
    /// Read `count` units of `width` bytes, starting at `addr`.
    Read { inst: u32, space: u64, addr: u64, width: u64, count: u64 },
    /// Write `count` units of `width` bytes, packed into `data`, starting at `addr`.
    Write { inst: u32, space: u64, addr: u64, width: u64, count: u64, data: Vec<u64> },
}

/// What came back for a [`Request`].
#[derive(Debug)]
pub enum Reply {
    /// The access went through. The words that were read; those of a write carry nothing.
    Words(Vec<u64>),
    /// The server or the connection refused; the text of the error.
    Failed(String),
}

impl Request {
    /// The request is a read of `n` single bytes at `addr`.
    pub open spec fn reads(self, inst: u32, addr: u64, n: u64) -> bool {
        self == (Request::Read { inst, space: SPACE, addr, width: 1, count: n })
    }

    /// The request is a write of `count` units of `width` bytes at `addr`, packed into `data`.
    pub open spec fn writes(
        self,
        inst: u32,
        addr: u64,
        width: u64,
        count: u64,
        data: Seq<u64>,
    ) -> bool {
        &&& self is Write
        &&& self->Write_inst == inst
        &&& self->Write_space == SPACE
        &&& self->Write_addr == addr
        &&& self->Write_width == width
        &&& self->Write_count == count
        &&& self->Write_data@ == data
    }
}

/// The bytes that `words` carry, least significant byte of each word first.
pub open spec fn bytes_of(words: Seq<u64>) -> Seq<u8> {
    Seq::new(8 * words.len(), |k: int| spec_u64_to_le_bytes(words[k / 8])[k % 8])
}

/// The eight bytes of `bytes` that start at `at`, zeros standing beyond the end.
pub open spec fn octet(bytes: Seq<u8>, at: int) -> Seq<u8> {
    Seq::new(
        8,
        |j: int|
            if at + j < bytes.len() {
                bytes[at + j]
            } else {
                0u8
            },
    )
}

/// `bytes` packed into as few words as hold them, the last one filled up with zeros.
pub open spec fn words_of(bytes: Seq<u8>) -> Seq<u64> {
    Seq::new(
        (bytes.len() + 7) as nat / 8,
        |i: int| spec_u64_from_le_bytes(octet(bytes, 8 * i)),
    )
}

/// Unpacking what was packed gives the bytes back, followed by fewer than eight zeros.
pub proof fn packing_round_trips(bytes: Seq<u8>)
    ensures
        bytes_of(words_of(bytes)).len() < bytes.len() + 8,
        bytes_of(words_of(bytes)).take(bytes.len() as int) == bytes,
        forall|k: int|
            bytes.len() <= k < bytes_of(words_of(bytes)).len() ==> #[trigger] bytes_of(
                words_of(bytes),
            )[k] == 0,
{
    lemma_auto_spec_u64_to_from_le_bytes();
    let words = words_of(bytes);
    assert forall|k: int| 0 <= k < 8 * words.len() implies #[trigger] bytes_of(words)[k] == (
    if k < bytes.len() {
        bytes[k]
    } else {
        0u8
    }) by {
        let o = octet(bytes, 8 * (k / 8));
        assert(words[k / 8] == spec_u64_from_le_bytes(o));
        assert(spec_u64_to_le_bytes(spec_u64_from_le_bytes(o)) == o);
    }
    assert(bytes_of(words).take(bytes.len() as int) =~= bytes);
}

/// The eight bytes of a word, in numbers.
proof fn lemma_word(word: u64)
    ensures
        spec_u64_to_le_bytes(word).len() == 8,
        forall|k: int|
            0 <= k < 8 ==> #[trigger] spec_u64_to_le_bytes(word)[k] as int == byte_of(word, k),
{
    lemma_weights();
    spec_u64_to_le_bytes_to_open(word);
    assert(word & 0xff == word % 0x100 && (word >> 8) & 0xff == word / 0x100 % 0x100 && (word
        >> 16) & 0xff == word / 0x1_0000 % 0x100 && (word >> 24) & 0xff == word / 0x100_0000
        % 0x100 && (word >> 32) & 0xff == word / 0x1_0000_0000 % 0x100 && (word >> 40) & 0xff
        == word / 0x100_0000_0000 % 0x100 && (word >> 48) & 0xff == word / 0x1_0000_0000_0000
        % 0x100 && (word >> 56) & 0xff == word / 0x100_0000_0000_0000 % 0x100) by (bit_vector);
}

/// The bytes that words carry, in numbers.
pub proof fn lemma_carried(words: Seq<u64>)
    ensures
        bytes_of(words).len() == 8 * words.len(),
        forall|k: int|
            0 <= k < 8 * words.len() ==> #[trigger] bytes_of(words)[k] as int == carried(
                words,
                k,
            ),
{
    assert forall|k: int| 0 <= k < 8 * words.len() implies #[trigger] bytes_of(words)[k] as int
        == carried(words, k) by {
        lemma_word(words[k / 8]);
        assert(0 <= k % 8 < 8);
    }
}

/// The number that the first four of `bytes` spell, least significant byte first.
pub open spec fn le_u32(bytes: Seq<u8>) -> u32 {
    (bytes[0] + 0x100 * bytes[1] + 0x1_0000 * bytes[2] + 0x100_0000 * bytes[3]) as u32
}

/// The four bytes of `val`, least significant byte first.
pub open spec fn u32_le(val: u32) -> Seq<u8> {
    seq![
        (val % 0x100) as u8,
        (val / 0x100 % 0x100) as u8,
        (val / 0x1_0000 % 0x100) as u8,
        (val / 0x100_0000) as u8,
    ]
}

/// The four bytes of a number spell that number.
pub proof fn u32_round_trips(val: u32)
    ensures
        u32_le(val).len() == 4,
        le_u32(u32_le(val)) == val,
{
}

/// The number that the four bytes from `at` on spell.
pub fn u32_from_le(bytes: &[u8], at: usize) -> (val: u32)
    requires
        at + 4 <= bytes@.len(),
    ensures
        val == le_u32(bytes@.skip(at as int)),
{
    bytes[at] as u32 + 0x100 * (bytes[at + 1] as u32) + 0x1_0000 * (bytes[at + 2] as u32)
        + 0x100_0000 * (bytes[at + 3] as u32)
}

/// Appends the four bytes of `val`.
pub fn push_u32_le(bytes: &mut Vec<u8>, val: u32)
    ensures
        final(bytes)@ == old(bytes)@ + u32_le(val),
{
    bytes.push((val % 0x100) as u8);
    bytes.push((val / 0x100 % 0x100) as u8);
    bytes.push((val / 0x1_0000 % 0x100) as u8);
    bytes.push((val / 0x100_0000) as u8);
    assert(bytes@ =~= old(bytes)@ + u32_le(val));
}

/// `data` overwritten with the first of `bytes`, as far as both reach.
pub open spec fn overlaid(data: Seq<u8>, bytes: Seq<u8>) -> Seq<u8> {
    Seq::new(
        data.len(),
        |i: int|
            if i < bytes.len() {
                bytes[i]
            } else {
                data[i]
            },
    )
}

/// Overwrites `data` with the first of `bytes`, as far as both reach.
pub fn overlay(data: &mut [u8], bytes: &Vec<u8>)
    ensures
        final(data)@ == overlaid(old(data)@, bytes@),
{
    let ghost before = data@;
    let mut i: usize = 0;
    while i < data.len() && i < bytes.len()
        invariant
            i <= bytes@.len(),
            i <= data@.len(),
            data@ == overlaid(before, bytes@.take(i as int)),
        decreases bytes@.len() - i,
    {
        data[i] = bytes[i];
        i = i + 1;
        assert(data@ =~= overlaid(before, bytes@.take(i as int)));
    }
    assert(data@ =~= overlaid(before, bytes@));
}

/// Packs bytes into 64-bit words, little-endian.
pub fn pack_le(bytes: &[u8]) -> (words: Vec<u64>)
    ensures
        words@ == words_of(bytes@),
{
    let mut words: Vec<u64> = Vec::new();
    let mut at: usize = 0;
    while at < bytes.len()
        invariant
            at == bytes@.len() || at == 8 * words@.len(),
            at <= bytes@.len(),
            words@ == words_of(bytes@).take(words@.len() as int),
            words@.len() <= words_of(bytes@).len(),
            at == bytes@.len() ==> words@.len() == words_of(bytes@).len(),
        decreases bytes@.len() - at,
    {
        let mut chunk: Vec<u8> = Vec::new();
        let mut j: usize = 0;
        while j < 8
            invariant
                j <= 8,
                at < bytes@.len(),
                chunk@ == octet(bytes@, at as int).take(j as int),
            decreases 8 - j,
        {
            if j < bytes.len() - at {
                chunk.push(bytes[at + j]);
            } else {
                chunk.push(0);
            }
            j = j + 1;
            assert(chunk@ =~= octet(bytes@, at as int).take(j as int));
        }
        assert(octet(bytes@, at as int).take(8) =~= octet(bytes@, at as int));
        words.push(u64_from_le_bytes(chunk.as_slice()));
        assert(words@ =~= words_of(bytes@).take(words@.len() as int));
        if bytes.len() - at <= 8 {
            at = bytes.len();
        } else {
            at = at + 8;
        }
    }
    assert(words_of(bytes@).take(words_of(bytes@).len() as int) =~= words_of(bytes@));
    words
}

/// The bytes of 64-bit words, little-endian.
pub fn unpack_le(words: &Vec<u64>) -> (bytes: Vec<u8>)
    ensures
        bytes@ == bytes_of(words@),
{
    let mut bytes: Vec<u8> = Vec::new();
    let mut i: usize = 0;
    while i < words.len()
        invariant
            i <= words@.len(),
            bytes@ == bytes_of(words@.take(i as int)),
        decreases words@.len() - i,
    {
        let mut word = u64_to_le_bytes(words[i]);
        let ghost w = word@;
        bytes.append(&mut word);
        proof {
            let before = words@.take(i as int);
            let after = words@.take(i + 1);
            assert(bytes@.len() == bytes_of(after).len());
            assert forall|k: int| 0 <= k < bytes@.len() implies bytes@[k] == bytes_of(after)[k] by {
                if k < 8 * i {
                    assert(bytes_of(before)[k] == bytes@[k]);
                    assert(before[k / 8] == after[k / 8]);
                } else {
                    assert(k / 8 == i);
                    assert(after[k / 8] == words@[i as int]);
                    assert(bytes@[k] == w[k - 8 * i]);
                }
            }
            assert(bytes@ =~= bytes_of(after));
        }
        i = i + 1;
    }
    assert(words@.take(words@.len() as int) =~= words@);
    bytes
}

} // verus!
