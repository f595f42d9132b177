//! The world in numbers: what words, memory and texts are, told without the code that
//! handles them.
//!
//! The laws are stated over what stands here. No function of the library has a contract
//! that speaks of it.

use vstd::prelude::*;

verus! {

/// 256 to the power of `k`.
pub open spec fn weight(k: int) -> int
    decreases k,
{
    if k <= 0 {
        1
    } else {
        256 * weight(k - 1)
    }
}

/// Byte number `k` of a word, the least significant one being number zero.
pub open spec fn byte_of(word: u64, k: int) -> int {
    (word as int / weight(k)) % 256
}

/// Byte number `k` of those that `words` carry, eight each, least significant first.
pub open spec fn carried(words: Seq<u64>, k: int) -> int {
    byte_of(words[k / 8], k % 8)
}

/// The number that four bytes make, least significant first.
pub open spec fn number_of(a: u8, b: u8, c: u8, d: u8) -> int {
    a + 0x100 * b + 0x1_0000 * c + 0x100_0000 * d
}

/// The number at `a` in the memory `mem`.
pub open spec fn number_in(mem: Map<int, u8>, a: int) -> int {
    number_of(mem[a], mem[a + 1], mem[a + 2], mem[a + 3])
}

/// All of `[a, a + n)` is mapped.
pub open spec fn all_mapped(mem: Map<int, u8>, a: int, n: int) -> bool {
    forall|x: int| a <= x < a + n ==> #[trigger] mem.contains_key(x)
}

/// Addresses run from zero to 2^64, and then from zero again.
pub open spec fn wrapped(a: int) -> int {
    a % 0x1_0000_0000_0000_0000
}

/// `text` stands in the memory at `a`.
pub open spec fn spelled_at(mem: Map<int, u8>, a: int, text: Seq<u8>) -> bool {
    forall|k: int|
        0 <= k < text.len() ==> mem.contains_key(a + k) && #[trigger] text[k] == mem[a + k]
}

/// The smaller of two numbers.
pub open spec fn smaller(a: int, b: int) -> int {
    if a <= b {
        a
    } else {
        b
    }
}

/// White space, as Unicode has it.
pub open spec fn is_space(c: char) -> bool {
    let n = c as int;
    ||| n == 9 || n == 10 || n == 11 || n == 12 || n == 13
    ||| n == 32
    ||| n == 133
    ||| n == 160
    ||| n == 5760
    ||| 8192 <= n <= 8202
    ||| n == 8232
    ||| n == 8233
    ||| n == 8239
    ||| n == 8287
    ||| n == 12288
}

/// There is nothing but white space in `s`.
pub open spec fn is_blank(s: Seq<char>) -> bool {
    forall|i: int| 0 <= i < s.len() ==> is_space(#[trigger] s[i])
}

/// `s` is a word: there is something, and no white space in it.
pub open spec fn is_word(s: Seq<char>) -> bool {
    &&& s.len() > 0
    &&& forall|i: int| 0 <= i < s.len() ==> !is_space(#[trigger] s[i])
}

/// The words `ws` with the texts `gaps` before, between and behind them.
pub open spec fn woven(gaps: Seq<Seq<char>>, ws: Seq<Seq<char>>) -> Seq<char>
    decreases ws.len(),
{
    if ws.len() == 0 {
        gaps[0]
    } else {
        gaps[0] + ws[0] + woven(gaps.drop_first(), ws.drop_first())
    }
}

/// `text` consists of the words `ws` with the white space `gaps` before, between and behind
/// them.
pub open spec fn consists_of(text: Seq<char>, gaps: Seq<Seq<char>>, ws: Seq<Seq<char>>) -> bool {
    &&& gaps.len() == ws.len() + 1
    &&& text == woven(gaps, ws)
    &&& forall|i: int| 0 <= i < gaps.len() ==> is_blank(#[trigger] gaps[i])
    &&& forall|i: int| 0 < i < ws.len() ==> (#[trigger] gaps[i]).len() > 0
    &&& forall|i: int| 0 <= i < ws.len() ==> is_word(#[trigger] ws[i])
}

/// What a digit counts; nothing else counts anything.
pub open spec fn counts(c: char) -> int {
    if '0' <= c <= '9' {
        c as int - '0' as int
    } else if 'a' <= c <= 'f' {
        c as int - 'a' as int + 10
    } else if 'A' <= c <= 'F' {
        c as int - 'A' as int + 10
    } else {
        -1
    }
}

/// There are digits to the base `radix` in `s`, and nothing else.
pub open spec fn is_numeral(s: Seq<char>, radix: int) -> bool {
    &&& s.len() > 0
    &&& forall|i: int| 0 <= i < s.len() ==> 0 <= counts(#[trigger] s[i]) < radix
}

/// What the digits in `s` count together to the base `radix`.
pub open spec fn total(s: Seq<char>, radix: int) -> int
    decreases s.len(),
{
    if s.len() == 0 {
        0
    } else {
        radix * total(s.drop_last(), radix) + counts(s.last())
    }
}

/// `s` is the number `n` to the base `radix`, with or without a plus sign before it.
pub open spec fn is_number(s: Seq<char>, radix: int, n: int) -> bool {
    let digits = if s.len() > 0 && s[0] == '+' {
        s.drop_first()
    } else {
        s
    };
    is_numeral(digits, radix) && total(digits, radix) == n
}

/// `s` is the number `n`: hexadecimal behind `0x` or `0X`, else decimal.
pub open spec fn denotes(s: Seq<char>, n: int) -> bool {
    if s.len() >= 2 && s[0] == '0' && (s[1] == 'x' || s[1] == 'X') {
        is_number(s.skip(2), 16, n)
    } else {
        is_number(s, 10, n)
    }
}

/// `s` is `n` as it is written to the base `radix`: in small letters, with no zero before it.
pub open spec fn is_written(s: Seq<char>, radix: int, n: int) -> bool {
    &&& is_numeral(s, radix)
    &&& total(s, radix) == n
    &&& s.len() > 1 ==> s[0] != '0'
    &&& forall|i: int| 0 <= i < s.len() ==> !('A' <= #[trigger] s[i] <= 'F')
}

/// `parts` with a blank between each two.
pub open spec fn with_blanks(parts: Seq<Seq<char>>) -> Seq<char>
    decreases parts.len(),
{
    if parts.len() == 0 {
        Seq::empty()
    } else if parts.len() == 1 {
        parts[0]
    } else {
        parts[0] + seq![' '] + with_blanks(parts.drop_first())
    }
}

/// There is nothing but quotes in `s`.
pub open spec fn is_quotes(s: Seq<char>) -> bool {
    forall|i: int| 0 <= i < s.len() ==> #[trigger] s[i] == '"'
}

/// `inner` is `s` without the quotes at its ends.
pub open spec fn is_unquoted(s: Seq<char>, inner: Seq<char>) -> bool {
    &&& inner.len() > 0 ==> inner[0] != '"' && inner.last() != '"'
    &&& exists|l: Seq<char>, r: Seq<char>| #[trigger] (l + inner + r) == s && is_quotes(l)
        && is_quotes(r)
}

/// The weights of the eight bytes of a word.
pub proof fn lemma_weights()
    ensures
        weight(0) == 1,
        weight(1) == 0x100,
        weight(2) == 0x1_0000,
        weight(3) == 0x100_0000,
        weight(4) == 0x1_0000_0000,
        weight(5) == 0x100_0000_0000,
        weight(6) == 0x1_0000_0000_0000,
        weight(7) == 0x100_0000_0000_0000,
{
    reveal_with_fuel(weight, 9);
}

} // verus!
