//! Numbers in text.

use crate::text::{chars_of, trim, trimmed, white, Rim};
use vstd::prelude::*;
use vstd::string::*;

verus! {

/// What the digit `c` counts to the base `radix`, if it is one.
pub open spec fn digit_of(c: char, radix: nat) -> Option<nat> {
    let n = c as u32;
    let d = if 0x30 <= n <= 0x39 {
        n - 0x30
    } else if 0x61 <= n <= 0x66 {
        n - 0x61 + 10
    } else if 0x41 <= n <= 0x46 {
        n - 0x41 + 10
    } else {
        radix as int
    };
    if d < radix {
        Some(d as nat)
    } else {
        None
    }
}

/// The number that the digits `s` spell to the base `radix`. There has to be one.
pub open spec fn numeral(s: Seq<char>, radix: nat) -> Option<nat>
    decreases s.len(),
{
    if s.len() == 0 {
        None
    } else if s.len() == 1 {
        digit_of(s[0], radix)
    } else {
        match (numeral(s.drop_last(), radix), digit_of(s.last(), radix)) {
            (Some(high), Some(low)) => Some(high * radix + low),
            _ => None,
        }
    }
}

/// The number that `s` spells to the base `radix`, with or without a plus sign before it,
/// unless it is above `max`.
pub open spec fn unsigned(s: Seq<char>, radix: nat, max: nat) -> Option<nat> {
    let digits = if s.len() > 0 && s[0] == '+' {
        s.drop_first()
    } else {
        s
    };
    match numeral(digits, radix) {
        Some(n) => if n <= max {
            Some(n)
        } else {
            None
        },
        None => None,
    }
}

/// `s` starts with `0x` or `0X`.
pub open spec fn is_hex(s: Seq<char>) -> bool {
    &&& s.len() >= 2
    &&& s[0] == '0'
    &&& s[1] == 'x' || s[1] == 'X'
}

/// The number that the text `s` stands for: hexadecimal behind `0x`, else decimal. White
/// space around it does not count.
pub open spec fn parsed(s: Seq<char>) -> Option<nat> {
    let t = trimmed(s, Rim::White);
    if is_hex(t) {
        unsigned(t.skip(2), 16, u64::MAX as nat)
    } else {
        unsigned(t, 10, u64::MAX as nat)
    }
}

/// A number only grows with more digits, and stays none with one that is no digit.
proof fn lemma_prefix(s: Seq<char>, i: int, radix: nat)
    requires
        0 < i <= s.len(),
        radix > 0,
    ensures
        match numeral(s.take(i), radix) {
            None => numeral(s, radix) is None,
            Some(v) => numeral(s, radix) matches Some(w) ==> v <= w,
        },
    decreases s.len(),
{
    if i == s.len() {
        assert(s.take(i) =~= s);
    } else {
        lemma_prefix(s.drop_last(), i, radix);
        assert(s.drop_last().take(i) =~= s.take(i));
        match (numeral(s.drop_last(), radix), digit_of(s.last(), radix)) {
            (Some(high), Some(low)) => {
                assert(high <= high * radix) by (nonlinear_arith)
                    requires
                        radix > 0,
                ;
            },
            _ => {},
        }
    }
}

/// What the digit `c` counts to the base `radix`, if it is one.
fn digit(c: char, radix: u64) -> (r: Option<u64>)
    requires
        radix <= 16,
    ensures
        match digit_of(c, radix as nat) {
            Some(d) => r == Some(d as u64),
            None => r is None,
        },
{
    let n: u32 = c as u32;
    let d: u64 = if 0x30 <= n && n <= 0x39 {
        (n - 0x30) as u64
    } else if 0x61 <= n && n <= 0x66 {
        (n - 0x61 + 10) as u64
    } else if 0x41 <= n && n <= 0x46 {
        (n - 0x41 + 10) as u64
    } else {
        radix
    };
    if d < radix {
        Some(d)
    } else {
        None
    }
}

/// The number that the characters from `from` on spell to the base `radix`, unless it is
/// above `max`.
fn parse_digits(chars: &Vec<char>, from: usize, radix: u64, max: u64) -> (r: Option<u64>)
    requires
        2 <= radix <= 16,
        from <= chars@.len(),
    ensures
        match unsigned(chars@.skip(from as int), radix as nat, max as nat) {
            Some(n) => r == Some(n as u64),
            None => r is None,
        },
{
    let mut start: usize = from;
    if from < chars.len() && chars[from] == '+' {
        start = from + 1;
        assert(chars@.skip(from as int).drop_first() =~= chars@.skip(start as int));
    }
    let ghost s = chars@.skip(start as int);
    assert(from < chars@.len() ==> chars@.skip(from as int)[0] == chars@[from as int]);
    if start == chars.len() {
        return None;
    }
    let mut n: u64 = 0;
    let mut i: usize = start;
    while i < chars.len()
        invariant
            start <= i <= chars@.len(),
            start < chars@.len(),
            s == chars@.skip(start as int),
            2 <= radix <= 16,
            n <= max,
            i == start ==> n == 0,
            i > start ==> numeral(s.take(i - start), radix as nat) == Some(n as nat),
            unsigned(chars@.skip(from as int), radix as nat, max as nat) == match numeral(
                s,
                radix as nat,
            ) {
                Some(v) => if v <= max {
                    Some(v)
                } else {
                    None
                },
                None => None,
            },
        decreases chars@.len() - i,
    {
        let ghost now = s.take(i + 1 - start);
        proof {
            lemma_prefix(s, i + 1 - start, radix as nat);
            assert(now.last() == chars@[i as int]);
            assert(now.drop_last() =~= s.take(i - start));
            assert(n * radix <= u64::MAX * 16) by (nonlinear_arith)
                requires
                    n <= u64::MAX,
                    radix <= 16,
            ;
            assert(0 * radix == 0) by (nonlinear_arith);
        }
        let low: u64 = match digit(chars[i], radix) {
            Some(low) => low,
            None => {
                return None;
            },
        };
        let wide: u128 = n as u128 * radix as u128 + low as u128;
        assert(numeral(now, radix as nat) == Some(wide as nat));
        if wide > max as u128 {
            return None;
        }
        n = wide as u64;
        i = i + 1;
    }
    assert(s.take(s.len() as int) =~= s);
    Some(n)
}

/// The number that the text stands for: hexadecimal behind `0x`, else decimal.
pub fn parse_u64(s: &str) -> (r: Option<u64>)
    ensures
        match parsed(s@) {
            Some(n) => r == Some(n as u64),
            None => r is None,
        },
{
    let chars = chars_of(trim(s, Rim::White));
    if chars.len() >= 2 && chars[0] == '0' && (chars[1] == 'x' || chars[1] == 'X') {
        parse_digits(&chars, 2, 16, u64::MAX)
    } else {
        assert(chars@.skip(0) =~= chars@);
        parse_digits(&chars, 0, 10, u64::MAX)
    }
}

/// The decimal number of 16 bits that the text is.
pub fn parse_u16(s: &str) -> (r: Option<u16>)
    ensures
        match unsigned(s@, 10, u16::MAX as nat) {
            Some(n) => r == Some(n as u16),
            None => r is None,
        },
{
    let chars = chars_of(s);
    assert(chars@.skip(0) =~= chars@);
    match parse_digits(&chars, 0, 10, u16::MAX as u64) {
        Some(n) => Some(n as u16),
        None => None,
    }
}

/// The digit that counts `d`.
pub open spec fn digit_char(d: nat) -> char {
    (if d < 10 {
        0x30 + d
    } else {
        0x57 + d
    }) as char
}

/// The digits of `n` to the base `radix`.
pub open spec fn digits(n: nat, radix: nat) -> Seq<char>
    decreases n,
{
    if n < radix || radix < 2 {
        seq![digit_char(n)]
    } else {
        proof {
            assert(n / radix < n) by (nonlinear_arith)
                requires
                    n >= radix,
                    radix >= 2,
            ;
        }
        digits(n / radix, radix).push(digit_char(n % radix))
    }
}

fn digit_text(d: u64) -> (r: &'static str)
    requires
        d < 16,
    ensures
        r@ == seq![digit_char(d as nat)],
{
    proof {
        reveal_strlit("0");
        reveal_strlit("1");
        reveal_strlit("2");
        reveal_strlit("3");
        reveal_strlit("4");
        reveal_strlit("5");
        reveal_strlit("6");
        reveal_strlit("7");
        reveal_strlit("8");
        reveal_strlit("9");
        reveal_strlit("a");
        reveal_strlit("b");
        reveal_strlit("c");
        reveal_strlit("d");
        reveal_strlit("e");
        reveal_strlit("f");
    }
    let r = match d {
        0 => "0",
        1 => "1",
        2 => "2",
        3 => "3",
        4 => "4",
        5 => "5",
        6 => "6",
        7 => "7",
        8 => "8",
        9 => "9",
        10 => "a",
        11 => "b",
        12 => "c",
        13 => "d",
        14 => "e",
        _ => "f",
    };
    assert(r@ =~= seq![digit_char(d as nat)]);
    r
}

/// Appends the digits of `n` to the base `radix`.
pub fn append_number(text: &mut String, n: u64, radix: u64)
    requires
        2 <= radix <= 16,
    ensures
        final(text)@ == old(text)@ + digits(n as nat, radix as nat),
    decreases n,
{
    if n < radix {
        text.append(digit_text(n));
    } else {
        proof {
            assert(n / radix < n) by (nonlinear_arith)
                requires
                    n >= radix,
                    radix >= 2,
            ;
            assert(n % radix < radix) by (nonlinear_arith)
                requires
                    radix >= 2,
            ;
        }
        append_number(text, n / radix, radix);
        text.append(digit_text(n % radix));
        assert(text@ =~= old(text)@ + digits(n as nat, radix as nat));
    }
}

/// The digits of a number spell it, and are digits.
proof fn lemma_digits(n: nat, radix: nat)
    requires
        2 <= radix <= 16,
    ensures
        digits(n, radix).len() > 0,
        numeral(digits(n, radix), radix) == Some(n),
        forall|i: int|
            0 <= i < digits(n, radix).len() ==> digit_of(
                #[trigger] digits(n, radix)[i],
                radix,
            ) is Some,
    decreases n,
{
    let s = digits(n, radix);
    if n < radix {
        assert(digit_of(s[0], radix) == Some(n));
    } else {
        assert(n / radix < n && n % radix < radix && n == (n / radix) * radix + n % radix)
            by (nonlinear_arith)
            requires
                n >= radix,
                radix >= 2,
        ;
        lemma_digits(n / radix, radix);
        let high = digits(n / radix, radix);
        assert(s == high.push(digit_char(n % radix)));
        assert(s.drop_last() =~= high);
        assert(digit_of(s.last(), radix) == Some(n % radix));
        assert forall|i: int| 0 <= i < s.len() implies digit_of(#[trigger] s[i], radix) is Some by {
            if i < high.len() {
                assert(s[i] == high[i]);
            }
        }
    }
}

/// All of `s` is white space.
pub open spec fn blank(s: Seq<char>) -> bool {
    forall|i: int| 0 <= i < s.len() ==> white(#[trigger] s[i])
}

/// White space around a text is cut off.
proof fn lemma_trimmed(left: Seq<char>, s: Seq<char>, right: Seq<char>)
    requires
        blank(left),
        blank(right),
        s.len() > 0,
        !white(s[0]),
        !white(s.last()),
    ensures
        trimmed(left + s + right, Rim::White) == s,
    decreases left.len() + right.len(),
{
    let t = left + s + right;
    if left.len() > 0 {
        assert(t[0] == left[0]);
        assert(t.drop_first() =~= left.drop_first() + s + right);
        assert(blank(left.drop_first())) by {
            assert forall|i: int| 0 <= i < left.drop_first().len() implies white(
                #[trigger] left.drop_first()[i],
            ) by {
                assert(white(left[i + 1]));
            }
        }
        lemma_trimmed(left.drop_first(), s, right);
    } else if right.len() > 0 {
        assert(t[0] == s[0]);
        assert(t.last() == right.last());
        assert(white(right[right.len() - 1]));
        assert(t.drop_last() =~= left + s + right.drop_last());
        assert(blank(right.drop_last())) by {
            assert forall|i: int| 0 <= i < right.drop_last().len() implies white(
                #[trigger] right.drop_last()[i],
            ) by {
                assert(white(right[i]));
            }
        }
        lemma_trimmed(left, s, right.drop_last());
    } else {
        assert(t =~= s);
    }
}

/// A number that was written out, in decimal or hexadecimal behind `0x`, is read back, with
/// any white space around it.
pub proof fn numbers_read_back(n: u64, left: Seq<char>, right: Seq<char>)
    requires
        blank(left),
        blank(right),
    ensures
        parsed(left + digits(n as nat, 10) + right) == Some(n as nat),
        parsed(left + (seq!['0', 'x'] + digits(n as nat, 16)) + right) == Some(n as nat),
{
    let d = digits(n as nat, 10);
    lemma_digits(n as nat, 10);
    assert(digit_of(d[0], 10) is Some && digit_of(d.last(), 10) is Some);
    lemma_trimmed(left, d, right);
    assert(d.len() >= 2 ==> digit_of(d[1], 10) is Some);
    let h = digits(n as nat, 16);
    lemma_digits(n as nat, 16);
    let t = seq!['0', 'x'] + h;
    assert(digit_of(h[0], 16) is Some && digit_of(h.last(), 16) is Some);
    assert(t.last() == h.last());
    lemma_trimmed(left, t, right);
    assert(t.skip(2) =~= h);
}

} // verus!
