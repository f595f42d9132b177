//! Text: words, and what surrounds them.

use vstd::prelude::*;
use vstd::string::*;

verus! {

/// A new string with the characters of `s`.
pub fn owned(s: &str) -> (r: String)
    ensures
        r@ == s@,
{
    let mut r = String::new();
    r.append(s);
    assert(r@ =~= s@);
    r
}

/// The characters of `s`.
pub fn chars_of(s: &str) -> (r: Vec<char>)
    ensures
        r@ == s@,
{
    let mut r: Vec<char> = Vec::new();
    for c in iter: s.chars()
        invariant
            r@ == s@.take(iter.index() as int),
            iter.seq() == s@,
    {
        r.push(c);
        assert(r@ =~= s@.take(iter.index() + 1));
    }
    assert(s@.take(s@.len() as int) =~= s@);
    r
}

/// Whether two strings have the same characters.
pub fn same(a: &str, b: &str) -> (r: bool)
    ensures
        r == (a@ == b@),
{
    let x = chars_of(a);
    let y = chars_of(b);
    if x.len() != y.len() {
        return false;
    }
    let mut i: usize = 0;
    while i < x.len()
        invariant
            i <= x@.len(),
            x@.len() == y@.len(),
            x@ == a@,
            y@ == b@,
            x@.take(i as int) == y@.take(i as int),
        decreases x@.len() - i,
    {
        if x[i] != y[i] {
            return false;
        }
        assert(x@.take(i + 1) =~= x@.take(i as int).push(x@[i as int]));
        assert(y@.take(i + 1) =~= y@.take(i as int).push(y@[i as int]));
        i = i + 1;
    }
    assert(x@.take(x@.len() as int) =~= x@);
    assert(y@.take(y@.len() as int) =~= y@);
    true
}

/// The characters that Unicode counts as white space.
pub open spec fn white(c: char) -> bool {
    let n = c as u32;
    ||| 0x9 <= n <= 0xd
    ||| n == 0x20
    ||| n == 0x85
    ||| n == 0xa0
    ||| n == 0x1680
    ||| 0x2000 <= n <= 0x200a
    ||| n == 0x2028
    ||| n == 0x2029
    ||| n == 0x202f
    ||| n == 0x205f
    ||| n == 0x3000
}

/// Whether the character is white space.
pub fn is_white(c: char) -> (r: bool)
    ensures
        r == white(c),
{
    let n: u32 = c as u32;
    (0x9 <= n && n <= 0xd) || n == 0x20 || n == 0x85 || n == 0xa0 || n == 0x1680 || (0x2000 <= n
        && n <= 0x200a) || n == 0x2028 || n == 0x2029 || n == 0x202f || n == 0x205f || n == 0x3000
}

/// What is to be cut off at both ends of a text.
#[derive(Debug, Clone, Copy)]
pub enum Rim {
    /// White space.
    White,
    /// Double quotes.
    Quotes,
}

impl Rim {
    /// The character is to be cut off.
    pub open spec fn holds(self, c: char) -> bool {
        match self {
            Rim::White => white(c),
            Rim::Quotes => c == '"',
        }
    }

    /// Whether the character is to be cut off.
    pub fn has(&self, c: char) -> (r: bool)
        ensures
            r == self.holds(c),
    {
        match self {
            Rim::White => is_white(c),
            Rim::Quotes => c == '"',
        }
    }
}

/// The text `s` without the characters of `rim` at its ends.
pub open spec fn trimmed(s: Seq<char>, rim: Rim) -> Seq<char>
    decreases s.len(),
{
    if s.len() == 0 {
        s
    } else if rim.holds(s[0]) {
        trimmed(s.drop_first(), rim)
    } else if rim.holds(s.last()) {
        trimmed(s.drop_last(), rim)
    } else {
        s
    }
}

/// The text `s` without the characters of `rim` at its ends.
pub fn trim<'a>(s: &'a str, rim: Rim) -> (r: &'a str)
    ensures
        r@ == trimmed(s@, rim),
{
    let chars = chars_of(s);
    let mut from: usize = 0;
    let mut to: usize = chars.len();
    assert(s@.subrange(0, s@.len() as int) =~= s@);
    while from < to && rim.has(chars[from])
        invariant
            from <= to == chars@.len(),
            chars@ == s@,
            trimmed(s@, rim) == trimmed(s@.subrange(from as int, to as int), rim),
        decreases to - from,
    {
        assert(s@.subrange(from as int, to as int).drop_first() =~= s@.subrange(
            from + 1,
            to as int,
        ));
        from = from + 1;
    }
    while from < to && rim.has(chars[to - 1])
        invariant
            from <= to <= chars@.len(),
            chars@ == s@,
            from < to ==> !rim.holds(s@[from as int]),
            trimmed(s@, rim) == trimmed(s@.subrange(from as int, to as int), rim),
        decreases to - from,
    {
        assert(s@.subrange(from as int, to as int).drop_last() =~= s@.subrange(
            from as int,
            to - 1,
        ));
        assert(s@.subrange(from as int, to as int)[0] == s@[from as int]);
        to = to - 1;
    }
    assert(from < to ==> s@.subrange(from as int, to as int)[0] == s@[from as int]);
    assert(from < to ==> s@.subrange(from as int, to as int).last() == s@[to - 1]);
    s.substring_char(from, to)
}

/// How many characters stand before the first white space.
pub open spec fn word_len(s: Seq<char>) -> nat
    decreases s.len(),
{
    if s.len() == 0 || white(s[0]) {
        0
    } else {
        1 + word_len(s.drop_first())
    }
}

/// A word is a part of its text.
pub proof fn lemma_word_len(s: Seq<char>)
    ensures
        word_len(s) <= s.len(),
        s.len() > 0 && !white(s[0]) ==> word_len(s) > 0,
    decreases s.len(),
{
    if s.len() > 0 && !white(s[0]) {
        lemma_word_len(s.drop_first());
    }
}

/// The words of the text `s`: what is left between white space.
pub open spec fn words(s: Seq<char>) -> Seq<Seq<char>>
    decreases s.len(),
{
    if s.len() == 0 {
        Seq::empty()
    } else if white(s[0]) {
        words(s.drop_first())
    } else {
        proof {
            lemma_word_len(s);
        }
        seq![s.take(word_len(s) as int)] + words(s.skip(word_len(s) as int))
    }
}

/// The contents of some texts.
pub open spec fn texts(list: Seq<&str>) -> Seq<Seq<char>> {
    list.map_values(|s: &str| s@)
}

/// The words of the text `s`.
pub fn split_words<'a>(s: &'a str) -> (list: Vec<&'a str>)
    ensures
        texts(list@) == words(s@),
{
    let chars = chars_of(s);
    let mut list: Vec<&'a str> = Vec::new();
    let mut at: usize = 0;
    assert(s@.skip(0) =~= s@);
    assert(texts(list@) + words(s@) =~= words(s@));
    while at < chars.len()
        invariant
            at <= chars@.len(),
            chars@ == s@,
            words(s@) == texts(list@) + words(s@.skip(at as int)),
        decreases chars@.len() - at,
    {
        let ghost rest = s@.skip(at as int);
        assert(rest[0] == s@[at as int]);
        if is_white(chars[at]) {
            assert(rest.drop_first() =~= s@.skip(at + 1));
            at = at + 1;
        } else {
            let start: usize = at;
            assert(s@.skip(at as int) =~= rest);
            while at < chars.len() && !is_white(chars[at])
                invariant
                    start <= at <= chars@.len(),
                    chars@ == s@,
                    rest == s@.skip(start as int),
                    word_len(rest) == (at - start) + word_len(s@.skip(at as int)),
                decreases chars@.len() - at,
            {
                assert(s@.skip(at as int).drop_first() =~= s@.skip(at + 1));
                assert(s@.skip(at as int)[0] == s@[at as int]);
                at = at + 1;
            }
            assert(at < s@.len() ==> s@.skip(at as int)[0] == s@[at as int]);
            let word = s.substring_char(start, at);
            let ghost before = list@;
            list.push(word);
            proof {
                assert(word_len(rest) == at - start);
                assert(word@ =~= rest.take(at - start));
                assert(rest.skip(at - start) =~= s@.skip(at as int));
                assert(texts(list@) =~= texts(before).push(word@));
                assert(texts(before) + (seq![word@] + words(s@.skip(at as int))) =~= texts(list@)
                    + words(s@.skip(at as int)));
            }
        }
    }
    assert(s@.skip(at as int) =~= Seq::empty());
    assert(texts(list@) + words(Seq::empty()) =~= texts(list@));
    list
}

/// `parts` with a blank between each two.
pub open spec fn joined(parts: Seq<Seq<char>>) -> Seq<char>
    decreases parts.len(),
{
    if parts.len() == 0 {
        Seq::empty()
    } else if parts.len() == 1 {
        parts[0]
    } else {
        joined(parts.drop_last()) + seq![' '] + parts.last()
    }
}

/// The texts of `list` from `from` on, with a blank between each two.
pub fn join_from(list: &Vec<&str>, from: usize) -> (r: String)
    requires
        from <= list@.len(),
    ensures
        r@ == joined(texts(list@).skip(from as int)),
{
    let ghost parts = texts(list@).skip(from as int);
    let mut r = String::new();
    let mut i: usize = from;
    assert(r@ =~= joined(parts.take(0)));
    while i < list.len()
        invariant
            from <= i <= list@.len(),
            parts == texts(list@).skip(from as int),
            r@ == joined(parts.take(i - from)),
        decreases list@.len() - i,
    {
        let ghost now = parts.take(i + 1 - from);
        assert(now.drop_last() =~= parts.take(i - from));
        assert(now.last() == list@[i as int]@);
        proof {
            reveal_strlit(" ");
        }
        assert(" "@ =~= seq![' ']);
        if i > from {
            r.append(" ");
        } else {
            assert(r@ =~= Seq::empty());
            assert(now[0] == now.last());
        }
        r.append(list[i]);
        assert(r@ =~= joined(now));
        i = i + 1;
    }
    assert(parts.take(parts.len() as int) =~= parts);
    r
}

} // verus!
