//! Words and numbers in text.

use crate::model::{
    consists_of, counts, denotes, is_blank, is_number, is_numeral, is_quotes, is_space,
    is_unquoted, is_word, is_written, total, with_blanks, woven,
};
use crate::numbers::{
    append_number, digit_char, digit_of, digits, is_hex, numeral, parse_u16, parse_u64, parsed,
    unsigned,
};
use crate::text::{
    is_white, join_from, joined, same, split_words, texts, trim, trimmed, white, word_len, words,
    Rim,
};
use vstd::prelude::*;

verus! {

/// White space is what Unicode has for it.
pub proof fn white_space_is_white_space(c: char, r: bool)
    requires
        call_ensures(is_white, (c,), r),
    ensures
        r == is_space(c),
{
}

/// Two texts are the same where their characters are.
pub proof fn same_texts_are_the_same(a: &str, b: &str, r: bool)
    requires
        call_ensures(same, (a, b), r),
    ensures
        r <==> a@ =~= b@,
{
}

/// The two ways to tell white space agree.
proof fn lemma_space(c: char)
    ensures
        is_space(c) == white(c),
{
}

/// Leading white space does not matter for the words.
proof fn lemma_skip(gap: Seq<char>, rest: Seq<char>)
    requires
        is_blank(gap),
    ensures
        words(gap + rest) == words(rest),
    decreases gap.len(),
{
    let s = gap + rest;
    if gap.len() == 0 {
        assert(s =~= rest);
    } else {
        assert(s[0] == gap[0]);
        lemma_space(gap[0]);
        assert(is_blank(gap.drop_first())) by {
            assert forall|i: int| 0 <= i < gap.drop_first().len() implies is_space(
                #[trigger] gap.drop_first()[i],
            ) by {
                assert(is_space(gap[i + 1]));
            }
        }
        assert(s.drop_first() =~= gap.drop_first() + rest);
        lemma_skip(gap.drop_first(), rest);
    }
}

/// A word ends where white space or the text does.
proof fn lemma_word(w: Seq<char>, rest: Seq<char>)
    requires
        forall|i: int| 0 <= i < w.len() ==> !is_space(#[trigger] w[i]),
        rest.len() > 0 ==> is_space(rest[0]),
    ensures
        word_len(w + rest) == w.len(),
    decreases w.len(),
{
    let s = w + rest;
    if w.len() == 0 {
        assert(s =~= rest);
        if rest.len() > 0 {
            lemma_space(rest[0]);
        }
    } else {
        assert(s[0] == w[0]);
        assert(!is_space(w[0]));
        lemma_space(w[0]);
        assert(s.drop_first() =~= w.drop_first() + rest);
        assert forall|i: int| 0 <= i < w.drop_first().len() implies !is_space(
            #[trigger] w.drop_first()[i],
        ) by {
            assert(!is_space(w[i + 1]));
        }
        lemma_word(w.drop_first(), rest);
    }
}

/// What a text behind a word begins with.
proof fn lemma_behind(gaps: Seq<Seq<char>>, ws: Seq<Seq<char>>)
    requires
        consists_of(woven(gaps, ws), gaps, ws),
        ws.len() > 0 ==> gaps[0].len() > 0,
    ensures
        woven(gaps, ws).len() > 0 ==> is_space(woven(gaps, ws)[0]),
{
    let s = woven(gaps, ws);
    if s.len() > 0 {
        if ws.len() > 0 {
            assert(s[0] == gaps[0][0]);
        }
        assert(is_blank(gaps[0]));
        assert(is_space(gaps[0][0]));
    }
}

/// The rest of a text consists of the rest of the words.
proof fn lemma_rest(text: Seq<char>, gaps: Seq<Seq<char>>, ws: Seq<Seq<char>>)
    requires
        consists_of(text, gaps, ws),
        ws.len() > 0,
    ensures
        consists_of(
            woven(gaps.drop_first(), ws.drop_first()),
            gaps.drop_first(),
            ws.drop_first(),
        ),
        ws.len() > 1 ==> gaps.drop_first()[0].len() > 0,
{
    let g = gaps.drop_first();
    let w = ws.drop_first();
    assert forall|i: int| 0 <= i < g.len() implies is_blank(#[trigger] g[i]) by {
        assert(is_blank(gaps[i + 1]));
    }
    assert forall|i: int| 0 < i < w.len() implies (#[trigger] g[i]).len() > 0 by {
        assert(gaps[i + 1].len() > 0);
    }
    assert forall|i: int| 0 <= i < w.len() implies is_word(#[trigger] w[i]) by {
        assert(is_word(ws[i + 1]));
    }
    if ws.len() > 1 {
        assert(gaps[1].len() > 0);
    }
}

/// The words of a text are those that it consists of.
pub proof fn lemma_words(text: Seq<char>, gaps: Seq<Seq<char>>, ws: Seq<Seq<char>>)
    requires
        consists_of(text, gaps, ws),
    ensures
        words(text) == ws,
    decreases ws.len(),
{
    assert(is_blank(gaps[0]));
    if ws.len() == 0 {
        lemma_skip(gaps[0], Seq::empty());
        assert(gaps[0] + Seq::<char>::empty() =~= gaps[0]);
        assert(words(text) =~= ws);
    } else {
        let g = gaps.drop_first();
        let v = ws.drop_first();
        let rest = woven(g, v);
        lemma_rest(text, gaps, ws);
        lemma_words(rest, g, v);
        lemma_behind(g, v);
        let w = ws[0];
        assert(is_word(ws[0]));
        let s = w + rest;
        assert(text =~= gaps[0] + s);
        lemma_skip(gaps[0], s);
        lemma_word(w, rest);
        assert(s[0] == w[0]);
        assert(s.take(w.len() as int) =~= w);
        assert(s.skip(w.len() as int) =~= rest);
        assert(seq![w] + v =~= ws);
    }
}

/// A text is split into the words that it consists of, however much white space there is.
pub proof fn a_text_is_split_into_its_words(
    text: &str,
    list: Vec<&str>,
    gaps: Seq<Seq<char>>,
    ws: Seq<Seq<char>>,
)
    requires
        call_ensures(split_words, (text,), list),
        consists_of(text@, gaps, ws),
    ensures
        list@.len() == ws.len(),
        forall|i: int| 0 <= i < ws.len() ==> (#[trigger] list@[i])@ == ws[i],
{
    lemma_words(text@, gaps, ws);
    assert(texts(list@).len() == ws.len());
    assert forall|i: int| 0 <= i < ws.len() implies (#[trigger] list@[i])@ == ws[i] by {
        assert(texts(list@)[i] == ws[i]);
    }
}

/// The first character of a text joins its first gap or its first word.
proof fn lemma_woven_push(c: char, gaps: Seq<Seq<char>>, ws: Seq<Seq<char>>)
    requires
        gaps.len() == ws.len() + 1,
    ensures
        ({
            let g = gaps.update(0, seq![c] + gaps[0]);
            woven(g, ws) == seq![c] + woven(gaps, ws)
        }),
{
    let g = gaps.update(0, seq![c] + gaps[0]);
    if ws.len() > 0 {
        assert(g.drop_first() =~= gaps.drop_first());
        let rest = woven(gaps.drop_first(), ws.drop_first());
        assert((seq![c] + gaps[0]) + ws[0] + rest =~= seq![c] + (gaps[0] + ws[0] + rest));
    }
}

/// Every text consists of words.
pub proof fn every_text_consists_of_words(text: Seq<char>) -> (r: (
    Seq<Seq<char>>,
    Seq<Seq<char>>,
))
    ensures
        consists_of(text, r.0, r.1),
    decreases text.len(),
{
    if text.len() == 0 {
        let none = Seq::<Seq<char>>::empty();
        let gaps = seq![Seq::<char>::empty()];
        assert(woven(gaps, none) =~= text);
        (gaps, none)
    } else {
        let c = text[0];
        let rest = text.drop_first();
        let (gaps, ws) = every_text_consists_of_words(rest);
        assert(text =~= seq![c] + rest);
        if is_space(c) {
            let g = gaps.update(0, seq![c] + gaps[0]);
            lemma_woven_push(c, gaps, ws);
            assert forall|i: int| 0 <= i < g.len() implies is_blank(#[trigger] g[i]) by {
                assert(is_blank(gaps[i]));
                assert forall|k: int| 0 <= k < g[i].len() implies is_space(#[trigger] g[i][k]) by {
                    if i == 0 && k > 0 {
                        assert(is_space(gaps[0][k - 1]));
                    } else if i > 0 {
                        assert(is_space(gaps[i][k]));
                    }
                }
            }
            (g, ws)
        } else if ws.len() > 0 && gaps[0].len() == 0 {
            let w = ws.update(0, seq![c] + ws[0]);
            assert(is_word(ws[0]));
            assert(w.drop_first() =~= ws.drop_first());
            let others = woven(gaps.drop_first(), ws.drop_first());
            assert(gaps[0] + (seq![c] + ws[0]) + others =~= seq![c] + (gaps[0] + ws[0] + others));
            assert forall|i: int| 0 <= i < w.len() implies is_word(#[trigger] w[i]) by {
                assert(is_word(ws[i]));
                assert forall|k: int| 0 <= k < w[i].len() implies !is_space(
                    #[trigger] w[i][k],
                ) by {
                    if i == 0 && k > 0 {
                        assert(!is_space(ws[0][k - 1]));
                    } else if i > 0 {
                        assert(!is_space(ws[i][k]));
                    }
                }
            }
            (gaps, w)
        } else {
            let g = seq![Seq::<char>::empty()] + gaps;
            let w = seq![seq![c]] + ws;
            assert(g.drop_first() =~= gaps);
            assert(w.drop_first() =~= ws);
            assert(Seq::<char>::empty() + seq![c] + woven(gaps, ws) =~= text);
            assert forall|i: int| 0 <= i < g.len() implies is_blank(#[trigger] g[i]) by {
                if i > 0 {
                    assert(is_blank(gaps[i - 1]));
                }
            }
            assert forall|i: int| 0 < i < w.len() implies (#[trigger] g[i]).len() > 0 by {
                if i > 1 {
                    assert(gaps[i - 1].len() > 0);
                }
            }
            assert forall|i: int| 0 <= i < w.len() implies is_word(#[trigger] w[i]) by {
                if i > 0 {
                    assert(is_word(ws[i - 1]));
                }
            }
            (g, w)
        }
    }
}

/// What is left of a text once the rim has been cut off.
proof fn lemma_trimmed(l: Seq<char>, inner: Seq<char>, r: Seq<char>, rim: Rim)
    requires
        forall|i: int| 0 <= i < l.len() ==> rim.holds(#[trigger] l[i]),
        forall|i: int| 0 <= i < r.len() ==> rim.holds(#[trigger] r[i]),
        inner.len() > 0 ==> !rim.holds(inner[0]) && !rim.holds(inner.last()),
    ensures
        trimmed(l + inner + r, rim) == inner,
    decreases l.len() + r.len(),
{
    let t = l + inner + r;
    if l.len() > 0 {
        assert(t[0] == l[0]);
        assert(t.drop_first() =~= l.drop_first() + inner + r);
        assert forall|i: int| 0 <= i < l.drop_first().len() implies rim.holds(
            #[trigger] l.drop_first()[i],
        ) by {
            assert(rim.holds(l[i + 1]));
        }
        lemma_trimmed(l.drop_first(), inner, r, rim);
    } else if r.len() > 0 {
        if inner.len() == 0 {
            assert(t[0] == r[0]);
            assert(t.drop_first() =~= l + inner + r.drop_first());
            assert forall|i: int| 0 <= i < r.drop_first().len() implies rim.holds(
                #[trigger] r.drop_first()[i],
            ) by {
                assert(rim.holds(r[i + 1]));
            }
            lemma_trimmed(l, inner, r.drop_first(), rim);
        } else {
            assert(t[0] == inner[0]);
            assert(t.last() == r.last());
            assert(rim.holds(r[r.len() - 1]));
            assert(t.drop_last() =~= l + inner + r.drop_last());
            assert forall|i: int| 0 <= i < r.drop_last().len() implies rim.holds(
                #[trigger] r.drop_last()[i],
            ) by {
                assert(rim.holds(r[i]));
            }
            lemma_trimmed(l, inner, r.drop_last(), rim);
        }
    } else {
        assert(t =~= inner);
    }
}

/// A blank text is a rim of white space.
proof fn lemma_blank(s: Seq<char>)
    requires
        is_blank(s),
    ensures
        forall|i: int| 0 <= i < s.len() ==> Rim::White.holds(#[trigger] s[i]),
{
    assert forall|i: int| 0 <= i < s.len() implies Rim::White.holds(#[trigger] s[i]) by {
        lemma_space(s[i]);
    }
}

/// Trimming cuts off the white space, or the quotes, at both ends of a text, and nothing
/// else.
pub proof fn trimming_cuts_off_the_ends(
    s: &str,
    left: Seq<char>,
    inner: Seq<char>,
    right: Seq<char>,
    white: &str,
    quotes: &str,
)
    requires
        s@ == left + inner + right,
        call_ensures(trim, (s, Rim::White), white),
        call_ensures(trim, (s, Rim::Quotes), quotes),
    ensures
        is_blank(left) && is_blank(right) && (inner.len() > 0 ==> !is_space(inner[0])
            && !is_space(inner.last())) ==> white@ == inner,
        is_quotes(left) && is_quotes(right) && (inner.len() > 0 ==> inner[0] != '"'
            && inner.last() != '"') ==> quotes@ == inner,
{
    if is_blank(left) && is_blank(right) && (inner.len() > 0 ==> !is_space(inner[0])
        && !is_space(inner.last())) {
        lemma_blank(left);
        lemma_blank(right);
        if inner.len() > 0 {
            lemma_space(inner[0]);
            lemma_space(inner.last());
        }
        lemma_trimmed(left, inner, right, Rim::White);
    }
    if is_quotes(left) && is_quotes(right) && (inner.len() > 0 ==> inner[0] != '"'
        && inner.last() != '"') {
        lemma_trimmed(left, inner, right, Rim::Quotes);
    }
}

/// White space is cut off at both ends.
pub proof fn lemma_inner(left: Seq<char>, inner: Seq<char>, right: Seq<char>)
    requires
        is_blank(left),
        is_blank(right),
        inner.len() > 0 ==> !is_space(inner[0]) && !is_space(inner.last()),
    ensures
        trimmed(left + inner + right, Rim::White) == inner,
{
    lemma_blank(left);
    lemma_blank(right);
    if inner.len() > 0 {
        lemma_space(inner[0]);
        lemma_space(inner.last());
    }
    lemma_trimmed(left, inner, right, Rim::White);
}

/// What is left has no rim any more, and is what stands between two rims.
proof fn lemma_rims(s: Seq<char>, rim: Rim) -> (r: (Seq<char>, Seq<char>))
    ensures
        s == r.0 + trimmed(s, rim) + r.1,
        forall|i: int| 0 <= i < r.0.len() ==> rim.holds(#[trigger] r.0[i]),
        forall|i: int| 0 <= i < r.1.len() ==> rim.holds(#[trigger] r.1[i]),
        trimmed(s, rim).len() > 0 ==> !rim.holds(trimmed(s, rim)[0]) && !rim.holds(
            trimmed(s, rim).last(),
        ),
    decreases s.len(),
{
    let none = Seq::<char>::empty();
    if s.len() > 0 && rim.holds(s[0]) {
        let (l, r) = lemma_rims(s.drop_first(), rim);
        let more = seq![s[0]] + l;
        assert(s =~= more + trimmed(s, rim) + r) by {
            assert(s =~= seq![s[0]] + s.drop_first());
        }
        assert forall|i: int| 0 <= i < more.len() implies rim.holds(#[trigger] more[i]) by {
            if i > 0 {
                assert(rim.holds(l[i - 1]));
            }
        }
        (more, r)
    } else if s.len() > 0 && rim.holds(s.last()) {
        let (l, r) = lemma_rims(s.drop_last(), rim);
        let more = r.push(s.last());
        assert(s =~= l + trimmed(s, rim) + more) by {
            assert(s =~= s.drop_last().push(s.last()));
        }
        assert forall|i: int| 0 <= i < more.len() implies rim.holds(#[trigger] more[i]) by {
            if i < r.len() {
                assert(rim.holds(r[i]));
            }
        }
        (l, more)
    } else {
        assert(s =~= none + trimmed(s, rim) + none);
        (none, none)
    }
}

/// A text without its quotes.
pub proof fn lemma_unquoted(s: Seq<char>)
    ensures
        is_unquoted(s, trimmed(s, Rim::Quotes)),
{
    let (l, r) = lemma_rims(s, Rim::Quotes);
    assert(l + trimmed(s, Rim::Quotes) + r == s);
    assert(is_quotes(l) && is_quotes(r));
}

/// Texts are joined with one blank between each two.
pub proof fn lemma_joined(parts: Seq<Seq<char>>)
    ensures
        joined(parts) == with_blanks(parts),
    decreases parts.len(),
{
    if parts.len() >= 2 {
        let init = parts.drop_last();
        lemma_joined(init);
        lemma_blanks(init, parts.last());
        assert(init.push(parts.last()) =~= parts);
    }
}

/// One more text is joined at the end.
proof fn lemma_blanks(init: Seq<Seq<char>>, last: Seq<char>)
    requires
        init.len() > 0,
    ensures
        with_blanks(init.push(last)) == with_blanks(init) + seq![' '] + last,
    decreases init.len(),
{
    let all = init.push(last);
    if init.len() == 1 {
        assert(all.drop_first() =~= seq![last]);
        assert(with_blanks(seq![last]) == last);
        assert(with_blanks(all) =~= init[0] + seq![' '] + last);
    } else {
        lemma_blanks(init.drop_first(), last);
        assert(all.drop_first() =~= init.drop_first().push(last));
        let tail = with_blanks(init.drop_first());
        assert(init[0] + seq![' '] + (tail + seq![' '] + last) =~= init[0] + seq![' '] + tail
            + seq![' '] + last);
    }
}

/// Joining puts one blank between each two texts, from the given one on.
pub proof fn joining_puts_blanks_between(list: Vec<&str>, from: usize, r: String)
    requires
        from <= list@.len(),
        call_ensures(join_from, (&list, from), r),
    ensures
        r@ == with_blanks(Seq::new((list@.len() - from) as nat, |i: int| list@[from + i]@)),
{
    let parts = Seq::new((list@.len() - from) as nat, |i: int| list@[from + i]@);
    assert(texts(list@).skip(from as int) =~= parts);
    lemma_joined(parts);
}

/// A digit counts what it counts.
proof fn lemma_digit(c: char, radix: nat)
    requires
        2 <= radix <= 16,
    ensures
        digit_of(c, radix) is Some <==> 0 <= counts(c) < radix,
        digit_of(c, radix) matches Some(d) ==> d == counts(c),
{
}

/// Digits spell what they count together.
proof fn lemma_numeral(s: Seq<char>, radix: nat)
    requires
        2 <= radix <= 16,
    ensures
        numeral(s, radix) is Some <==> is_numeral(s, radix as int),
        numeral(s, radix) matches Some(n) ==> n == total(s, radix as int),
    decreases s.len(),
{
    if s.len() > 0 {
        let init = s.drop_last();
        lemma_digit(s.last(), radix);
        if s.len() == 1 {
            assert(s[0] == s.last());
            assert(total(init, radix as int) == 0);
            assert(radix as int * 0 == 0) by (nonlinear_arith);
        } else {
            lemma_numeral(init, radix);
            if is_numeral(s, radix as int) {
                assert forall|i: int| 0 <= i < init.len() implies 0 <= counts(#[trigger] init[i])
                    < radix by {
                    assert(0 <= counts(s[i]) < radix);
                }
                assert(0 <= counts(s[s.len() - 1]) < radix);
            }
            if is_numeral(init, radix as int) && 0 <= counts(s.last()) < radix {
                assert forall|i: int| 0 <= i < s.len() implies 0 <= counts(#[trigger] s[i])
                    < radix by {
                    if i < init.len() {
                        assert(0 <= counts(init[i]) < radix);
                    }
                }
            }
            if let Some(high) = numeral(init, radix) {
                let h = high as int;
                let b = radix as int;
                assert(h * b == b * h) by (nonlinear_arith);
            }
        }
    }
}

/// A number is what its text says.
pub proof fn lemma_unsigned(s: Seq<char>, radix: nat, max: nat)
    requires
        2 <= radix <= 16,
    ensures
        match unsigned(s, radix, max) {
            Some(n) => n <= max && is_number(s, radix as int, n as int),
            None => forall|n: int| n <= max ==> !#[trigger] is_number(s, radix as int, n),
        },
{
    let d = if s.len() > 0 && s[0] == '+' {
        s.drop_first()
    } else {
        s
    };
    lemma_numeral(d, radix);
}

/// A text without white space around it denotes what it is read as.
pub proof fn lemma_parsed(left: Seq<char>, s: Seq<char>, right: Seq<char>)
    requires
        is_blank(left),
        is_blank(right),
        s.len() > 0 ==> !is_space(s[0]) && !is_space(s.last()),
    ensures
        match parsed(left + s + right) {
            Some(n) => n <= u64::MAX && denotes(s, n as int),
            None => forall|n: int| n <= u64::MAX ==> !#[trigger] denotes(s, n),
        },
{
    lemma_blank(left);
    lemma_blank(right);
    if s.len() > 0 {
        lemma_space(s[0]);
        lemma_space(s.last());
    }
    lemma_trimmed(left, s, right, Rim::White);
    if is_hex(s) {
        lemma_unsigned(s.skip(2), 16, u64::MAX as nat);
        assert forall|n: int| #[trigger] denotes(s, n) implies is_number(s.skip(2), 16, n) by {}
    } else {
        lemma_unsigned(s, 10, u64::MAX as nat);
        assert forall|n: int| #[trigger] denotes(s, n) implies is_number(s, 10, n) by {}
    }
}

/// A text is read as the number that it denotes, whatever white space stands around it,
/// and as none only where it denotes none that fits.
pub proof fn a_number_is_read_as_what_it_denotes(
    text: &str,
    left: Seq<char>,
    s: Seq<char>,
    right: Seq<char>,
    r: Option<u64>,
)
    requires
        text@ == left + s + right,
        is_blank(left),
        is_blank(right),
        s.len() > 0 ==> !is_space(s[0]) && !is_space(s.last()),
        call_ensures(parse_u64, (text,), r),
    ensures
        match r {
            Some(n) => denotes(s, n as int),
            None => forall|n: int| n <= 0xffff_ffff_ffff_ffff ==> !#[trigger] denotes(s, n),
        },
{
    lemma_parsed(left, s, right);
}

/// A port is read as the decimal number that it is, and as none only where it is none that
/// fits.
pub proof fn a_port_is_read_as_what_it_is(s: &str, r: Option<u16>)
    requires
        call_ensures(parse_u16, (s,), r),
    ensures
        match r {
            Some(n) => is_number(s@, 10, n as int),
            None => forall|n: int| n <= 0xffff ==> !#[trigger] is_number(s@, 10, n),
        },
{
    lemma_unsigned(s@, 10, u16::MAX as nat);
}

/// The digits of a number are what it is written as.
pub proof fn lemma_written(n: nat, radix: nat)
    requires
        2 <= radix <= 16,
    ensures
        is_written(digits(n, radix), radix as int, n as int),
        n > 0 ==> digits(n, radix)[0] != '0',
    decreases n,
{
    let s = digits(n, radix);
    if n < radix {
        assert(s[0] == digit_char(n));
        assert(counts(s[0]) == n);
        assert(s.drop_last() =~= Seq::empty());
        assert(radix as int * 0 == 0) by (nonlinear_arith);
        assert(total(s.drop_last(), radix as int) == 0);
        assert(total(s, radix as int) == n);
    } else {
        assert(n / radix < n && n % radix < radix && n == radix * (n / radix) + n % radix && n
            / radix > 0) by (nonlinear_arith)
            requires
                n >= radix,
                radix >= 2,
        ;
        lemma_written(n / radix, radix);
        let high = digits(n / radix, radix);
        assert(s == high.push(digit_char(n % radix)));
        assert(s.drop_last() =~= high);
        assert(counts(s.last()) == n % radix);
        assert forall|i: int| 0 <= i < s.len() implies 0 <= counts(#[trigger] s[i]) < radix && !(
        'A' <= s[i] <= 'F') by {
            if i < high.len() {
                assert(s[i] == high[i]);
                assert(0 <= counts(high[i]) < radix);
            }
        }
        assert(s[0] == high[0]);
    }
}

/// A number is written in the digits that count it.
pub proof fn a_number_is_written_in_its_digits(text: &mut String, n: u64, radix: u64)
    requires
        2 <= radix <= 16,
        call_ensures(append_number, (text, n, radix), ()),
    ensures
        exists|s: Seq<char>| #[trigger] is_written(s, radix as int, n as int) && final(text)@
            == old(text)@ + s,
{
    lemma_written(n as nat, radix as nat);
    assert(is_written(digits(n as nat, radix as nat), radix as int, n as int));
}

} // verus!
