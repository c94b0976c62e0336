//! What holds of trimming, of lines and words, and of numerals.

use crate::seqs::lemma_find_from_is;
use crate::text::{all_digits, decimal, digits_value, interspersed, is_control, is_digit, is_whitespace, lemma_decimal, lines, signed_value, space_from, trim, trim_end, trim_start, unsigned_value, words, words_from};
use vstd::prelude::*;

verus! {

/// Of the ASCII characters the space and those from the tab to the carriage return are white
/// space, and those below the space and the last one are control characters.
pub proof fn law_ascii(c: char)
    requires
        (c as u32) < 128,
    ensures
        is_whitespace(c) <==> c == ' ' || 9 <= c as u32 <= 13,
        is_control(c) <==> (c as u32) < 32 || c as u32 == 127,
        is_digit(c) <==> 48 <= c as u32 <= 57,
{
}

/// Nothing but white space.
pub open spec fn blank(s: Seq<char>) -> bool {
    forall|k: int| 0 <= k < s.len() ==> is_whitespace(#[trigger] s[k])
}

proof fn lemma_trim_start(a: Seq<char>, s: Seq<char>)
    requires
        blank(a),
        s.len() == 0 || !is_whitespace(s[0]),
    ensures
        trim_start(a + s) == s,
    decreases a.len(),
{
    let t = a + s;
    if a.len() == 0 {
        assert(t =~= s);
    } else {
        assert(t[0] == a[0] && is_whitespace(a[0]));
        let b = a.drop_first();
        assert forall|k: int| 0 <= k < b.len() implies is_whitespace(#[trigger] b[k]) by {
            assert(b[k] == a[k + 1]);
        }
        lemma_trim_start(b, s);
        assert(t.drop_first() =~= b + s);
    }
}

proof fn lemma_trim_end(s: Seq<char>, a: Seq<char>)
    requires
        blank(a),
        s.len() == 0 || !is_whitespace(s.last()),
    ensures
        trim_end(s + a) == s,
    decreases a.len(),
{
    let t = s + a;
    if a.len() == 0 {
        assert(t =~= s);
    } else {
        assert(t.last() == a.last() && is_whitespace(a[a.len() - 1]));
        let b = a.drop_last();
        assert forall|k: int| 0 <= k < b.len() implies is_whitespace(#[trigger] b[k]) by {
            assert(b[k] == a[k]);
        }
        lemma_trim_end(s, b);
        assert(t.drop_last() =~= s + b);
    }
}

/// Trimming takes the white space at the two ends away, all of it, and nothing else.
pub proof fn law_trim(a: Seq<char>, s: Seq<char>, b: Seq<char>)
    requires
        blank(a),
        blank(b),
        s.len() > 0 ==> !is_whitespace(s[0]) && !is_whitespace(s.last()),
    ensures
        trim(a + s + b) == s,
        trim(s) == s,
{
    if s.len() == 0 {
        let c = a + b;
        assert forall|k: int| 0 <= k < c.len() implies is_whitespace(#[trigger] c[k]) by {
            if k < a.len() {
                assert(c[k] == a[k]);
            } else {
                assert(c[k] == b[k - a.len()]);
            }
        }
        assert(a + s + b =~= c + s);
        lemma_trim_start(c, s);
        assert(trim_end(s) =~= s);
        assert(trim_start(s) =~= s);
    } else {
        assert(a + s + b =~= a + (s + b));
        assert((s + b)[0] == s[0]);
        lemma_trim_start(a, s + b);
        lemma_trim_end(s, b);
        lemma_trim_start(seq![], s);
        assert(Seq::<char>::empty() + s =~= s);
        lemma_trim_end(s, seq![]);
        assert(s + Seq::<char>::empty() =~= s);
    }
}

/// A line ends before a line feed, and before the carriage return that stands there; what
/// is left at the end is a line of its own.
pub proof fn law_lines(a: Seq<char>, rest: Seq<char>)
    requires
        !a.contains('\n'),
    ensures
        a.len() == 0 || a.last() != '\r' ==> lines(a.push('\n') + rest) == seq![a] + lines(rest),
        lines(a.push('\r').push('\n') + rest) == seq![a] + lines(rest),
        a.len() > 0 ==> lines(a) == seq![a],
        lines(seq![]) == Seq::<Seq<char>>::empty(),
{
    let s = a.push('\n') + rest;
    let t = a.push('\r').push('\n') + rest;
    let n = a.len() as int;
    assert forall|k: int| 0 <= k < n implies a[k] != '\n' && s[k] != '\n' && t[k] != '\n' by {
        assert(a.contains(a[k]));
    }
    lemma_find_from_is(s, '\n', 0, n);
    assert(s.take(n) =~= a);
    assert(s.skip(n + 1) =~= rest);
    lemma_find_from_is(t, '\n', 0, n + 1);
    assert(t.take(n + 1) =~= a.push('\r'));
    assert(a.push('\r').drop_last() =~= a);
    assert(t.skip(n + 2) =~= rest);
    lemma_find_from_is(a, '\n', 0, n);
}

/// A longest run of characters that are no white space.
pub open spec fn word_at(s: Seq<char>, i: int, j: int) -> bool {
    0 <= i < j <= s.len() && (i == 0 || is_whitespace(s[i - 1])) && (j == s.len() || is_whitespace(
        s[j],
    )) && forall|k: int| i <= k < j ==> !is_whitespace(#[trigger] s[k])
}

proof fn lemma_space_from(s: Seq<char>, ws: bool, i: int)
    requires
        0 <= i <= s.len(),
    ensures
        i <= space_from(s, ws, i) <= s.len(),
        forall|k: int| i <= k < space_from(s, ws, i) ==> is_whitespace(#[trigger] s[k]) != ws,
        space_from(s, ws, i) < s.len() ==> is_whitespace(s[space_from(s, ws, i)]) == ws,
    decreases s.len() - i,
{
    if i < s.len() && is_whitespace(s[i]) != ws {
        lemma_space_from(s, ws, i + 1);
    }
}

proof fn lemma_word_found(s: Seq<char>, from: int, i: int, j: int)
    requires
        0 <= from <= i,
        word_at(s, i, j),
    ensures
        words_from(s, from).contains(s.subrange(i, j)),
    decreases s.len() - from,
{
    let a = space_from(s, false, from);
    lemma_space_from(s, false, from);
    assert(!is_whitespace(s[i]));
    assert(a <= i);
    let b = space_from(s, true, a);
    lemma_space_from(s, true, a);
    assert(a < b);
    let rest = words_from(s, b);
    let all = words_from(s, from);
    if b <= i {
        lemma_word_found(s, b, i, j);
        let k = choose|k: int| 0 <= k < rest.len() && rest[k] == s.subrange(i, j);
        assert(all[k + 1] == s.subrange(i, j));
    } else {
        if a < i {
            assert(is_whitespace(s[i - 1]));
            assert(!is_whitespace(s[i - 1]));
        }
        if b < j {
            assert(!is_whitespace(s[b]));
        }
        if j < b {
            assert(!is_whitespace(s[j]));
        }
        assert(all[0] == s.subrange(i, j));
    }
}

/// Some longest run without white space is this word.
pub open spec fn word_in(s: Seq<char>, w: Seq<char>) -> bool {
    exists|i: int, j: int| #[trigger] word_at(s, i, j) && w == s.subrange(i, j)
}

proof fn lemma_words_at(s: Seq<char>, from: int, k: int)
    requires
        0 <= from <= s.len(),
        from == 0 || from == s.len() || is_whitespace(s[from]),
        0 <= k < words_from(s, from).len(),
    ensures
        word_in(s, words_from(s, from)[k]),
    decreases s.len() - from,
{
    let a = space_from(s, false, from);
    lemma_space_from(s, false, from);
    let b = space_from(s, true, a);
    lemma_space_from(s, true, a);
    if a < b {
        let rest = words_from(s, b);
        let all = words_from(s, from);
        if k == 0 {
            assert(all[0] == s.subrange(a, b));
            assert(word_at(s, a, b));
        } else {
            lemma_words_at(s, b, k - 1);
            assert(all[k] == rest[k - 1]);
        }
    }
}

/// The words of a text are its longest runs without white space: every one of them, and
/// nothing else.
pub proof fn law_words(s: Seq<char>)
    ensures
        forall|i: int, j: int| #[trigger] word_at(s, i, j) ==> words(s).contains(s.subrange(i, j)),
        forall|k: int| 0 <= k < words(s).len() ==> word_in(s, #[trigger] words(s)[k]),
{
    assert forall|i: int, j: int| #[trigger] word_at(s, i, j) implies words(s).contains(
        s.subrange(i, j),
    ) by {
        lemma_word_found(s, 0, i, j);
    }
    assert forall|k: int| 0 <= k < words(s).len() implies word_in(s, #[trigger] words(s)[k]) by {
        lemma_words_at(s, 0, k);
    }
}

/// The first word of a text and the words behind it: they come in the order of the text.
pub proof fn law_first_word(w: Seq<char>, c: char, rest: Seq<char>)
    requires
        w.len() > 0,
        forall|k: int| 0 <= k < w.len() ==> !is_whitespace(#[trigger] w[k]),
        is_whitespace(c),
    ensures
        words(w) == seq![w],
        words(w.push(c) + rest) == seq![w] + words(rest),
{
    let s = w.push(c) + rest;
    let n = w.len() as int;
    assert(!is_whitespace(w[0]));
    assert forall|k: int| 0 <= k < n implies !is_whitespace(#[trigger] s[k]) by {
        assert(s[k] == w[k]);
    }
    lemma_space_from(w, true, 0);
    assert(space_from(w, true, 0) == n);
    assert(w.subrange(0, n) =~= w);
    lemma_space_from(w, false, n);
    assert(words_from(w, n) =~= seq![]);
    assert(words(w) =~= seq![w]);
    assert(!is_whitespace(s[0]));
    assert(is_whitespace(s[n]));
    lemma_space_from(s, true, 0);
    assert(space_from(s, true, 0) == n);
    assert(s.subrange(0, n) =~= w);
    lemma_words_skip(s, n);
    lemma_words_shift(w.push(c), rest, 0);
    assert(words(s) =~= seq![w] + words_from(s, n + 1));
}

proof fn lemma_words_skip(s: Seq<char>, i: int)
    requires
        0 <= i < s.len(),
        is_whitespace(s[i]),
    ensures
        words_from(s, i) == words_from(s, i + 1),
{
    lemma_space_from(s, false, i);
    lemma_space_from(s, false, i + 1);
    assert(space_from(s, false, i) == space_from(s, false, i + 1));
}

proof fn lemma_space_shift(x: Seq<char>, y: Seq<char>, ws: bool, j: int)
    requires
        0 <= j <= y.len(),
    ensures
        space_from(x + y, ws, x.len() + j) == x.len() + space_from(y, ws, j),
    decreases y.len() - j,
{
    if j < y.len() {
        assert((x + y)[x.len() + j] == y[j]);
        if is_whitespace(y[j]) != ws {
            lemma_space_shift(x, y, ws, j + 1);
        }
    }
}

proof fn lemma_words_shift(x: Seq<char>, y: Seq<char>, j: int)
    requires
        0 <= j <= y.len(),
    ensures
        words_from(x + y, x.len() + j) == words_from(y, j),
    decreases y.len() - j,
{
    let a = space_from(y, false, j);
    lemma_space_from(y, false, j);
    lemma_space_shift(x, y, false, j);
    let b = space_from(y, true, a);
    lemma_space_from(y, true, a);
    lemma_space_shift(x, y, true, a);
    if a < b {
        lemma_words_shift(x, y, b);
        assert((x + y).subrange(x.len() + a, x.len() + b) =~= y.subrange(a, b));
    }
}

/// A numeral has one digit more for each power of ten: the last digit is what is left over
/// by ten, the others are the numeral of the rest, and it has no zero before it.
pub proof fn law_numeral(n: nat, d: nat)
    requires
        d < 10,
    ensures
        n > 0 ==> decimal(10 * n + d) == decimal(n).push((48 + d) as char),
        decimal(d) == seq![(48 + d) as char],
        n > 0 ==> decimal(n)[0] != '0',
        digits_value(decimal(n)) == n,
    decreases n,
{
    lemma_decimal(n);
    assert((10 * n + d) / 10 == n);
    assert((10 * n + d) % 10 == d);
    if n >= 10 {
        law_numeral(n / 10, d);
        assert(decimal(n)[0] == decimal(n / 10)[0]);
    }
}

/// What a run of digits says, digit by digit, and that it says nothing where it is empty or
/// holds anything else.
pub proof fn law_number_read(s: Seq<char>, d: nat, max: nat)
    requires
        d < 10,
    ensures
        unsigned_value(seq![(48 + d) as char], max) == (if d <= max {
            Some(d)
        } else {
            None
        }),
        s.len() > 0 && s[0] != '+' && s[0] != '-' ==> (unsigned_value(s, max) matches Some(v)
            ==> unsigned_value(s.push((48 + d) as char), max) == (if 10 * v + d <= max {
            Some((10 * v + d) as nat)
        } else {
            None
        })),
        unsigned_value(s, max) is Some ==> s.len() > 0 && (s[0] == '+' || '0' <= s[0] <= '9')
            && forall|k: int| 1 <= k < s.len() ==> '0' <= #[trigger] s[k] <= '9',
        unsigned_value(s, max) matches Some(v) ==> v <= max,
        unsigned_value(seq!['+'] + decimal(d), 9) == Some(d),
        signed_value(seq!['-'] + decimal(d)) == Some(-(d as int)),
{
    reveal_with_fuel(digits_value, 2);
    let c = (48 + d) as char;
    let one = seq![c];
    assert(one.drop_last() =~= seq![]);
    assert(all_digits(one));
    let t = s.push(c);
    if s.len() > 0 && s[0] != '+' && unsigned_value(s, max) is Some {
        assert(t[0] == s[0]);
        assert(t.drop_last() =~= s);
        assert(all_digits(t)) by {
            assert forall|k: int| 0 <= k < t.len() implies is_digit(#[trigger] t[k]) by {
                if k < s.len() {
                    assert(t[k] == s[k]);
                }
            }
        }
    }
    if unsigned_value(s, max) is Some {
        if s[0] == '+' {
            let u = s.drop_first();
            assert forall|k: int| 1 <= k < s.len() implies '0' <= #[trigger] s[k] <= '9' by {
                assert(u[k - 1] == s[k]);
                assert(is_digit(u[k - 1]));
            }
        } else {
            assert(is_digit(s[0]));
        }
    }
    lemma_decimal(d);
    assert((seq!['+'] + decimal(d)).drop_first() =~= decimal(d));
    assert((seq!['-'] + decimal(d)).drop_first() =~= decimal(d));
}

/// A list of texts is written with the separator between each two and nowhere else.
pub proof fn law_interspersed(parts: Seq<Seq<char>>, x: Seq<char>, sep: Seq<char>)
    ensures
        interspersed(seq![], sep).len() == 0,
        interspersed(seq![x], sep) == x,
        parts.len() > 0 ==> interspersed(parts.push(x), sep) == interspersed(parts, sep) + sep + x,
{
    assert(parts.push(x).drop_last() =~= parts);
}

/// The characters that are white space, and no others.
pub proof fn law_white_space(c: char)
    ensures
        is_whitespace(c) <==> c == '\t' || c == '\n' || c == '\u{b}' || c == '\u{c}' || c == '\r' || c == ' '
            || c == '\u{85}' || c == '\u{a0}' || c == '\u{1680}' || '\u{2000}' <= c <= '\u{200a}' || c
            == '\u{2028}' || c == '\u{2029}' || c == '\u{202f}' || c == '\u{205f}' || c == '\u{3000}',
        is_control(c) <==> c <= '\u{1f}' || '\u{7f}' <= c <= '\u{9f}',
{
}

} // verus!
