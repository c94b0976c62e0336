//! Text as a sequence of characters: trimming, lines, words and numbers.

use crate::seqs::{find_from, lemma_find_from_is, position, same_run, to_vec};
use vstd::prelude::*;
use vstd::slice::slice_subrange;
use vstd::utf8::{decode_utf8, valid_utf8};

verus! {

/// `String::push` appends one character.
pub assume_specification[ String::push ](s: &mut String, c: char)
    ensures
        final(s)@ == old(s)@.push(c),
;

/// The text of bytes that are not well-formed UTF-8, with each malformed part replaced.
pub uninterp spec fn lossy_text(b: Seq<u8>) -> Seq<char>;

/// The text that bytes stand for.
pub open spec fn lossy(b: Seq<u8>) -> Seq<char> {
    if valid_utf8(b) {
        decode_utf8(b)
    } else {
        lossy_text(b)
    }
}

/// `String::from_utf8_lossy` reads bytes as UTF-8. Well-formed bytes give the text that
/// they encode; in others each malformed part gives a replacement character, which is
/// left to the name `lossy_text`.
#[verifier::external_body]
pub(crate) fn text_lossy(b: &[u8]) -> (r: String)
    ensures
        r@ == (if valid_utf8(b@) {
            decode_utf8(b@)
        } else {
            lossy_text(b@)
        }),
{
    String::from_utf8_lossy(b).into_owned()
}

/// `String::from_utf8` gives the text that bytes encode, if they are well-formed UTF-8.
#[verifier::external_body]
pub(crate) fn text_of_utf8(b: &[u8]) -> (r: Option<String>)
    ensures
        match r {
            Some(s) => valid_utf8(b@) && s@ == decode_utf8(b@),
            None => !valid_utf8(b@),
        },
{
    String::from_utf8(b.to_vec()).ok()
}

/// The contents of a list of lists.
pub open spec fn views<T>(v: Seq<Vec<T>>) -> Seq<Seq<T>> {
    v.map_values(|x: Vec<T>| x@)
}

/// The contents of a list of strings.
pub open spec fn texts(v: Seq<String>) -> Seq<Seq<char>> {
    v.map_values(|x: String| x@)
}

/// The contents of an optional string.
pub open spec fn opt_text(o: Option<String>) -> Option<Seq<char>> {
    match o {
        Some(x) => Some(x@),
        None => None,
    }
}

/// The characters with the Unicode property `White_Space`.
pub open spec fn is_whitespace(c: char) -> bool {
    ||| 0x9 <= c as u32 <= 0xd
    ||| c as u32 == 0x20
    ||| c as u32 == 0x85
    ||| c as u32 == 0xa0
    ||| c as u32 == 0x1680
    ||| 0x2000 <= c as u32 <= 0x200a
    ||| c as u32 == 0x2028
    ||| c as u32 == 0x2029
    ||| c as u32 == 0x202f
    ||| c as u32 == 0x205f
    ||| c as u32 == 0x3000
}

/// The characters of the Unicode category `Cc`.
pub open spec fn is_control(c: char) -> bool {
    ||| c as u32 <= 0x1f
    ||| 0x7f <= c as u32 <= 0x9f
}

pub open spec fn trim_start(s: Seq<char>) -> Seq<char>
    decreases s.len(),
{
    if s.len() > 0 && is_whitespace(s[0]) {
        trim_start(s.drop_first())
    } else {
        s
    }
}

pub open spec fn trim_end(s: Seq<char>) -> Seq<char>
    decreases s.len(),
{
    if s.len() > 0 && is_whitespace(s.last()) {
        trim_end(s.drop_last())
    } else {
        s
    }
}

/// `s` without the white space at its two ends.
pub open spec fn trim(s: Seq<char>) -> Seq<char> {
    trim_end(trim_start(s))
}

/// A line that ended in a line feed, without the carriage return before it.
pub open spec fn strip_cr(s: Seq<char>) -> Seq<char> {
    if s.len() > 0 && s.last() == '\r' {
        s.drop_last()
    } else {
        s
    }
}

/// The lines of a text: what stands before each line feed (without a carriage
/// return at its end), and what stands after the last one, if anything does.
pub open spec fn lines(s: Seq<char>) -> Seq<Seq<char>>
    decreases s.len(),
{
    if s.len() == 0 {
        seq![]
    } else {
        let e = find_from(s, '\n', 0);
        if 0 <= e < s.len() {
            seq![strip_cr(s.take(e))] + lines(s.skip(e + 1))
        } else {
            seq![s]
        }
    }
}

/// Lines as a text, each with a line feed behind it.
pub open spec fn unlines(ls: Seq<Seq<char>>) -> Seq<char>
    decreases ls.len(),
{
    if ls.len() == 0 {
        seq![]
    } else {
        unlines(ls.drop_last()) + ls.last().push('\n')
    }
}

/// A line that ends where it should.
pub open spec fn clean(l: Seq<char>) -> bool {
    (forall|i: int| 0 <= i < l.len() ==> #[trigger] l[i] != '\n') && (l.len() == 0 || l.last()
        != '\r')
}

proof fn lemma_lines_cons(a: Seq<char>, rest: Seq<char>)
    requires
        clean(a),
    ensures
        lines(a.push('\n') + rest) == seq![a] + lines(rest),
{
    let s = a.push('\n') + rest;
    assert forall|k: int| 0 <= k < a.len() implies s[k] != '\n' by {
        assert(s[k] == a[k]);
    }
    lemma_find_from_is(s, '\n', 0, a.len() as int);
    assert(s.take(a.len() as int) =~= a);
    assert(s.skip(a.len() as int + 1) =~= rest);
}

proof fn lemma_unlines_cons(a: Seq<char>, ls: Seq<Seq<char>>)
    ensures
        unlines(seq![a] + ls) == a.push('\n') + unlines(ls),
    decreases ls.len(),
{
    let all = seq![a] + ls;
    reveal_with_fuel(unlines, 2);
    if ls.len() == 0 {
        assert(all.drop_last() =~= seq![]);
        assert(unlines(all) =~= a.push('\n') + unlines(ls));
    } else {
        lemma_unlines_cons(a, ls.drop_last());
        assert(all.drop_last() =~= seq![a] + ls.drop_last());
        assert(all.last() == ls.last());
        assert(unlines(all) =~= a.push('\n') + unlines(ls));
    }
}

/// Lines that end where they should are what the text of them splits into.
pub proof fn lemma_lines_back(ls: Seq<Seq<char>>)
    requires
        forall|i: int| 0 <= i < ls.len() ==> clean(#[trigger] ls[i]),
    ensures
        lines(unlines(ls)) == ls,
    decreases ls.len(),
{
    if ls.len() > 0 {
        let a = ls[0];
        let tail = ls.drop_first();
        assert(ls =~= seq![a] + tail);
        assert forall|i: int| 0 <= i < tail.len() implies clean(#[trigger] tail[i]) by {
            assert(tail[i] == ls[i + 1]);
        }
        lemma_unlines_cons(a, tail);
        lemma_lines_back(tail);
        lemma_lines_cons(a, unlines(tail));
    }
}

/// The first position from `i` on whose being white space is `ws`, or the length.
pub open spec fn space_from(s: Seq<char>, ws: bool, i: int) -> int
    decreases s.len() - i,
{
    if i >= s.len() || is_whitespace(s[i]) == ws {
        i
    } else {
        space_from(s, ws, i + 1)
    }
}

/// The words of a text from position `i` on: its longest runs without white space.
pub open spec fn words_from(s: Seq<char>, i: int) -> Seq<Seq<char>>
    decreases s.len() - i,
{
    let a = space_from(s, false, i);
    let b = space_from(s, true, a);
    if 0 <= i <= a < b <= s.len() {
        seq![s.subrange(a, b)] + words_from(s, b)
    } else {
        seq![]
    }
}

/// The words of a text: its longest runs without white space.
pub open spec fn words(s: Seq<char>) -> Seq<Seq<char>> {
    words_from(s, 0)
}

pub open spec fn is_digit(c: char) -> bool {
    '0' <= c <= '9'
}

pub open spec fn digit_value(c: char) -> nat {
    (c as u32 - '0' as u32) as nat
}

pub open spec fn digit_char(d: nat) -> char {
    (d + 48) as char
}

/// The decimal numeral of a number.
pub open spec fn decimal(n: nat) -> Seq<char>
    decreases n,
{
    if n < 10 {
        seq![digit_char(n)]
    } else {
        decimal(n / 10).push(digit_char(n % 10))
    }
}

/// The number that a run of decimal digits writes.
pub open spec fn digits_value(s: Seq<char>) -> nat
    decreases s.len(),
{
    if s.len() == 0 {
        0
    } else {
        digits_value(s.drop_last()) * 10 + digit_value(s.last())
    }
}

pub open spec fn all_digits(s: Seq<char>) -> bool {
    s.len() > 0 && forall|i: int| 0 <= i < s.len() ==> is_digit(#[trigger] s[i])
}

/// What a text says as an unsigned number of at most `max`: one or more decimal
/// digits, with an optional plus sign before them.
pub open spec fn unsigned_value(s: Seq<char>, max: nat) -> Option<nat> {
    let d = if s.len() > 0 && s[0] == '+' {
        s.drop_first()
    } else {
        s
    };
    if all_digits(d) && digits_value(d) <= max {
        Some(digits_value(d))
    } else {
        None
    }
}

/// What a text says as a signed 64-bit number: one or more decimal digits, with an
/// optional sign before them.
pub open spec fn signed_value(s: Seq<char>) -> Option<int> {
    if s.len() > 0 && s[0] == '-' {
        let d = s.drop_first();
        if all_digits(d) && -digits_value(d) >= i64::MIN {
            Some(-digits_value(d))
        } else {
            None
        }
    } else {
        match unsigned_value(s, i64::MAX as nat) {
            Some(v) => Some(v as int),
            None => None,
        }
    }
}

/// A text says the same number that its numeral was made of.
pub proof fn law_decimal_read_back(n: nat, max: nat)
    requires
        n <= max,
    ensures
        unsigned_value(decimal(n), max) == Some(n),
{
    lemma_decimal(n);
}

pub proof fn lemma_decimal(n: nat)
    ensures
        all_digits(decimal(n)),
        digits_value(decimal(n)) == n,
    decreases n,
{
    reveal_with_fuel(digits_value, 2);
    if n >= 10 {
        lemma_decimal(n / 10);
        let d = decimal(n / 10);
        assert(decimal(n).drop_last() =~= d);
        assert(decimal(n).last() == digit_char(n % 10));
    } else {
        assert(decimal(n).drop_last() =~= seq![]);
    }
}

/// The characters of a string, one by one.
pub fn chars_of(s: &str) -> (res: Vec<char>)
    ensures
        res@ == s@,
{
    let mut res: Vec<char> = Vec::new();
    for c in it: s.chars()
        invariant
            res@ == it.seq().take(it.index()),
            it.seq() == s@,
    {
        res.push(c);
    }
    res
}

/// The string of a run of characters.
pub fn string_of(s: &[char]) -> (res: String)
    ensures
        res@ == s@,
{
    let mut res: String = String::new();
    push_chars(&mut res, s);
    assert(res@ =~= s@);
    res
}

/// Appends a run of characters to a string.
pub fn push_chars(out: &mut String, s: &[char])
    ensures
        final(out)@ == old(out)@ + s@,
{
    let mut i: usize = 0;
    while i < s.len()
        invariant
            i <= s@.len(),
            out@ == old(out)@ + s@.take(i as int),
        decreases s@.len() - i,
    {
        out.push(s[i]);
        i += 1;
        assert(s@.take(i as int) =~= s@.take(i - 1).push(s@[i - 1]));
    }
    assert(s@.take(i as int) =~= s@);
}

pub fn same_text(a: &str, b: &str) -> (r: bool)
    ensures
        r == (a@ == b@),
{
    let x = chars_of(a);
    let y = chars_of(b);
    same_run(x.as_slice(), y.as_slice())
}

pub fn whitespace(c: char) -> (r: bool)
    ensures
        r == is_whitespace(c),
{
    let u: u32 = c as u32;
    (0x9 <= u && u <= 0xd) || u == 0x20 || u == 0x85 || u == 0xa0 || u == 0x1680 || (0x2000 <= u
        && u <= 0x200a) || u == 0x2028 || u == 0x2029 || u == 0x202f || u == 0x205f || u == 0x3000
}

pub fn control(c: char) -> (r: bool)
    ensures
        r == is_control(c),
{
    let u: u32 = c as u32;
    u <= 0x1f || (0x7f <= u && u <= 0x9f)
}

/// `s` without the white space at its two ends.
pub fn trimmed(s: &[char]) -> (r: &[char])
    ensures
        r@ == trim(s@),
{
    let n: usize = s.len();
    let mut a: usize = 0;
    assert(s@.skip(0) =~= s@);
    while a < n && whitespace(s[a])
        invariant
            n == s@.len(),
            a <= n,
            trim_start(s@) == trim_start(s@.skip(a as int)),
        decreases n - a,
    {
        assert(s@.skip(a as int).drop_first() =~= s@.skip(a + 1));
        a += 1;
    }
    let mut b: usize = n;
    assert(s@.subrange(a as int, b as int) =~= s@.skip(a as int));
    while b > a && whitespace(s[b - 1])
        invariant
            n == s@.len(),
            a <= b <= n,
            trim_end(trim_start(s@)) == trim_end(s@.subrange(a as int, b as int)),
        decreases b - a,
    {
        assert(s@.subrange(a as int, b as int).drop_last() =~= s@.subrange(a as int, b - 1));
        b -= 1;
    }
    slice_subrange(s, a, b)
}

/// The lines of a text.
pub fn lines_of(s: &[char]) -> (res: Vec<Vec<char>>)
    ensures
        views(res@) == lines(s@),
{
    let n: usize = s.len();
    let mut res: Vec<Vec<char>> = Vec::new();
    let mut i: usize = 0;
    assert(s@.skip(0) =~= s@);
    assert(views(res@) + lines(s@) =~= lines(s@));
    while i < n
        invariant
            n == s@.len(),
            i <= n,
            views(res@) + lines(s@.skip(i as int)) == lines(s@),
        decreases n - i,
    {
        let ghost before = res@;
        let ghost rest = s@.skip(i as int);
        let e: usize = position(s, '\n', i);
        proof {
            assert forall|k: int| 0 <= k < e - i implies rest[k] != '\n' by {
                assert(rest[k] == s@[k + i]);
            }
            lemma_find_from_is(rest, '\n', 0, e - i);
            assert(rest.take(e - i) =~= s@.subrange(i as int, e as int));
        }
        if e < n {
            let mut b: usize = e;
            if b > i && s[b - 1] == '\r' {
                b -= 1;
            }
            res.push(to_vec(slice_subrange(s, i, b)));
            assert(strip_cr(rest.take(e - i)) =~= s@.subrange(i as int, b as int));
            assert(rest.skip(e - i + 1) =~= s@.skip(e + 1));
            assert(views(res@) =~= views(before).push(s@.subrange(i as int, b as int)));
            assert(views(res@) + lines(s@.skip(e + 1)) =~= views(before) + (seq![
                s@.subrange(i as int, b as int),
            ] + lines(s@.skip(e + 1))));
            i = e + 1;
        } else {
            res.push(to_vec(slice_subrange(s, i, n)));
            assert(views(res@) =~= views(before).push(rest)) by {
                assert(rest =~= s@.subrange(i as int, n as int));
            }
            assert(s@.skip(n as int).len() == 0);
            assert(views(res@) + lines(s@.skip(n as int)) =~= views(before) + seq![rest]);
            i = n;
        }
    }
    assert(views(res@) + lines(s@.skip(n as int)) =~= views(res@));
    res
}

proof fn lemma_space_from(s: Seq<char>, ws: bool, i: int)
    requires
        0 <= i <= s.len(),
    ensures
        i <= space_from(s, ws, i) <= s.len(),
        space_from(s, ws, i) < s.len() ==> is_whitespace(s[space_from(s, ws, i)]) == ws,
    decreases s.len() - i,
{
    if i < s.len() && is_whitespace(s[i]) != ws {
        lemma_space_from(s, ws, i + 1);
    }
}

fn space_position(s: &[char], ws: bool, i: usize) -> (r: usize)
    requires
        i <= s@.len(),
    ensures
        r == space_from(s@, ws, i as int),
        i <= r <= s@.len(),
{
    let mut j: usize = i;
    while j < s.len() && whitespace(s[j]) != ws
        invariant
            i <= j <= s@.len(),
            space_from(s@, ws, i as int) == space_from(s@, ws, j as int),
        decreases s@.len() - j,
    {
        j += 1;
    }
    j
}

/// The words of a text.
pub fn words_of(s: &[char]) -> (res: Vec<Vec<char>>)
    ensures
        views(res@) == words(s@),
{
    let n: usize = s.len();
    let mut res: Vec<Vec<char>> = Vec::new();
    let mut i: usize = 0;
    assert(views(res@) + words_from(s@, 0) =~= words(s@));
    loop
        invariant
            n == s@.len(),
            i <= n,
            views(res@) + words_from(s@, i as int) == words(s@),
        decreases n - i,
    {
        let ghost before = res@;
        let a: usize = space_position(s, false, i);
        let b: usize = space_position(s, true, a);
        proof {
            lemma_space_from(s@, false, i as int);
            lemma_space_from(s@, true, a as int);
        }
        if a == b {
            assert(views(res@) + words_from(s@, i as int) =~= views(res@));
            return res;
        }
        res.push(to_vec(slice_subrange(s, a, b)));
        assert(views(res@) =~= views(before).push(s@.subrange(a as int, b as int)));
        assert(views(res@) + words_from(s@, b as int) =~= views(before) + (seq![
            s@.subrange(a as int, b as int),
        ] + words_from(s@, b as int)));
        i = b;
    }
}

proof fn lemma_digits_mono(s: Seq<char>, i: int)
    requires
        0 <= i <= s.len(),
        all_digits(s),
    ensures
        digits_value(s.take(i)) <= digits_value(s),
    decreases s.len() - i,
{
    if i < s.len() {
        lemma_digits_mono(s, i + 1);
        assert(s.take(i + 1).drop_last() =~= s.take(i));
    } else {
        assert(s.take(i) =~= s);
    }
}

/// The value of a run of decimal digits, unless it is over `max`.
fn read_digits(s: &[char], max: u64) -> (r: Option<u64>)
    ensures
        match r {
            Some(v) => all_digits(s@) && digits_value(s@) == v && v <= max,
            None => !(all_digits(s@) && digits_value(s@) <= max),
        },
{
    let n: usize = s.len();
    if n == 0 {
        return None;
    }
    let mut v: u64 = 0;
    let mut i: usize = 0;
    assert(s@.take(0) =~= seq![]);
    while i < n
        invariant
            n == s@.len(),
            i <= n,
            v == digits_value(s@.take(i as int)),
            v <= max,
            forall|k: int| 0 <= k < i ==> is_digit(#[trigger] s@[k]),
        decreases n - i,
    {
        let c: char = s[i];
        if !('0' <= c && c <= '9') {
            assert(!is_digit(s@[i as int]));
            return None;
        }
        let d: u64 = (c as u32 - '0' as u32) as u64;
        assert(s@.take(i + 1).drop_last() =~= s@.take(i as int));
        assert(digits_value(s@.take(i + 1)) == v * 10 + d);
        if d > max || v > (max - d) / 10 {
            proof {
                if all_digits(s@) {
                    lemma_digits_mono(s@, i + 1);
                }
            }
            return None;
        }
        v = v * 10 + d;
        i += 1;
    }
    assert(s@.take(n as int) =~= s@);
    Some(v)
}

/// What a text says as an unsigned number of at most `max`.
pub fn parse_unsigned(s: &[char], max: u64) -> (r: Option<u64>)
    ensures
        match r {
            Some(v) => unsigned_value(s@, max as nat) == Some(v as nat),
            None => unsigned_value(s@, max as nat) is None,
        },
{
    if s.len() > 0 && s[0] == '+' {
        assert(s@.subrange(1, s@.len() as int) =~= s@.drop_first());
        read_digits(slice_subrange(s, 1, s.len()), max)
    } else {
        read_digits(s, max)
    }
}

/// The decimal numeral of a number, with a minus sign before a negative one.
pub open spec fn signed_decimal(n: int) -> Seq<char> {
    if n < 0 {
        seq!['-'] + decimal((-n) as nat)
    } else {
        decimal(n as nat)
    }
}

/// A text says the same number that its signed numeral was made of.
pub proof fn law_signed_read_back(n: int)
    requires
        i64::MIN <= n <= i64::MAX,
    ensures
        signed_value(signed_decimal(n)) == Some(n),
{
    if n < 0 {
        lemma_decimal((-n) as nat);
        assert(signed_decimal(n).drop_first() =~= decimal((-n) as nat));
    } else {
        lemma_decimal(n as nat);
        assert(is_digit(decimal(n as nat)[0]));
        law_decimal_read_back(n as nat, i64::MAX as nat);
    }
}

/// Appends the signed numeral of a number.
pub fn push_signed(out: &mut String, n: i64)
    ensures
        final(out)@ == old(out)@ + signed_decimal(n as int),
{
    if n < 0 {
        out.push('-');
        let m: u64 = if n == i64::MIN {
            0x8000_0000_0000_0000
        } else {
            (-n) as u64
        };
        push_decimal(out, m);
        assert(out@ =~= old(out)@ + signed_decimal(n as int));
    } else {
        push_decimal(out, n as u64);
    }
}

pub fn parse_u32(s: &[char]) -> (r: Option<u32>)
    ensures
        match r {
            Some(v) => unsigned_value(s@, u32::MAX as nat) == Some(v as nat),
            None => unsigned_value(s@, u32::MAX as nat) is None,
        },
{
    match parse_unsigned(s, u32::MAX as u64) {
        Some(v) => Some(v as u32),
        None => None,
    }
}

/// What a text says as a signed 64-bit number.
pub fn parse_i64(s: &[char]) -> (r: Option<i64>)
    ensures
        match r {
            Some(v) => signed_value(s@) == Some(v as int),
            None => signed_value(s@) is None,
        },
{
    if s.len() > 0 && s[0] == '-' {
        assert(s@.subrange(1, s@.len() as int) =~= s@.drop_first());
        match read_digits(slice_subrange(s, 1, s.len()), 0x8000_0000_0000_0000) {
            Some(v) => {
                if v == 0x8000_0000_0000_0000 {
                    Some(i64::MIN)
                } else {
                    Some(-(v as i64))
                }
            },
            None => None,
        }
    } else {
        match parse_unsigned(s, i64::MAX as u64) {
            Some(v) => Some(v as i64),
            None => None,
        }
    }
}

/// The decimal numeral of a number, as characters.
pub fn decimal_chars(n: u64) -> (r: Vec<char>)
    ensures
        r@ == decimal(n as nat),
    decreases n,
{
    let last: char = digit(n % 10);
    if n < 10 {
        let r = vec![last];
        assert(r@ =~= decimal(n as nat));
        r
    } else {
        let mut r = decimal_chars(n / 10);
        r.push(last);
        r
    }
}

fn digit(d: u64) -> (c: char)
    requires
        d < 10,
    ensures
        c == digit_char(d as nat),
{
    (d as u8 + 48) as char
}

/// Appends a string.
pub fn push_text(out: &mut String, s: &str)
    ensures
        final(out)@ == old(out)@ + s@,
{
    let c = chars_of(s);
    push_chars(out, c.as_slice());
}

/// Whether a text is one of a list.
pub fn listed(list: &Vec<String>, s: &str) -> (r: bool)
    ensures
        r == texts(list@).contains(s@),
{
    let mut i: usize = 0;
    while i < list.len()
        invariant
            i <= list@.len(),
            forall|k: int| 0 <= k < i ==> #[trigger] texts(list@)[k] != s@,
        decreases list@.len() - i,
    {
        if same_text(list[i].as_str(), s) {
            assert(texts(list@)[i as int] == s@);
            return true;
        }
        assert(texts(list@)[i as int] != s@);
        i += 1;
    }
    false
}

pub open spec fn interspersed(parts: Seq<Seq<char>>, sep: Seq<char>) -> Seq<char>
    decreases parts.len(),
{
    if parts.len() == 0 {
        seq![]
    } else if parts.len() == 1 {
        parts[0]
    } else {
        interspersed(parts.drop_last(), sep) + sep + parts.last()
    }
}

/// The texts of a list with `sep` between each two.
pub fn join_texts(list: &Vec<String>, sep: &str) -> (r: String)
    ensures
        r@ == interspersed(texts(list@), sep@),
{
    let mut r: String = String::new();
    let mut i: usize = 0;
    assert(texts(list@).take(0) =~= seq![]);
    while i < list.len()
        invariant
            i <= list@.len(),
            r@ == interspersed(texts(list@).take(i as int), sep@),
        decreases list@.len() - i,
    {
        proof {
            let t = texts(list@).take(i + 1);
            assert(t.drop_last() =~= texts(list@).take(i as int));
            assert(t.last() == list@[i as int]@);
            if i == 0 {
                assert(r@ + list@[0]@ =~= list@[0]@);
            }
        }
        if i > 0 {
            push_text(&mut r, sep);
        }
        push_text(&mut r, list[i].as_str());
        i += 1;
    }
    assert(texts(list@).take(i as int) =~= texts(list@));
    r
}

/// Appends the decimal numeral of a number.
pub fn push_decimal(out: &mut String, n: u64)
    ensures
        final(out)@ == old(out)@ + decimal(n as nat),
{
    let d = decimal_chars(n);
    push_chars(out, d.as_slice());
}

} // verus!
