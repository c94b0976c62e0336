//! Percent-encoding of bytes in text.

use crate::text::{string_of, text_of_utf8};
use vstd::prelude::*;
use vstd::utf8::{encode_utf8, is_ascii_chars, is_ascii_chars_encode_utf8, valid_utf8};

verus! {

/// Which bytes stand for themselves.
#[derive(Debug, Clone, Copy, PartialEq, Eq, Structural)]
pub enum Alphabet {
    /// In a path: letters, digits, `-`, `.`, `_`, `~` and the separator.
    Path,
    /// In a name: the same without the separator, and some marks.
    Name,
}

pub open spec fn is_plain(b: u8) -> bool {
    ||| 65 <= b <= 90
    ||| 97 <= b <= 122
    ||| 48 <= b <= 57
    ||| b == 45
    ||| b == 46
    ||| b == 95
    ||| b == 126
}

/// `(`, `)`, `!`, `@`, `+`, `,`, `;`, `=`, `&` and `'`.
pub open spec fn is_mark(b: u8) -> bool {
    ||| b == 40
    ||| b == 41
    ||| b == 33
    ||| b == 64
    ||| b == 43
    ||| b == 44
    ||| b == 59
    ||| b == 61
    ||| b == 38
    ||| b == 39
}

pub open spec fn is_safe(set: Alphabet, b: u8) -> bool {
    is_plain(b) || match set {
        Alphabet::Path => b == 47,
        Alphabet::Name => is_mark(b),
    }
}

pub open spec fn hex_digit(n: int) -> char {
    if n < 10 {
        (n + 48) as char
    } else {
        (n + 55) as char
    }
}

pub open spec fn encoded_byte(set: Alphabet, b: u8) -> Seq<char> {
    if is_safe(set, b) {
        seq![b as char]
    } else {
        seq!['%', hex_digit(b as int / 16), hex_digit(b as int % 16)]
    }
}

/// Bytes as text: a byte that is not safe as `%` and two hexadecimal digits.
pub open spec fn encoded(set: Alphabet, b: Seq<u8>) -> Seq<char>
    decreases b.len(),
{
    if b.len() == 0 {
        seq![]
    } else {
        encoded_byte(set, b[0]) + encoded(set, b.drop_first())
    }
}

pub open spec fn hex_value(c: u8) -> Option<u8> {
    if 48 <= c <= 57 {
        Some((c - 48) as u8)
    } else if 65 <= c <= 70 {
        Some((c - 55) as u8)
    } else if 97 <= c <= 102 {
        Some((c - 87) as u8)
    } else {
        None
    }
}

/// What two bytes behind a `%` stand for: a hexadecimal number, in which a plus sign may
/// stand before a single digit. A pair that is no text stands for zero, and any other
/// pair for nothing.
pub open spec fn pair_value(hi: u8, lo: u8) -> Option<u8> {
    match (hex_value(hi), hex_value(lo)) {
        (Some(h), Some(l)) => Some((16 * h + l) as u8),
        (None, Some(l)) => if hi == 43 {
            Some(l)
        } else if valid_utf8(seq![hi, lo]) {
            None
        } else {
            Some(0)
        },
        (_, None) => if valid_utf8(seq![hi, lo]) {
            None
        } else {
            Some(0)
        },
    }
}

/// The byte at `i`, or the digit zero behind the end.
pub open spec fn digit_at(s: Seq<u8>, i: int) -> u8 {
    if i < s.len() {
        s[i]
    } else {
        48
    }
}

/// The position behind a `%` at `i` and its two digits, as far as there are any.
pub open spec fn behind(s: Seq<u8>, i: int) -> int {
    if i + 3 <= s.len() {
        i + 3
    } else {
        s.len() as int
    }
}

/// The bytes that an encoded text from `i` on stands for.
pub open spec fn decoded(s: Seq<u8>, i: int) -> Seq<u8>
    decreases s.len() - i,
{
    if i >= s.len() {
        seq![]
    } else if s[i] == 37 {
        match pair_value(digit_at(s, i + 1), digit_at(s, i + 2)) {
            Some(v) => seq![v] + decoded(s, behind(s, i)),
            None => decoded(s, behind(s, i)),
        }
    } else {
        seq![s[i]] + decoded(s, i + 1)
    }
}

/// The bytes that a text stands for.
pub open spec fn decoded_text(t: Seq<char>) -> Seq<u8> {
    decoded(encode_utf8(t), 0)
}

proof fn lemma_encoded_ascii(set: Alphabet, b: Seq<u8>)
    ensures
        is_ascii_chars(encoded(set, b)),
    decreases b.len(),
{
    if b.len() > 0 {
        lemma_encoded_ascii(set, b.drop_first());
    }
}

proof fn lemma_decode_back(set: Alphabet, b: Seq<u8>, s: Seq<u8>, i: int)
    requires
        0 <= i <= s.len(),
        s.len() - i == encoded(set, b).len(),
        forall|k: int|
            0 <= k < encoded(set, b).len() ==> #[trigger] s[i + k] == encoded(set, b)[k] as u8,
        is_ascii_chars(encoded(set, b)),
    ensures
        decoded(s, i) == b,
    decreases b.len(),
{
    if b.len() > 0 {
        let e = encoded(set, b);
        let head = encoded_byte(set, b[0]);
        let rest = encoded(set, b.drop_first());
        assert(e == head + rest);
        let n = head.len() as int;
        lemma_encoded_ascii(set, b.drop_first());
        assert forall|k: int| 0 <= k < rest.len() implies #[trigger] s[(i + n) + k] == rest[k] as u8 by {
            assert(e[n + k] == rest[k]);
            assert(s[i + (n + k)] == e[n + k] as u8);
        }
        lemma_decode_back(set, b.drop_first(), s, i + n);
        assert(s[i + 0] == e[0] as u8);
        assert(b =~= seq![b[0]] + b.drop_first());
        if !is_safe(set, b[0]) {
            assert(s[i + 1] == e[1] as u8);
            assert(s[i + 2] == e[2] as u8);
            assert(e[1] == hex_digit(b[0] as int / 16));
            assert(e[2] == hex_digit(b[0] as int % 16));
        } else {
            assert(e[0] == b[0] as char);
        }
    } else {
        assert(decoded(s, i) =~= b);
    }
}

/// Decoding gives back the bytes that were encoded.
pub proof fn law_decode_encoded(set: Alphabet, b: Seq<u8>)
    ensures
        decoded_text(encoded(set, b)) == b,
{
    let e = encoded(set, b);
    lemma_encoded_ascii(set, b);
    is_ascii_chars_encode_utf8(e);
    let s = encode_utf8(e);
    assert forall|k: int| 0 <= k < e.len() implies #[trigger] s[0 + k] == e[k] as u8 by {}
    lemma_decode_back(set, b, s, 0);
}

/// A character of an encoded text is safe, a `%` or an upper-case hexadecimal digit.
pub proof fn lemma_encoded_chars(set: Alphabet, b: Seq<u8>)
    ensures
        forall|k: int|
            #![trigger encoded(set, b)[k]]
            0 <= k < encoded(set, b).len() ==> '\0' <= encoded(set, b)[k] <= '\u{7f}' && (is_safe(
                set,
                encoded(set, b)[k] as u8,
            ) || encoded(set, b)[k] == '%'),
    decreases b.len(),
{
    if b.len() > 0 {
        lemma_encoded_chars(set, b.drop_first());
        let e = encoded(set, b);
        let head = encoded_byte(set, b[0]);
        let rest = encoded(set, b.drop_first());
        assert forall|k: int| #![trigger e[k]] 0 <= k < e.len() implies '\0' <= e[k] <= '\u{7f}' && (
        is_safe(set, e[k] as u8) || e[k] == '%') by {
            if k < head.len() {
                assert(e[k] == head[k]);
            } else {
                assert(e[k] == rest[k - head.len()]);
            }
        }
    }
}

fn safe(set: Alphabet, b: u8) -> (r: bool)
    ensures
        r == is_safe(set, b),
{
    (65 <= b && b <= 90) || (97 <= b && b <= 122) || (48 <= b && b <= 57) || b == 45 || b == 46 || b
        == 95 || b == 126 || match set {
        Alphabet::Path => b == 47,
        Alphabet::Name => b == 40 || b == 41 || b == 33 || b == 64 || b == 43 || b == 44 || b == 59
            || b == 61 || b == 38 || b == 39,
    }
}

fn upper_hex(n: u8) -> (c: char)
    requires
        n < 16,
    ensures
        c == hex_digit(n as int),
{
    if n < 10 {
        (n + 48) as char
    } else {
        (n + 55) as char
    }
}

/// Bytes as percent-encoded text.
pub fn encode(set: Alphabet, b: &[u8]) -> (r: String)
    ensures
        r@ == encoded(set, b@),
{
    let mut out: Vec<char> = Vec::new();
    let mut i: usize = 0;
    assert(b@.skip(0) =~= b@);
    assert(out@ + encoded(set, b@) =~= encoded(set, b@));
    while i < b.len()
        invariant
            i <= b@.len(),
            out@ + encoded(set, b@.skip(i as int)) == encoded(set, b@),
        decreases b@.len() - i,
    {
        let c: u8 = b[i];
        let ghost before = out@;
        if safe(set, c) {
            out.push(c as char);
        } else {
            out.push('%');
            out.push(upper_hex(c / 16));
            out.push(upper_hex(c % 16));
        }
        proof {
            let s = b@.skip(i as int);
            assert(s[0] == c);
            assert(s.drop_first() =~= b@.skip(i + 1));
            assert(out@ =~= before + encoded_byte(set, c));
            assert(out@ + encoded(set, b@.skip(i + 1)) =~= before + (encoded_byte(set, c)
                + encoded(set, b@.skip(i + 1))));
        }
        i += 1;
    }
    assert(out@ + encoded(set, b@.skip(i as int)) =~= out@);
    string_of(out.as_slice())
}

fn hex_of(c: u8) -> (r: Option<u8>)
    ensures
        r == hex_value(c),
{
    if 48 <= c && c <= 57 {
        Some(c - 48)
    } else if 65 <= c && c <= 70 {
        Some(c - 55)
    } else if 97 <= c && c <= 102 {
        Some(c - 87)
    } else {
        None
    }
}

fn pair(hi: u8, lo: u8) -> (r: Option<u8>)
    ensures
        r == pair_value(hi, lo),
{
    match (hex_of(hi), hex_of(lo)) {
        (Some(h), Some(l)) => Some(16 * h + l),
        (h, l) => {
            if hi == 43 {
                if let Some(v) = l {
                    return Some(v);
                }
            }
            let both: Vec<u8> = vec![hi, lo];
            assert(both@ =~= seq![hi, lo]);
            if text_of_utf8(both.as_slice()).is_some() {
                None
            } else {
                Some(0)
            }
        },
    }
}

/// The bytes that a percent-encoded text stands for.
pub fn decode(t: &str) -> (r: Vec<u8>)
    ensures
        r@ == decoded_text(t@),
{
    let s = t.as_bytes();
    let n: usize = s.len();
    let mut out: Vec<u8> = Vec::new();
    let mut i: usize = 0;
    assert(out@ + decoded(s@, 0) =~= decoded(s@, 0));
    while i < n
        invariant
            n == s@.len(),
            i <= n,
            out@ + decoded(s@, i as int) == decoded(s@, 0),
        decreases n - i,
    {
        let ghost before = out@;
        if s[i] == 37 {
            let hi: u8 = if n - i > 1 {
                s[i + 1]
            } else {
                48
            };
            let lo: u8 = if n - i > 2 {
                s[i + 2]
            } else {
                48
            };
            if let Some(v) = pair(hi, lo) {
                out.push(v);
                assert(out@ + decoded(s@, behind(s@, i as int)) =~= before + (seq![v] + decoded(
                    s@,
                    behind(s@, i as int),
                )));
            }
            if n - i >= 3 {
                i += 3;
            } else {
                i = n;
            }
        } else {
            out.push(s[i]);
            assert(out@ + decoded(s@, i + 1) =~= before + (seq![s@[i as int]] + decoded(
                s@,
                i + 1,
            )));
            i += 1;
        }
    }
    assert(out@ + decoded(s@, i as int) =~= out@);
    out
}

} // verus!
