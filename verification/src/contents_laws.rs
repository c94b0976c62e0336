//! What holds of hashes as text, of frames, and of bytes that are written as text.

use crate::contents::{
    hash_data, hex, hex_digits, is_zstd, pack, sha256_of, to_hex, unpack, xxh3_of, xxh3_text, zstd_contents,
    zstd_frame, Unpacked,
};
use crate::directorysizes::{dir_size_bytes, row_line, rows_map, row_of, sum};
use crate::percent::{decoded, encoded, Alphabet};
use crate::text::{decimal, signed_decimal};
use vstd::prelude::*;
use vstd::utf8::{encode_utf8, valid_utf8};

verus! {

/// Bytes are written in hexadecimal one after another, each as two digits in small letters,
/// the high one first.
pub proof fn law_hex(a: Seq<u8>, b: Seq<u8>, x: u8)
    ensures
        hex(a + b) == hex(a) + hex(b),
        hex(seq![x]) == seq![
            "0123456789abcdef"@[x as int / 16],
            "0123456789abcdef"@[x as int % 16],
        ],
        hex(seq![]).len() == 0,
    decreases b.len(),
{
    reveal_with_fuel(hex, 2);
    reveal_strlit("0123456789abcdef");
    assert(seq![x].drop_last() =~= seq![]);
    let h = x as int / 16;
    let l = x as int % 16;
    assert(0 <= h < 16 && 0 <= l < 16);
    assert(hex(seq![x]) =~= seq!["0123456789abcdef"@[h], "0123456789abcdef"@[l]]);
    if b.len() == 0 {
        assert(a + b =~= a);
        assert(hex(a) + hex(b) =~= hex(a));
    } else {
        law_hex(a, b.drop_last(), x);
        assert((a + b).drop_last() =~= a + b.drop_last());
        assert(hex(a + b) =~= hex(a) + hex(b));
    }
}

/// A number is written in as many hexadecimal digits as are asked for: the last is what is
/// left over by sixteen, and those before it are the digits of the rest.
pub proof fn law_hex_digits(v: nat, d: nat, n: nat)
    requires
        d < 16,
    ensures
        hex_digits(16 * v + d, n + 1) == hex_digits(v, n).push("0123456789abcdef"@[d as int]),
        hex_digits(v, n).len() == n,
    decreases n,
{
    reveal_strlit("0123456789abcdef");
    assert((16 * v + d) / 16 == v);
    assert((16 * v + d) % 16 == d);
    if n > 0 {
        law_hex_digits(v / 16, d, (n - 1) as nat);
    }
}

/// The hash of contents: SHA-256 where it is asked for by that name, and under any other
/// name XXH3 of 128 bits, in 32 digits.
pub proof fn law_hash(algorithm: &str, data: &[u8], r: String)
    requires
        call_ensures(hash_data, (algorithm, data), r),
    ensures
        algorithm@ == "sha256"@ ==> r@ == hex(sha256_of(data@)),
        algorithm@ != "sha256"@ ==> r@ == hex_digits(xxh3_of(data@) as nat, 32) && r@.len() == 32,
{
    law_hex_digits(xxh3_of(data@) as nat, 0, 32);
}

/// How hashes are told.
pub proof fn law_hash_text(b: &[u8], v: u128, h: String, x: String)
    requires
        call_ensures(to_hex, (b,), h),
        call_ensures(xxh3_text, (v,), x),
    ensures
        h@ == hex(b@),
        x@ == hex_digits(v as nat, 32),
{
}

/// A frame is told by its first four bytes.
pub proof fn law_magic(d: &[u8], r: bool)
    requires
        call_ensures(is_zstd, (d,), r),
    ensures
        r <==> d@.len() >= 4 && d@.take(4) == seq![0x28u8, 0xb5, 0x2f, 0xfd],
{
    if d@.len() >= 4 {
        assert(d@.take(4)[0] == d@[0] && d@.take(4)[1] == d@[1] && d@.take(4)[2] == d@[2] && d@.take(
            4,
        )[3] == d@[3]);
        if r {
            assert(d@.take(4) =~= seq![0x28u8, 0xb5, 0x2f, 0xfd]);
        }
    }
}

/// Contents are compressed at the third level, and only where that makes them smaller.
pub proof fn law_packed(data: &[u8], r: Option<Vec<u8>>)
    requires
        call_ensures(pack, (data,), r),
    ensures
        r matches Some(f) ==> f@.len() < data@.len() && zstd_frame(data@, 3) == Some(f@),
        r is None ==> (zstd_frame(data@, 3) matches Some(f) ==> f.len() >= data@.len()),
{
}

/// What is marked as compressed and begins as a frame is replaced by what the frame holds,
/// and is corrupt where it holds nothing; everything else is left as it is.
pub proof fn law_unpacked(marker: Option<&str>, data: &[u8], r: Unpacked)
    requires
        call_ensures(unpack, (marker, data), r),
    ensures
        (marker matches Some(m) && m@ == "zstd"@) && data@.len() >= 4 && data@.take(4) == seq![
            0x28u8,
            0xb5,
            0x2f,
            0xfd,
        ] ==> match zstd_contents(data@) {
            Some(d) => r matches Unpacked::Bytes(b) && b@ == d,
            None => r is Corrupt,
        },
        !((marker matches Some(m) && m@ == "zstd"@) && data@.len() >= 4 && data@.take(4) == seq![
            0x28u8,
            0xb5,
            0x2f,
            0xfd,
        ]) ==> r is AsIs,
{
    if data@.len() >= 4 {
        let t = data@.take(4);
        assert(t[0] == data@[0] && t[1] == data@[1] && t[2] == data@[2] && t[3] == data@[3]);
        if data@[0] == 0x28 && data@[1] == 0xb5 && data@[2] == 0x2f && data@[3] == 0xfd {
            assert(t =~= seq![0x28u8, 0xb5, 0x2f, 0xfd]);
        }
    }
}

/// The letters, the digits and four marks stay as they are in every encoded text, the
/// separator in a path, and ten more marks in a name.
pub open spec fn stays(set: Alphabet, x: u8) -> bool {
    let c = x as char;
    ||| 'a' <= c <= 'z' || 'A' <= c <= 'Z' || '0' <= c <= '9'
    ||| c == '-' || c == '.' || c == '_' || c == '~'
    ||| set is Path && c == '/'
    ||| set is Name && (c == '(' || c == ')' || c == '!' || c == '@' || c == '+' || c == ',' || c
        == ';' || c == '=' || c == '&' || c == '\'')
}

/// Bytes are encoded one after another: what stays is itself, and any other byte is a
/// percent sign and two digits in capitals, the high one first.
pub proof fn law_encoded(set: Alphabet, a: Seq<u8>, b: Seq<u8>, x: u8)
    ensures
        encoded(set, a + b) == encoded(set, a) + encoded(set, b),
        stays(set, x) ==> encoded(set, seq![x]) == seq![x as char],
        !stays(set, x) ==> encoded(set, seq![x]) == seq![
            '%',
            "0123456789ABCDEF"@[x as int / 16],
            "0123456789ABCDEF"@[x as int % 16],
        ],
    decreases a.len(),
{
    reveal_with_fuel(encoded, 2);
    reveal_strlit("0123456789ABCDEF");
    let h = x as int / 16;
    let l = x as int % 16;
    assert(0 <= h < 16 && 0 <= l < 16);
    assert(seq![x].drop_first() =~= seq![]);
    if stays(set, x) {
        assert(encoded(set, seq![x]) =~= seq![x as char]);
    } else {
        assert(encoded(set, seq![x]) =~= seq!['%', "0123456789ABCDEF"@[h], "0123456789ABCDEF"@[l]]);
    }
    if a.len() == 0 {
        assert(a + b =~= b);
        assert(encoded(set, a) + encoded(set, b) =~= encoded(set, b));
    } else {
        law_encoded(set, a.drop_first(), b, x);
        assert((a + b).drop_first() =~= a.drop_first() + b);
        assert((a + b)[0] == a[0]);
        assert(encoded(set, a + b) =~= encoded(set, a) + encoded(set, b));
    }
}

/// The value of a hexadecimal digit, in letters of either case.
pub open spec fn digit_value(c: u8) -> int {
    if '0' <= c as char <= '9' {
        c as int - '0' as int
    } else if 'A' <= c as char <= 'F' {
        c as int - 'A' as int + 10
    } else if 'a' <= c as char <= 'f' {
        c as int - 'a' as int + 10
    } else {
        -1
    }
}

/// In an encoded text a percent sign and two digits are the byte that they write, whatever
/// the case of the digits, and a byte that is no percent sign is itself.
pub proof fn law_decoded(s: Seq<u8>, i: int)
    requires
        0 <= i,
    ensures
        i >= s.len() ==> decoded(s, i).len() == 0,
        i < s.len() && s[i] != '%' as u8 ==> decoded(s, i) == seq![s[i]] + decoded(s, i + 1),
        i + 3 <= s.len() && s[i] == '%' as u8 && digit_value(s[i + 1]) >= 0 && digit_value(s[i + 2])
            >= 0 ==> decoded(s, i) == seq![
            (16 * digit_value(s[i + 1]) + digit_value(s[i + 2])) as u8,
        ] + decoded(s, i + 3),
{
    reveal_with_fuel(decoded, 2);
}

/// The space of files is 512 bytes for each block, as far as it fits.
pub proof fn law_blocks(blocks: &Vec<u64>, r: u64, x: u64)
    requires
        call_ensures(dir_size_bytes, (blocks,), r),
    ensures
        512 * sum(blocks@) <= u64::MAX ==> r == 512 * sum(blocks@),
        512 * sum(blocks@) > u64::MAX ==> r == u64::MAX,
        sum(blocks@.push(x)) == sum(blocks@) + x,
        sum(seq![]) == 0,
{
    assert(blocks@.push(x).drop_last() =~= blocks@);
}

/// The line of a directory: its size, its time and its encoded name, with a space between.
pub proof fn law_row_line(size: nat, mtime: int, name: Seq<char>)
    ensures
        row_line((size, mtime, name)) == decimal(size) + seq![' '] + signed_decimal(mtime) + seq![' ']
            + encoded(Alphabet::Name, encode_utf8(name)),
{
}

/// The lines of directories are read one after another: a line that says something counts
/// for its directory from then on, and a line that says nothing changes nothing.
pub proof fn law_rows(ls: Seq<Seq<char>>, line: Seq<char>)
    ensures
        row_of(line) matches Some(row) ==> rows_map(ls.push(line)) == rows_map(ls).insert(
            row.2,
            (row.0, row.1),
        ),
        row_of(line) is None ==> rows_map(ls.push(line)) == rows_map(ls),
{
    assert(ls.push(line).drop_last() =~= ls);
}

/// A percent sign is read with what follows it even where that is no number. Two characters
/// that are none stand for nothing, a plus sign and a digit for the digit, what is no text
/// for zero, and what is missing at the end for the digit zero.
pub proof fn law_decoded_odd(s: Seq<u8>, i: int)
    requires
        0 <= i < s.len(),
        s[i] == '%' as u8,
    ensures
        i + 3 <= s.len() && s[i + 1] == '+' as u8 && digit_value(s[i + 2]) >= 0 ==> decoded(s, i)
            == seq![digit_value(s[i + 2]) as u8] + decoded(s, i + 3),
        i + 3 <= s.len() && s[i + 1] != '+' as u8 && (digit_value(s[i + 1]) < 0 || digit_value(s[i + 2])
            < 0) ==> decoded(s, i) == (if valid_utf8(seq![s[i + 1], s[i + 2]]) {
            decoded(s, i + 3)
        } else {
            seq![0u8] + decoded(s, i + 3)
        }),
        i + 2 == s.len() && digit_value(s[i + 1]) >= 0 ==> decoded(s, i) == seq![
            (16 * digit_value(s[i + 1])) as u8,
        ],
        i + 1 == s.len() ==> decoded(s, i) == seq![0u8],
{
    reveal_with_fuel(decoded, 2);
    if i + 2 == s.len() {
        assert(decoded(s, i) =~= seq![(16 * digit_value(s[i + 1])) as u8] + seq![] || digit_value(
            s[i + 1],
        ) < 0);
    }
    if i + 1 == s.len() {
        assert(decoded(s, i) =~= seq![0u8] + seq![]);
    }
}

} // verus!
