//! Hashes of contents, and their compression.

use crate::text::{same_text, string_of};
use vstd::prelude::*;

verus! {

/// The SHA-256 digest of bytes.
pub uninterp spec fn sha256_of(data: Seq<u8>) -> Seq<u8>;

/// The XXH3 hash of bytes, of 128 bits.
pub uninterp spec fn xxh3_of(data: Seq<u8>) -> u128;

/// The zstd frame of bytes at a level, if it could be made.
pub uninterp spec fn zstd_frame(data: Seq<u8>, level: int) -> Option<Seq<u8>>;

/// The bytes that a zstd frame holds, if it is one.
pub uninterp spec fn zstd_contents(frame: Seq<u8>) -> Option<Seq<u8>>;

/// `sha2::Sha256::digest` gives the SHA-256 digest of bytes: 32 bytes.
#[verifier::external_body]
pub(crate) fn sha256_digest(data: &[u8]) -> (r: Vec<u8>)
    ensures
        r@ == sha256_of(data@),
        r@.len() == 32,
{
    <sha2::Sha256 as sha2::Digest>::digest(data).to_vec()
}

/// `xxhash_rust::xxh3::xxh3_128` gives the XXH3 hash of bytes.
#[verifier::external_body]
pub(crate) fn xxh3_hash(data: &[u8]) -> (r: u128)
    ensures
        r == xxh3_of(data@),
{
    xxhash_rust::xxh3::xxh3_128(data)
}

/// `zstd::encode_all` compresses bytes. What it makes is a frame, which begins with the
/// magic number of zstd and holds the bytes.
#[verifier::external_body]
pub(crate) fn zstd_encode(data: &[u8], level: i32) -> (r: Option<Vec<u8>>)
    ensures
        match r {
            Some(f) => zstd_frame(data@, level as int) == Some(f@) && has_magic(f@)
                && zstd_contents(f@) == Some(data@),
            None => zstd_frame(data@, level as int) is None,
        },
{
    zstd::encode_all(data, level).ok()
}

/// `zstd::decode_all` gives the bytes that a frame holds.
#[verifier::external_body]
pub(crate) fn zstd_decode(frame: &[u8]) -> (r: Option<Vec<u8>>)
    ensures
        match r {
            Some(d) => zstd_contents(frame@) == Some(d@),
            None => zstd_contents(frame@) is None,
        },
{
    zstd::decode_all(frame).ok()
}

/// Bytes that begin with the magic number of zstd.
pub open spec fn has_magic(d: Seq<u8>) -> bool {
    d.len() >= 4 && d[0] == 0x28 && d[1] == 0xb5 && d[2] == 0x2f && d[3] == 0xfd
}

/// Whether bytes begin with the magic number of zstd.
pub fn is_zstd(d: &[u8]) -> (r: bool)
    ensures
        r == has_magic(d@),
{
    d.len() >= 4 && d[0] == 0x28 && d[1] == 0xb5 && d[2] == 0x2f && d[3] == 0xfd
}

pub open spec fn low_digit(n: int) -> char {
    if n < 10 {
        (n + 48) as char
    } else {
        (n + 87) as char
    }
}

/// Bytes in hexadecimal, two digits each.
pub open spec fn hex(b: Seq<u8>) -> Seq<char>
    decreases b.len(),
{
    if b.len() == 0 {
        seq![]
    } else {
        hex(b.drop_last()) + seq![low_digit(b.last() as int / 16), low_digit(b.last() as int % 16)]
    }
}

/// The last `n` hexadecimal digits of a number.
pub open spec fn hex_digits(v: nat, n: nat) -> Seq<char>
    decreases n,
{
    if n == 0 {
        seq![]
    } else {
        hex_digits(v / 16, (n - 1) as nat).push(low_digit((v % 16) as int))
    }
}

/// The hash of a file's contents, as text, by an algorithm; XXH3 is the default.
pub open spec fn hash_of(algorithm: Seq<char>, data: Seq<u8>) -> Seq<char> {
    if algorithm == "sha256"@ {
        hex(sha256_of(data))
    } else {
        hex_digits(xxh3_of(data) as nat, 32)
    }
}

fn digit(n: u8) -> (c: char)
    requires
        n < 16,
    ensures
        c == low_digit(n as int),
{
    if n < 10 {
        (n + 48) as char
    } else {
        (n + 87) as char
    }
}

/// Bytes in hexadecimal.
pub fn to_hex(b: &[u8]) -> (r: String)
    ensures
        r@ == hex(b@),
{
    let mut out: Vec<char> = Vec::new();
    let mut i: usize = 0;
    assert(b@.take(0) =~= seq![]);
    while i < b.len()
        invariant
            i <= b@.len(),
            out@ == hex(b@.take(i as int)),
        decreases b@.len() - i,
    {
        assert(b@.take(i + 1).drop_last() =~= b@.take(i as int));
        let ghost before = out@;
        out.push(digit(b[i] / 16));
        out.push(digit(b[i] % 16));
        i += 1;
        assert(out@ =~= hex(b@.take(i as int)));
    }
    assert(b@.take(i as int) =~= b@);
    string_of(out.as_slice())
}

fn number_hex(v: u128, n: u32) -> (r: Vec<char>)
    ensures
        r@ == hex_digits(v as nat, n as nat),
    decreases n,
{
    if n == 0 {
        Vec::new()
    } else {
        let mut r = number_hex(v / 16, n - 1);
        r.push(digit((v % 16) as u8));
        r
    }
}

/// The text of an XXH3 hash.
pub fn xxh3_text(v: u128) -> (r: String)
    ensures
        r@ == hex_digits(v as nat, 32),
{
    let c = number_hex(v, 32);
    string_of(c.as_slice())
}

/// The hash of a file's contents.
pub fn hash_data(algorithm: &str, data: &[u8]) -> (r: String)
    ensures
        r@ == hash_of(algorithm@, data@),
{
    if same_text(algorithm, "sha256") {
        let d = sha256_digest(data);
        to_hex(d.as_slice())
    } else {
        xxh3_text(xxh3_hash(data))
    }
}

/// Bytes that have one text in hexadecimal are the same.
pub proof fn law_hex_injective(a: Seq<u8>, b: Seq<u8>)
    requires
        hex(a) == hex(b),
    ensures
        a == b,
    decreases a.len(),
{
    lemma_hex_len(a);
    lemma_hex_len(b);
    if a.len() > 0 {
        let n = hex(a).len() as int;
        assert(hex(a).take(n - 2) =~= hex(a.drop_last()));
        assert(hex(b).take(n - 2) =~= hex(b.drop_last()));
        law_hex_injective(a.drop_last(), b.drop_last());
        let x = a.last() as int;
        let y = b.last() as int;
        assert(hex(a)[n - 2] == low_digit(x / 16));
        assert(hex(b)[n - 2] == low_digit(y / 16));
        assert(hex(a)[n - 1] == low_digit(x % 16));
        assert(hex(b)[n - 1] == low_digit(y % 16));
        assert(x == y);
        assert(a =~= a.drop_last().push(a.last()));
        assert(b =~= b.drop_last().push(b.last()));
    } else {
        assert(a =~= b);
    }
}

proof fn lemma_hex_len(a: Seq<u8>)
    ensures
        hex(a).len() == 2 * a.len(),
    decreases a.len(),
{
    if a.len() > 0 {
        lemma_hex_len(a.drop_last());
    }
}

/// What is kept of contents that are to be compressed: the frame, where it is smaller.
pub open spec fn packed(data: Seq<u8>) -> Option<Seq<u8>> {
    match zstd_frame(data, 3) {
        Some(f) => if f.len() < data.len() {
            Some(f)
        } else {
            None
        },
        None => None,
    }
}

/// The frame of a file's contents, where it is smaller than they are. Once it is marked,
/// the contents are restored from it as they were.
pub fn pack(data: &[u8]) -> (r: Option<Vec<u8>>)
    ensures
        match r {
            Some(f) => packed(data@) == Some(f@) && unpacked(
                Some("zstd"@),
                f@,
                zstd_contents(f@),
            ) == Some(Some(data@)),
            None => packed(data@) is None,
        },
{
    match zstd_encode(data, 3) {
        Some(f) => {
            if f.len() < data.len() {
                Some(f)
            } else {
                None
            }
        },
        None => None,
    }
}

/// What becomes of the contents of an item that is restored.
#[derive(Debug)]
pub enum Unpacked {
    /// They stay as they are.
    AsIs,
    /// They are replaced by these.
    Bytes(Vec<u8>),
    /// They are a frame that cannot be read.
    Corrupt,
}

pub open spec fn marked_zstd(marker: Option<Seq<char>>) -> bool {
    marker == Some("zstd"@)
}

/// What becomes of contents, from what the decoder made of them: only contents that are
/// marked as compressed and begin as a frame does are replaced.
pub open spec fn unpacked(marker: Option<Seq<char>>, data: Seq<u8>, decoded: Option<Seq<u8>>) -> Option<
    Option<Seq<u8>>,
> {
    if marked_zstd(marker) && has_magic(data) {
        match decoded {
            Some(d) => Some(Some(d)),
            None => None,
        }
    } else {
        Some(None)
    }
}

pub open spec fn unpacked_is(u: Unpacked, s: Option<Option<Seq<u8>>>) -> bool {
    match u {
        Unpacked::AsIs => s == Some(None::<Seq<u8>>),
        Unpacked::Bytes(b) => s == Some(Some(b@)),
        Unpacked::Corrupt => s is None,
    }
}

/// What becomes of the contents of an item that is restored.
pub fn unpack(marker: Option<&str>, data: &[u8]) -> (r: Unpacked)
    ensures
        unpacked_is(
            r,
            unpacked(
                match marker {
                    Some(m) => Some(m@),
                    None => None,
                },
                data@,
                zstd_contents(data@),
            ),
        ),
{
    let marked: bool = match marker {
        Some(m) => same_text(m, "zstd"),
        None => false,
    };
    if marked && is_zstd(data) {
        match zstd_decode(data) {
            Some(d) => Unpacked::Bytes(d),
            None => Unpacked::Corrupt,
        }
    } else {
        Unpacked::AsIs
    }
}

/// Contents without the mark are restored as they are, whatever they begin with.
pub proof fn law_unmarked_untouched(marker: Option<Seq<char>>, data: Seq<u8>)
    requires
        !marked_zstd(marker),
    ensures
        unpacked(marker, data, zstd_contents(data)) == Some(None::<Seq<u8>>),
{
}

} // verus!
