//! The file `directorysizes` of a trash directory: the sizes of the directories in it.
//!
//! Each line holds the size in bytes, the time of the `.trashinfo` file in seconds since
//! the epoch, and the directory's name, percent-encoded.

use crate::percent::{decode, decoded_text, encode, encoded, law_decode_encoded, lemma_encoded_chars, Alphabet};
use crate::seqs::{find_from, lemma_find_from_is, position};
use crate::text::{
    chars_of, clean, decimal, is_digit, join_texts, lemma_lines_back, unlines, interspersed, law_decimal_read_back, law_signed_read_back, lemma_decimal, lines, lines_of, lossy, parse_i64, parse_unsigned, push_decimal, push_signed, push_text,
    same_text, signed_decimal, signed_value, string_of, text_lossy, texts, unsigned_value, views,
};
use vstd::prelude::*;
use vstd::slice::slice_subrange;
use vstd::utf8::{encode_utf8, encode_utf8_decode_utf8, encode_utf8_valid_utf8};

verus! {

/// The size of a directory in the trash.
#[derive(Debug, Clone)]
pub struct DirSizeEntry {
    pub size: u64,
    pub mtime: i64,
    pub name: String,
}

/// A directory's name as it stands in the file.
pub open spec fn encoded_name(name: Seq<char>) -> Seq<char> {
    encoded(Alphabet::Name, encode_utf8(name))
}

/// The name that stands in the file.
pub open spec fn decoded_name(t: Seq<char>) -> Seq<char> {
    lossy(decoded_text(t))
}

/// A size, a time and a name.
pub type Row = (nat, int, Seq<char>);

/// The line of a directory.
pub open spec fn row_line(row: Row) -> Seq<char> {
    decimal(row.0) + seq![' '] + signed_decimal(row.1) + seq![' '] + encoded_name(row.2)
}

/// What a line says: what stands before the first space, before the second, and behind it.
pub open spec fn row_of(line: Seq<char>) -> Option<Row> {
    let a = find_from(line, ' ', 0);
    let b = find_from(line, ' ', a + 1);
    if 0 <= a < b < line.len() {
        match (
            unsigned_value(line.take(a), u64::MAX as nat),
            signed_value(line.subrange(a + 1, b)),
        ) {
            (Some(size), Some(mtime)) => Some((size, mtime, decoded_name(line.skip(b + 1)))),
            _ => None,
        }
    } else {
        None
    }
}

/// The sizes and times by name; a later line replaces an earlier one.
pub open spec fn rows_map(ls: Seq<Seq<char>>) -> Map<Seq<char>, (nat, int)>
    decreases ls.len(),
{
    if ls.len() == 0 {
        Map::empty()
    } else {
        let m = rows_map(ls.drop_last());
        match row_of(ls.last()) {
            Some((size, mtime, name)) => m.insert(name, (size, mtime)),
            None => m,
        }
    }
}

/// A list holds what a map holds, each name once.
pub open spec fn lists(v: Seq<DirSizeEntry>, m: Map<Seq<char>, (nat, int)>) -> bool {
    &&& forall|i: int, j: int| 0 <= i < j < v.len() ==> #[trigger] v[i].name@ != #[trigger] v[j].name@
    &&& forall|i: int|
        0 <= i < v.len() ==> m.dom().contains(#[trigger] v[i].name@) && m[v[i].name@] == (
            v[i].size as nat,
            v[i].mtime as int,
        )
    &&& forall|n: Seq<char>| #[trigger]
        m.dom().contains(n) ==> exists|i: int| 0 <= i < v.len() && #[trigger] v[i].name@ == n
}

/// A name of a directory, as it stands in the file.
pub fn encode_name(name: &str) -> (r: String)
    ensures
        r@ == encoded_name(name@),
{
    encode(Alphabet::Name, name.as_bytes())
}

/// The name of a directory that stands in the file.
pub fn decode_name(t: &str) -> (r: String)
    ensures
        r@ == decoded_name(t@),
{
    let b = decode(t);
    text_lossy(b.as_slice())
}

/// A name that was encoded is decoded to itself.
pub proof fn law_name_read_back(name: Seq<char>)
    ensures
        decoded_name(encoded_name(name)) == name,
{
    law_decode_encoded(Alphabet::Name, encode_utf8(name));
    encode_utf8_valid_utf8(name);
    encode_utf8_decode_utf8(name);
}

proof fn lemma_signed_chars(n: int)
    ensures
        forall|i: int|
            0 <= i < signed_decimal(n).len() ==> is_digit(#[trigger] signed_decimal(n)[i])
                || signed_decimal(n)[i] == '-',
{
    if n < 0 {
        lemma_decimal((-n) as nat);
        let s = signed_decimal(n);
        assert forall|i: int| 0 <= i < s.len() implies is_digit(#[trigger] s[i]) || s[i] == '-' by {
            if i > 0 {
                assert(s[i] == decimal((-n) as nat)[i - 1]);
            }
        }
    } else {
        lemma_decimal(n as nat);
    }
}

/// The line of a directory says what it was made of, and is one line.
pub proof fn law_row_read_back(row: Row)
    requires
        row.0 <= u64::MAX,
        i64::MIN <= row.1 <= i64::MAX,
    ensures
        row_of(row_line(row)) == Some(row),
        forall|i: int| 0 <= i < row_line(row).len() ==> #[trigger] row_line(row)[i] != '\n',
{
    let d = decimal(row.0);
    let t = signed_decimal(row.1);
    let e = encoded_name(row.2);
    let l = row_line(row);
    lemma_decimal(row.0);
    lemma_signed_chars(row.1);
    lemma_encoded_chars(Alphabet::Name, encode_utf8(row.2));
    let a = d.len() as int;
    let b = a + 1 + t.len();
    assert forall|k: int| 0 <= k < l.len() implies #[trigger] l[k] != '\n' && (l[k] == ' ' ==> k == a
        || k == b) by {
        if k < a {
            assert(l[k] == d[k]);
            assert(is_digit(d[k]));
        } else if a < k < b {
            assert(l[k] == t[k - a - 1]);
        } else if k > b {
            assert(l[k] == e[k - b - 1]);
            assert('\0' <= e[k - b - 1] <= '\u{7f}');
            assert((e[k - b - 1] as u8) as int == e[k - b - 1] as int);
        }
    }
    assert(l[a] == ' ');
    assert(l[b] == ' ');
    lemma_find_from_is(l, ' ', 0, a);
    lemma_find_from_is(l, ' ', a + 1, b);
    assert(l.take(a) =~= d);
    assert(l.subrange(a + 1, b) =~= t);
    assert(l.skip(b + 1) =~= e);
    law_decimal_read_back(row.0, u64::MAX as nat);
    law_signed_read_back(row.1);
    law_name_read_back(row.2);
}

fn parse_row(line: &[char]) -> (r: Option<DirSizeEntry>)
    ensures
        match r {
            Some(e) => row_of(line@) == Some((e.size as nat, e.mtime as int, e.name@)),
            None => row_of(line@) is None,
        },
{
    let n: usize = line.len();
    let a: usize = position(line, ' ', 0);
    if a == n {
        proof {
            assert(!(a < n));
        }
        return None;
    }
    let b: usize = position(line, ' ', a + 1);
    if b == n {
        return None;
    }
    let first = slice_subrange(line, 0, a);
    let second = slice_subrange(line, a + 1, b);
    let third = slice_subrange(line, b + 1, n);
    proof {
        assert(first@ =~= line@.take(a as int));
        assert(third@ =~= line@.skip(b + 1));
    }
    match (parse_unsigned(first, u64::MAX), parse_i64(second)) {
        (Some(size), Some(mtime)) => {
            let t = string_of(third);
            let name = decode_name(t.as_str());
            Some(DirSizeEntry { size, mtime, name })
        },
        _ => None,
    }
}

fn put(v: &mut Vec<DirSizeEntry>, e: DirSizeEntry, Ghost(m): Ghost<Map<Seq<char>, (nat, int)>>)
    requires
        lists(old(v)@, m),
    ensures
        lists(final(v)@, m.insert(e.name@, (e.size as nat, e.mtime as int))),
{
    let ghost m1 = m.insert(e.name@, (e.size as nat, e.mtime as int));
    let ghost name = e.name@;
    let mut i: usize = 0;
    while i < v.len()
        invariant
            i <= v@.len(),
            v@ == old(v)@,
            lists(old(v)@, m),
            name == e.name@,
            m1 == m.insert(name, (e.size as nat, e.mtime as int)),
            forall|k: int| 0 <= k < i ==> #[trigger] v@[k].name@ != name,
        decreases v@.len() - i,
    {
        if same_text(v[i].name.as_str(), e.name.as_str()) {
            v.set(i, e);
            proof {
                let w = v@;
                let o = old(v)@;
                assert forall|n: Seq<char>| #[trigger] m1.dom().contains(n) implies exists|k: int|
                    0 <= k < w.len() && #[trigger] w[k].name@ == n by {
                    if n == name {
                        assert(w[i as int].name@ == n);
                    } else {
                        assert(m.dom().contains(n));
                        let k = choose|k: int| 0 <= k < o.len() && #[trigger] o[k].name@ == n;
                        assert(w[k].name@ == n);
                    }
                }
                assert forall|k: int, j: int| 0 <= k < j < w.len() implies #[trigger] w[k].name@
                    != #[trigger] w[j].name@ by {
                    assert(w[k].name@ == o[k].name@);
                    assert(w[j].name@ == o[j].name@);
                }
                assert forall|k: int| 0 <= k < w.len() implies m1.dom().contains(
                    #[trigger] w[k].name@,
                ) && m1[w[k].name@] == (w[k].size as nat, w[k].mtime as int) by {
                    if k != i {
                        assert(w[k] == o[k]);
                        assert(o[k].name@ != o[i as int].name@);
                    }
                }
            }
            return;
        }
        i += 1;
    }
    v.push(e);
    proof {
        let w = v@;
        let o = old(v)@;
        assert forall|k: int| 0 <= k < o.len() implies w[k] == o[k] && #[trigger] o[k].name@ != name by {
        }
        assert forall|n: Seq<char>| #[trigger] m1.dom().contains(n) implies exists|k: int|
            0 <= k < w.len() && #[trigger] w[k].name@ == n by {
            if n == name {
                assert(w[o.len() as int].name@ == n);
            } else {
                assert(m.dom().contains(n));
                let k = choose|k: int| 0 <= k < o.len() && #[trigger] o[k].name@ == n;
                assert(w[k].name@ == n);
            }
        }
        assert forall|k: int, j: int| 0 <= k < j < w.len() implies #[trigger] w[k].name@
            != #[trigger] w[j].name@ by {
            assert(w[k] == o[k]);
            if j < o.len() {
                assert(w[j] == o[j]);
            }
        }
        assert forall|k: int| 0 <= k < w.len() implies m1.dom().contains(#[trigger] w[k].name@)
            && m1[w[k].name@] == (w[k].size as nat, w[k].mtime as int) by {
            if k < o.len() {
                assert(w[k] == o[k]);
            }
        }
    }
}

/// The sizes that the contents of the file give, each name once.
pub fn read_cache(content: &str) -> (r: Vec<DirSizeEntry>)
    ensures
        lists(r@, rows_map(lines(content@))),
{
    let chars = chars_of(content);
    let ls = lines_of(chars.as_slice());
    let ghost all = views(ls@);
    let mut r: Vec<DirSizeEntry> = Vec::new();
    let mut i: usize = 0;
    assert(all.take(0) =~= seq![]);
    while i < ls.len()
        invariant
            i <= ls@.len(),
            all == views(ls@),
            lists(r@, rows_map(all.take(i as int))),
        decreases ls@.len() - i,
    {
        proof {
            assert(all.take(i + 1).drop_last() =~= all.take(i as int));
            assert(all.take(i + 1).last() == ls@[i as int]@);
        }
        if let Some(e) = parse_row(ls[i].as_slice()) {
            put(&mut r, e, Ghost(rows_map(all.take(i as int))));
        }
        i += 1;
    }
    assert(all.take(i as int) =~= all);
    r
}

pub open spec fn row(e: DirSizeEntry) -> Row {
    (e.size as nat, e.mtime as int, e.name@)
}

/// The lines of a list of directories.
pub open spec fn rows_lines(v: Seq<DirSizeEntry>) -> Seq<Seq<char>> {
    v.map_values(|e: DirSizeEntry| row_line(row(e)))
}

/// The contents of the file for a list of directories.
pub open spec fn cache_text(v: Seq<DirSizeEntry>) -> Seq<char> {
    interspersed(rows_lines(v), seq!['\n']).push('\n')
}

/// The contents of the file for a list of directories.
pub fn write_cache(v: &Vec<DirSizeEntry>) -> (r: String)
    ensures
        r@ == cache_text(v@),
{
    let mut ls: Vec<String> = Vec::new();
    let mut i: usize = 0;
    while i < v.len()
        invariant
            i <= v@.len(),
            texts(ls@) == rows_lines(v@).take(i as int),
        decreases v@.len() - i,
    {
        let mut l: String = String::new();
        push_decimal(&mut l, v[i].size);
        l.push(' ');
        push_signed(&mut l, v[i].mtime);
        l.push(' ');
        let name = encode_name(v[i].name.as_str());
        push_text(&mut l, name.as_str());
        let ghost before = ls@;
        proof {
            assert(l@ =~= row_line(row(v@[i as int])));
        }
        ls.push(l);
        i += 1;
        assert(texts(ls@) =~= texts(before).push(row_line(row(v@[i - 1]))));
        assert(rows_lines(v@).take(i as int) =~= rows_lines(v@).take(i - 1).push(
            rows_lines(v@)[i - 1],
        ));
    }
    assert(rows_lines(v@).take(i as int) =~= rows_lines(v@));
    let sep = "\n";
    proof {
        reveal_strlit("\n");
        assert(sep@ =~= seq!['\n']);
    }
    let mut r = join_texts(&ls, sep);
    r.push('\n');
    r
}

proof fn lemma_interspersed(ls: Seq<Seq<char>>)
    requires
        ls.len() > 0,
    ensures
        interspersed(ls, seq!['\n']).push('\n') == unlines(ls),
    decreases ls.len(),
{
    reveal_with_fuel(unlines, 2);
    if ls.len() == 1 {
        assert(ls.drop_last() =~= seq![]);
        assert(unlines(ls) =~= ls[0].push('\n'));
    } else {
        lemma_interspersed(ls.drop_last());
        assert(interspersed(ls, seq!['\n']).push('\n') =~= interspersed(
            ls.drop_last(),
            seq!['\n'],
        ).push('\n') + ls.last().push('\n'));
    }
}

proof fn lemma_rows_listed(v: Seq<DirSizeEntry>)
    requires
        forall|i: int, j: int|
            0 <= i < j < v.len() ==> #[trigger] v[i].name@ != #[trigger] v[j].name@,
    ensures
        lists(v, rows_map(rows_lines(v))),
    decreases v.len(),
{
    if v.len() > 0 {
        let w = v.drop_last();
        let e = v.last();
        assert forall|i: int, j: int| 0 <= i < j < w.len() implies #[trigger] w[i].name@
            != #[trigger] w[j].name@ by {
            assert(w[i] == v[i] && w[j] == v[j]);
        }
        lemma_rows_listed(w);
        law_row_read_back(row(e));
        assert(rows_lines(v).drop_last() =~= rows_lines(w));
        assert(rows_lines(v).last() == row_line(row(e)));
        let m0 = rows_map(rows_lines(w));
        let m = rows_map(rows_lines(v));
        assert(m == m0.insert(e.name@, (e.size as nat, e.mtime as int)));
        assert forall|n: Seq<char>| #[trigger] m.dom().contains(n) implies exists|i: int|
            0 <= i < v.len() && #[trigger] v[i].name@ == n by {
            if n == e.name@ {
                assert(v[v.len() - 1].name@ == n);
            } else {
                assert(m0.dom().contains(n));
                let k = choose|k: int| 0 <= k < w.len() && #[trigger] w[k].name@ == n;
                assert(v[k].name@ == n);
            }
        }
        assert forall|i: int| 0 <= i < v.len() implies m.dom().contains(#[trigger] v[i].name@)
            && m[v[i].name@] == (v[i].size as nat, v[i].mtime as int) by {
            if i < w.len() {
                assert(w[i] == v[i]);
                assert(v[i].name@ != v[v.len() - 1].name@);
            }
        }
    }
}

/// The contents of the file give back the list that they were made of.
pub proof fn law_cache_read_back(v: Seq<DirSizeEntry>)
    requires
        forall|i: int, j: int|
            0 <= i < j < v.len() ==> #[trigger] v[i].name@ != #[trigger] v[j].name@,
    ensures
        lists(v, rows_map(lines(cache_text(v)))),
{
    let ls = rows_lines(v);
    if v.len() == 0 {
        let e: Seq<char> = seq![];
        assert(cache_text(v) =~= e.push('\n'));
        assert(unlines(seq![e]) =~= e.push('\n')) by {
            reveal_with_fuel(unlines, 2);
            assert(seq![e].drop_last() =~= seq![]);
        }
        lemma_lines_back(seq![e]);
        reveal_with_fuel(rows_map, 2);
        assert(seq![e].drop_last() =~= seq![]);
        assert(rows_map(seq![e]) =~= Map::empty());
    } else {
        lemma_interspersed(ls);
        assert forall|i: int| 0 <= i < ls.len() implies clean(#[trigger] ls[i]) by {
            law_row_read_back(row(v[i]));
            let e = encoded_name(v[i].name@);
            lemma_encoded_chars(Alphabet::Name, encode_utf8(v[i].name@));
            let l = ls[i];
            if e.len() > 0 {
                assert(l.last() == e.last());
                assert('\0' <= e[e.len() - 1] <= '\u{7f}');
                assert((e[e.len() - 1] as u8) as int == e[e.len() - 1] as int);
            } else {
                assert(l.last() == ' ');
            }
        }
        lemma_lines_back(ls);
        lemma_rows_listed(v);
    }
}

/// The sum of a list of numbers.
pub open spec fn sum(v: Seq<u64>) -> nat
    decreases v.len(),
{
    if v.len() == 0 {
        0
    } else {
        sum(v.drop_last()) + v.last() as nat
    }
}

pub open spec fn capped(n: nat) -> u64 {
    if n <= u64::MAX {
        n as u64
    } else {
        u64::MAX
    }
}

/// The space that files take on disk, from the number of blocks of each.
pub fn dir_size_bytes(blocks: &Vec<u64>) -> (r: u64)
    ensures
        r == capped(512 * sum(blocks@)),
{
    let mut total: u64 = 0;
    let mut i: usize = 0;
    assert(blocks@.take(0) =~= seq![]);
    while i < blocks.len()
        invariant
            i <= blocks@.len(),
            total == capped(512 * sum(blocks@.take(i as int))),
        decreases blocks@.len() - i,
    {
        proof {
            assert(blocks@.take(i + 1).drop_last() =~= blocks@.take(i as int));
        }
        let b: u64 = blocks[i];
        let bytes: u64 = if b <= u64::MAX / 512 {
            b * 512
        } else {
            u64::MAX
        };
        total = total.saturating_add(bytes);
        i += 1;
    }
    assert(blocks@.take(i as int) =~= blocks@);
    total
}

} // verus!
