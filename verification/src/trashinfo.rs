//! The `.trashinfo` file that stands beside each trashed item.

use crate::dates::{date_char, date_text, date_value, dated, format_date, leap, local_now, parse_date, resolve, shown_at, Moment};
use crate::path::same_path;
use crate::percent::{decode, decoded_text, encode, encoded, is_safe, law_decode_encoded, lemma_encoded_chars, Alphabet};
use crate::seqs::{find_from, lemma_find_from_is, position, same_run, to_vec};
use crate::text::{chars_of, control, decimal, decimal_chars, is_control, is_digit, is_whitespace, law_decimal_read_back, lemma_decimal, lines, lines_of, opt_text, parse_u32, parse_unsigned, clean, lemma_lines_back, push_text, string_of, unlines, trim, trim_end, trim_start, trimmed, unsigned_value, views};
use vstd::prelude::*;
use vstd::slice::slice_subrange;

verus! {

/// What is recorded of a trashed item.
#[derive(Debug, Clone)]
pub struct TrashInfo {
    /// Where the item stood.
    pub original_path: Vec<u8>,
    pub deletion_date: Moment,
    /// The command that deleted it.
    pub command: Option<String>,
    /// The process that deleted it.
    pub pid: Option<u32>,
    /// Its size in bytes.
    pub size: Option<u64>,
    /// The hash of its contents, for a file.
    pub sha256: Option<String>,
    /// How its contents were compressed since.
    pub compressed: Option<String>,
}

/// A record as values.
#[verifier::ext_equal]
pub struct Record {
    pub original_path: Seq<u8>,
    pub deletion_date: Moment,
    pub command: Option<Seq<char>>,
    pub pid: Option<u32>,
    pub size: Option<u64>,
    pub sha256: Option<Seq<char>>,
    pub compressed: Option<Seq<char>>,
}

impl View for TrashInfo {
    type V = Record;

    open spec fn view(&self) -> Record {
        Record {
            original_path: self.original_path@,
            deletion_date: self.deletion_date,
            command: opt_text(self.command),
            pid: self.pid,
            size: self.size,
            sha256: opt_text(self.sha256),
            compressed: opt_text(self.compressed),
        }
    }
}

/// What a file says, before its date is placed in the local time zone.
#[derive(Debug)]
pub struct RawInfo {
    pub original_path: Vec<u8>,
    /// The second that a local clock showed, and its nanoseconds.
    pub wall: (i64, u32),
    pub command: Option<String>,
    pub pid: Option<u32>,
    pub size: Option<u64>,
    pub sha256: Option<String>,
    pub compressed: Option<String>,
}

/// A text without control characters.
pub open spec fn stripped_text(s: Seq<char>) -> Seq<char> {
    s.filter(|c: char| !is_control(c))
}

/// The line of a field.
pub open spec fn line_of(name: Seq<char>, value: Seq<char>) -> Seq<char> {
    name.push('=') + value
}

pub open spec fn opt_line(name: Seq<char>, value: Option<Seq<char>>) -> Seq<Seq<char>> {
    match value {
        Some(v) => seq![line_of(name, v)],
        None => seq![],
    }
}

pub open spec fn opt_number(n: Option<nat>) -> Option<Seq<char>> {
    match n {
        Some(v) => Some(decimal(v)),
        None => None,
    }
}

pub open spec fn opt_stripped(s: Option<Seq<char>>) -> Option<Seq<char>> {
    match s {
        Some(v) => Some(stripped_text(v)),
        None => None,
    }
}

pub open spec fn opt_u32(n: Option<u32>) -> Option<nat> {
    match n {
        Some(v) => Some(v as nat),
        None => None,
    }
}

pub open spec fn opt_u64(n: Option<u64>) -> Option<nat> {
    match n {
        Some(v) => Some(v as nat),
        None => None,
    }
}

pub open spec fn recorded_date(m: Moment) -> Seq<char> {
    date_text("%Y-%m-%dT%H:%M:%S"@, m.wall(), m.nanos as int)
}

/// The lines of a record's file.
pub open spec fn record_lines(r: Record) -> Seq<Seq<char>> {
    seq![
        "[Trash Info]"@,
        line_of("Path"@, encoded(Alphabet::Path, r.original_path)),
        line_of("DeletionDate"@, recorded_date(r.deletion_date)),
    ] + opt_line("X-Trashd-Command"@, opt_stripped(r.command)) + opt_line(
        "X-Trashd-PID"@,
        opt_number(opt_u32(r.pid)),
    ) + opt_line("X-Trashd-Size"@, opt_number(opt_u64(r.size))) + opt_line(
        "X-Trashd-Hash"@,
        r.sha256,
    ) + opt_line("X-Trashd-Compressed"@, r.compressed)
}

/// The text of a record's file.
pub open spec fn written(r: Record) -> Seq<char> {
    unlines(record_lines(r))
}

/// A line's name and value, on the two sides of its first equals sign.
pub open spec fn field(line: Seq<char>) -> Option<(Seq<char>, Seq<char>)> {
    let l = trim(line);
    let e = find_from(l, '=', 0);
    if 0 <= e < l.len() {
        Some((trim(l.take(e)), trim(l.skip(e + 1))))
    } else {
        None
    }
}

/// The values of the fields with one of two names, in their order.
pub open spec fn values(ls: Seq<Seq<char>>, name: Seq<char>, alt: Seq<char>) -> Seq<Seq<char>>
    decreases ls.len(),
{
    if ls.len() == 0 {
        seq![]
    } else {
        let v = values(ls.drop_last(), name, alt);
        match field(ls.last()) {
            Some((n, x)) => if n == name || n == alt {
                v.push(x)
            } else {
                v
            },
            None => v,
        }
    }
}

/// The first of the values that is a number of at most `max`.
pub open spec fn first_number(vals: Seq<Seq<char>>, max: nat) -> Option<nat>
    decreases vals.len(),
{
    if vals.len() == 0 {
        None
    } else {
        match first_number(vals.drop_last(), max) {
            Some(n) => Some(n),
            None => unsigned_value(vals.last(), max),
        }
    }
}

/// The last of the values that is a date.
pub open spec fn last_date(vals: Seq<Seq<char>>) -> Option<(int, int)>
    decreases vals.len(),
{
    if vals.len() == 0 {
        None
    } else {
        match date_value(vals.last()) {
            Some(d) => Some(d),
            None => last_date(vals.drop_last()),
        }
    }
}

pub open spec fn first_text(vals: Seq<Seq<char>>) -> Option<Seq<char>> {
    if vals.len() == 0 {
        None
    } else {
        Some(vals[0])
    }
}

/// A text with `..` between two separators or at an end.
pub open spec fn climbs_up(t: Seq<char>) -> bool {
    exists|i: int| climbs_at(t, i)
}

pub open spec fn climbs_at(t: Seq<char>, i: int) -> bool {
    &&& 0 <= i
    &&& i + 2 <= t.len()
    &&& t[i] == '.'
    &&& t[i + 1] == '.'
    &&& i == 0 || t[i - 1] == '/'
    &&& i + 2 == t.len() || t[i + 2] == '/'
}

/// The path that a file URL with this text as its path names, if it names one.
pub uninterp spec fn url_path(t: Seq<char>) -> Option<Seq<u8>>;

/// `url::Url::parse` and `url::Url::to_file_path` read a text as the path of a file URL.
/// The path takes its escapes for bytes, and loses `.` components and doubled separators
/// at its start; one that ends in a letter and `:` or `|` gets a separator behind it. So
/// an absolute path that was percent-encoded is read back as the same path, component by
/// component. What becomes of other texts is left to the name `url_path`.
#[verifier::external_body]
pub(crate) fn file_url_path(t: &str) -> (r: Option<Vec<u8>>)
    ensures
        match r {
            Some(p) => url_path(t@) == Some(p@),
            None => url_path(t@) is None,
        },
        forall|b: Seq<u8>|
            t@ == #[trigger] encoded(Alphabet::Path, b) && t@.len() > 0 && t@[0] == '/'
                && !climbs_up(t@) ==> (r matches Some(p) ==> same_path(p@, b)),
{
    let path = url::Url::parse(&format!("file://{t}")).ok()?.to_file_path().ok()?;
    Some(path.as_os_str().as_encoded_bytes().to_vec())
}

/// The path that a `Path` field names. Only an absolute path that does not climb is read
/// as a URL; in any other the escapes alone are taken for bytes.
pub open spec fn decoded_path(t: Seq<char>) -> Seq<u8> {
    if t.len() > 0 && t[0] == '/' && !climbs_up(t) {
        match url_path(t) {
            Some(p) => p,
            None => decoded_text(t),
        }
    } else {
        decoded_text(t)
    }
}

fn has_dotdot(t: &[char]) -> (r: bool)
    ensures
        r == climbs_up(t@),
{
    let n: usize = t.len();
    let mut i: usize = 0;
    while i < n
        invariant
            n == t@.len(),
            i <= n,
            forall|k: int| 0 <= k < i ==> !climbs_at(t@, k),
        decreases n - i,
    {
        if n - i >= 2 && t[i] == '.' && t[i + 1] == '.' && (i == 0 || t[i - 1] == '/') && (n - i == 2
            || t[i + 2] == '/') {
            assert(climbs_at(t@, i as int));
            return true;
        }
        i += 1;
    }
    false
}

/// A path as the text of a `Path` field.
pub fn encode_path(path: &[u8]) -> (r: String)
    ensures
        r@ == encoded(Alphabet::Path, path@),
{
    encode(Alphabet::Path, path)
}

/// The path that the text of a `Path` field names. An encoded path is read back as the
/// same path.
pub fn decode_path(t: &str) -> (r: Vec<u8>)
    ensures
        r@ == decoded_path(t@),
        forall|b: Seq<u8>| t@ == #[trigger] encoded(Alphabet::Path, b) ==> same_path(r@, b),
{
    proof {
        assert forall|b: Seq<u8>| t@ == #[trigger] encoded(Alphabet::Path, b) implies decoded_text(
            t@,
        ) == b by {
            law_decode_encoded(Alphabet::Path, b);
        }
    }
    let c = chars_of(t);
    if c.len() > 0 && c[0] == '/' && !has_dotdot(c.as_slice()) {
        match file_url_path(t) {
            Some(p) => p,
            None => decode(t),
        }
    } else {
        decode(t)
    }
}

/// A text without white space at its ends and without control characters.
pub open spec fn tidy(s: Seq<char>) -> bool {
    trim(s) == s && stripped_text(s) == s
}

/// The text of a date can be told from the rest of a line, and says the date.
pub open spec fn legible_date(m: Moment) -> bool {
    let t = recorded_date(m);
    &&& forall|i: int| 0 <= i < t.len() ==> date_char(#[trigger] t[i])
    &&& date_value(t) == Some((m.wall(), leap(m.nanos as int)))
}

/// A record whose texts can be read back.
pub open spec fn storable(r: Record) -> bool {
    &&& r.command matches Some(c) ==> trim(stripped_text(c)) == stripped_text(c)
    &&& r.sha256 matches Some(h) ==> tidy(h)
    &&& r.compressed matches Some(c) ==> tidy(c)
}

/// What a file says.
#[verifier::ext_equal]
pub struct Reading {
    pub original_path: Option<Seq<char>>,
    pub wall: Option<(int, int)>,
    pub command: Option<Seq<char>>,
    pub pid: Option<nat>,
    pub size: Option<nat>,
    pub sha256: Option<Seq<char>>,
    pub compressed: Option<Seq<char>>,
}

/// What the lines of a file say. The last path and the last date count, and of the other
/// fields the first that can be read.
pub open spec fn reading(ls: Seq<Seq<char>>) -> Reading {
    let paths = values(ls, "Path"@, "Path"@);
    Reading {
        original_path: if paths.len() == 0 {
            None
        } else {
            Some(paths.last())
        },
        wall: last_date(values(ls, "DeletionDate"@, "DeletionDate"@)),
        command: opt_stripped(
            first_text(values(ls, "X-Trashd-Command"@, "X-Trashd-Command"@)),
        ),
        pid: first_number(values(ls, "X-Trashd-PID"@, "X-Trashd-PID"@), u32::MAX as nat),
        size: first_number(values(ls, "X-Trashd-Size"@, "X-Trashd-Size"@), u64::MAX as nat),
        sha256: first_text(values(ls, "X-Trashd-Hash"@, "X-Trashd-SHA256"@)),
        compressed: first_text(values(ls, "X-Trashd-Compressed"@, "X-Trashd-Compressed"@)),
    }
}

/// A text that keeps what it holds when it is trimmed.
proof fn lemma_trimmed(s: Seq<char>)
    requires
        s.len() == 0 || (!is_whitespace(s[0]) && !is_whitespace(s.last())),
    ensures
        trim(s) == s,
{
    reveal_with_fuel(trim_start, 1);
    reveal_with_fuel(trim_end, 1);
}

proof fn lemma_trim_ends(s: Seq<char>)
    ensures
        trim(s).len() > 0 ==> !is_whitespace(trim(s)[0]) && !is_whitespace(trim(s).last()),
    decreases s.len(),
{
    lemma_trim_start_first(s);
    lemma_trim_end_last(trim_start(s));
}

proof fn lemma_trim_start_first(s: Seq<char>)
    ensures
        trim_start(s).len() > 0 ==> !is_whitespace(trim_start(s)[0]),
    decreases s.len(),
{
    if s.len() > 0 && is_whitespace(s[0]) {
        lemma_trim_start_first(s.drop_first());
    }
}

proof fn lemma_trim_end_last(s: Seq<char>)
    ensures
        trim_end(s).is_prefix_of(s),
        trim_end(s).len() > 0 ==> !is_whitespace(trim_end(s).last()),
    decreases s.len(),
{
    if s.len() > 0 && is_whitespace(s.last()) {
        lemma_trim_end_last(s.drop_last());
    } else {
        assert(s.take(s.len() as int) =~= s);
    }
}

/// The field of a line that was made of a name and a value.
proof fn lemma_field(name: Seq<char>, v: Seq<char>)
    requires
        name.len() > 0,
        forall|i: int| 0 <= i < name.len() ==> name[i] != '=' && !is_whitespace(#[trigger] name[i]),
        trim(v) == v,
    ensures
        field(line_of(name, v)) == Some((name, v)),
{
    let l = line_of(name, v);
    lemma_trim_ends(v);
    assert(l[0] == name[0]);
    if v.len() == 0 {
        assert(l.last() == '=');
    } else {
        assert(l.last() == v.last());
    }
    lemma_trimmed(l);
    assert forall|k: int| 0 <= k < name.len() implies l[k] != '=' by {
        assert(l[k] == name[k]);
    }
    lemma_find_from_is(l, '=', 0, name.len() as int);
    assert(l.take(name.len() as int) =~= name);
    assert(l.skip(name.len() as int + 1) =~= v);
    lemma_trimmed(name);
}

proof fn lemma_values_concat(a: Seq<Seq<char>>, b: Seq<Seq<char>>, n: Seq<char>, alt: Seq<char>)
    ensures
        values(a + b, n, alt) == values(a, n, alt) + values(b, n, alt),
    decreases b.len(),
{
    if b.len() == 0 {
        assert(a + b =~= a);
        assert(values(a, n, alt) + values(b, n, alt) =~= values(a, n, alt));
    } else {
        lemma_values_concat(a, b.drop_last(), n, alt);
        assert((a + b).drop_last() =~= a + b.drop_last());
        assert((a + b).last() == b.last());
        assert(values(a + b, n, alt) =~= values(a, n, alt) + values(b, n, alt));
    }
}

/// The values that an optional line gives.
proof fn lemma_values_opt(
    name: Seq<char>,
    v: Option<Seq<char>>,
    n: Seq<char>,
    alt: Seq<char>,
)
    requires
        is_field_name(name),
        v matches Some(x) ==> trim(x) == x,
    ensures
        values(opt_line(name, v), n, alt) == (match v {
            Some(x) => if name == n || name == alt {
                seq![x]
            } else {
                seq![]
            },
            None => seq![],
        }),
{
    let ls = opt_line(name, v);
    reveal_with_fuel(values, 2);
    match v {
        Some(x) => {
            lemma_field(name, x);
            assert(ls.drop_last() =~= seq![]);
            assert(ls.last() == line_of(name, x));
            assert(values(ls, n, alt) =~= if name == n || name == alt {
                seq![x]
            } else {
                seq![]
            });
        },
        None => {
            assert(values(ls, n, alt) =~= seq![]);
        },
    }
}

spec fn is_field_name(name: Seq<char>) -> bool {
    name.len() > 0 && forall|i: int|
        0 <= i < name.len() ==> name[i] != '=' && !is_whitespace(#[trigger] name[i])
}

proof fn lemma_names()
    ensures
        is_field_name("Path"@),
        is_field_name("DeletionDate"@),
        is_field_name("X-Trashd-Command"@),
        is_field_name("X-Trashd-PID"@),
        is_field_name("X-Trashd-Size"@),
        is_field_name("X-Trashd-Hash"@),
        is_field_name("X-Trashd-Compressed"@),
        "Path"@.len() == 4,
        "DeletionDate"@.len() == 12,
        "X-Trashd-Command"@.len() == 16,
        "X-Trashd-PID"@.len() == 12,
        "X-Trashd-Size"@.len() == 13,
        "X-Trashd-Hash"@.len() == 13,
        "X-Trashd-SHA256"@.len() == 15,
        "X-Trashd-Compressed"@.len() == 19,
        "DeletionDate"@[0] == 'D',
        "X-Trashd-PID"@[0] == 'X',
        "X-Trashd-Size"@[9] == 'S',
        "X-Trashd-Hash"@[9] == 'H',
        clean("[Trash Info]"@),
        field("[Trash Info]"@) is None,
{
    reveal_strlit("Path");
    reveal_strlit("DeletionDate");
    reveal_strlit("X-Trashd-Command");
    reveal_strlit("X-Trashd-PID");
    reveal_strlit("X-Trashd-Size");
    reveal_strlit("X-Trashd-Hash");
    reveal_strlit("X-Trashd-SHA256");
    reveal_strlit("X-Trashd-Compressed");
    reveal_strlit("[Trash Info]");
    let h = "[Trash Info]"@;
    lemma_trimmed(h);
    lemma_find_from_is(h, '=', 0, h.len() as int);
}

/// A value that a line keeps whole.
spec fn keeps(v: Option<Seq<char>>) -> bool {
    v matches Some(x) ==> trim(x) == x && forall|i: int|
        0 <= i < x.len() ==> #[trigger] x[i] != '\n'
}

proof fn lemma_clean_line(name: Seq<char>, x: Seq<char>)
    requires
        is_field_name(name),
        keeps(Some(x)),
    ensures
        clean(line_of(name, x)),
{
    let l = line_of(name, x);
    lemma_trim_ends(x);
    assert forall|i: int| 0 <= i < l.len() implies #[trigger] l[i] != '\n' by {
        if i < name.len() {
            assert(l[i] == name[i]);
        } else if i > name.len() {
            assert(l[i] == x[i - name.len() - 1]);
        }
    }
    if x.len() > 0 {
        assert(l.last() == x.last());
    }
}

proof fn lemma_stripped_keeps(c: Seq<char>)
    requires
        trim(stripped_text(c)) == stripped_text(c),
    ensures
        keeps(Some(stripped_text(c))),
{
    let s = stripped_text(c);
    assert forall|i: int| 0 <= i < s.len() implies #[trigger] s[i] != '\n' by {
        c.lemma_filter_pred(|c: char| !is_control(c), i);
    }
}

proof fn lemma_decimal_keeps(n: nat)
    ensures
        keeps(Some(decimal(n))),
{
    lemma_decimal(n);
    let d = decimal(n);
    assert(is_digit(d[0]));
    assert(is_digit(d[d.len() - 1]));
    lemma_trimmed(d);
    assert forall|i: int| 0 <= i < d.len() implies #[trigger] d[i] != '\n' by {
        assert(is_digit(d[i]));
    }
}

/// The three lines that every record has.
spec fn head_lines(r: Record) -> Seq<Seq<char>> {
    seq!["[Trash Info]"@] + opt_line("Path"@, Some(encoded(Alphabet::Path, r.original_path)))
        + opt_line("DeletionDate"@, Some(recorded_date(r.deletion_date)))
}

proof fn lemma_record_lines(r: Record)
    ensures
        record_lines(r) == head_lines(r) + opt_line(
            "X-Trashd-Command"@,
            opt_stripped(r.command),
        ) + opt_line("X-Trashd-PID"@, opt_number(opt_u32(r.pid))) + opt_line(
            "X-Trashd-Size"@,
            opt_number(opt_u64(r.size)),
        ) + opt_line("X-Trashd-Hash"@, r.sha256) + opt_line("X-Trashd-Compressed"@, r.compressed),
{
    assert(head_lines(r) =~= seq![
        "[Trash Info]"@,
        line_of("Path"@, encoded(Alphabet::Path, r.original_path)),
        line_of("DeletionDate"@, recorded_date(r.deletion_date)),
    ]);
}

proof fn lemma_path_keeps(b: Seq<u8>)
    ensures
        keeps(Some(encoded(Alphabet::Path, b))),
{
    let e = encoded(Alphabet::Path, b);
    lemma_encoded_chars(Alphabet::Path, b);
    assert forall|i: int| 0 <= i < e.len() implies #[trigger] e[i] != '\n' && !is_whitespace(
        e[i],
    ) by {
        assert('\0' <= e[i] <= '\u{7f}');
        assert(is_safe(Alphabet::Path, e[i] as u8) || e[i] == '%');
        assert((e[i] as u8) as int == e[i] as int);
    }
    lemma_trimmed(e);
}

proof fn lemma_date_keeps(m: Moment)
    requires
        legible_date(m),
    ensures
        keeps(Some(recorded_date(m))),
{
    let t = recorded_date(m);
    assert forall|i: int| 0 <= i < t.len() implies #[trigger] t[i] != '\n' && !is_whitespace(
        t[i],
    ) by {
        assert(date_char(t[i]));
    }
    lemma_trimmed(t);
}

proof fn lemma_tidy_keeps(v: Option<Seq<char>>)
    requires
        v matches Some(x) ==> tidy(x),
    ensures
        keeps(v),
{
    if let Some(x) = v {
        lemma_stripped_keeps(x);
    }
}

proof fn lemma_opt_clean(name: Seq<char>, v: Option<Seq<char>>)
    requires
        is_field_name(name),
        keeps(v),
    ensures
        forall|i: int| 0 <= i < opt_line(name, v).len() ==> clean(#[trigger] opt_line(name, v)[i]),
{
    if let Some(x) = v {
        lemma_clean_line(name, x);
    }
}

spec fn all_clean(ls: Seq<Seq<char>>) -> bool {
    forall|i: int| 0 <= i < ls.len() ==> clean(#[trigger] ls[i])
}

proof fn lemma_all_clean(a: Seq<Seq<char>>, b: Seq<Seq<char>>)
    requires
        all_clean(a),
        all_clean(b),
    ensures
        all_clean(a + b),
{
    assert forall|i: int| 0 <= i < (a + b).len() implies clean(#[trigger] (a + b)[i]) by {
        if i < a.len() {
            assert((a + b)[i] == a[i]);
        } else {
            assert((a + b)[i] == b[i - a.len()]);
        }
    }
}

/// The values of one name among the lines of a record.
proof fn lemma_record_values(r: Record, n: Seq<char>, alt: Seq<char>)
    requires
        storable(r),
        legible_date(r.deletion_date),
    ensures
        values(record_lines(r), n, alt) == pick("Path"@, Some(encoded(Alphabet::Path, r.original_path)), n, alt)
            + pick("DeletionDate"@, Some(recorded_date(r.deletion_date)), n, alt)
            + pick("X-Trashd-Command"@, opt_stripped(r.command), n, alt)
            + pick("X-Trashd-PID"@, opt_number(opt_u32(r.pid)), n, alt)
            + pick("X-Trashd-Size"@, opt_number(opt_u64(r.size)), n, alt)
            + pick("X-Trashd-Hash"@, r.sha256, n, alt)
            + pick("X-Trashd-Compressed"@, r.compressed, n, alt),
{
    lemma_names();
    lemma_record_lines(r);
    lemma_keeps_all(r);
    let h = seq!["[Trash Info]"@];
    let p = opt_line("Path"@, Some(encoded(Alphabet::Path, r.original_path)));
    let d = opt_line("DeletionDate"@, Some(recorded_date(r.deletion_date)));
    let c = opt_line("X-Trashd-Command"@, opt_stripped(r.command));
    let i = opt_line("X-Trashd-PID"@, opt_number(opt_u32(r.pid)));
    let s = opt_line("X-Trashd-Size"@, opt_number(opt_u64(r.size)));
    let x = opt_line("X-Trashd-Hash"@, r.sha256);
    let z = opt_line("X-Trashd-Compressed"@, r.compressed);
    assert(values(h, n, alt) =~= seq![]) by {
        reveal_with_fuel(values, 2);
        assert(h.drop_last() =~= seq![]);
        assert(h.last() == "[Trash Info]"@);
    }
    lemma_values_concat(h, p, n, alt);
    lemma_values_concat(h + p, d, n, alt);
    lemma_values_concat(h + p + d, c, n, alt);
    lemma_values_concat(h + p + d + c, i, n, alt);
    lemma_values_concat(h + p + d + c + i, s, n, alt);
    lemma_values_concat(h + p + d + c + i + s, x, n, alt);
    lemma_values_concat(h + p + d + c + i + s + x, z, n, alt);
    lemma_values_opt("Path"@, Some(encoded(Alphabet::Path, r.original_path)), n, alt);
    lemma_values_opt("DeletionDate"@, Some(recorded_date(r.deletion_date)), n, alt);
    lemma_values_opt("X-Trashd-Command"@, opt_stripped(r.command), n, alt);
    lemma_values_opt("X-Trashd-PID"@, opt_number(opt_u32(r.pid)), n, alt);
    lemma_values_opt("X-Trashd-Size"@, opt_number(opt_u64(r.size)), n, alt);
    lemma_values_opt("X-Trashd-Hash"@, r.sha256, n, alt);
    lemma_values_opt("X-Trashd-Compressed"@, r.compressed, n, alt);
    assert(values(h, n, alt) + values(p, n, alt) =~= values(p, n, alt));
}

/// The value, if it is there and has one of the names.
pub open spec fn pick(name: Seq<char>, v: Option<Seq<char>>, n: Seq<char>, alt: Seq<char>) -> Seq<
    Seq<char>,
> {
    match v {
        Some(x) => if name == n || name == alt {
            seq![x]
        } else {
            seq![]
        },
        None => seq![],
    }
}

proof fn lemma_keeps_all(r: Record)
    requires
        storable(r),
        legible_date(r.deletion_date),
    ensures
        keeps(Some(encoded(Alphabet::Path, r.original_path))),
        keeps(Some(recorded_date(r.deletion_date))),
        keeps(opt_stripped(r.command)),
        keeps(opt_number(opt_u32(r.pid))),
        keeps(opt_number(opt_u64(r.size))),
        keeps(r.sha256),
        keeps(r.compressed),
{
    lemma_path_keeps(r.original_path);
    lemma_date_keeps(r.deletion_date);
    if let Some(c) = r.command {
        lemma_stripped_keeps(c);
    }
    if let Some(n) = r.pid {
        lemma_decimal_keeps(n as nat);
    }
    if let Some(n) = r.size {
        lemma_decimal_keeps(n as nat);
    }
    lemma_tidy_keeps(r.sha256);
    lemma_tidy_keeps(r.compressed);
}

proof fn lemma_written_lines(r: Record)
    requires
        storable(r),
        legible_date(r.deletion_date),
    ensures
        lines(written(r)) == record_lines(r),
{
    lemma_names();
    lemma_record_lines(r);
    lemma_keeps_all(r);
    let h = seq!["[Trash Info]"@];
    let p = opt_line("Path"@, Some(encoded(Alphabet::Path, r.original_path)));
    let d = opt_line("DeletionDate"@, Some(recorded_date(r.deletion_date)));
    let c = opt_line("X-Trashd-Command"@, opt_stripped(r.command));
    let i = opt_line("X-Trashd-PID"@, opt_number(opt_u32(r.pid)));
    let s = opt_line("X-Trashd-Size"@, opt_number(opt_u64(r.size)));
    let x = opt_line("X-Trashd-Hash"@, r.sha256);
    let z = opt_line("X-Trashd-Compressed"@, r.compressed);
    lemma_opt_clean("Path"@, Some(encoded(Alphabet::Path, r.original_path)));
    lemma_opt_clean("DeletionDate"@, Some(recorded_date(r.deletion_date)));
    lemma_opt_clean("X-Trashd-Command"@, opt_stripped(r.command));
    lemma_opt_clean("X-Trashd-PID"@, opt_number(opt_u32(r.pid)));
    lemma_opt_clean("X-Trashd-Size"@, opt_number(opt_u64(r.size)));
    lemma_opt_clean("X-Trashd-Hash"@, r.sha256);
    lemma_opt_clean("X-Trashd-Compressed"@, r.compressed);
    lemma_all_clean(h, p);
    lemma_all_clean(h + p, d);
    lemma_all_clean(h + p + d, c);
    lemma_all_clean(h + p + d + c, i);
    lemma_all_clean(h + p + d + c + i, s);
    lemma_all_clean(h + p + d + c + i + s, x);
    lemma_all_clean(h + p + d + c + i + s + x, z);
    lemma_lines_back(record_lines(r));
}

/// What is read of the text of a record is what the record holds: the path in its encoded
/// form, the date that the clock showed, the command without control characters, and all
/// other fields as they are.
pub proof fn law_read_back(r: Record)
    requires
        storable(r),
        legible_date(r.deletion_date),
    ensures
        reading(lines(written(r))) == (Reading {
            original_path: Some(encoded(Alphabet::Path, r.original_path)),
            wall: Some((r.deletion_date.wall(), leap(r.deletion_date.nanos as int))),
            command: opt_stripped(r.command),
            pid: opt_u32(r.pid),
            size: opt_u64(r.size),
            sha256: r.sha256,
            compressed: r.compressed,
        }),
{
    lemma_names();
    lemma_written_lines(r);
    lemma_record_values(r, "Path"@, "Path"@);
    lemma_record_values(r, "DeletionDate"@, "DeletionDate"@);
    lemma_record_values(r, "X-Trashd-Command"@, "X-Trashd-Command"@);
    lemma_record_values(r, "X-Trashd-PID"@, "X-Trashd-PID"@);
    lemma_record_values(r, "X-Trashd-Size"@, "X-Trashd-Size"@);
    lemma_record_values(r, "X-Trashd-Hash"@, "X-Trashd-SHA256"@);
    lemma_record_values(r, "X-Trashd-Compressed"@, "X-Trashd-Compressed"@);
    let ls = record_lines(r);
    let e = encoded(Alphabet::Path, r.original_path);
    let d = recorded_date(r.deletion_date);
    assert(values(ls, "Path"@, "Path"@) =~= seq![e]);
    assert(values(ls, "DeletionDate"@, "DeletionDate"@) =~= seq![d]);
    reveal_with_fuel(last_date, 2);
    reveal_with_fuel(first_number, 2);
    assert(seq![d].last() == d);
    match r.command {
        Some(c) => {
            assert(values(ls, "X-Trashd-Command"@, "X-Trashd-Command"@) =~= seq![stripped_text(c)]);
            lemma_strip_twice(c);
        },
        None => {
            assert(values(ls, "X-Trashd-Command"@, "X-Trashd-Command"@) =~= seq![]);
        },
    }
    match r.pid {
        Some(n) => {
            law_decimal_read_back(n as nat, u32::MAX as nat);
            let v = values(ls, "X-Trashd-PID"@, "X-Trashd-PID"@);
            assert(v =~= seq![decimal(n as nat)]);
            assert(v.drop_last() =~= seq![]);
        },
        None => {
            assert(values(ls, "X-Trashd-PID"@, "X-Trashd-PID"@) =~= seq![]);
        },
    }
    match r.size {
        Some(n) => {
            law_decimal_read_back(n as nat, u64::MAX as nat);
            let v = values(ls, "X-Trashd-Size"@, "X-Trashd-Size"@);
            assert(v =~= seq![decimal(n as nat)]);
            assert(v.drop_last() =~= seq![]);
        },
        None => {
            assert(values(ls, "X-Trashd-Size"@, "X-Trashd-Size"@) =~= seq![]);
        },
    }
    match r.sha256 {
        Some(h) => {
            assert(values(ls, "X-Trashd-Hash"@, "X-Trashd-SHA256"@) =~= seq![h]);
        },
        None => {
            assert(values(ls, "X-Trashd-Hash"@, "X-Trashd-SHA256"@) =~= seq![]);
        },
    }
    match r.compressed {
        Some(c) => {
            assert(values(ls, "X-Trashd-Compressed"@, "X-Trashd-Compressed"@) =~= seq![c]);
        },
        None => {
            assert(values(ls, "X-Trashd-Compressed"@, "X-Trashd-Compressed"@) =~= seq![]);
        },
    }
}

proof fn lemma_strip_twice(c: Seq<char>)
    ensures
        stripped_text(stripped_text(c)) == stripped_text(c),
    decreases c.len(),
{
    reveal(Seq::filter);
    if c.len() > 0 {
        let rest = c.drop_last();
        lemma_strip_twice(rest);
        if !is_control(c.last()) {
            let s = stripped_text(rest);
            assert(stripped_text(c) == s.push(c.last()));
            assert(s.push(c.last()).drop_last() =~= s);
        }
    }
}

/// The reading and what becomes of it agree, but for the path, which is decoded.
pub open spec fn holds(info: RawInfo, g: Reading) -> bool {
    &&& g.original_path matches Some(p) && info.original_path@ == decoded_path(p)
    &&& g.wall == Some((info.wall.0 as int, info.wall.1 as int))
    &&& opt_text(info.command) == g.command
    &&& opt_u32(info.pid) == g.pid
    &&& opt_u64(info.size) == g.size
    &&& opt_text(info.sha256) == g.sha256
    &&& opt_text(info.compressed) == g.compressed
}

/// The record of a reading, with its date at a moment.
pub open spec fn placed(info: RawInfo, m: Moment) -> Record {
    Record {
        original_path: info.original_path@,
        deletion_date: m,
        command: opt_text(info.command),
        pid: info.pid,
        size: info.size,
        sha256: opt_text(info.sha256),
        compressed: opt_text(info.compressed),
    }
}

impl RawInfo {
    /// The record, with its date at the moment that it was taken for.
    pub fn place(self, m: Moment) -> (r: TrashInfo)
        ensures
            r@ == placed(self, m),
    {
        TrashInfo {
            original_path: self.original_path,
            deletion_date: m,
            command: self.command,
            pid: self.pid,
            size: self.size,
            sha256: self.sha256,
            compressed: self.compressed,
        }
    }
}

/// A text without control characters.
pub fn strip_control(s: &[char]) -> (r: String)
    ensures
        r@ == stripped_text(s@),
{
    let mut r: String = String::new();
    let mut i: usize = 0;
    proof {
        reveal(Seq::filter);
        assert(s@.take(0) =~= seq![]);
    }
    while i < s.len()
        invariant
            i <= s@.len(),
            r@ == stripped_text(s@.take(i as int)),
        decreases s@.len() - i,
    {
        proof {
            reveal(Seq::filter);
            assert(s@.take(i + 1).drop_last() =~= s@.take(i as int));
        }
        if !control(s[i]) {
            r.push(s[i]);
        }
        i += 1;
    }
    assert(s@.take(i as int) =~= s@);
    r
}

fn push_line(out: &mut String, name: &str, value: &str, Ghost(ls): Ghost<Seq<Seq<char>>>)
    requires
        old(out)@ == unlines(ls),
    ensures
        final(out)@ == unlines(ls.push(line_of(name@, value@))),
{
    proof {
        assert(ls.push(line_of(name@, value@)).drop_last() =~= ls);
    }
    push_text(out, name);
    out.push('=');
    push_text(out, value);
    out.push('\n');
    assert(out@ =~= unlines(ls) + line_of(name@, value@).push('\n'));
}

fn number_text(n: u64) -> (r: String)
    ensures
        r@ == decimal(n as nat),
{
    let c = decimal_chars(n);
    string_of(c.as_slice())
}

impl TrashInfo {
    /// What is recorded of an item that is trashed at a moment.
    pub fn at(original_path: Vec<u8>, moment: Moment) -> (r: Self)
        ensures
            r@ == (Record {
                original_path: original_path@,
                deletion_date: moment,
                command: None,
                pid: None,
                size: None,
                sha256: None,
                compressed: None,
            }),
    {
        TrashInfo {
            original_path,
            deletion_date: moment,
            command: None,
            pid: None,
            size: None,
            sha256: None,
            compressed: None,
        }
    }

    /// What is recorded of an item that is trashed now.
    pub fn new(original_path: Vec<u8>) -> (r: Self)
        ensures
            call_ensures(local_now, (), r.deletion_date),
            r.deletion_date.valid(),
            r@ == (Record {
                original_path: original_path@,
                deletion_date: r.deletion_date,
                command: None,
                pid: None,
                size: None,
                sha256: None,
                compressed: None,
            }),
    {
        TrashInfo::at(original_path, Moment::now())
    }

    /// The text of the record's file. Its date can be read back to the second.
    pub fn to_trashinfo_string(&self) -> (r: String)
        requires
            self.deletion_date.valid(),
        ensures
            r@ == written(self@),
            legible_date(self.deletion_date),
    {
        let date = format_date(
            self.deletion_date.secs + self.deletion_date.offset as i64,
            self.deletion_date.nanos,
            "%Y-%m-%dT%H:%M:%S",
        );
        let path = encode_path(self.original_path.as_slice());
        let mut s: String = "[Trash Info]\n".to_owned();
        let ghost mut ls = seq!["[Trash Info]"@];
        proof {
            reveal_with_fuel(unlines, 2);
            reveal_strlit("[Trash Info]\n");
            reveal_strlit("[Trash Info]");
            assert(ls.drop_last() =~= seq![]);
            assert(s@ =~= unlines(ls));
        }
        push_line(&mut s, "Path", path.as_str(), Ghost(ls));
        proof {
            ls = ls.push(line_of("Path"@, path@));
        }
        push_line(&mut s, "DeletionDate", date.as_str(), Ghost(ls));
        proof {
            ls = ls.push(line_of("DeletionDate"@, date@));
            assert(ls =~= head_lines(self@));
            lemma_record_lines(self@);
        }
        if let Some(c) = &self.command {
            let chars = chars_of(c.as_str());
            let v = strip_control(chars.as_slice());
            push_line(&mut s, "X-Trashd-Command", v.as_str(), Ghost(ls));
        }
        proof {
            let more = opt_line("X-Trashd-Command"@, opt_stripped(self@.command));
            assert(more.len() == 1 ==> ls.push(more[0]) =~= ls + more);
            assert(more.len() == 0 ==> ls =~= ls + more);
            ls = ls + more;
        }
        if let Some(n) = self.pid {
            let v = number_text(n as u64);
            push_line(&mut s, "X-Trashd-PID", v.as_str(), Ghost(ls));
        }
        proof {
            let more = opt_line("X-Trashd-PID"@, opt_number(opt_u32(self@.pid)));
            assert(more.len() == 1 ==> ls.push(more[0]) =~= ls + more);
            assert(more.len() == 0 ==> ls =~= ls + more);
            ls = ls + more;
        }
        if let Some(n) = self.size {
            let v = number_text(n);
            push_line(&mut s, "X-Trashd-Size", v.as_str(), Ghost(ls));
        }
        proof {
            let more = opt_line("X-Trashd-Size"@, opt_number(opt_u64(self@.size)));
            assert(more.len() == 1 ==> ls.push(more[0]) =~= ls + more);
            assert(more.len() == 0 ==> ls =~= ls + more);
            ls = ls + more;
        }
        if let Some(h) = &self.sha256 {
            push_line(&mut s, "X-Trashd-Hash", h.as_str(), Ghost(ls));
        }
        proof {
            let more = opt_line("X-Trashd-Hash"@, self@.sha256);
            assert(more.len() == 1 ==> ls.push(more[0]) =~= ls + more);
            assert(more.len() == 0 ==> ls =~= ls + more);
            ls = ls + more;
        }
        if let Some(c) = &self.compressed {
            push_line(&mut s, "X-Trashd-Compressed", c.as_str(), Ghost(ls));
        }
        proof {
            let more = opt_line("X-Trashd-Compressed"@, self@.compressed);
            assert(more.len() == 1 ==> ls.push(more[0]) =~= ls + more);
            assert(more.len() == 0 ==> ls =~= ls + more);
        }
        s
    }
}

/// A line's name and value.
fn split_field(line: &[char]) -> (r: Option<(Vec<char>, Vec<char>)>)
    ensures
        match r {
            Some((n, v)) => field(line@) == Some((n@, v@)),
            None => field(line@) is None,
        },
{
    let l = trimmed(line);
    let e: usize = position(l, '=', 0);
    if e == l.len() {
        return None;
    }
    let name = trimmed(slice_subrange(l, 0, e));
    let value = trimmed(slice_subrange(l, e + 1, l.len()));
    proof {
        assert(l@.subrange(0, e as int) =~= l@.take(e as int));
        assert(l@.subrange(e + 1, l@.len() as int) =~= l@.skip(e + 1));
    }
    Some((to_vec(name), to_vec(value)))
}

fn is_named(key: &[char], name: &str) -> (r: bool)
    ensures
        r == (key@ == name@),
{
    let n = chars_of(name);
    same_run(key, n.as_slice())
}

proof fn lemma_values_push(pre: Seq<Seq<char>>, l: Seq<char>, n: Seq<char>, alt: Seq<char>)
    ensures
        values(pre.push(l), n, alt) == (match field(l) {
            Some((k, x)) => if k == n || k == alt {
                values(pre, n, alt).push(x)
            } else {
                values(pre, n, alt)
            },
            None => values(pre, n, alt),
        }),
{
    assert(pre.push(l).drop_last() =~= pre);
}

proof fn lemma_reading_push(pre: Seq<Seq<char>>, l: Seq<char>)
    ensures
        reading(pre.push(l)) == after(reading(pre), field(l)),
{
    lemma_distinct_names();
    lemma_values_push(pre, l, "Path"@, "Path"@);
    lemma_values_push(pre, l, "DeletionDate"@, "DeletionDate"@);
    lemma_values_push(pre, l, "X-Trashd-Command"@, "X-Trashd-Command"@);
    lemma_values_push(pre, l, "X-Trashd-PID"@, "X-Trashd-PID"@);
    lemma_values_push(pre, l, "X-Trashd-Size"@, "X-Trashd-Size"@);
    lemma_values_push(pre, l, "X-Trashd-Hash"@, "X-Trashd-SHA256"@);
    lemma_values_push(pre, l, "X-Trashd-Compressed"@, "X-Trashd-Compressed"@);
    if let Some((k, v)) = field(l) {
        lemma_push_ends(values(pre, "Path"@, "Path"@), v);
        lemma_push_ends(values(pre, "DeletionDate"@, "DeletionDate"@), v);
        lemma_push_ends(values(pre, "X-Trashd-Command"@, "X-Trashd-Command"@), v);
        lemma_push_ends(values(pre, "X-Trashd-PID"@, "X-Trashd-PID"@), v);
        lemma_push_ends(values(pre, "X-Trashd-Size"@, "X-Trashd-Size"@), v);
        lemma_push_ends(values(pre, "X-Trashd-Hash"@, "X-Trashd-SHA256"@), v);
        lemma_push_ends(values(pre, "X-Trashd-Compressed"@, "X-Trashd-Compressed"@), v);
    }
}

proof fn lemma_push_ends(vals: Seq<Seq<char>>, v: Seq<char>)
    ensures
        vals.push(v).drop_last() == vals,
        vals.push(v).last() == v,
        vals.len() > 0 ==> vals.push(v)[0] == vals[0],
        vals.len() == 0 ==> vals.push(v)[0] == v,
{
    assert(vals.push(v).drop_last() =~= vals);
}

/// What one more field adds to a reading.
spec fn after(g: Reading, f: Option<(Seq<char>, Seq<char>)>) -> Reading {
    match f {
        Some((k, v)) => Reading {
            original_path: if k == "Path"@ {
                Some(v)
            } else {
                g.original_path
            },
            wall: if k == "DeletionDate"@ && date_value(v) is Some {
                date_value(v)
            } else {
                g.wall
            },
            command: if k == "X-Trashd-Command"@ && g.command is None {
                Some(stripped_text(v))
            } else {
                g.command
            },
            pid: if k == "X-Trashd-PID"@ && g.pid is None {
                unsigned_value(v, u32::MAX as nat)
            } else {
                g.pid
            },
            size: if k == "X-Trashd-Size"@ && g.size is None {
                unsigned_value(v, u64::MAX as nat)
            } else {
                g.size
            },
            sha256: if (k == "X-Trashd-Hash"@ || k == "X-Trashd-SHA256"@) && g.sha256 is None {
                Some(v)
            } else {
                g.sha256
            },
            compressed: if k == "X-Trashd-Compressed"@ && g.compressed is None {
                Some(v)
            } else {
                g.compressed
            },
        },
        None => g,
    }
}

/// No two fields have one name.
proof fn lemma_distinct_names()
    ensures
        "Path"@ != "DeletionDate"@,
        "Path"@ != "X-Trashd-Command"@,
        "Path"@ != "X-Trashd-PID"@,
        "Path"@ != "X-Trashd-Size"@,
        "Path"@ != "X-Trashd-Hash"@,
        "Path"@ != "X-Trashd-SHA256"@,
        "Path"@ != "X-Trashd-Compressed"@,
        "DeletionDate"@ != "X-Trashd-Command"@,
        "DeletionDate"@ != "X-Trashd-PID"@,
        "DeletionDate"@ != "X-Trashd-Size"@,
        "DeletionDate"@ != "X-Trashd-Hash"@,
        "DeletionDate"@ != "X-Trashd-SHA256"@,
        "DeletionDate"@ != "X-Trashd-Compressed"@,
        "X-Trashd-Command"@ != "X-Trashd-PID"@,
        "X-Trashd-Command"@ != "X-Trashd-Size"@,
        "X-Trashd-Command"@ != "X-Trashd-Hash"@,
        "X-Trashd-Command"@ != "X-Trashd-SHA256"@,
        "X-Trashd-Command"@ != "X-Trashd-Compressed"@,
        "X-Trashd-PID"@ != "X-Trashd-Size"@,
        "X-Trashd-PID"@ != "X-Trashd-Hash"@,
        "X-Trashd-PID"@ != "X-Trashd-SHA256"@,
        "X-Trashd-PID"@ != "X-Trashd-Compressed"@,
        "X-Trashd-Size"@ != "X-Trashd-Hash"@,
        "X-Trashd-Size"@ != "X-Trashd-SHA256"@,
        "X-Trashd-Size"@ != "X-Trashd-Compressed"@,
        "X-Trashd-Hash"@ != "X-Trashd-Compressed"@,
        "X-Trashd-SHA256"@ != "X-Trashd-Compressed"@,
{
    lemma_names();
}

/// A path field's text, its path, and what is known of the two.
spec fn path_read(p: Option<Vec<u8>>, text: Option<Seq<char>>) -> bool {
    match (p, text) {
        (Some(x), Some(t)) => x@ == decoded_path(t) && forall|b: Seq<u8>|
            t == #[trigger] encoded(Alphabet::Path, b) ==> same_path(x@, b),
        (None, None) => true,
        _ => false,
    }
}

/// What a `.trashinfo` file says, if it has a path and a date.
pub fn parse(content: &str) -> (r: Option<RawInfo>)
    ensures
        match r {
            Some(info) => {
                &&& holds(info, reading(lines(content@)))
                &&& dated(info.wall.0 as int, info.wall.1 as int)
                &&& forall|b: Seq<u8>|
                    reading(lines(content@)).original_path == Some(
                        #[trigger] encoded(Alphabet::Path, b),
                    ) ==> same_path(info.original_path@, b)
            },
            None => reading(lines(content@)).original_path is None || reading(
                lines(content@),
            ).wall is None,
        },
{
    let chars = chars_of(content);
    let ls = lines_of(chars.as_slice());
    let mut path: Option<Vec<u8>> = None;
    let mut wall: Option<(i64, u32)> = None;
    let mut command: Option<String> = None;
    let mut pid: Option<u32> = None;
    let mut size: Option<u64> = None;
    let mut sha256: Option<String> = None;
    let mut compressed: Option<String> = None;
    let mut i: usize = 0;
    let ghost all = views(ls@);
    proof {
        assert(all.take(0) =~= seq![]);
        reveal_with_fuel(values, 1);
    }
    while i < ls.len()
        invariant
            i <= ls@.len(),
            all == views(ls@),
            path_read(path, reading(all.take(i as int)).original_path),
            match wall {
                Some((w, n)) => reading(all.take(i as int)).wall == Some((w as int, n as int))
                    && dated(w as int, n as int),
                None => reading(all.take(i as int)).wall is None,
            },
            opt_text(command) == reading(all.take(i as int)).command,
            opt_u32(pid) == reading(all.take(i as int)).pid,
            opt_u64(size) == reading(all.take(i as int)).size,
            opt_text(sha256) == reading(all.take(i as int)).sha256,
            opt_text(compressed) == reading(all.take(i as int)).compressed,
        decreases ls@.len() - i,
    {
        proof {
            lemma_reading_push(all.take(i as int), all[i as int]);
            lemma_distinct_names();
            assert(all.take(i + 1) =~= all.take(i as int).push(all[i as int]));
        }
        if let Some((key, value)) = split_field(ls[i].as_slice()) {
            let k = key.as_slice();
            let v = value.as_slice();
            if is_named(k, "Path") {
                let t = string_of(v);
                path = Some(decode_path(t.as_str()));
            } else if is_named(k, "DeletionDate") {
                let t = string_of(v);
                let d = parse_date(t.as_str());
                if d.is_some() {
                    wall = d;
                }
            } else if is_named(k, "X-Trashd-Command") {
                if command.is_none() {
                    command = Some(strip_control(v));
                }
            } else if is_named(k, "X-Trashd-PID") {
                if pid.is_none() {
                    pid = parse_u32(v);
                }
            } else if is_named(k, "X-Trashd-Size") {
                if size.is_none() {
                    size = parse_unsigned(v, u64::MAX);
                }
            } else if is_named(k, "X-Trashd-Hash") || is_named(k, "X-Trashd-SHA256") {
                if sha256.is_none() {
                    sha256 = Some(string_of(v));
                }
            } else if is_named(k, "X-Trashd-Compressed") {
                if compressed.is_none() {
                    compressed = Some(string_of(v));
                }
            }
        }
        i += 1;
    }
    proof {
        assert(all.take(i as int) =~= all);
    }
    match (path, wall) {
        (Some(original_path), Some(w)) => Some(
            RawInfo { original_path, wall: w, command, pid, size, sha256, compressed },
        ),
        _ => None,
    }
}

/// A recorded date, which keeps no fraction of a second, is taken for a moment: one at
/// which the clock showed it, or an hour later.
pub open spec fn taken_for(date: Moment, m: Moment) -> bool {
    shown_at(date.wall(), leap(date.nanos as int), m)
}

/// The record that was written is the record that is read, with its date where the clock
/// showed it, or an hour later.
pub open spec fn read_back(r: Record, info: TrashInfo) -> bool {
    &&& same_path(info.original_path@, r.original_path)
    &&& taken_for(r.deletion_date, info.deletion_date)
    &&& opt_text(info.command) == opt_stripped(r.command)
    &&& info.pid == r.pid
    &&& info.size == r.size
    &&& opt_text(info.sha256) == r.sha256
    &&& opt_text(info.compressed) == r.compressed
}

impl TrashInfo {
    /// The record of a `.trashinfo` file whose date is taken for a moment: there is one
    /// where the file has a path and a date and there is such a moment. The file of a
    /// record gives the record.
    pub fn read_at(content: &str, m: Option<Moment>) -> (r: Option<TrashInfo>)
        ensures
            match r {
                Some(info) => {
                    let g = reading(lines(content@));
                    &&& m == Some(info.deletion_date)
                    &&& g.wall is Some
                    &&& g.original_path matches Some(p) && info.original_path@ == decoded_path(p)
                    &&& opt_text(info.command) == g.command
                    &&& opt_u32(info.pid) == g.pid
                    &&& opt_u64(info.size) == g.size
                    &&& opt_text(info.sha256) == g.sha256
                    &&& opt_text(info.compressed) == g.compressed
                },
                None => reading(lines(content@)).original_path is None || reading(
                    lines(content@),
                ).wall is None || m is None,
            },
            forall|rec: Record|
                content@ == #[trigger] written(rec) && storable(rec) && legible_date(
                    rec.deletion_date,
                ) ==> (m matches Some(d) ==> taken_for(rec.deletion_date, d) ==> (r matches Some(
                    info,
                ) && read_back(rec, info))),
    {
        let raw = parse(content);
        proof {
            assert forall|rec: Record|
                content@ == #[trigger] written(rec) && storable(rec) && legible_date(
                    rec.deletion_date,
                ) implies (raw matches Some(x) && same_path(
                x.original_path@,
                rec.original_path,
            )) by {
                law_read_back(rec);
            }
        }
        match (raw, m) {
            (Some(x), Some(d)) => {
                let info = x.place(d);
                proof {
                    assert forall|rec: Record|
                        content@ == #[trigger] written(rec) && storable(rec) && legible_date(
                            rec.deletion_date,
                        ) && taken_for(rec.deletion_date, d) implies read_back(rec, info) by {
                        law_read_back(rec);
                        assert(info@.original_path == x.original_path@);
                    }
                }
                Some(info)
            },
            _ => None,
        }
    }

    /// The record of a `.trashinfo` file, if it has a path and a date and the local clock
    /// showed that date, or the time an hour later. The file of a record gives the record.
    /// Whether the clock showed it is up to the time zone of the machine; `read_at` says
    /// what is read for each moment that the date is taken for.
    pub fn from_trashinfo(content: &str) -> (r: Option<TrashInfo>)
        ensures
            reading(lines(content@)).original_path is None || reading(lines(content@)).wall is None
                ==> r is None,
            r matches Some(info) ==> {
                let g = reading(lines(content@));
                &&& info.deletion_date.valid()
                &&& g.original_path matches Some(p) && info.original_path@ == decoded_path(p)
                &&& g.wall matches Some(w) && shown_at(w.0, w.1, info.deletion_date)
                &&& opt_text(info.command) == g.command
                &&& opt_u32(info.pid) == g.pid
                &&& opt_u64(info.size) == g.size
                &&& opt_text(info.sha256) == g.sha256
                &&& opt_text(info.compressed) == g.compressed
            },
            reading(lines(content@)).original_path is Some ==> (reading(lines(content@)).wall matches Some(w)
                ==> exists|m: Option<Moment>| #[trigger]
                call_ensures(resolve, (w.0 as i64, w.1 as u32), m) && m == (match r {
                    Some(info) => Some(info.deletion_date),
                    None => None,
                })),
            forall|rec: Record|
                content@ == #[trigger] written(rec) && storable(rec) && legible_date(
                    rec.deletion_date,
                ) ==> (r matches Some(info) ==> read_back(rec, info)),
    {
        let m = match parse(content) {
            Some(raw) => {
                let m = resolve(raw.wall.0, raw.wall.1);
                let ghost w = reading(lines(content@)).wall->0;
                assert(w.0 as i64 == raw.wall.0 && w.1 as u32 == raw.wall.1);
                assert(call_ensures(resolve, (w.0 as i64, w.1 as u32), m));
                m
            },
            None => None,
        };
        let r = Self::read_at(content, m);
        proof {
            assert forall|rec: Record|
                content@ == #[trigger] written(rec) && storable(rec) && legible_date(
                    rec.deletion_date,
                ) && r is Some implies read_back(rec, r->0) by {
                law_read_back(rec);
            }
        }
        r
    }
}

} // verus!
