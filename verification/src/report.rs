//! What the commands show, and how they read what they are given.

use crate::dates::{age_days, date_value, dated, days_between, local_offset, local_time, parse_date, LocalTime, Moment, FIRST_SECOND, LAST_SECOND, NANOS};
use crate::job::{width, Kind};
use crate::path::{file_name, name_of, parent, parent_of, path_eq, same_path};
use crate::retention::plus;
use crate::seqs;
use crate::seqs::occurs;
use crate::sorting::{sort, sorted_from, Ranked};
use crate::store::{entries, meant, Entry, Search, TrashEntry};
use crate::text::{
    chars_of, decimal, lossy, parse_i64, parse_u32, push_chars, push_decimal, push_text, same_text, signed_value,
    string_of, text_lossy, trim, trimmed, unsigned_value,
};
use vstd::prelude::*;
use vstd::slice::slice_subrange;
use vstd::utf8::{encode_scalar, encode_utf8};

verus! {

/// A quotient rounded to the nearest whole number, and to the even one of two.
pub open spec fn rounded(n: nat, d: nat) -> nat {
    let q = n / d;
    let r = n % d;
    if 2 * r > d || (2 * r == d && q % 2 == 1) {
        q + 1
    } else {
        q
    }
}

/// The step between the numbers of 53 bits that are near `n`.
pub open spec fn step_for(n: nat, step: nat) -> nat
    decreases n - step,
{
    if step == 0 || n / 0x20_0000_0000_0000 < step || step >= n {
        step
    } else {
        step_for(n, 2 * step)
    }
}

/// The number of 53 bits that is nearest to `n`.
pub open spec fn nearest(n: nat) -> nat {
    let s = step_for(n, 1);
    rounded(n, s) * s
}

pub const KB: u64 = 1024;

pub const MB: u64 = 1_048_576;

pub const GB: u64 = 1_073_741_824;

/// A number of tenths, with one place behind the point.
pub open spec fn tenths(v: nat) -> Seq<char> {
    decimal(v / 10) + "."@ + decimal(v % 10)
}

/// A size with its unit; a size in bytes is exact, any other is rounded to a tenth.
pub open spec fn size_text(bytes: u64) -> Seq<char> {
    if bytes >= GB {
        tenths(rounded(10 * nearest(bytes as nat), GB as nat)) + " GB"@
    } else if bytes >= MB {
        tenths(rounded(10 * nearest(bytes as nat), MB as nat)) + " MB"@
    } else if bytes >= KB {
        tenths(rounded(10 * nearest(bytes as nat), KB as nat)) + " KB"@
    } else {
        decimal(bytes as nat) + " B"@
    }
}

fn round_div(n: u128, d: u128) -> (r: u128)
    requires
        0 < d <= 0x8000_0000_0000_0000,
        n <= 0x1_0000_0000_0000_0000_0000,
    ensures
        r == rounded(n as nat, d as nat),
        r <= n + 1,
{
    let q: u128 = n / d;
    let m: u128 = n % d;
    assert(q <= n) by (nonlinear_arith)
        requires
            q == n / d,
            d > 0,
    ;
    if 2 * m > d || (2 * m == d && q % 2 == 1) {
        q + 1
    } else {
        q
    }
}

proof fn lemma_step_powers(n: nat, step: nat)
    requires
        n <= u64::MAX,
        1 <= step <= 0x800,
    ensures
        1 <= step_for(n, step) <= 0x1000,
        n / 0x20_0000_0000_0000 < step_for(n, step),
    decreases n - step,
{
    if n / 0x20_0000_0000_0000 >= step && step < n {
        if 2 * step <= 0x800 {
            lemma_step_powers(n, 2 * step);
        } else {
            assert(n / 0x20_0000_0000_0000 <= 0x7ff);
            assert(step_for(n, 2 * step) == 2 * step);
        }
    }
}

fn near(n: u64) -> (r: u128)
    ensures
        r == nearest(n as nat),
        r <= 0x2_0000_0000_0000_0000,
{
    let mut step: u64 = 1;
    proof {
        lemma_step_powers(n as nat, 1);
    }
    while n / 0x20_0000_0000_0000 >= step && step < n
        invariant
            1 <= step <= 0x1000,
            step_for(n as nat, 1) == step_for(n as nat, step as nat),
            n / 0x20_0000_0000_0000 <= 0x7ff,
        decreases n - step,
    {
        step = 2 * step;
    }
    assert(step_for(n as nat, step as nat) == step);
    let q: u128 = round_div(n as u128, step as u128);
    proof {
        lemma_rounded_bound(n as nat, step as nat);
    }
    q * (step as u128)
}

proof fn lemma_rounded_bound(n: nat, d: nat)
    requires
        0 < d <= 0x1000,
        n <= u64::MAX,
    ensures
        rounded(n, d) * d <= n + d,
        rounded(n, d) * d <= 0x2_0000_0000_0000_0000,
{
    assert((n / d) * d <= n) by (nonlinear_arith)
        requires
            d > 0,
    ;
    assert((n / d + 1) * d == (n / d) * d + d) by (nonlinear_arith);
}

fn with_unit(bytes: u64, unit: u64, name: &str) -> (r: String)
    requires
        unit == KB || unit == MB || unit == GB,
    ensures
        r@ == tenths(rounded(10 * nearest(bytes as nat), unit as nat)) + name@,
{
    let v: u128 = round_div(10 * near(bytes), unit as u128);
    proof {
        lemma_rounded_small(10 * nearest(bytes as nat), unit as nat);
    }
    let mut r: String = String::new();
    push_decimal(&mut r, (v / 10) as u64);
    push_text(&mut r, ".");
    push_decimal(&mut r, (v % 10) as u64);
    push_text(&mut r, name);
    assert(r@ =~= tenths(v as nat) + name@);
    r
}

proof fn lemma_rounded_small(n: nat, d: nat)
    requires
        n <= 0x14_0000_0000_0000_0000,
        d >= 1024,
    ensures
        rounded(n, d) <= 0x800_0000_0000_0000,
{
    assert(n / d <= n / 1024) by (nonlinear_arith)
        requires
            d >= 1024,
    ;
}

/// A size with its unit.
pub fn format_size(bytes: u64) -> (r: String)
    ensures
        r@ == size_text(bytes),
{
    if bytes >= GB {
        with_unit(bytes, GB, " GB")
    } else if bytes >= MB {
        with_unit(bytes, MB, " MB")
    } else if bytes >= KB {
        with_unit(bytes, KB, " KB")
    } else {
        let mut r: String = String::new();
        push_decimal(&mut r, bytes);
        push_text(&mut r, " B");
        assert(r@ =~= decimal(bytes as nat) + " B"@);
        r
    }
}

/// The days that a text such as `7d`, `2w` or `30` says.
pub open spec fn duration_days(s: Seq<char>) -> Option<nat> {
    let t = trim(s);
    if t.len() > 0 && t.last() == 'd' {
        unsigned_value(trim(t.drop_last()), u32::MAX as nat)
    } else if t.len() > 0 && t.last() == 'w' {
        match unsigned_value(trim(t.drop_last()), u32::MAX as nat) {
            Some(w) => if w * 7 <= u32::MAX {
                Some(w * 7)
            } else {
                None
            },
            None => None,
        }
    } else {
        unsigned_value(t, u32::MAX as nat)
    }
}

/// The days that a text such as `7d`, `2w` or `30` says.
pub fn parse_duration_days(s: &str) -> (r: Option<u32>)
    ensures
        match r {
            Some(d) => duration_days(s@) == Some(d as nat),
            None => duration_days(s@) is None,
        },
{
    let c = chars_of(s);
    let t = trimmed(c.as_slice());
    let n: usize = t.len();
    if n > 0 && t[n - 1] == 'd' {
        let head = slice_subrange(t, 0, n - 1);
        assert(head@ =~= t@.drop_last());
        parse_u32(trimmed(head))
    } else if n > 0 && t[n - 1] == 'w' {
        let head = slice_subrange(t, 0, n - 1);
        assert(head@ =~= t@.drop_last());
        match parse_u32(trimmed(head)) {
            Some(w) => w.checked_mul(7),
            None => None,
        }
    } else {
        parse_u32(t)
    }
}

/// The seconds that a unit of time stands for.
pub open spec fn unit_seconds(c: char) -> Option<int> {
    if c == 'm' {
        Some(60)
    } else if c == 'h' {
        Some(3_600)
    } else if c == 'd' {
        Some(86_400)
    } else if c == 'w' {
        Some(604_800)
    } else {
        None
    }
}

/// How far back a text such as `30m`, `1h`, `2d` or `1w` reaches, in seconds.
pub open spec fn reach_back(s: Seq<char>) -> Option<int> {
    let t = trim(s);
    if t.len() == 0 {
        None
    } else {
        match (unit_seconds(t.last()), signed_value(t.drop_last())) {
            (Some(u), Some(n)) => Some(n * u),
            _ => None,
        }
    }
}

/// The second some seconds before a moment, and what has passed of it. A leap second counts
/// as the second after it on the way back, and as the second before it on the way forth.
pub open spec fn instant_before(now: Moment, back: int) -> (int, int) {
    if now.nanos < NANOS || back == 0 {
        (now.secs - back, now.nanos as int)
    } else if back > 0 {
        (now.secs + 1 - back, now.nanos - NANOS)
    } else {
        (now.secs - back, now.nanos - NANOS)
    }
}

/// The moment some seconds before another, where it is the moment of a date. The local
/// time is ahead by its own offset there.
pub open spec fn moment_before(now: Moment, back: int, offset: i32) -> Option<Moment> {
    let t = instant_before(now, back);
    if FIRST_SECOND <= t.0 <= LAST_SECOND {
        Some(Moment { secs: t.0 as i64, nanos: t.1 as u32, offset })
    } else {
        None
    }
}

/// How far back a text reaches, in seconds.
pub fn seconds_back(s: &str) -> (r: Option<i128>)
    ensures
        match r {
            Some(b) => reach_back(s@) == Some(b as int) && -0x100_0000_0000_0000_0000_0000 < b
                < 0x100_0000_0000_0000_0000_0000,
            None => reach_back(s@) is None,
        },
{
    let c = chars_of(s);
    let t = trimmed(c.as_slice());
    let n: usize = t.len();
    if n == 0 {
        return None;
    }
    let unit: i128 = match t[n - 1] {
        'm' => 60,
        'h' => 3_600,
        'd' => 86_400,
        'w' => 604_800,
        _ => {
            return None;
        },
    };
    let head = slice_subrange(t, 0, n - 1);
    assert(head@ =~= t@.drop_last());
    match parse_i64(head) {
        Some(v) => {
            assert(-0x100_0000_0000_0000_0000_0000 < v * unit < 0x100_0000_0000_0000_0000_0000)
                by (nonlinear_arith)
                requires
                    i64::MIN <= v <= i64::MAX,
                    60 <= unit <= 604_800,
            ;
            Some(v as i128 * unit)
        },
        None => None,
    }
}

/// The date that a text such as `2026-03-20T14:00:00`, `2026-03-20T14:00` or `2026-03-20`
/// says.
pub open spec fn named_date(s: Seq<char>) -> Option<(int, int)> {
    let t = trim(s);
    match date_value(t) {
        Some(d) => Some(d),
        None => match date_value(t + "T00:00:00"@) {
            Some(d) => Some(d),
            None => date_value(t + ":00"@),
        },
    }
}

/// The second and nanoseconds of the date that a text says.
pub fn date_named(s: &str) -> (r: Option<(i64, u32)>)
    ensures
        match r {
            Some((w, n)) => named_date(s@) == Some((w as int, n as int)) && dated(
                w as int,
                n as int,
            ),
            None => named_date(s@) is None,
        },
{
    let c = chars_of(s);
    let t = trimmed(c.as_slice());
    let text = string_of(t);
    match parse_date(text.as_str()) {
        Some(d) => Some(d),
        None => {
            let mut midnight = text.clone();
            push_text(&mut midnight, "T00:00:00");
            match parse_date(midnight.as_str()) {
                Some(d) => Some(d),
                None => {
                    let mut minute = text;
                    push_text(&mut minute, ":00");
                    parse_date(minute.as_str())
                },
            }
        },
    }
}

/// The moment that a time is taken for, from what the local clock means at its date, and
/// from the offset of the local time so long before now.
pub open spec fn cutoff(s: Seq<char>, now: Moment, local: LocalTime, offset: i32) -> Option<
    Moment,
> {
    match reach_back(s) {
        Some(b) => moment_before(now, b, offset),
        None => if named_date(s) is None {
            None
        } else {
            match local {
                LocalTime::Single(m) => Some(m),
                _ => None,
            }
        },
    }
}

/// The second so long before a moment as a time says, and what has passed of it.
pub fn instant_back(s: &str, now: &Moment) -> (r: Option<(i64, u32)>)
    ensures
        match reach_back(s@) {
            Some(b) => match r {
                Some((t, n)) => instant_before(*now, b) == (t as int, n as int) && FIRST_SECOND <= t
                    <= LAST_SECOND,
                None => !(FIRST_SECOND <= instant_before(*now, b).0 <= LAST_SECOND),
            },
            None => r is None,
        },
{
    let b: i128 = match seconds_back(s) {
        Some(b) => b,
        None => {
            return None;
        },
    };
    let mut t: i128 = now.secs as i128 - b;
    let mut n: u32 = now.nanos;
    if now.nanos >= NANOS && b != 0 {
        n = now.nanos - NANOS;
        if b > 0 {
            t = t + 1;
        }
    }
    if FIRST_SECOND as i128 <= t && t <= LAST_SECOND as i128 {
        Some((t as i64, n))
    } else {
        None
    }
}

/// The moment that a time is taken for: so long before now, or a date that the local
/// clock shows once.
pub fn cutoff_from(s: &str, now: &Moment, local: LocalTime, offset: i32) -> (r: Option<Moment>)
    ensures
        r == cutoff(s@, *now, local, offset),
{
    if seconds_back(s).is_some() {
        match instant_back(s, now) {
            Some((secs, nanos)) => Some(Moment { secs, nanos, offset }),
            None => None,
        }
    } else if date_named(s).is_none() {
        None
    } else {
        match local {
            LocalTime::Single(m) => Some(m),
            _ => None,
        }
    }
}

/// `local` is what the local clock was found to mean at the date of a time, and `offset` the
/// offset that it was found to have so long before now.
pub open spec fn clock_told(s: Seq<char>, now: Moment, local: LocalTime, offset: i32) -> bool {
    &&& named_date(s) matches Some(d) ==> call_ensures(local_time, (d.0 as i64, d.1 as u32), local)
    &&& reach_back(s) matches Some(b) ==> FIRST_SECOND <= instant_before(now, b).0 <= LAST_SECOND
        ==> call_ensures(local_offset, (instant_before(now, b).0 as i64,), offset)
}

/// The moment that a time is taken for. Which offset the local time has at it, and whether
/// the local clock shows a date, is up to the time zone of the machine; `cutoff_from` says
/// what the moment is for each answer.
pub fn parse_time_spec(s: &str, now: &Moment) -> (r: Option<Moment>)
    ensures
        exists|local: LocalTime, offset: i32|
            clock_told(s@, *now, local, offset) && r == #[trigger] cutoff(s@, *now, local, offset),
        reach_back(s@) matches Some(b) ==> match r {
            Some(m) => -86_400 < m.offset < 86_400 && r == moment_before(*now, b, m.offset),
            None => moment_before(*now, b, 0) is None,
        },
        reach_back(s@) is None ==> match named_date(s@) {
            Some(d) => r matches Some(m) ==> m.valid() && m.wall() == d.0 && m.nanos == d.1,
            None => r is None,
        },
{
    let local = match date_named(s) {
        Some((w, n)) => local_time(w, n),
        None => LocalTime::Gap,
    };
    let offset: i32 = match instant_back(s, now) {
        Some((secs, _)) => local_offset(secs),
        None => 0,
    };
    cutoff_from(s, now, local, offset)
}

/// Whether a date lies between two limits, both of which belong to what they allow.
pub fn within(date: &Moment, after: Option<Moment>, before: Option<Moment>) -> (r: bool)
    ensures
        r == ((after matches Some(a) ==> !crate::dates::earlier(*date, a)) && (before matches Some(b)
            ==> !crate::dates::earlier(b, *date))),
{
    let late: bool = match after {
        Some(a) => !(date.secs < a.secs || (date.secs == a.secs && date.nanos < a.nanos)),
        None => true,
    };
    let early: bool = match before {
        Some(b) => !(b.secs < date.secs || (b.secs == date.secs && b.nanos < date.nanos)),
        None => true,
    };
    late && early
}

/// The shortest end of a text whose encoding has at least `min` bytes.
pub open spec fn long_end(s: Seq<char>, min: int) -> Seq<char>
    decreases s.len(),
{
    if s.len() == 0 || encode_utf8(s.drop_first()).len() < min {
        s
    } else {
        long_end(s.drop_first(), min)
    }
}

/// A path in at most so many bytes: its end, behind three dots, where it is longer. A
/// character that begins before the limit is kept.
pub open spec fn truncated(p: Seq<char>, max: int) -> Seq<char> {
    if encode_utf8(p).len() > max {
        "..."@ + long_end(p, max - 3)
    } else {
        p
    }
}

/// A path in at most so many bytes.
pub fn truncate_path(p: &str, max: usize) -> (r: String)
    requires
        max >= 3 || encode_utf8(p@).len() <= max,
    ensures
        r@ == truncated(p@, max as int),
{
    let len: usize = p.as_bytes().len();
    let c = chars_of(p);
    if len <= max {
        return string_of(c.as_slice());
    }
    let n: usize = c.len();
    let mut rest: usize = len;
    let mut i: usize = 0;
    proof {
        assert(c@.skip(0) =~= c@);
        if n > 0 {
            lemma_skip(c@, 0);
        }
    }
    while i < n && rest - width(c[i]) >= max - 3
        invariant
            n == c@.len(),
            c@ == p@,
            i <= n,
            max >= 3,
            rest == encode_utf8(c@.skip(i as int)).len(),
            i < n ==> rest >= encode_scalar(c@[i as int] as u32).len(),
            long_end(p@, max - 3) == long_end(c@.skip(i as int), max - 3),
        decreases n - i,
    {
        proof {
            lemma_skip(c@, i as int);
            if i + 1 < n {
                lemma_skip(c@, i + 1);
            }
            assert(c@.skip(i as int).drop_first() =~= c@.skip(i + 1));
        }
        rest = rest - width(c[i]);
        i += 1;
    }
    proof {
        if i < n {
            lemma_skip(c@, i as int);
            assert(c@.skip(i as int).drop_first() =~= c@.skip(i + 1));
        }
    }
    let mut r: String = "...".to_owned();
    let tail = slice_subrange(c.as_slice(), i, n);
    assert(tail@ =~= c@.skip(i as int));
    push_chars(&mut r, tail);
    r
}

proof fn lemma_skip(s: Seq<char>, i: int)
    requires
        0 <= i < s.len(),
    ensures
        encode_utf8(s.skip(i)).len() == encode_scalar(s[i] as u32).len() + encode_utf8(
            s.skip(i + 1),
        ).len(),
        encode_scalar(s[i] as u32).len() >= 1,
{
    assert(s.skip(i).drop_first() =~= s.skip(i + 1));
    assert(s.skip(i)[0] == s[i]);
}

/// Whether an answer is yes.
pub fn is_yes(input: &str) -> (r: bool)
    ensures
        r == ({
            let t = trim(input@);
            t == "y"@ || t == "Y"@ || t == "yes"@ || t == "Yes"@ || t == "YES"@
        }),
{
    let c = chars_of(input);
    let t = string_of(trimmed(c.as_slice()));
    let s = t.as_str();
    same_text(s, "y") || same_text(s, "Y") || same_text(s, "yes") || same_text(s, "Yes")
        || same_text(s, "YES")
}

/// A text stands in the original path of an entry, or in its id.
pub open spec fn mentions(e: Entry, query: Seq<char>) -> bool {
    occurs(lossy(e.info.original_path), query) || occurs(e.id, query)
}

/// Whether a search for a text finds an entry.
pub fn entry_mentions(e: &TrashEntry, query: &str) -> (r: bool)
    ensures
        r == mentions(e@, query@),
{
    let q = chars_of(query);
    let p = text_lossy(e.info.original_path.as_slice());
    let pc = chars_of(p.as_str());
    let ic = chars_of(e.id.as_str());
    seqs::contains(pc.as_slice(), q.as_slice()) || seqs::contains(ic.as_slice(), q.as_slice())
}

/// The first entry from `i` on that a text means, or the length.
pub open spec fn first_meant(s: Search, p: Seq<char>, v: Seq<Entry>, i: int) -> int
    decreases v.len() - i,
{
    if i >= v.len() || meant(s, p, v[i]) {
        i
    } else {
        first_meant(s, p, v, i + 1)
    }
}

/// The entry whose details are shown: the first with the id, else the first with the name.
pub open spec fn shown_entry(p: Seq<char>, v: Seq<Entry>) -> Option<int> {
    if first_meant(Search::Id, p, v, 0) < v.len() {
        Some(first_meant(Search::Id, p, v, 0))
    } else if first_meant(Search::Name, p, v, 0) < v.len() {
        Some(first_meant(Search::Name, p, v, 0))
    } else {
        None
    }
}

fn first_hit(s: Search, p: &str, v: &Vec<TrashEntry>) -> (r: usize)
    ensures
        r == first_meant(s, p@, entries(v@), 0),
        r <= v@.len(),
{
    let mut i: usize = 0;
    while i < v.len()
        invariant
            i <= v@.len(),
            first_meant(s, p@, entries(v@), 0) == first_meant(s, p@, entries(v@), i as int),
        decreases v@.len() - i,
    {
        assert(entries(v@)[i as int] == v@[i as int]@);
        if crate::store::means(s, p, &v[i]) {
            return i;
        }
        i += 1;
    }
    i
}

/// The entry whose details are shown, by its position.
pub fn info_choice(p: &str, v: &Vec<TrashEntry>) -> (r: Option<usize>)
    ensures
        match r {
            Some(i) => shown_entry(p@, entries(v@)) == Some(i as int) && i < v@.len(),
            None => shown_entry(p@, entries(v@)) is None,
        },
{
    let a: usize = first_hit(Search::Id, p, v);
    if a < v.len() {
        return Some(a);
    }
    let b: usize = first_hit(Search::Name, p, v);
    if b < v.len() {
        return Some(b);
    }
    None
}

/// What the data of an entry is called.
pub fn kind_text(kind: Option<Kind>) -> (r: &'static str)
    ensures
        r@ == (match kind {
            Some(k) => if k == Kind::Symlink {
                "symlink"@
            } else if k == Kind::Dir {
                "directory"@
            } else {
                "file"@
            },
            None => "missing"@,
        }),
{
    match kind {
        Some(k) => match k {
            Kind::Symlink => "symlink",
            Kind::Dir => "directory",
            _ => "file",
        },
        None => "missing",
    }
}

/// The size of an entry as it is shown.
pub fn shown_size(size: Option<u64>) -> (r: String)
    ensures
        r@ == (match size {
            Some(s) => size_text(s),
            None => "?"@,
        }),
{
    match size {
        Some(s) => format_size(s),
        None => "?".to_owned(),
    }
}

/// What the disk of an entry is called: the home, or the directory that its trash is in.
pub open spec fn disk_name(root: Seq<u8>, home: Seq<u8>) -> Seq<char> {
    if same_path(root, home) {
        "home"@
    } else {
        match parent_of(root) {
            Some(p) => match name_of(p) {
                Some(n) => lossy(n),
                None => "?"@,
            },
            None => "?"@,
        }
    }
}

/// What the disk of an entry is called.
pub fn disk_label(root: &[u8], home: &[u8]) -> (r: String)
    ensures
        r@ == disk_name(root@, home@),
{
    if path_eq(root, home) {
        return "home".to_owned();
    }
    match parent(root) {
        Some(p) => match file_name(p) {
            Some(n) => text_lossy(n),
            None => "?".to_owned(),
        },
        None => "?".to_owned(),
    }
}

/// Whether some entry is not in the home trash.
pub fn several_disks(v: &Vec<TrashEntry>, home: &[u8]) -> (r: bool)
    ensures
        r == exists|i: int| 0 <= i < v@.len() && !same_path((#[trigger] v@[i]).trash_root@, home@),
{
    let mut i: usize = 0;
    while i < v.len()
        invariant
            i <= v@.len(),
            forall|k: int| 0 <= k < i ==> same_path((#[trigger] v@[k]).trash_root@, home@),
        decreases v@.len() - i,
    {
        if !path_eq(v[i].trash_root.as_slice(), home) {
            return true;
        }
        i += 1;
    }
    false
}

/// A row of the list of entries.
#[derive(Debug)]
pub struct ListRow {
    pub date: String,
    pub size: String,
    /// The disk, where entries of several are shown.
    pub disk: Option<String>,
    pub path: String,
    pub id: String,
}

/// The row of an entry: on several disks the path has less room.
pub fn list_row(e: &TrashEntry, home: &[u8], several: bool) -> (r: ListRow)
    requires
        e.info.deletion_date.valid(),
    ensures
        r.date@ == crate::dates::date_text(
            "%Y-%m-%d %H:%M"@,
            e.info.deletion_date.wall(),
            e.info.deletion_date.nanos as int,
        ),
        r.size@ == (match e.info.size {
            Some(s) => size_text(s),
            None => "?"@,
        }),
        match r.disk {
            Some(d) => several && d@ == disk_name(e.trash_root@, home@),
            None => !several,
        },
        r.path@ == truncated(
            lossy(e.info.original_path@),
            if several {
                40
            } else {
                50
            },
        ),
        r.id@ == e.id@,
{
    let p = text_lossy(e.info.original_path.as_slice());
    let max: usize = if several {
        40
    } else {
        50
    };
    ListRow {
        date: e.info.deletion_date.format("%Y-%m-%d %H:%M"),
        size: shown_size(e.info.size),
        disk: if several {
            Some(disk_label(e.trash_root.as_slice(), home))
        } else {
            None
        },
        path: truncate_path(p.as_str(), max),
        id: e.id.clone(),
    }
}

pub open spec fn size_or_zero(size: Option<u64>) -> u64 {
    match size {
        Some(s) => s,
        None => 0,
    }
}

/// An entry with the size that is recorded of it, by position.
#[derive(Debug, Clone, Copy, PartialEq, Eq, Structural)]
pub struct Weighed {
    pub at: usize,
    pub size: u64,
}

/// The larger, the earlier.
impl Ranked for Weighed {
    open spec fn rank(&self) -> int {
        -(self.size as int)
    }

    fn precedes(&self, other: &Self) -> (r: bool) {
        self.size > other.size
    }
}

pub open spec fn weighed(v: Seq<TrashEntry>) -> Seq<Weighed> {
    Seq::new(v.len(), |i: int| Weighed { at: i as usize, size: size_or_zero(v[i].info.size) })
}

/// The positions of entries by recorded size, the largest first.
pub fn largest_first(v: &Vec<TrashEntry>) -> (r: Vec<Weighed>)
    ensures
        sorted_from(r@, weighed(v@)),
        r@.len() == v@.len(),
{
    let mut s: Vec<Weighed> = Vec::new();
    let mut i: usize = 0;
    while i < v.len()
        invariant
            i <= v@.len(),
            s@ == weighed(v@).take(i as int),
        decreases v@.len() - i,
    {
        let size: u64 = match v[i].info.size {
            Some(x) => x,
            None => 0,
        };
        s.push(Weighed { at: i, size });
        i += 1;
        assert(s@ =~= weighed(v@).take(i as int));
    }
    assert(weighed(v@).take(i as int) =~= weighed(v@));
    sort(s)
}

/// The recorded sizes of entries together, as far as they fit.
pub open spec fn recorded_total(v: Seq<TrashEntry>) -> u64
    decreases v.len(),
{
    if v.len() == 0 {
        0
    } else {
        plus(recorded_total(v.drop_last()), size_or_zero(v.last().info.size))
    }
}

/// The recorded sizes of entries together.
pub fn total_recorded(v: &Vec<TrashEntry>) -> (r: u64)
    ensures
        r == recorded_total(v@),
{
    let mut total: u64 = 0;
    let mut i: usize = 0;
    assert(v@.take(0) =~= seq![]);
    while i < v.len()
        invariant
            i <= v@.len(),
            total == recorded_total(v@.take(i as int)),
        decreases v@.len() - i,
    {
        assert(v@.take(i + 1).drop_last() =~= v@.take(i as int));
        total = total.saturating_add(
            match v[i].info.size {
                Some(x) => x,
                None => 0,
            },
        );
        i += 1;
    }
    assert(v@.take(i as int) =~= v@);
    total
}

/// The sizes that are recorded of the entries at some positions, together.
pub open spec fn chosen_total(v: Seq<TrashEntry>, at: Seq<usize>) -> u64
    decreases at.len(),
{
    if at.len() == 0 {
        0
    } else {
        plus(chosen_total(v, at.drop_last()), size_or_zero(v[at.last() as int].info.size))
    }
}

/// The sizes that are recorded of the entries at some positions, together.
pub fn total_chosen(v: &Vec<TrashEntry>, at: &Vec<usize>) -> (r: u64)
    requires
        forall|k: int| 0 <= k < at@.len() ==> (#[trigger] at@[k]) < v@.len(),
    ensures
        r == chosen_total(v@, at@),
{
    let mut total: u64 = 0;
    let mut i: usize = 0;
    assert(at@.take(0) =~= seq![]);
    while i < at.len()
        invariant
            i <= at@.len(),
            total == chosen_total(v@, at@.take(i as int)),
            forall|k: int| 0 <= k < at@.len() ==> (#[trigger] at@[k]) < v@.len(),
        decreases at@.len() - i,
    {
        assert(at@.take(i + 1).drop_last() =~= at@.take(i as int));
        assert(at@[i as int] < v@.len());
        total = total.saturating_add(
            match v[at[i]].info.size {
                Some(x) => x,
                None => 0,
            },
        );
        i += 1;
    }
    assert(at@.take(i as int) =~= at@);
    total
}

pub const RENAME_LIMIT: u32 = 1000;

/// The destination that is tried `n`th where the first is taken: the path with a number
/// behind it.
pub open spec fn renamed(path: Seq<u8>, n: nat) -> Seq<u8> {
    path + encode_utf8("."@ + decimal(n))
}

/// The destination that is tried `n`th where the first is taken.
pub fn renamed_path(path: &[u8], n: u32) -> (r: Vec<u8>)
    ensures
        r@ == renamed(path@, n as nat),
{
    let mut t: String = ".".to_owned();
    push_decimal(&mut t, n as u64);
    let mut r = crate::seqs::to_vec(path);
    r.extend_from_slice(t.as_str().as_bytes());
    r
}

/// Which of the numbers is taken, from whether something stands at each: the first that is
/// free.
pub fn free_number(taken: &Vec<bool>) -> (r: Option<u32>)
    requires
        taken@.len() <= RENAME_LIMIT,
    ensures
        match r {
            Some(n) => 1 <= n <= taken@.len() && !taken@[n - 1] && forall|k: int|
                0 <= k < n - 1 ==> #[trigger] taken@[k],
            None => forall|k: int| 0 <= k < taken@.len() ==> #[trigger] taken@[k],
        },
        r is None ==> !taken@.contains(false),
{
    let mut i: usize = 0;
    while i < taken.len()
        invariant
            i <= taken@.len() <= RENAME_LIMIT,
            forall|k: int| 0 <= k < i ==> #[trigger] taken@[k],
        decreases taken@.len() - i,
    {
        if !taken[i] {
            return Some((i + 1) as u32);
        }
        i += 1;
    }
    None
}

/// Whether the command that compresses takes an entry: no directory, link or orphan, of an
/// age, of some size, and not a frame already.
pub fn compress_wanted(
    e: &TrashEntry,
    now: &Moment,
    days: u32,
    kind: Option<Kind>,
    len: u64,
    magic: bool,
) -> (r: bool)
    ensures
        r == (kind == Some(Kind::File) && !e.orphaned && days_between(
            e.info.deletion_date,
            *now,
        ) >= days && len >= 1024 && !magic),
{
    let file: bool = match kind {
        Some(Kind::File) => true,
        _ => false,
    };
    file && !e.orphaned && age_days(&e.info.deletion_date, now) >= days as i64 && len >= 1024
        && !magic
}

/// A step of compressing an entry in the trash.
#[derive(Debug, Clone, Copy, PartialEq, Eq, Structural)]
pub enum PackStep {
    /// Write the frame beside the data.
    Write,
    /// Record that the data is compressed.
    Mark,
    /// Put the frame in the place of the data.
    Swap,
    /// Take the record back.
    Unmark,
    /// Remove what was written beside the data.
    Discard,
    /// The data is compressed.
    Packed,
    /// The data is as it was.
    Left,
}

/// The step after one that went well or not. The record is made before the data is
/// replaced, so that no frame stands in the trash without one; `smaller` says whether the
/// frame is smaller than the data.
pub open spec fn pack_after(s: PackStep, ok: bool, smaller: bool) -> PackStep {
    match s {
        PackStep::Write => if ok && smaller {
            PackStep::Mark
        } else {
            PackStep::Discard
        },
        PackStep::Mark => if ok {
            PackStep::Swap
        } else {
            PackStep::Discard
        },
        PackStep::Swap => if ok {
            PackStep::Packed
        } else {
            PackStep::Unmark
        },
        PackStep::Unmark => PackStep::Discard,
        PackStep::Discard => PackStep::Left,
        PackStep::Packed => PackStep::Packed,
        PackStep::Left => PackStep::Left,
    }
}

/// The step after one that went well or not.
pub fn next_pack(s: PackStep, ok: bool, smaller: bool) -> (r: PackStep)
    ensures
        r == pack_after(s, ok, smaller),
{
    match s {
        PackStep::Write => {
            if ok && smaller {
                PackStep::Mark
            } else {
                PackStep::Discard
            }
        },
        PackStep::Mark => {
            if ok {
                PackStep::Swap
            } else {
                PackStep::Discard
            }
        },
        PackStep::Swap => {
            if ok {
                PackStep::Packed
            } else {
                PackStep::Unmark
            }
        },
        PackStep::Unmark => PackStep::Discard,
        PackStep::Discard => PackStep::Left,
        PackStep::Packed => PackStep::Packed,
        PackStep::Left => PackStep::Left,
    }
}

/// Data is replaced only after the record was made.
pub proof fn law_marked_before_swapped(s: PackStep, ok: bool, smaller: bool)
    ensures
        s != PackStep::Swap && pack_after(s, ok, smaller) == PackStep::Swap ==> s == PackStep::Mark
            && ok,
        s != PackStep::Packed && pack_after(s, ok, smaller) == PackStep::Packed ==> s
            == PackStep::Swap && ok,
        s != PackStep::Mark && pack_after(s, ok, smaller) == PackStep::Mark ==> s
            == PackStep::Write && ok && smaller,
{
}

/// What is wrong with a `.trashinfo` file.
#[derive(Debug, Clone, Copy, PartialEq, Eq, Structural)]
pub enum InfoProblem {
    Fine,
    /// It has no data.
    NoData,
    /// It cannot be read as a record.
    Corrupt,
}

/// What is wrong with a `.trashinfo` file; one that could not be read at all is left alone.
pub fn info_problem(has_data: bool, readable: bool, parses: bool) -> (r: InfoProblem)
    ensures
        r == (if !has_data {
            InfoProblem::NoData
        } else if readable && !parses {
            InfoProblem::Corrupt
        } else {
            InfoProblem::Fine
        }),
{
    if !has_data {
        InfoProblem::NoData
    } else if readable && !parses {
        InfoProblem::Corrupt
    } else {
        InfoProblem::Fine
    }
}

/// What is done about a problem.
#[derive(Debug, Clone, Copy, PartialEq, Eq, Structural)]
pub enum Repair {
    Nothing,
    /// Remove the `.trashinfo` file.
    RemoveInfo,
    /// Remove data that has no `.trashinfo` file.
    RemoveData,
    /// Say where the data is that cannot be restored by its record.
    Report,
}

/// What is done about a `.trashinfo` file: its data is never touched.
pub fn repair_info(p: InfoProblem, fix: bool) -> (r: Repair)
    ensures
        r == (if !fix {
            Repair::Nothing
        } else {
            match p {
                InfoProblem::Fine => Repair::Nothing,
                InfoProblem::NoData => Repair::RemoveInfo,
                InfoProblem::Corrupt => Repair::Report,
            }
        }),
        r != Repair::RemoveData,
{
    if !fix {
        return Repair::Nothing;
    }
    match p {
        InfoProblem::Fine => Repair::Nothing,
        InfoProblem::NoData => Repair::RemoveInfo,
        InfoProblem::Corrupt => Repair::Report,
    }
}

/// What is done about data: it is removed only where it has no `.trashinfo` file at all,
/// repair was asked for, and its removal was confirmed.
pub fn repair_data(has_info: bool, fix: bool, confirmed: bool) -> (r: Repair)
    ensures
        r == (if !has_info && fix && confirmed {
            Repair::RemoveData
        } else {
            Repair::Nothing
        }),
{
    if !has_info && fix && confirmed {
        Repair::RemoveData
    } else {
        Repair::Nothing
    }
}

} // verus!
