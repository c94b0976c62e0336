//! What follows for callers from what the commands show and how they read what they are
//! given.

use crate::config_laws::has_piece;
use crate::dates::{Moment, LocalTime, date_value};
use crate::dates_laws::{law_days_between, nanos_between};
use crate::job::Kind;
use crate::path::{joined, law_entry, name_of, parent_of, same_path};
use crate::report::{chosen_total, compress_wanted, cutoff_from, disk_name, duration_days, entry_mentions, first_meant, format_size, free_number, info_choice, info_problem, is_yes, kind_text, largest_first, list_row, long_end, named_date, nearest, pack_after, reach_back, recorded_total, renamed_path, repair_data, repair_info, rounded, several_disks, shown_size, step_for, truncate_path, weighed, within, InfoProblem, ListRow, PackStep, Repair, Weighed};
use crate::seqs::{occurs, occurs_at};
use crate::sorting::law_sorted_permutation;
use crate::store::{entries, Entry, Search, TrashEntry};
use crate::text::{decimal, is_whitespace, law_decimal_read_back, law_signed_read_back, lemma_decimal, lossy, signed_decimal, trim};
use crate::text_laws::{blank, law_trim};
use vstd::prelude::*;
use vstd::utf8::encode_utf8;

verus! {

/// `t` tenths of a unit are the nearest to a number of bytes, and of two as near the even
/// number of tenths.
pub open spec fn nearest_tenths(bytes: int, unit: int, t: int) -> bool {
    &&& -unit <= 2 * (10 * bytes - t * unit) <= unit
    &&& 2 * (10 * bytes - t * unit) == unit || 2 * (10 * bytes - t * unit) == -unit ==> t % 2 == 0
}

proof fn lemma_rounded(n: nat, d: nat)
    requires
        d > 0,
    ensures
        -(d as int) <= 2 * (n - rounded(n, d) * d) <= d,
        2 * (n - rounded(n, d) * d) == d || 2 * (n - rounded(n, d) * d) == -(d as int) ==> rounded(n, d) % 2
            == 0,
{
    let q = n / d;
    let r = n % d;
    assert(n == q * d + r && 0 <= r < d) by (nonlinear_arith)
        requires
            d > 0,
            q == n / d,
            r == n % d,
    ;
    assert((q + 1) * d == q * d + d) by (nonlinear_arith);
}

/// A size is shown in the largest of the four units that it reaches, in whole bytes or to
/// the nearest tenth.
pub proof fn law_size(bytes: u64, r: String)
    requires
        call_ensures(format_size, (bytes,), r),
        bytes < 0x20_0000_0000_0000,
    ensures
        bytes < 1024 ==> r@ == decimal(bytes as nat) + " B"@,
        1024 <= bytes < 1_048_576 ==> exists|t: int|
            #[trigger] nearest_tenths(bytes as int, 1024, t) && r@ == decimal((t / 10) as nat) + "."@
                + decimal((t % 10) as nat) + " KB"@,
        1_048_576 <= bytes < 1_073_741_824 ==> exists|t: int|
            #[trigger] nearest_tenths(bytes as int, 1_048_576, t) && r@ == decimal((t / 10) as nat)
                + "."@ + decimal((t % 10) as nat) + " MB"@,
        1_073_741_824 <= bytes ==> exists|t: int|
            #[trigger] nearest_tenths(bytes as int, 1_073_741_824, t) && r@ == decimal(
                (t / 10) as nat,
            ) + "."@ + decimal((t % 10) as nat) + " GB"@,
{
    let b = bytes as nat;
    assert(step_for(b, 1) == 1);
    assert(nearest(b) == b);
    lemma_rounded(10 * b, 1024);
    lemma_rounded(10 * b, 1_048_576);
    lemma_rounded(10 * b, 1_073_741_824);
    assert(nearest_tenths(bytes as int, 1024, rounded(10 * b, 1024) as int));
    assert(nearest_tenths(bytes as int, 1_048_576, rounded(10 * b, 1_048_576) as int));
    assert(nearest_tenths(bytes as int, 1_073_741_824, rounded(10 * b, 1_073_741_824) as int));
}

proof fn lemma_trimmed(s: Seq<char>)
    requires
        s.len() > 0,
        !is_whitespace(s[0]),
        !is_whitespace(s.last()),
    ensures
        trim(s) == s,
{
    law_trim(seq![], s, seq![]);
}

/// A number of days is read with or without a `d` behind it, and a number of weeks with a
/// `w`, each up to what fits in 32 bits.
pub proof fn law_duration(n: nat)
    ensures
        duration_days(decimal(n)) == (if n <= 4294967295 {
            Some(n)
        } else {
            None
        }),
        duration_days(decimal(n).push('d')) == (if n <= 4294967295 {
            Some(n)
        } else {
            None
        }),
        duration_days(decimal(n).push('w')) == (if 7 * n <= 4294967295 {
            Some(7 * n)
        } else {
            None
        }),
{
    let d = decimal(n);
    lemma_decimal(n);
    assert(crate::text::is_digit(d[0]));
    assert(crate::text::is_digit(d[d.len() - 1]));
    lemma_trimmed(d);
    lemma_trimmed(d.push('d'));
    lemma_trimmed(d.push('w'));
    assert(d.push('d').drop_last() =~= d);
    assert(d.push('w').drop_last() =~= d);
    law_decimal_read_back(n, n);
}

/// How far back a time reaches: a number of minutes, hours, days or weeks, with nothing
/// between the number and the unit, and in no other unit.
pub proof fn law_reach_back(n: int, c: char)
    requires
        i64::MIN <= n <= i64::MAX,
        !is_whitespace(c),
    ensures
        c == 'm' ==> reach_back(signed_decimal(n).push(c)) == Some(60 * n),
        c == 'h' ==> reach_back(signed_decimal(n).push(c)) == Some(3600 * n),
        c == 'd' ==> reach_back(signed_decimal(n).push(c)) == Some(86_400 * n),
        c == 'w' ==> reach_back(signed_decimal(n).push(c)) == Some(604_800 * n),
        c != 'm' && c != 'h' && c != 'd' && c != 'w' ==> reach_back(signed_decimal(n).push(c)) is None,
{
    let s = signed_decimal(n);
    law_signed_read_back(n);
    if n < 0 {
        assert(s[0] == '-');
    } else {
        lemma_decimal(n as nat);
        assert(crate::text::is_digit(s[0]));
    }
    let t = s.push(c);
    assert(t[0] == s[0]);
    lemma_trimmed(t);
    assert(t.drop_last() =~= s);
}

/// The moment that such a time is taken for lies just so many seconds before now, to the
/// nanosecond, and is shown in the local time of then.
pub proof fn law_time_back(s: &str, now: &Moment, local: LocalTime, offset: i32, r: Option<Moment>)
    requires
        call_ensures(cutoff_from, (s, now, local, offset), r),
        now.nanos < 1_000_000_000,
    ensures
        reach_back(s@) matches Some(b) ==> match r {
            Some(m) => m.secs == now.secs - b && m.nanos == now.nanos && m.offset == offset,
            None => now.secs - b < -8_334_601_228_800 || now.secs - b > 8_210_266_876_799,
        },
        reach_back(s@) is None ==> (r is Some <==> named_date(s@) is Some && local is Single),
        reach_back(s@) is None && r is Some ==> (local matches LocalTime::Single(m) && r == Some(m)),
{
}

/// A date may be given to the second, to the minute, or to the day, and then means its
/// midnight.
pub proof fn law_named_date(s: Seq<char>)
    requires
        trim(s) == s,
    ensures
        date_value(s) is Some ==> named_date(s) == date_value(s),
        date_value(s) is None && date_value(s + "T00:00:00"@) is Some ==> named_date(s)
            == date_value(s + "T00:00:00"@),
        date_value(s) is None && date_value(s + "T00:00:00"@) is None ==> named_date(s)
            == date_value(s + ":00"@),
{
}

/// A date lies between two limits where it comes no earlier than the first and no later than
/// the second, to the nanosecond; a limit that is not given allows everything.
pub proof fn law_within(date: &Moment, after: Option<Moment>, before: Option<Moment>, r: bool)
    requires
        call_ensures(within, (date, after, before), r),
    ensures
        after is None && before is None ==> r,
        (after matches Some(a) && (date.secs < a.secs || (date.secs == a.secs && date.nanos
            < a.nanos))) ==> !r,
        (before matches Some(b) && (date.secs > b.secs || (date.secs == b.secs && date.nanos
            > b.nanos))) ==> !r,
        (after matches Some(a) ==> date.secs > a.secs || (date.secs == a.secs && date.nanos
            >= a.nanos)) && (before matches Some(b) ==> date.secs < b.secs || (date.secs == b.secs
            && date.nanos <= b.nanos)) ==> r,
{
}

proof fn lemma_long_end(s: Seq<char>, min: int)
    ensures
        long_end(s, min).len() <= s.len(),
        long_end(s, min) == s.skip(s.len() - long_end(s, min).len()),
        encode_utf8(s).len() >= min ==> encode_utf8(long_end(s, min)).len() >= min,
        long_end(s, min).len() > 0 ==> encode_utf8(long_end(s, min).drop_first()).len() < min,
    decreases s.len(),
{
    if s.len() == 0 || encode_utf8(s.drop_first()).len() < min {
        assert(s.skip(0) =~= s);
    } else {
        let u = s.drop_first();
        lemma_long_end(u, min);
        let e = long_end(u, min);
        assert(s.skip(s.len() - e.len()) =~= u.skip(u.len() - e.len()));
    }
}

/// A path that fits is shown whole. Of one that does not the end is shown behind three dots,
/// with as few characters as fill the bytes that are left.
pub proof fn law_truncated(p: &str, max: usize, r: String)
    requires
        max >= 3,
        call_ensures(truncate_path, (p, max), r),
    ensures
        encode_utf8(p@).len() <= max ==> r@ == p@,
        encode_utf8(p@).len() > max ==> exists|k: int|
            0 <= k <= p@.len() && r@ == "..."@ + #[trigger] p@.skip(k) && encode_utf8(
                p@.skip(k),
            ).len() >= max - 3 && (k < p@.len() ==> encode_utf8(p@.skip(k).drop_first()).len() < max
                - 3),
{
    lemma_long_end(p@, max - 3);
    let e = long_end(p@, max - 3);
    let k = p@.len() - e.len();
    assert(p@.skip(k) == e);
}

/// The words that mean yes, whatever white space stands around them. Nothing else does.
pub proof fn law_yes(input: &str, r: bool)
    requires
        call_ensures(is_yes, (input,), r),
    ensures
        r <==> trim(input@) == "y"@ || trim(input@) == "Y"@ || trim(input@) == "yes"@ || trim(
            input@,
        ) == "Yes"@ || trim(input@) == "YES"@,
        trim(input@).len() == 0 ==> !r,
{
    reveal_strlit("y");
    reveal_strlit("Y");
    reveal_strlit("yes");
    reveal_strlit("Yes");
    reveal_strlit("YES");
}

/// A search finds the entries with the text anywhere in the original path or in the id.
pub proof fn law_mentions(e: &TrashEntry, query: &str, r: bool)
    requires
        call_ensures(entry_mentions, (e, query), r),
    ensures
        r <==> has_piece(lossy(e.info.original_path@), query@) || has_piece(e.id@, query@),
{
    lemma_piece(lossy(e.info.original_path@), query@);
    lemma_piece(e.id@, query@);
}

proof fn lemma_piece(t: Seq<char>, x: Seq<char>)
    ensures
        occurs(t, x) <==> has_piece(t, x),
{
    if occurs(t, x) {
        let i = choose|i: int| occurs_at(t, x, i);
        let a = t.take(i);
        let b = t.skip(i + x.len());
        assert((a + x) + b =~= t);
    }
    if has_piece(t, x) {
        let (a, b) = choose|a: Seq<char>, b: Seq<char>| #[trigger] ((a + x) + b) == t;
        assert(t.subrange(a.len() as int, (a.len() + x.len()) as int) =~= x);
        assert(occurs_at(t, x, a.len() as int));
    }
}

proof fn lemma_first_meant(s: Search, p: Seq<char>, v: Seq<Entry>, i: int)
    requires
        0 <= i <= v.len(),
    ensures
        i <= first_meant(s, p, v, i) <= v.len(),
        forall|k: int| i <= k < first_meant(s, p, v, i) ==> !crate::store::meant(s, p, #[trigger] v[k]),
        first_meant(s, p, v, i) < v.len() ==> crate::store::meant(s, p, v[first_meant(s, p, v, i)]),
    decreases v.len() - i,
{
    if i < v.len() && !crate::store::meant(s, p, v[i]) {
        lemma_first_meant(s, p, v, i + 1);
    }
}

/// An entry whose original name is a text.
pub open spec fn named(e: Entry, p: Seq<char>) -> bool {
    name_of(e.info.original_path) matches Some(n) && lossy(n) == p
}

/// The details that are shown are those of the first entry with the id; where none has it,
/// of the first with the name; and where none has that either, nothing is shown.
pub proof fn law_details(p: &str, v: &Vec<TrashEntry>, r: Option<usize>)
    requires
        call_ensures(info_choice, (p, v), r),
    ensures
        r matches Some(i) ==> i < v@.len() && {
            ||| v@[i as int]@.id == p@ && forall|k: int|
                0 <= k < i ==> (#[trigger] v@[k])@.id != p@
            ||| (forall|k: int| 0 <= k < v@.len() ==> (#[trigger] v@[k])@.id != p@) && named(
                v@[i as int]@,
                p@,
            ) && forall|k: int| 0 <= k < i ==> !named((#[trigger] v@[k])@, p@)
        },
        r is None ==> forall|k: int|
            0 <= k < v@.len() ==> (#[trigger] v@[k])@.id != p@ && !named(v@[k]@, p@),
{
    let e = entries(v@);
    lemma_first_meant(Search::Id, p@, e, 0);
    lemma_first_meant(Search::Name, p@, e, 0);
    assert forall|k: int| 0 <= k < v@.len() implies (#[trigger] v@[k])@ == e[k] by {}
}

/// What data is called: a link and a directory by their kind, what is missing so, and
/// everything else a file.
pub proof fn law_kind_text(kind: Option<Kind>, r: &'static str)
    requires
        call_ensures(kind_text, (kind,), r),
    ensures
        kind is None ==> r@ == "missing"@,
        (kind matches Some(k) && k is Symlink) ==> r@ == "symlink"@,
        (kind matches Some(k) && k is Dir) ==> r@ == "directory"@,
        (kind matches Some(k) && !(k is Symlink) && !(k is Dir)) ==> r@ == "file"@,
{
}

/// The disk of an entry in the home trash is the home, and that of an entry in a trash of
/// its own at the top of a filesystem is called by the name of that directory.
pub proof fn law_disk_name(top: Seq<u8>, n: Seq<u8>, trash: Seq<u8>, home: Seq<u8>)
    requires
        top.len() > 0,
        top[0] == 47,
        n.len() > 0,
        !n.contains(47),
        n != seq![46u8],
        n != seq![46u8, 46],
        trash.len() > 0,
        !trash.contains(47),
        trash != seq![46u8],
        trash != seq![46u8, 46],
    ensures
        same_path(top, home) ==> disk_name(top, home) == "home"@,
        !same_path(joined(joined(top, n), trash), home) ==> disk_name(
            joined(joined(top, n), trash),
            home,
        ) == lossy(n),
{
    law_entry(top, n, n);
    let d = joined(top, n);
    assert(d.len() > 0 && d[0] == 47);
    law_entry(d, trash, trash);
    let q = parent_of(joined(d, trash))->0;
    assert(name_of(q) == name_of(d));
}

/// Disks are told apart as soon as one entry lies outside the home trash.
pub proof fn law_several_disks(v: &Vec<TrashEntry>, home: &[u8], r: bool)
    requires
        call_ensures(several_disks, (v, home), r),
    ensures
        !r <==> forall|i: int| 0 <= i < v@.len() ==> same_path((#[trigger] v@[i]).trash_root@, home@),
{
}

/// A row of the list: the date to the minute, the size or a question mark, the id whole, and
/// the path in fifty bytes, or in forty beside the name of the disk.
pub proof fn law_list_row(e: &TrashEntry, home: &[u8], several: bool, path: &str, short: String, r: ListRow)
    requires
        call_ensures(list_row, (e, home, several), r),
        path@ == lossy(e.info.original_path@),
        call_ensures(
            truncate_path,
            (
                path,
                if several {
                    40usize
                } else {
                    50usize
                },
            ),
            short,
        ),
    ensures
        r.id@ == e.id@,
        r.path@ == short@,
        r.disk is Some <==> several,
        r.disk matches Some(d) ==> d@ == disk_name(e.trash_root@, home@),
        e.info.size is None ==> r.size@ == "?"@,
        r.date@ == crate::dates::date_text(
            "%Y-%m-%d %H:%M"@,
            e.info.deletion_date.secs + e.info.deletion_date.offset,
            e.info.deletion_date.nanos as int,
        ),
{
}

/// Entries are listed by what is recorded of their size, the largest first: none is lost,
/// none comes before a larger one, and one without a size counts as nothing.
pub proof fn law_largest_first(v: &Vec<TrashEntry>, r: Vec<Weighed>)
    requires
        call_ensures(largest_first, (v,), r),
        v@.len() <= usize::MAX,
    ensures
        r@.len() == v@.len(),
        forall|i: int, j: int|
            0 <= i < j < r@.len() ==> (#[trigger] r@[i]).size >= (#[trigger] r@[j]).size,
        forall|i: int|
            0 <= i < r@.len() ==> (#[trigger] r@[i]).at < v@.len() && r@[i].size == (
            match v@[r@[i].at as int].info.size {
                Some(s) => s,
                None => 0,
            }),
{
    let w = weighed(v@);
    law_sorted_permutation(r@, w);
    assert forall|i: int| 0 <= i < r@.len() implies (#[trigger] r@[i]).at < v@.len() && r@[i].size
        == (match v@[r@[i].at as int].info.size {
        Some(s) => s,
        None => 0,
    }) by {
        let x = r@[i];
        broadcast use vstd::seq_lib::group_to_multiset_ensures;
        assert(r@.contains(x));
        assert(r@.to_multiset().contains(x));
        assert(w.contains(x));
        let k = choose|k: int| 0 <= k < w.len() && w[k] == x;
        assert(w[k].at == k as usize);
    }
}

/// The sizes of entries together, without a limit.
pub open spec fn sum_of(sizes: Seq<Option<u64>>) -> int
    decreases sizes.len(),
{
    if sizes.len() == 0 {
        0
    } else {
        sum_of(sizes.drop_last()) + match sizes.last() {
            Some(s) => s as int,
            None => 0,
        }
    }
}

proof fn lemma_sum_positive(sizes: Seq<Option<u64>>)
    ensures
        sum_of(sizes) >= 0,
    decreases sizes.len(),
{
    if sizes.len() > 0 {
        lemma_sum_positive(sizes.drop_last());
    }
}

/// The total of entries is the sum of the recorded sizes, or the largest number where the
/// sum is larger than that.
pub proof fn law_totals(v: Seq<TrashEntry>)
    ensures
        recorded_total(v) == (if sum_of(v.map_values(|e: TrashEntry| e.info.size)) <= u64::MAX {
            sum_of(v.map_values(|e: TrashEntry| e.info.size))
        } else {
            u64::MAX as int
        }),
    decreases v.len(),
{
    let s = v.map_values(|e: TrashEntry| e.info.size);
    if v.len() > 0 {
        let w = v.drop_last();
        law_totals(w);
        assert(s.drop_last() =~= w.map_values(|e: TrashEntry| e.info.size));
        lemma_sum_positive(s.drop_last());
    }
}

/// The total of chosen entries is that of the entries in a list of their own.
pub proof fn law_chosen_total(v: Seq<TrashEntry>, at: Seq<usize>)
    requires
        forall|k: int| 0 <= k < at.len() ==> (#[trigger] at[k]) < v.len(),
    ensures
        chosen_total(v, at) == recorded_total(at.map_values(|i: usize| v[i as int])),
    decreases at.len(),
{
    if at.len() > 0 {
        let b = at.drop_last();
        assert forall|k: int| 0 <= k < b.len() implies (#[trigger] b[k]) < v.len() by {
            assert(b[k] == at[k]);
        }
        law_chosen_total(v, b);
        assert(at.map_values(|i: usize| v[i as int]).drop_last() =~= b.map_values(
            |i: usize| v[i as int],
        ));
    }
}

/// A destination that is taken is tried again with a dot and a number behind it.
pub proof fn law_renamed(path: &[u8], n: u32, r: Vec<u8>)
    requires
        call_ensures(renamed_path, (path, n), r),
    ensures
        r@ == path@ + encode_utf8("."@ + decimal(n as nat)),
{
}

/// The number that is taken is the smallest, counted from one, at which nothing stands.
pub proof fn law_free_number(taken: &Vec<bool>, r: Option<u32>)
    requires
        taken@.len() <= 1000,
        call_ensures(free_number, (taken,), r),
    ensures
        r is Some <==> taken@.contains(false),
        r matches Some(n) ==> 1 <= n <= taken@.len() && !taken@[n - 1] && forall|k: int|
            1 <= k < n ==> taken@[#[trigger] (k - 1)],
{
    if let Some(n) = r {
        assert(taken@[n - 1] == false);
        assert(taken@.contains(false));
    }
}

/// Only a file is compressed: one with a record, of at least a kilobyte, that is no frame
/// yet and was trashed so many days ago, to the nanosecond.
pub proof fn law_compressed(
    e: &TrashEntry,
    now: &Moment,
    days: u32,
    kind: Option<Kind>,
    len: u64,
    magic: bool,
    r: bool,
)
    requires
        call_ensures(compress_wanted, (e, now, days, kind, len, magic), r),
    ensures
        !(kind matches Some(k) && k is File) || e.orphaned || len < 1024 || magic ==> !r,
        days >= 1 && nanos_between(e.info.deletion_date, *now) < days * 86_400_000_000_000 ==> !r,
        (kind matches Some(k) && k is File) && !e.orphaned && len >= 1024 && !magic && nanos_between(
            e.info.deletion_date,
            *now,
        ) >= days * 86_400_000_000_000 ==> r,
{
    law_days_between(e.info.deletion_date, *now, days as int);
}

/// The step that is reached after `n` steps of compressing an entry.
pub open spec fn pack_course(goes_well: spec_fn(PackStep) -> bool, smaller: bool, n: nat) -> PackStep
    decreases n,
{
    if n == 0 {
        PackStep::Write
    } else {
        let s = pack_course(goes_well, smaller, (n - 1) as nat);
        pack_after(s, goes_well(s), smaller)
    }
}

/// How compressing ends: the data is compressed where a smaller frame was written, recorded
/// and put in its place; in every other course the data is as it was, what was written
/// is removed, and a record that was made is taken back.
pub proof fn law_pack_end(goes_well: spec_fn(PackStep) -> bool, smaller: bool, n: nat)
    requires
        n >= 5,
    ensures
        pack_course(goes_well, smaller, n) is Packed <==> smaller && goes_well(PackStep::Write)
            && goes_well(PackStep::Mark) && goes_well(PackStep::Swap),
        pack_course(goes_well, smaller, n) is Packed || pack_course(goes_well, smaller, n) is Left,
        pack_course(goes_well, smaller, n) is Left ==> {
            ||| pack_course(goes_well, smaller, 1) is Discard
            ||| pack_course(goes_well, smaller, 2) is Discard
            ||| pack_course(goes_well, smaller, 3) is Unmark && pack_course(
                goes_well,
                smaller,
                4,
            ) is Discard
        },
        smaller && goes_well(PackStep::Write) && goes_well(PackStep::Mark) && !goes_well(
            PackStep::Swap,
        ) ==> pack_course(goes_well, smaller, 3) is Unmark,
    decreases n,
{
    reveal_with_fuel(pack_course, 6);
    if n > 5 {
        law_pack_end(goes_well, smaller, (n - 1) as nat);
    }
}

/// What is wrong with a record, and what is done about it. A record without data is removed;
/// one that says nothing is told of, and its data stays; and nothing is done unasked.
pub proof fn law_record_repaired(
    has_data: bool,
    readable: bool,
    parses: bool,
    fix: bool,
    p: InfoProblem,
    r: Repair,
)
    requires
        call_ensures(info_problem, (has_data, readable, parses), p),
        call_ensures(repair_info, (p, fix), r),
    ensures
        p is NoData <==> !has_data,
        p is Corrupt <==> has_data && readable && !parses,
        p is Fine <==> has_data && (parses || !readable),
        !fix ==> r is Nothing,
        r is RemoveInfo <==> fix && !has_data,
        r is Report <==> fix && has_data && readable && !parses,
        !(r is RemoveData),
{
}

/// Data is removed only where it has no record, its removal was asked for, and it was
/// confirmed.
pub proof fn law_data_repaired(has_info: bool, fix: bool, confirmed: bool, r: Repair)
    requires
        call_ensures(repair_data, (has_info, fix, confirmed), r),
    ensures
        has_info || !fix || !confirmed ==> r is Nothing,
        !has_info && fix && confirmed ==> r is RemoveData,
{
}

/// A size that is not known is shown as a question mark, and one that is as any size.
pub proof fn law_shown_size(size: Option<u64>, r: String, known: String)
    requires
        call_ensures(shown_size, (size,), r),
        size matches Some(s) ==> call_ensures(format_size, (s,), known),
    ensures
        size is None ==> r@ == "?"@,
        size is Some ==> r@ == known@,
{
}

/// White space around a duration, and before its unit, does not count.
pub proof fn law_duration_spaced(a: Seq<char>, n: nat, b: Seq<char>, c: Seq<char>)
    requires
        blank(a),
        blank(b),
        blank(c),
    ensures
        duration_days(a + decimal(n) + c) == duration_days(decimal(n)),
        duration_days(a + decimal(n) + b + seq!['d'] + c) == duration_days(decimal(n)),
        duration_days(a + decimal(n) + b + seq!['w'] + c) == duration_days(decimal(n).push('w')),
{
    let d = decimal(n);
    lemma_decimal(n);
    assert(crate::text::is_digit(d[0]));
    assert(crate::text::is_digit(d[d.len() - 1]));
    let none: Seq<char> = seq![];
    lemma_trimmed(d);
    law_trim(a, d, c);
    law_trim(none, d, b);
    assert(none + d + b =~= d + b);
    lemma_trimmed(d.push('w'));
    assert(d.push('w').drop_last() =~= d);
    let x = d + b + seq!['d'];
    assert(a + d + b + seq!['d'] + c =~= a + x + c);
    assert(x[0] == d[0]);
    law_trim(a, x, c);
    assert(x.drop_last() =~= d + b);
    let y = d + b + seq!['w'];
    assert(a + d + b + seq!['w'] + c =~= a + y + c);
    assert(y[0] == d[0]);
    law_trim(a, y, c);
    assert(y.drop_last() =~= d + b);
}

/// White space around a time does not count.
pub proof fn law_time_spaced(a: Seq<char>, s: Seq<char>, b: Seq<char>)
    requires
        blank(a),
        blank(b),
        s.len() > 0,
        !is_whitespace(s[0]),
        !is_whitespace(s.last()),
    ensures
        reach_back(a + s + b) == reach_back(s),
        named_date(a + s + b) == named_date(s),
{
    law_trim(a, s, b);
}

/// From a leap second the time goes back as from the second behind it, and forth as from the
/// second before it; where it does not move it stays what it is.
pub proof fn law_from_leap_second(s: &str, now: &Moment, local: LocalTime, offset: i32, r: Option<Moment>)
    requires
        call_ensures(cutoff_from, (s, now, local, offset), r),
        1_000_000_000 <= now.nanos < 2_000_000_000,
    ensures
        reach_back(s@) matches Some(b) ==> (r matches Some(m) ==> {
            &&& b == 0 ==> m.secs == now.secs && m.nanos == now.nanos
            &&& b > 0 ==> m.secs == now.secs + 1 - b && m.nanos == now.nanos - 1_000_000_000
            &&& b < 0 ==> m.secs == now.secs - b && m.nanos == now.nanos - 1_000_000_000
        }),
{
}

/// The number of bytes that is shown is the nearest of those with 53 binary digits: itself
/// below two to the 53rd, and above that a multiple of a power of two that is as near.
pub proof fn law_nearest(n: nat)
    requires
        n <= u64::MAX,
    ensures
        n < 0x20_0000_0000_0000 ==> nearest(n) == n,
        n >= 0x20_0000_0000_0000 ==> ({
            let s = step_for(n, 1);
            &&& s >= 2 && s % 2 == 0
            &&& n < 0x20_0000_0000_0000 * s && n >= 0x10_0000_0000_0000 * s
            &&& nearest(n) % s == 0
            &&& -(s as int) <= 2 * (n - nearest(n)) <= s
        }),
{
    if n < 0x20_0000_0000_0000 {
        assert(step_for(n, 1) == 1);
        let q = rounded(n, 1);
        assert(q == n);
        assert(q * 1 == q) by (nonlinear_arith);
    } else {
        lemma_step(n, 1);
        let s = step_for(n, 1);
        lemma_rounded(n, s);
        let q = rounded(n, s);
        assert((q * s) % s == 0) by (nonlinear_arith)
            requires
                s > 0,
        ;
    }
}

proof fn lemma_step(n: nat, step: nat)
    requires
        n <= u64::MAX,
        1 <= step <= n,
        n >= 0x20_0000_0000_0000 * step,
    ensures
        step_for(n, step) >= 2 * step,
        step_for(n, step) % 2 == 0,
        n < 0x20_0000_0000_0000 * step_for(n, step),
        n >= 0x10_0000_0000_0000 * step_for(n, step),
    decreases n - step,
{
    let next = 2 * step;
    if n >= 0x20_0000_0000_0000 * next {
        lemma_step(n, next);
    } else {
        assert(step_for(n, next) == next);
    }
}

/// A size of any number of bytes is shown as the number with 53 binary digits that is nearest
/// to it.
pub proof fn law_large_size(bytes: u64, r: String)
    requires
        call_ensures(format_size, (bytes,), r),
        bytes >= 1_073_741_824,
    ensures
        exists|t: int|
            #[trigger] nearest_tenths(nearest(bytes as nat) as int, 1_073_741_824, t) && r@ == decimal(
                (t / 10) as nat,
            ) + "."@ + decimal((t % 10) as nat) + " GB"@,
{
    let b = nearest(bytes as nat);
    lemma_rounded(10 * b, 1_073_741_824);
    assert(nearest_tenths(b as int, 1_073_741_824, rounded(10 * b, 1_073_741_824) as int));
}

} // verus!
