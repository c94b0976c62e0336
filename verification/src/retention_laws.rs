//! What holds of the retention policy and of emptying the trash.

use crate::dates::Moment;
use crate::dates_laws::{law_days_between, nanos_between};
use crate::job::Kind;
use crate::path::same_path;
use crate::retention::{
    after_relief, after_trim, count_set, count_true, emptied, empty_filter, empty_selection, expired, freed_size, fresh, goes, held_size, law_chosen_go, numbers,
    place_of, purge_due, purge_notice, size_sum, status, status_size, staying, survivors, tallied, total, usage_parts, wants_compression, with_dir,
    Tally,
};
use crate::store::{ints, TrashEntry};
use crate::text::{decimal, lossy};
use vstd::prelude::*;

verus! {

/// With an age limit above zero an entry is purged exactly where so many whole days have
/// passed since it was trashed; nothing else of the entry counts, and a limit of zero
/// purges nothing.
pub proof fn law_expired(v: Vec<TrashEntry>, now: Moment, max_age_days: u32, r: Vec<bool>, i: int)
    requires
        call_ensures(expired, (&v, &now, max_age_days), r),
        0 <= i < v@.len(),
    ensures
        r@.len() == v@.len(),
        r@[i] <==> max_age_days > 0 && nanos_between(v@[i].info.deletion_date, now) >= max_age_days
            * 86_400_000_000_000,
{
    law_days_between(v@[i].info.deletion_date, now, max_age_days as int);
}

/// Two entries of one deletion date are both purged by age or both kept.
pub proof fn law_age_alone(v: Vec<TrashEntry>, now: Moment, max_age_days: u32, r: Vec<bool>, i: int, j: int)
    requires
        call_ensures(expired, (&v, &now, max_age_days), r),
        0 <= i < v@.len(),
        0 <= j < v@.len(),
        v@[i].info.deletion_date == v@[j].info.deletion_date,
    ensures
        r@[i] == r@[j],
{
}

/// The data of an entry is compressed exactly where the entry stays, has a record, is a
/// week old and was not compressed before, and its data is a file of 1 KB to 64 MB.
pub proof fn law_wants_compression(
    e: TrashEntry,
    now: Moment,
    gone: bool,
    kind: Option<Kind>,
    len: u64,
    r: bool,
)
    requires
        call_ensures(wants_compression, (&e, &now, gone, kind, len), r),
    ensures
        r <==> !gone && !e.orphaned && e.info.compressed is None && kind == Some(Kind::File) && 1024
            <= len <= 67_108_864 && nanos_between(e.info.deletion_date, now) >= 7
            * 86_400_000_000_000,
{
    law_days_between(e.info.deletion_date, now, 7);
}

/// A directory counts with what is recorded of its tree, where that is, and anything else
/// with what it takes itself, a link too; what has no data holds nothing, and frees what is
/// recorded of it.
pub proof fn law_counted_sizes(kind: Option<Kind>, len: u64, recorded: Option<u64>, held: u64, freed: u64)
    requires
        call_ensures(held_size, (kind, len, recorded), held),
        call_ensures(freed_size, (kind, len, recorded), freed),
    ensures
        kind is Some ==> held == freed,
        kind == Some(Kind::Dir) ==> (recorded matches Some(n) ==> held == n) && (recorded is None
            ==> held == len),
        kind is Some && kind != Some(Kind::Dir) ==> held == len,
        kind is None ==> held == 0 && (recorded matches Some(n) ==> freed == n) && (recorded is None
            ==> freed == 0),
{
}

/// The status shows what data takes, and what is recorded only where there is none.
pub proof fn law_status_size(len: Option<u64>, recorded: Option<u64>, r: u64)
    requires
        call_ensures(status_size, (len, recorded), r),
    ensures
        len matches Some(n) ==> r == n,
        len is None ==> (recorded matches Some(n) ==> r == n) && (recorded is None ==> r == 0),
{
}

/// The sizes that count: those of the entries that stay.
pub open spec fn kept_sizes(sizes: Seq<u64>, gone: Seq<bool>) -> Seq<int> {
    Seq::new(
        sizes.len(),
        |i: int|
            if gone[i] {
                0
            } else {
                sizes[i] as int
            },
    )
}

/// What stays is the sum of the sizes of what is not gone.
pub proof fn law_staying(sizes: Seq<u64>, gone: Seq<bool>)
    requires
        sizes.len() == gone.len(),
    ensures
        staying(sizes, gone, 0) == total(kept_sizes(sizes, gone)),
{
    lemma_staying_from(sizes, gone, 0);
    let k = kept_sizes(sizes, gone);
    assert(k.skip(0) =~= k);
}

proof fn lemma_staying_from(sizes: Seq<u64>, gone: Seq<bool>, i: int)
    requires
        sizes.len() == gone.len(),
        0 <= i <= sizes.len(),
    ensures
        staying(sizes, gone, i) == total(kept_sizes(sizes, gone).skip(i)),
    decreases sizes.len() - i,
{
    let k = kept_sizes(sizes, gone);
    if i < sizes.len() {
        lemma_staying_from(sizes, gone, i + 1);
        lemma_total_first(k.skip(i));
        assert(k.skip(i).drop_first() =~= k.skip(i + 1));
    }
}

proof fn lemma_total_first(v: Seq<int>)
    requires
        v.len() > 0,
    ensures
        total(v) == v[0] + total(v.drop_first()),
    decreases v.len(),
{
    if v.len() == 1 {
        assert(v.drop_last() =~= seq![]);
        assert(v.drop_first() =~= seq![]);
    } else {
        lemma_total_first(v.drop_last());
        assert(v.drop_first().drop_last() =~= v.drop_last().drop_first());
    }
}

/// A size limit purges the oldest entries first and no more than it takes: an entry that
/// was there goes exactly where there is a limit and what the older ones free does not
/// bring what is held down to it.
pub proof fn law_trimmed(held: Seq<u64>, freed: Seq<u64>, gone: Seq<bool>, max_bytes: u64, i: int)
    requires
        held.len() == gone.len(),
        freed.len() == gone.len(),
        0 <= i < gone.len(),
    ensures
        ({
            let r = after_trim(held, freed, gone, max_bytes);
            let older = total(kept_sizes(freed, gone).skip(i + 1));
            let all = total(kept_sizes(held, gone));
            &&& r.len() == gone.len()
            &&& gone[i] ==> r[i]
            &&& !gone[i] ==> (r[i] <==> max_bytes != 0 && all - older > max_bytes)
        }),
{
    lemma_staying_from(freed, gone, i + 1);
    law_staying(held, gone);
}

/// How many of a list of flags are not set.
pub open spec fn unset(v: Seq<bool>) -> nat {
    v.filter(|g: bool| !g).len()
}

proof fn lemma_survivors(gone: Seq<bool>, i: int)
    requires
        0 <= i <= gone.len(),
    ensures
        survivors(gone, i) == unset(gone.skip(i)),
    decreases gone.len() - i,
{
    let p = |g: bool| !g;
    if i < gone.len() {
        lemma_survivors(gone, i + 1);
        assert(gone.skip(i) =~= seq![gone[i]] + gone.skip(i + 1));
        gone.skip(i + 1).lemma_filter_prepend(gone[i], p);
    } else {
        reveal(Seq::filter);
        assert(gone.skip(i) =~= seq![]);
        assert(gone.skip(i).filter(p) =~= seq![]);
    }
}

/// A full disk costs the oldest tenth of the entries that are left, rounded down, and at
/// least one; a disk that is not full costs none.
pub proof fn law_relieved(gone: Seq<bool>, full: bool, i: int)
    requires
        0 <= i < gone.len(),
    ensures
        ({
            let r = after_relief(gone, full);
            let left = unset(gone);
            let older = unset(gone.skip(i + 1));
            &&& r.len() == gone.len()
            &&& gone[i] ==> r[i]
            &&& !gone[i] ==> (r[i] <==> full && (older == 0 || older < left / 10))
        }),
{
    lemma_survivors(gone, 0);
    lemma_survivors(gone, i + 1);
    assert(gone.skip(0) =~= gone);
}

/// The policy is applied again once its interval is over, at once where it has none, and
/// where it is not known when it last was.
pub proof fn law_purge_due(interval: u64, elapsed: Option<u64>, r: bool)
    requires
        call_ensures(purge_due, (interval, elapsed), r),
    ensures
        !r <==> interval != 0 && (elapsed matches Some(e) && e < interval),
{
}

/// What emptying removes: all, or what has so many whole days.
pub proof fn law_goes(date: Moment, now: Moment, days: u32)
    ensures
        goes(date, now, None),
        days >= 1 ==> (goes(date, now, Some(days)) <==> nanos_between(date, now) >= days
            * 86_400_000_000_000),
        goes(date, now, Some(0)) <==> nanos_between(date, now) > -86_400_000_000_000,
{
    law_days_between(date, now, days as int);
}

/// How many flags are set.
pub proof fn law_count_set(v: Vec<bool>, r: u64)
    requires
        call_ensures(count_set, (&v,), r),
    ensures
        r == v@.filter(|g: bool| g).len(),
{
    lemma_count_true(v@);
}

proof fn lemma_count_true(v: Seq<bool>)
    ensures
        count_true(v) == v.filter(|g: bool| g).len(),
    decreases v.len(),
{
    reveal(Seq::filter);
    if v.len() > 0 {
        lemma_count_true(v.drop_last());
    }
}

/// The size of the whole is the sum of the sizes, or the largest number where that is
/// larger; and its count is how many there are.
pub proof fn law_status(sizes: Vec<u64>, r: (u64, usize))
    requires
        call_ensures(status, (&sizes,), r),
    ensures
        total(numbers(sizes@)) <= u64::MAX ==> r.0 == total(numbers(sizes@)),
        total(numbers(sizes@)) > u64::MAX ==> r.0 == u64::MAX,
        r.1 == sizes@.len(),
{
    lemma_size_sum(sizes@);
}

proof fn lemma_size_sum(sizes: Seq<u64>)
    ensures
        total(numbers(sizes)) <= u64::MAX ==> size_sum(sizes) == total(numbers(sizes)),
        total(numbers(sizes)) > u64::MAX ==> size_sum(sizes) == u64::MAX,
        total(numbers(sizes)) >= 0,
    decreases sizes.len(),
{
    if sizes.len() > 0 {
        lemma_size_sum(sizes.drop_last());
        assert(numbers(sizes).drop_last() =~= numbers(sizes.drop_last()));
    }
}

/// What is told of a purge, and what the log says of the age that was asked for.
pub proof fn law_told_of_purge(count: u64, notice: String, days: Option<u32>, filter: Option<String>)
    requires
        call_ensures(purge_notice, (count,), notice),
        call_ensures(empty_filter, (days,), filter),
    ensures
        count == 1 ==> notice@ =~= decimal(1) + " item"@ + " permanently deleted by retention policy"@,
        count != 1 ==> notice@ =~= decimal(count as nat) + " item"@ + "s"@
            + " permanently deleted by retention policy"@,
        filter is Some <==> days is Some,
        days matches Some(d) ==> filter->0@ == "older than "@ + decimal(d as nat) + "d"@,
{
}

/// How full a filesystem is: what is not free is used, and the whole is that with what a user
/// can have; nothing is said where the counts make no sense.
pub proof fn law_usage(blocks: u64, free: u64, available: u64, r: Option<(u64, u64)>)
    requires
        call_ensures(usage_parts, (blocks, free, available), r),
    ensures
        r is Some <==> blocks > 0 && free <= blocks && 0 < blocks - free + available <= u64::MAX,
        r matches Some(u) ==> u.0 == blocks - free && u.1 == blocks - free + available,
{
}

proof fn lemma_place(v: Seq<Tally>, dir: Seq<u8>, i: int)
    requires
        0 <= i <= v.len(),
    ensures
        i <= place_of(v, dir, i) <= v.len(),
        place_of(v, dir, i) < v.len() ==> same_path(v[place_of(v, dir, i)].trash_dir, dir),
        forall|k: int| i <= k < place_of(v, dir, i) ==> !same_path((#[trigger] v[k]).trash_dir, dir),
    decreases v.len() - i,
{
    if i < v.len() && !same_path(v[i].trash_dir, dir) {
        lemma_place(v, dir, i + 1);
    }
}

/// One more item counts for its own directory, with its size, and for no other; a directory
/// that was not in the list is put at its end, by its path.
pub proof fn law_item_tallied(
    dirs: Seq<(Seq<u8>, Seq<char>)>,
    roots: Seq<Seq<u8>>,
    sizes: Seq<u64>,
    root: Seq<u8>,
    size: u64,
)
    requires
        roots.len() == sizes.len(),
    ensures
        ({
            let v = tallied(dirs, roots, sizes);
            let w = tallied(dirs, roots.push(root), sizes.push(size));
            &&& v.len() <= w.len() <= v.len() + 1
            &&& w.len() == v.len() + 1 <==> forall|k: int|
                0 <= k < v.len() ==> !same_path((#[trigger] v[k]).trash_dir, root)
            &&& w.len() == v.len() + 1 ==> w.last() == (Tally {
                trash_dir: root,
                label: lossy(root),
                total_size: size,
                count: 1,
            })
            &&& forall|k: int|
                0 <= k < v.len() ==> (#[trigger] w[k]).trash_dir == v[k].trash_dir && w[k].label
                    == v[k].label && (w[k] == v[k] || (same_path(v[k].trash_dir, root) && w[k].count
                    == (v[k].count + 1) as usize && w[k].total_size == (if v[k].total_size + size
                    <= u64::MAX {
                    (v[k].total_size + size) as u64
                } else {
                    u64::MAX
                })))
            &&& w.len() == v.len() ==> exists|k: int|
                0 <= k < v.len() && same_path((#[trigger] v[k]).trash_dir, root) && w[k].count == (
                v[k].count + 1) as usize
        }),
{
    let v = tallied(dirs, roots, sizes);
    let w = tallied(dirs, roots.push(root), sizes.push(size));
    assert(roots.push(root).drop_last() =~= roots);
    assert(sizes.push(size).drop_last() =~= sizes);
    lemma_place(v, root, 0);
    let d = with_dir(v, root, lossy(root));
    lemma_place(d, root, 0);
    let p = place_of(v, root, 0);
    if p < v.len() {
        assert(d == v);
        assert(w[p].count == (v[p].count + 1) as usize);
    } else {
        assert(d[v.len() as int].trash_dir == root);
        assert(place_of(d, root, 0) == v.len()) by {
            let q = place_of(d, root, 0);
            if q < v.len() {
                assert(d[q] == v[q]);
            }
            if q > v.len() {
                assert(same_path(d[v.len() as int].trash_dir, root));
            }
        }
    }
}

/// Before anything is counted, every directory is there once, by its name and empty.
pub proof fn law_fresh(dirs: Seq<(Seq<u8>, Seq<char>)>, dir: Seq<u8>, label: Seq<char>)
    ensures
        tallied(dirs, seq![], seq![]) == fresh(dirs),
        fresh(seq![]).len() == 0,
        (exists|k: int| 0 <= k < fresh(dirs).len() && same_path((#[trigger] fresh(dirs)[k]).trash_dir, dir))
            ==> fresh(dirs.push((dir, label))) == fresh(dirs),
        (forall|k: int|
            0 <= k < fresh(dirs).len() ==> !same_path((#[trigger] fresh(dirs)[k]).trash_dir, dir))
            ==> fresh(dirs.push((dir, label))) == fresh(dirs).push(
            Tally { trash_dir: dir, label, total_size: 0, count: 0 },
        ),
{
    let v = fresh(dirs);
    assert(dirs.push((dir, label)).drop_last() =~= dirs);
    lemma_place(v, dir, 0);
}

/// The entries that emptying removes, by their positions: all of them without an age, and
/// with one those that are so old, to the nanosecond.
pub proof fn law_selected(v: &Vec<TrashEntry>, now: &Moment, days: Option<u32>, r: Vec<usize>, i: usize)
    requires
        call_ensures(empty_selection, (v, now, days), r),
        i < v@.len(),
    ensures
        days is None ==> r@.contains(i),
        days matches Some(d) ==> d >= 1 ==> (r@.contains(i) <==> nanos_between(
            v@[i as int].info.deletion_date,
            *now,
        ) >= d * 86_400_000_000_000),
        r@.contains(i) <==> goes(v@[i as int].info.deletion_date, *now, days),
{
    let e = emptied(v@, *now, days);
    law_chosen_go(v@, *now, days);
    assert(e == ints(r@));
    if r@.contains(i) {
        let k = choose|k: int| 0 <= k < r@.len() && r@[k] == i;
        assert(ints(r@)[k] == i as int);
        assert(e.contains(i as int));
    }
    if e.contains(i as int) {
        let k = choose|k: int| 0 <= k < e.len() && e[k] == i as int;
        assert(r@[k] as int == e[k]);
        assert(r@[k] == i);
        assert(r@.contains(i));
    }
    if let Some(d) = days {
        law_goes(v@[i as int].info.deletion_date, *now, d);
    }
    assert(e.contains(i as int) <==> goes(v@[i as int].info.deletion_date, *now, days));
}

} // verus!
