//! The retention policy: what is purged, what is compressed, and how much there is.

use crate::dates::{age_days, days_between, Moment};
use crate::job::Kind;
use crate::path::{path_eq, same_path};
use crate::seqs::to_vec;
use crate::sorting::{law_sorted_permutation, sort, sorted_from, Ranked};
use crate::store::{entries, ints, Entry, TrashEntry};
use crate::text::{decimal, lossy, push_decimal, push_text, text_lossy};
use vstd::prelude::*;

verus! {

/// Whether the policy is applied again, from the seconds since it last was.
pub fn purge_due(interval_secs: u64, elapsed_secs: Option<u64>) -> (r: bool)
    ensures
        r == (interval_secs == 0 || match elapsed_secs {
            Some(e) => e >= interval_secs,
            None => true,
        }),
{
    interval_secs == 0 || match elapsed_secs {
        Some(e) => e >= interval_secs,
        None => true,
    }
}

/// The size that an entry has on disk, without following a link: what is recorded of a
/// directory's tree, and what the data itself has otherwise.
pub open spec fn on_disk(kind: Kind, len: u64, recorded: Option<u64>) -> u64 {
    if kind == Kind::Dir {
        recorded.unwrap_or(len)
    } else {
        len
    }
}

/// The size that an entry adds to the size of the trash; none where its data is gone.
pub fn held_size(kind: Option<Kind>, len: u64, recorded: Option<u64>) -> (r: u64)
    ensures
        r == (match kind {
            Some(k) => on_disk(k, len, recorded),
            None => 0,
        }),
{
    match kind {
        Some(Kind::Dir) => recorded.unwrap_or(len),
        Some(_) => len,
        None => 0,
    }
}

/// The size that purging an entry is taken to free; what is recorded where its data is
/// gone.
pub fn freed_size(kind: Option<Kind>, len: u64, recorded: Option<u64>) -> (r: u64)
    ensures
        r == (match kind {
            Some(k) => on_disk(k, len, recorded),
            None => recorded.unwrap_or(0),
        }),
{
    match kind {
        Some(Kind::Dir) => recorded.unwrap_or(len),
        Some(_) => len,
        None => recorded.unwrap_or(0),
    }
}

/// The size that the status shows of an entry: that of what its data leads to, or what is
/// recorded where that is gone.
pub fn status_size(len: Option<u64>, recorded: Option<u64>) -> (r: u64)
    ensures
        r == (match len {
            Some(n) => n,
            None => recorded.unwrap_or(0),
        }),
{
    match len {
        Some(n) => n,
        None => recorded.unwrap_or(0),
    }
}

/// An entry is as old as an age in days.
pub open spec fn aged(date: Moment, now: Moment, days: int) -> bool {
    days_between(date, now) >= days
}

/// Which entries are gone once an age limit was applied; a limit of zero purges none.
pub open spec fn after_age(v: Seq<TrashEntry>, now: Moment, max_age_days: u32) -> Seq<bool> {
    Seq::new(
        v.len(),
        |i: int|
            max_age_days > 0 && aged(v[i].info.deletion_date, now, max_age_days as int),
    )
}

/// Which entries an age limit purges; a limit of zero purges none.
pub fn expired(v: &Vec<TrashEntry>, now: &Moment, max_age_days: u32) -> (r: Vec<bool>)
    ensures
        r@ == after_age(v@, *now, max_age_days),
{
    let mut r: Vec<bool> = Vec::new();
    let mut i: usize = 0;
    while i < v.len()
        invariant
            i <= v@.len(),
            r@.len() == i,
            forall|k: int|
                0 <= k < i ==> #[trigger] r@[k] == (max_age_days > 0 && aged(
                    v@[k].info.deletion_date,
                    *now,
                    max_age_days as int,
                )),
        decreases v@.len() - i,
    {
        let old: bool = max_age_days > 0 && age_days(&v[i].info.deletion_date, now)
            >= max_age_days as i64;
        r.push(old);
        i += 1;
    }
    assert(r@ =~= after_age(v@, *now, max_age_days));
    r
}

pub const COMPRESS_AGE_DAYS: i64 = 7;

pub const COMPRESS_MIN_BYTES: u64 = 1024;

pub const COMPRESS_MAX_BYTES: u64 = 67_108_864;

/// Whether the policy compresses the data of an entry that stays: that of a file of some
/// size, which is a week old, has a record, and was not compressed before.
pub fn wants_compression(
    e: &TrashEntry,
    now: &Moment,
    gone: bool,
    kind: Option<Kind>,
    len: u64,
) -> (r: bool)
    ensures
        r == (!gone && !e.orphaned && aged(
            e.info.deletion_date,
            *now,
            COMPRESS_AGE_DAYS as int,
        ) && e.info.compressed is None && kind == Some(Kind::File) && COMPRESS_MIN_BYTES <= len
            <= COMPRESS_MAX_BYTES),
{
    let file: bool = match kind {
        Some(Kind::File) => true,
        _ => false,
    };
    !gone && !e.orphaned && age_days(&e.info.deletion_date, now) >= COMPRESS_AGE_DAYS
        && e.info.compressed.is_none() && file && COMPRESS_MIN_BYTES <= len && len
        <= COMPRESS_MAX_BYTES
}

/// The sizes of the entries from `i` on that stay.
pub open spec fn staying(sizes: Seq<u64>, gone: Seq<bool>, i: int) -> nat
    decreases sizes.len() - i,
{
    if i < 0 || i >= sizes.len() {
        0
    } else {
        staying(sizes, gone, i + 1) + (if gone[i] {
            0
        } else {
            sizes[i] as nat
        })
    }
}

/// How many entries from `i` on stay.
pub open spec fn survivors(gone: Seq<bool>, i: int) -> nat
    decreases gone.len() - i,
{
    if i < 0 || i >= gone.len() {
        0
    } else {
        survivors(gone, i + 1) + (if gone[i] {
            0nat
        } else {
            1nat
        })
    }
}

proof fn lemma_staying_bound(sizes: Seq<u64>, gone: Seq<bool>, i: int)
    requires
        0 <= i <= sizes.len(),
    ensures
        staying(sizes, gone, i) <= (sizes.len() - i) * (u64::MAX as int),
    decreases sizes.len() - i,
{
    if i < sizes.len() {
        lemma_staying_bound(sizes, gone, i + 1);
        assert((sizes.len() - i) * (u64::MAX as int) == (sizes.len() - i - 1) * (u64::MAX as int)
            + u64::MAX) by (nonlinear_arith);
    }
}

proof fn lemma_survivors_bound(gone: Seq<bool>, i: int)
    requires
        0 <= i <= gone.len(),
    ensures
        survivors(gone, i) <= gone.len() - i,
    decreases gone.len() - i,
{
    if i < gone.len() {
        lemma_survivors_bound(gone, i + 1);
    }
}

/// The size of all entries that stay.
fn total_staying(sizes: &Vec<u64>, gone: &Vec<bool>) -> (r: u128)
    requires
        sizes@.len() == gone@.len(),
    ensures
        r == staying(sizes@, gone@, 0),
{
    let n: usize = sizes.len();
    let mut total: u128 = 0;
    let mut i: usize = n;
    while i > 0
        invariant
            i <= n,
            n == sizes@.len(),
            n == gone@.len(),
            total == staying(sizes@, gone@, i as int),
        decreases i,
    {
        i -= 1;
        proof {
            lemma_staying_bound(sizes@, gone@, i as int);
            assert((n - i) * (u64::MAX as int) <= u64::MAX * u64::MAX) by (nonlinear_arith)
                requires
                    0 <= n - i <= u64::MAX,
            ;
        }
        if !gone[i] {
            total = total + sizes[i] as u128;
        }
    }
    total
}

/// Which entries are gone once a size limit was applied to a list with the newest first:
/// besides those that were, an entry goes as long as what is older than it does not free
/// enough. A limit of zero purges none.
pub open spec fn after_trim(
    held: Seq<u64>,
    freed: Seq<u64>,
    gone: Seq<bool>,
    max_bytes: u64,
) -> Seq<bool> {
    Seq::new(
        gone.len(),
        |i: int|
            gone[i] || (max_bytes > 0 && staying(freed, gone, i + 1) + max_bytes < staying(
                held,
                gone,
                0,
            )),
    )
}

/// Which entries are gone once a size limit was applied to a list with the newest first,
/// from what each holds and what purging it frees.
pub fn trimmed(held: &Vec<u64>, freed: &Vec<u64>, gone: &Vec<bool>, max_bytes: u64) -> (r: Vec<bool>)
    requires
        held@.len() == gone@.len(),
        freed@.len() == gone@.len(),
    ensures
        r@ == after_trim(held@, freed@, gone@, max_bytes),
{
    let total: u128 = total_staying(held, gone);
    let n: usize = freed.len();
    let mut r: Vec<bool> = Vec::new();
    let mut i: usize = 0;
    while i < n
        invariant
            i <= n,
            n == gone@.len(),
            r@.len() == i,
            forall|k: int| 0 <= k < i ==> r@[k] == gone@[k],
        decreases n - i,
    {
        r.push(gone[i]);
        i += 1;
    }
    if max_bytes == 0 {
        assert(r@ =~= after_trim(held@, freed@, gone@, max_bytes));
        return r;
    }
    let mut older: u128 = 0;
    let mut j: usize = n;
    while j > 0
        invariant
            j <= n,
            n == freed@.len(),
            n == gone@.len(),
            r@.len() == n,
            max_bytes > 0,
            total == staying(held@, gone@, 0),
            older == staying(freed@, gone@, j as int),
            forall|k: int| 0 <= k < j ==> r@[k] == gone@[k],
            forall|k: int|
                j <= k < n ==> #[trigger] r@[k] == (gone@[k] || (max_bytes > 0 && staying(
                    freed@,
                    gone@,
                    k + 1,
                ) + max_bytes < staying(held@, gone@, 0))),
        decreases j,
    {
        j -= 1;
        proof {
            lemma_staying_bound(freed@, gone@, j as int);
            assert((n - j) * (u64::MAX as int) <= u64::MAX * u64::MAX) by (nonlinear_arith)
                requires
                    0 <= n - j <= u64::MAX,
            ;
            lemma_staying_bound(freed@, gone@, j + 1);
            assert((n - j - 1) * (u64::MAX as int) <= u64::MAX * u64::MAX) by (nonlinear_arith)
                requires
                    0 <= n - j - 1 <= u64::MAX,
            ;
        }
        if !gone[j] {
            if older + (max_bytes as u128) < total {
                r.set(j, true);
            }
            older = older + freed[j] as u128;
        }
    }
    assert(r@ =~= after_trim(held@, freed@, gone@, max_bytes));
    r
}

/// How many entries a full disk costs: a tenth of those that stay, and at least one.
pub open spec fn tithe(n: nat) -> nat {
    if n / 10 > 1 {
        n / 10
    } else {
        1
    }
}

/// Which entries are gone once a full disk was relieved, in a list with the newest first:
/// besides those that were, the oldest tenth of those that stay, and at least one.
pub open spec fn after_relief(gone: Seq<bool>, full: bool) -> Seq<bool> {
    Seq::new(
        gone.len(),
        |i: int| gone[i] || (full && survivors(gone, i + 1) < tithe(survivors(gone, 0))),
    )
}

/// Which entries are gone once a full disk was relieved, in a list with the newest first.
pub fn relieved(gone: &Vec<bool>, full: bool) -> (r: Vec<bool>)
    ensures
        r@ == after_relief(gone@, full),
{
    let n: usize = gone.len();
    let mut alive: usize = 0;
    let mut r: Vec<bool> = Vec::new();
    let mut i: usize = 0;
    while i < n
        invariant
            i <= n,
            n == gone@.len(),
            r@.len() == i,
            forall|k: int| 0 <= k < i ==> r@[k] == gone@[k],
        decreases n - i,
    {
        r.push(gone[i]);
        i += 1;
    }
    if !full {
        assert(r@ =~= after_relief(gone@, full));
        return r;
    }
    let mut c: usize = n;
    while c > 0
        invariant
            c <= n,
            n == gone@.len(),
            alive == survivors(gone@, c as int),
            alive <= n - c,
        decreases c,
    {
        c -= 1;
        if !gone[c] {
            alive += 1;
        }
    }
    let quota: usize = if alive / 10 > 1 {
        alive / 10
    } else {
        1
    };
    let mut taken: usize = 0;
    let mut j: usize = n;
    while j > 0
        invariant
            j <= n,
            n == gone@.len(),
            r@.len() == n,
            full,
            quota == tithe(survivors(gone@, 0)),
            taken == survivors(gone@, j as int),
            taken <= n - j,
            forall|k: int| 0 <= k < j ==> r@[k] == gone@[k],
            forall|k: int|
                j <= k < n ==> #[trigger] r@[k] == (gone@[k] || (full && survivors(gone@, k + 1)
                    < tithe(survivors(gone@, 0)))),
        decreases j,
    {
        j -= 1;
        if !gone[j] {
            if taken < quota {
                r.set(j, true);
            }
            taken += 1;
        }
    }
    assert(r@ =~= after_relief(gone@, full));
    r
}

/// With the limits of age and size at zero, and no full disk to relieve, nothing is
/// purged, whatever the entries are.
pub proof fn law_no_limits_no_purge(
    v: Seq<TrashEntry>,
    now: Moment,
    held: Seq<u64>,
    freed: Seq<u64>,
    i: int,
)
    requires
        0 <= i < v.len(),
    ensures
        !after_relief(after_trim(held, freed, after_age(v, now, 0), 0), false)[i],
{
}

/// What the policy purged stays purged: each limit only adds to what is gone.
pub proof fn law_limits_add(
    held: Seq<u64>,
    freed: Seq<u64>,
    gone: Seq<bool>,
    max_bytes: u64,
    full: bool,
    i: int,
)
    requires
        0 <= i < gone.len(),
        gone[i],
    ensures
        after_relief(after_trim(held, freed, gone, max_bytes), full)[i],
{
}

/// Where a limit purges an entry it purges every older one, too.
pub proof fn law_oldest_go_first(
    held: Seq<u64>,
    freed: Seq<u64>,
    gone: Seq<bool>,
    max_bytes: u64,
    full: bool,
    i: int,
    j: int,
)
    requires
        held.len() == gone.len(),
        freed.len() == gone.len(),
        0 <= i < j < gone.len(),
        !gone[i],
    ensures
        after_trim(held, freed, gone, max_bytes)[i] ==> after_trim(held, freed, gone, max_bytes)[j],
        after_relief(gone, full)[i] ==> after_relief(gone, full)[j],
{
    lemma_staying_mono(freed, gone, i + 1, j + 1);
    lemma_survivors_mono(gone, i + 1, j + 1);
}

/// A size limit that is kept purges nothing.
pub proof fn law_within_limit_nothing_goes(
    held: Seq<u64>,
    freed: Seq<u64>,
    gone: Seq<bool>,
    max: u64,
)
    requires
        staying(held, gone, 0) <= max,
    ensures
        after_trim(held, freed, gone, max) == gone,
{
    assert(after_trim(held, freed, gone, max) =~= gone);
}

proof fn lemma_staying_mono(sizes: Seq<u64>, gone: Seq<bool>, i: int, j: int)
    requires
        0 <= i <= j,
    ensures
        staying(sizes, gone, j) <= staying(sizes, gone, i),
    decreases j - i,
{
    if i < j {
        lemma_staying_mono(sizes, gone, i + 1, j);
    }
}

proof fn lemma_survivors_mono(gone: Seq<bool>, i: int, j: int)
    requires
        0 <= i <= j,
    ensures
        survivors(gone, j) <= survivors(gone, i),
    decreases j - i,
{
    if i < j {
        lemma_survivors_mono(gone, i + 1, j);
    }
}

/// What a size limit leaves fits in it, where purging each entry frees what it holds.
pub proof fn law_trim_is_enough(held: Seq<u64>, freed: Seq<u64>, gone: Seq<bool>, max: u64)
    requires
        held.len() == gone.len(),
        freed.len() == gone.len(),
        forall|i: int| 0 <= i < gone.len() && !gone[i] ==> #[trigger] freed[i] == held[i],
        max > 0,
    ensures
        staying(held, after_trim(held, freed, gone, max), 0) <= max,
{
    lemma_trim_part(held, freed, gone, max, 0);
}

proof fn lemma_trim_part(held: Seq<u64>, freed: Seq<u64>, gone: Seq<bool>, max: u64, i: int)
    requires
        held.len() == gone.len(),
        freed.len() == gone.len(),
        forall|k: int| 0 <= k < gone.len() && !gone[k] ==> #[trigger] freed[k] == held[k],
        0 <= i <= held.len(),
        max > 0,
    ensures
        staying(freed, gone, i) == staying(held, gone, i),
        staying(held, gone, i) + max < staying(held, gone, 0) ==> staying(
            held,
            after_trim(held, freed, gone, max),
            i,
        ) == 0,
        staying(held, gone, i) + max >= staying(held, gone, 0) ==> staying(
            held,
            after_trim(held, freed, gone, max),
            i,
        ) + staying(held, gone, 0) <= staying(held, gone, i) + max,
    decreases held.len() - i,
{
    if i < held.len() {
        lemma_trim_part(held, freed, gone, max, i + 1);
        lemma_staying_mono(held, gone, i, i + 1);
        if !gone[i] {
            assert(freed[i] == held[i]);
        }
    }
}

/// Used blocks and blocks that a user can have, from the counts of a filesystem.
pub fn usage_parts(blocks: u64, free: u64, available: u64) -> (r: Option<(u64, u64)>)
    ensures
        match r {
            Some((used, total)) => blocks > 0 && free <= blocks && used == blocks - free && total
                == used + available && total > 0,
            None => blocks == 0 || free > blocks || blocks - free + available == 0 || blocks - free
                + available > u64::MAX,
        },
{
    if blocks == 0 || free > blocks {
        return None;
    }
    let used: u64 = blocks - free;
    match used.checked_add(available) {
        Some(total) => {
            if total == 0 {
                None
            } else {
                Some((used, total))
            }
        },
        None => None,
    }
}

/// How many of a list of flags are set.
pub open spec fn count_true(v: Seq<bool>) -> nat
    decreases v.len(),
{
    if v.len() == 0 {
        0
    } else {
        count_true(v.drop_last()) + (if v.last() {
            1nat
        } else {
            0nat
        })
    }
}

/// How many of a list of flags are set.
pub fn count_set(v: &Vec<bool>) -> (r: u64)
    ensures
        r == count_true(v@),
{
    let mut c: usize = 0;
    let mut i: usize = 0;
    assert(v@.take(0) =~= seq![]);
    while i < v.len()
        invariant
            i <= v@.len(),
            c <= i,
            c == count_true(v@.take(i as int)),
        decreases v@.len() - i,
    {
        assert(v@.take(i + 1).drop_last() =~= v@.take(i as int));
        if v[i] {
            c += 1;
        }
        i += 1;
    }
    assert(v@.take(i as int) =~= v@);
    c as u64
}

/// What is told of a purge by the policy.
pub fn purge_notice(count: u64) -> (r: String)
    ensures
        r@ == decimal(count as nat) + " item"@ + (if count == 1 {
            seq![]
        } else {
            "s"@
        }) + " permanently deleted by retention policy"@,
{
    let mut r: String = String::new();
    push_decimal(&mut r, count);
    push_text(&mut r, " item");
    if count != 1 {
        push_text(&mut r, "s");
    }
    push_text(&mut r, " permanently deleted by retention policy");
    assert(r@ =~= decimal(count as nat) + " item"@ + (if count == 1 {
        seq![]
    } else {
        "s"@
    }) + " permanently deleted by retention policy"@);
    r
}

/// Emptying the trash removes what was trashed at a date: all, or what has an age.
pub open spec fn goes(date: Moment, now: Moment, days: Option<u32>) -> bool {
    match days {
        Some(d) => aged(date, now, d as int),
        None => true,
    }
}

/// The positions of the entries that emptying the trash removes.
pub open spec fn emptied(v: Seq<TrashEntry>, now: Moment, days: Option<u32>) -> Seq<int>
    decreases v.len(),
{
    if v.len() == 0 {
        seq![]
    } else {
        let r = emptied(v.drop_last(), now, days);
        if goes(v.last().info.deletion_date, now, days) {
            r.push(v.len() - 1)
        } else {
            r
        }
    }
}

/// The positions of the entries that emptying the trash removes: all, or those of an age.
pub fn empty_selection(v: &Vec<TrashEntry>, now: &Moment, days: Option<u32>) -> (r: Vec<usize>)
    ensures
        ints(r@) == emptied(v@, *now, days),
        forall|k: int| 0 <= k < r@.len() ==> (#[trigger] r@[k]) < v@.len(),
{
    let mut r: Vec<usize> = Vec::new();
    let mut i: usize = 0;
    assert(v@.take(0) =~= seq![]);
    assert(ints(r@) =~= emptied(v@.take(0), *now, days));
    while i < v.len()
        invariant
            i <= v@.len(),
            ints(r@) == emptied(v@.take(i as int), *now, days),
            forall|k: int| 0 <= k < r@.len() ==> (#[trigger] r@[k]) < v@.len(),
        decreases v@.len() - i,
    {
        assert(v@.take(i + 1).drop_last() =~= v@.take(i as int));
        let keep: bool = match days {
            Some(d) => age_days(&v[i].info.deletion_date, now) < d as i64,
            None => false,
        };
        if !keep {
            let ghost before = r@;
            r.push(i);
            assert(ints(r@) =~= ints(before).push(i as int));
        }
        i += 1;
    }
    assert(v@.take(i as int) =~= v@);
    r
}

/// Emptying the trash chooses each entry that goes, once.
pub proof fn law_chosen_go(v: Seq<TrashEntry>, now: Moment, days: Option<u32>)
    ensures
        forall|i: int| #[trigger]
            emptied(v, now, days).contains(i) <==> 0 <= i < v.len() && goes(
                v[i].info.deletion_date,
                now,
                days,
            ),
        emptied(v, now, days).no_duplicates(),
        emptied(v, now, days).len() == entries(v).filter(
            |e: Entry| goes(e.info.deletion_date, now, days),
        ).len(),
    decreases v.len(),
{
    reveal(Seq::filter);
    let r = emptied(v, now, days);
    if v.len() > 0 {
        let w = v.drop_last();
        let r0 = emptied(w, now, days);
        law_chosen_go(w, now, days);
        assert(entries(v).drop_last() =~= entries(w));
        assert(entries(v).last() == v.last()@);
        assert forall|i: int| #[trigger] r.contains(i) <==> 0 <= i < v.len() && goes(
            v[i].info.deletion_date,
            now,
            days,
        ) by {
            assert(r0.contains(i) <==> 0 <= i < w.len() && goes(w[i].info.deletion_date, now, days));
            if r0.contains(i) {
                let k = choose|k: int| 0 <= k < r0.len() && r0[k] == i;
                assert(r[k] == i);
            }
            if goes(v.last().info.deletion_date, now, days) {
                assert(r[r0.len() as int] == v.len() - 1);
            }
        }
        assert(forall|k: int| 0 <= k < r0.len() ==> r0.contains(#[trigger] r0[k]));
    }
}

/// What the log says of an emptied trash.
pub fn empty_filter(days: Option<u32>) -> (r: Option<String>)
    ensures
        match days {
            Some(d) => r matches Some(t) && t@ == "older than "@ + decimal(d as nat) + "d"@,
            None => r is None,
        },
{
    match days {
        Some(d) => {
            let mut t: String = "older than ".to_owned();
            push_decimal(&mut t, d as u64);
            push_text(&mut t, "d");
            Some(t)
        },
        None => None,
    }
}

/// How much a trash directory holds.
#[derive(Debug)]
pub struct PartitionStatus {
    pub trash_dir: Vec<u8>,
    pub label: String,
    pub total_size: u64,
    pub count: usize,
}

/// How much a trash directory holds, as values.
#[verifier::ext_equal]
pub struct Tally {
    pub trash_dir: Seq<u8>,
    pub label: Seq<char>,
    pub total_size: u64,
    pub count: usize,
}

impl View for PartitionStatus {
    type V = Tally;

    open spec fn view(&self) -> Tally {
        Tally {
            trash_dir: self.trash_dir@,
            label: self.label@,
            total_size: self.total_size,
            count: self.count,
        }
    }
}

/// The more a directory holds, the earlier.
impl Ranked for PartitionStatus {
    open spec fn rank(&self) -> int {
        -(self.total_size as int)
    }

    fn precedes(&self, other: &Self) -> (r: bool) {
        self.total_size > other.total_size
    }
}

pub open spec fn tallies(v: Seq<PartitionStatus>) -> Seq<Tally> {
    v.map_values(|p: PartitionStatus| p@)
}

pub open spec fn plus(a: u64, b: u64) -> u64 {
    if a + b <= u64::MAX {
        (a + b) as u64
    } else {
        u64::MAX
    }
}

/// The position of a directory in a list, or the length.
pub open spec fn place_of(v: Seq<Tally>, dir: Seq<u8>, i: int) -> int
    decreases v.len() - i,
{
    if i >= v.len() || same_path(v[i].trash_dir, dir) {
        i
    } else {
        place_of(v, dir, i + 1)
    }
}

/// A list with a directory in it, empty where it is new.
pub open spec fn with_dir(v: Seq<Tally>, dir: Seq<u8>, label: Seq<char>) -> Seq<Tally> {
    if place_of(v, dir, 0) < v.len() {
        v
    } else {
        v.push(Tally { trash_dir: dir, label, total_size: 0, count: 0 })
    }
}

/// A list with an item of a size added to its directory.
pub open spec fn with_item(v: Seq<Tally>, dir: Seq<u8>, size: u64) -> Seq<Tally> {
    let w = with_dir(v, dir, lossy(dir));
    let i = place_of(w, dir, 0);
    w.update(
        i,
        Tally {
            total_size: plus(w[i].total_size, size),
            count: (w[i].count + 1) as usize,
            ..w[i]
        },
    )
}

/// The directories of a list, all empty.
pub open spec fn fresh(dirs: Seq<(Seq<u8>, Seq<char>)>) -> Seq<Tally>
    decreases dirs.len(),
{
    if dirs.len() == 0 {
        seq![]
    } else {
        with_dir(fresh(dirs.drop_last()), dirs.last().0, dirs.last().1)
    }
}

/// The directories of a list with the items in them.
pub open spec fn tallied(
    dirs: Seq<(Seq<u8>, Seq<char>)>,
    roots: Seq<Seq<u8>>,
    sizes: Seq<u64>,
) -> Seq<Tally>
    decreases roots.len(),
{
    if roots.len() == 0 {
        fresh(dirs)
    } else {
        with_item(
            tallied(dirs, roots.drop_last(), sizes.drop_last()),
            roots.last(),
            sizes.last(),
        )
    }
}

fn find_dir(v: &Vec<PartitionStatus>, dir: &[u8]) -> (r: usize)
    ensures
        r == place_of(tallies(v@), dir@, 0),
        r <= v@.len(),
{
    let mut i: usize = 0;
    while i < v.len()
        invariant
            i <= v@.len(),
            place_of(tallies(v@), dir@, 0) == place_of(tallies(v@), dir@, i as int),
        decreases v@.len() - i,
    {
        assert(tallies(v@)[i as int] == v@[i as int]@);
        if path_eq(v[i].trash_dir.as_slice(), dir) {
            return i;
        }
        i += 1;
    }
    i
}

fn put_dir(v: &mut Vec<PartitionStatus>, dir: &[u8], label: String) -> (r: usize)
    ensures
        tallies(final(v)@) == with_dir(tallies(old(v)@), dir@, label@),
        final(v)@.len() <= old(v)@.len() + 1,
        r == place_of(tallies(final(v)@), dir@, 0),
        r < final(v)@.len(),
{
    let i: usize = find_dir(v, dir);
    if i == v.len() {
        let ghost before = v@;
        v.push(
            PartitionStatus { trash_dir: to_vec(dir), label, total_size: 0, count: 0 },
        );
        proof {
            assert(tallies(v@) =~= tallies(before).push(
                Tally { trash_dir: dir@, label: label@, total_size: 0, count: 0 },
            ));
            lemma_place_pushed(tallies(before), tallies(v@).last(), dir@, 0);
        }
    }
    i
}

proof fn lemma_place_pushed(v: Seq<Tally>, t: Tally, dir: Seq<u8>, i: int)
    requires
        0 <= i <= v.len(),
        place_of(v, dir, i) == v.len(),
        same_path(t.trash_dir, dir),
    ensures
        place_of(v.push(t), dir, i) == v.len(),
    decreases v.len() - i,
{
    if i < v.len() {
        lemma_place_pushed(v, t, dir, i + 1);
    }
}

pub open spec fn dir_views(v: Seq<(Vec<u8>, String)>) -> Seq<(Seq<u8>, Seq<char>)> {
    v.map_values(|p: (Vec<u8>, String)| (p.0@, p.1@))
}

pub open spec fn roots(v: Seq<TrashEntry>) -> Seq<Seq<u8>> {
    v.map_values(|e: TrashEntry| e.trash_root@)
}

/// How much each trash directory holds, from the directories, the entries and their sizes;
/// the fullest first.
pub fn status_per_partition(
    dirs: &Vec<(Vec<u8>, String)>,
    v: &Vec<TrashEntry>,
    sizes: &Vec<u64>,
) -> (r: Vec<PartitionStatus>)
    requires
        sizes@.len() == v@.len(),
    ensures
        exists|s: Seq<PartitionStatus>|
            tallies(s) == tallied(dir_views(dirs@), roots(v@), sizes@) && #[trigger] sorted_from(
                r@,
                s,
            ),
{
    let ghost ds = dir_views(dirs@);
    let ghost rs = roots(v@);
    let mut parts: Vec<PartitionStatus> = Vec::new();
    let mut i: usize = 0;
    assert(ds.take(0) =~= seq![]);
    assert(tallies(parts@) =~= fresh(ds.take(0)));
    while i < dirs.len()
        invariant
            i <= dirs@.len(),
            ds == dir_views(dirs@),
            tallies(parts@) == fresh(ds.take(i as int)),
            forall|k: int| 0 <= k < parts@.len() ==> (#[trigger] parts@[k]).count == 0,
        decreases dirs@.len() - i,
    {
        proof {
            assert(ds.take(i + 1).drop_last() =~= ds.take(i as int));
            assert(ds.take(i + 1).last() == (dirs@[i as int].0@, dirs@[i as int].1@));
        }
        let ghost before = parts@;
        let at: usize = put_dir(&mut parts, dirs[i].0.as_slice(), dirs[i].1.clone());
        proof {
            assert forall|k: int| 0 <= k < parts@.len() implies (#[trigger] parts@[k]).count == 0 by {
                assert(tallies(parts@)[k].count == parts@[k].count);
                if k < before.len() {
                    assert(tallies(before)[k].count == before[k].count);
                }
            }
        }
        i += 1;
    }
    assert(ds.take(i as int) =~= ds);
    let mut j: usize = 0;
    assert(rs.take(0) =~= seq![]);
    while j < v.len()
        invariant
            j <= v@.len(),
            rs == roots(v@),
            sizes@.len() == v@.len(),
            tallies(parts@) == tallied(ds, rs.take(j as int), sizes@.take(j as int)),
            forall|k: int| 0 <= k < parts@.len() ==> (#[trigger] parts@[k]).count <= j,
        decreases v@.len() - j,
    {
        proof {
            assert(rs.take(j + 1).drop_last() =~= rs.take(j as int));
            assert(rs.take(j + 1).last() == v@[j as int].trash_root@);
            assert(sizes@.take(j + 1).drop_last() =~= sizes@.take(j as int));
            assert(sizes@.take(j + 1).last() == sizes@[j as int]);
        }
        let root = v[j].trash_root.as_slice();
        let label = text_lossy(root);
        let ghost before = parts@;
        let at: usize = put_dir(&mut parts, root, label);
        let ghost mid = parts@;
        proof {
            assert forall|k: int| 0 <= k < mid.len() implies (#[trigger] mid[k]).count <= j by {
                assert(tallies(mid)[k].count == mid[k].count);
                if k < before.len() {
                    assert(tallies(before)[k].count == before[k].count);
                }
            }
        }
        assert(mid[at as int].count <= j);
        let p = &mut parts[at];
        p.count = p.count + 1;
        p.total_size = p.total_size.saturating_add(sizes[j]);
        proof {
            let w = tallies(mid);
            assert(w[at as int] == mid[at as int]@);
            assert(tallies(parts@) =~= w.update(
                at as int,
                Tally {
                    total_size: plus(w[at as int].total_size, sizes@[j as int]),
                    count: (w[at as int].count + 1) as usize,
                    ..w[at as int]
                },
            ));
        }
        j += 1;
    }
    assert(rs.take(j as int) =~= rs);
    assert(sizes@.take(j as int) =~= sizes@);
    sort(parts)
}

/// The sum of sizes, as far as it fits.
pub open spec fn size_sum(v: Seq<u64>) -> u64
    decreases v.len(),
{
    if v.len() == 0 {
        0
    } else {
        plus(size_sum(v.drop_last()), v.last())
    }
}

/// How much the trash holds, and how many entries.
pub fn status(sizes: &Vec<u64>) -> (r: (u64, usize))
    ensures
        r.0 == size_sum(sizes@),
        r.1 == sizes@.len(),
{
    let mut total: u64 = 0;
    let mut i: usize = 0;
    assert(sizes@.take(0) =~= seq![]);
    while i < sizes.len()
        invariant
            i <= sizes@.len(),
            total == size_sum(sizes@.take(i as int)),
        decreases sizes@.len() - i,
    {
        assert(sizes@.take(i + 1).drop_last() =~= sizes@.take(i as int));
        total = total.saturating_add(sizes[i]);
        i += 1;
    }
    assert(sizes@.take(i as int) =~= sizes@);
    (total, sizes.len())
}

/// The sum of a list of numbers.
pub open spec fn total(v: Seq<int>) -> int
    decreases v.len(),
{
    if v.len() == 0 {
        0
    } else {
        total(v.drop_last()) + v.last()
    }
}

/// The sizes of a list of directories.
pub open spec fn part_sizes(v: Seq<Tally>) -> Seq<int> {
    v.map_values(|t: Tally| t.total_size as int)
}

/// The counts of a list of directories.
pub open spec fn part_counts(v: Seq<Tally>) -> Seq<int> {
    v.map_values(|t: Tally| t.count as int)
}

/// No two of a list of directories are the same.
pub open spec fn apart(v: Seq<Tally>) -> bool {
    forall|i: int, j: int|
        0 <= i < j < v.len() ==> !same_path((#[trigger] v[i]).trash_dir, (#[trigger] v[j]).trash_dir)
}

pub open spec fn numbers(v: Seq<u64>) -> Seq<int> {
    v.map_values(|n: u64| n as int)
}

proof fn lemma_total_update(v: Seq<int>, i: int, x: int)
    requires
        0 <= i < v.len(),
    ensures
        total(v.update(i, x)) == total(v) - v[i] + x,
    decreases v.len(),
{
    let w = v.update(i, x);
    if i == v.len() - 1 {
        assert(w.drop_last() =~= v.drop_last());
    } else {
        assert(w.drop_last() =~= v.drop_last().update(i, x));
        lemma_total_update(v.drop_last(), i, x);
    }
}

/// No part is larger than the whole.
proof fn lemma_total_part(v: Seq<int>, i: int)
    requires
        0 <= i < v.len(),
        forall|k: int| 0 <= k < v.len() ==> #[trigger] v[k] >= 0,
    ensures
        0 <= v[i] <= total(v),
    decreases v.len(),
{
    let w = v.drop_last();
    if i == v.len() - 1 {
        lemma_total_positive(w);
    } else {
        lemma_total_part(w, i);
    }
}

proof fn lemma_total_positive(v: Seq<int>)
    requires
        forall|k: int| 0 <= k < v.len() ==> #[trigger] v[k] >= 0,
    ensures
        total(v) >= 0,
    decreases v.len(),
{
    if v.len() > 0 {
        lemma_total_positive(v.drop_last());
    }
}

proof fn lemma_place(v: Seq<Tally>, dir: Seq<u8>, i: int)
    requires
        0 <= i <= v.len(),
    ensures
        i <= place_of(v, dir, i) <= v.len(),
        place_of(v, dir, i) < v.len() ==> same_path(v[place_of(v, dir, i)].trash_dir, dir),
        forall|k: int|
            i <= k < place_of(v, dir, i) ==> !same_path((#[trigger] v[k]).trash_dir, dir),
    decreases v.len() - i,
{
    if i < v.len() && !same_path(v[i].trash_dir, dir) {
        lemma_place(v, dir, i + 1);
    }
}

proof fn lemma_with_dir(v: Seq<Tally>, dir: Seq<u8>, label: Seq<char>)
    requires
        apart(v),
    ensures
        apart(with_dir(v, dir, label)),
        0 <= place_of(with_dir(v, dir, label), dir, 0) < with_dir(v, dir, label).len(),
        total(part_sizes(with_dir(v, dir, label))) == total(part_sizes(v)),
        total(part_counts(with_dir(v, dir, label))) == total(part_counts(v)),
{
    lemma_place(v, dir, 0);
    let w = with_dir(v, dir, label);
    if place_of(v, dir, 0) == v.len() {
        lemma_place_pushed(v, w.last(), dir, 0);
        assert(part_sizes(w).drop_last() =~= part_sizes(v));
        assert(part_counts(w).drop_last() =~= part_counts(v));
    }
}

proof fn lemma_fresh(dirs: Seq<(Seq<u8>, Seq<char>)>)
    ensures
        apart(fresh(dirs)),
        total(part_sizes(fresh(dirs))) == 0,
        total(part_counts(fresh(dirs))) == 0,
    decreases dirs.len(),
{
    if dirs.len() > 0 {
        lemma_fresh(dirs.drop_last());
        lemma_with_dir(fresh(dirs.drop_last()), dirs.last().0, dirs.last().1);
    }
}

proof fn lemma_tallied(dirs: Seq<(Seq<u8>, Seq<char>)>, roots: Seq<Seq<u8>>, sizes: Seq<u64>)
    requires
        roots.len() == sizes.len() <= usize::MAX,
    ensures
        apart(tallied(dirs, roots, sizes)),
        total(part_counts(tallied(dirs, roots, sizes))) == roots.len(),
        total(numbers(sizes)) <= u64::MAX ==> total(part_sizes(tallied(dirs, roots, sizes))) == total(
            numbers(sizes),
        ),
    decreases roots.len(),
{
    if roots.len() == 0 {
        lemma_fresh(dirs);
    } else {
        let dir = roots.last();
        let v = tallied(dirs, roots.drop_last(), sizes.drop_last());
        lemma_tallied(dirs, roots.drop_last(), sizes.drop_last());
        lemma_with_dir(v, dir, lossy(dir));
        let w = with_dir(v, dir, lossy(dir));
        let i = place_of(w, dir, 0);
        let t = tallied(dirs, roots, sizes);
        assert(numbers(sizes).drop_last() =~= numbers(sizes.drop_last()));
        lemma_total_part(part_counts(w), i);
        lemma_total_part(part_sizes(w), i);
        assert(part_counts(w)[i] == w[i].count);
        assert(part_sizes(w)[i] == w[i].total_size);
        lemma_total_update(part_counts(w), i, w[i].count + 1);
        assert(part_counts(t) =~= part_counts(w).update(i, w[i].count + 1));
        if total(numbers(sizes)) <= u64::MAX {
            lemma_total_update(part_sizes(w), i, w[i].total_size + sizes.last());
            assert(part_sizes(t) =~= part_sizes(w).update(i, w[i].total_size + sizes.last()));
        }
    }
}

proof fn lemma_size_sum(sizes: Seq<u64>)
    ensures
        total(numbers(sizes)) <= u64::MAX ==> size_sum(sizes) == total(numbers(sizes)),
        total(numbers(sizes)) >= 0,
    decreases sizes.len(),
{
    if sizes.len() > 0 {
        assert(numbers(sizes).drop_last() =~= numbers(sizes.drop_last()));
        lemma_size_sum(sizes.drop_last());
    }
}

proof fn lemma_totals_folded(v: Seq<PartitionStatus>)
    ensures
        total(part_sizes(tallies(v))) == v.fold_left(
            0int,
            |a: int, p: PartitionStatus| a + p.total_size,
        ),
        total(part_counts(tallies(v))) == v.fold_left(0int, |a: int, p: PartitionStatus| a + p.count),
    decreases v.len(),
{
    if v.len() > 0 {
        lemma_totals_folded(v.drop_last());
        assert(part_sizes(tallies(v)).drop_last() =~= part_sizes(tallies(v.drop_last())));
        assert(part_counts(tallies(v)).drop_last() =~= part_counts(tallies(v.drop_last())));
    }
}

/// What the directories hold adds up to what the trash holds: their counts to the number
/// of entries, and their sizes to the size of the whole, where that fits. No directory
/// comes twice, and none before one that holds more.
pub proof fn law_partitions_add_up(
    dirs: Seq<(Seq<u8>, Seq<char>)>,
    roots: Seq<Seq<u8>>,
    sizes: Seq<u64>,
    r: Seq<PartitionStatus>,
)
    requires
        roots.len() == sizes.len() <= usize::MAX,
        exists|s: Seq<PartitionStatus>|
            tallies(s) == tallied(dirs, roots, sizes) && #[trigger] sorted_from(r, s),
    ensures
        total(part_counts(tallies(r))) == sizes.len(),
        total(numbers(sizes)) <= u64::MAX ==> total(part_sizes(tallies(r))) == size_sum(sizes),
        apart(tallies(r)),
        forall|i: int, j: int|
            0 <= i <= j < r.len() ==> (#[trigger] r[i]).total_size >= (#[trigger] r[j]).total_size,
{
    let s = choose|s: Seq<PartitionStatus>|
        tallies(s) == tallied(dirs, roots, sizes) && #[trigger] sorted_from(r, s);
    lemma_tallied(dirs, roots, sizes);
    lemma_size_sum(sizes);
    law_sorted_permutation(r, s);
    let add_size = |a: int, p: PartitionStatus| a + p.total_size;
    let add_count = |a: int, p: PartitionStatus| a + p.count;
    vstd::seq_lib::lemma_fold_left_permutation(r, s, add_size, 0int);
    vstd::seq_lib::lemma_fold_left_permutation(r, s, add_count, 0int);
    lemma_totals_folded(r);
    lemma_totals_folded(s);
    assert forall|i: int, j: int| 0 <= i < j < s.len() implies !same_path(
        (#[trigger] s[i]).trash_dir@,
        (#[trigger] s[j]).trash_dir@,
    ) by {
        assert(tallies(s)[i] == s[i]@ && tallies(s)[j] == s[j]@);
    }
    s.lemma_multiset_has_no_duplicates();
    r.lemma_multiset_has_no_duplicates_conv();
    broadcast use vstd::seq_lib::group_to_multiset_ensures;

    assert forall|i: int, j: int| 0 <= i < j < r.len() implies !same_path(
        (#[trigger] tallies(r)[i]).trash_dir,
        (#[trigger] tallies(r)[j]).trash_dir,
    ) by {
        assert(r.to_multiset().count(r[i]) > 0 && r.to_multiset().count(r[j]) > 0);
        assert(s.contains(r[i]) && s.contains(r[j]));
        let a = choose|a: int| 0 <= a < s.len() && s[a] == r[i];
        let b = choose|b: int| 0 <= b < s.len() && s[b] == r[j];
        assert(r[i] != r[j]);
        if a < b {
            assert(!same_path(s[a].trash_dir@, s[b].trash_dir@));
        } else {
            assert(!same_path(s[b].trash_dir@, s[a].trash_dir@));
        }
    }
    assert forall|i: int, j: int| 0 <= i <= j < r.len() implies (#[trigger] r[i]).total_size >= (
    #[trigger] r[j]).total_size by {
        assert(r[i].rank() <= r[j].rank());
    }
}

} // verus!
