//! What holds of finding, restoring and removing the entries of the trash.

use crate::dates::Moment;
use crate::errors::{Failure, TrashError};
use crate::glob::glob;
use crate::job::{meant_path, topdir_of, Kind};
use crate::path::{components, dotdot, joined, name_of};
use crate::store::{
    data_path, destination, entries, entry_of, first_recorded, forget_record, found, hash_warning, hits, id_of, meant, orphan,
    purge_step, recency, record_path, rename_outcome, restore_after, restore_into, shows, undo_choice, Entry, PurgeStep, RestoreStep, Search,
    StepOutcome, TrashEntry,
};
use crate::text::lossy;
use crate::trashinfo::Record;
use vstd::prelude::*;
use vstd::utf8::encode_utf8;

verus! {

/// The step that a restore is at after some steps, from what comes of each step.
pub open spec fn restore_course(comes: spec_fn(RestoreStep) -> StepOutcome, k: Kind, n: nat) -> RestoreStep
    decreases n,
{
    if n == 0 {
        RestoreStep::CheckFree
    } else {
        let s = restore_course(comes, k, (n - 1) as nat);
        restore_after(s, k, comes(s))
    }
}

/// The copy that a kind of item takes is made, and its data in the trash is removed: a link
/// is made again as a link, a directory is copied with what is in it, a pipe is made again
/// as a pipe, and anything else is copied as a file.
pub open spec fn copied_out(comes: spec_fn(RestoreStep) -> StepOutcome, k: Kind) -> bool {
    ||| k == Kind::Symlink && comes(RestoreStep::CopyLink) == StepOutcome::Fine && comes(
        RestoreStep::RemoveFile,
    ) == StepOutcome::Fine
    ||| k == Kind::Dir && comes(RestoreStep::CopyTree) == StepOutcome::Fine && comes(
        RestoreStep::RemoveTree,
    ) == StepOutcome::Fine
    ||| k == Kind::Fifo && comes(RestoreStep::MakeFifo) == StepOutcome::Fine && comes(
        RestoreStep::RemoveFile,
    ) == StepOutcome::Fine
    ||| (k == Kind::File || k == Kind::Device || k == Kind::Socket) && comes(RestoreStep::CopyFile)
        == StepOutcome::Fine && comes(RestoreStep::RemoveFile) == StepOutcome::Fine
}

/// How a restore ends. The item is restored exactly where the destination was free, its
/// directory could be made, and the item was renamed there, without replacing anything or,
/// where the system has no such rename, plainly; or else was copied as its kind is and
/// removed from the trash. It is a conflict exactly where something stood there, or came
/// to stand there meanwhile; and in every other case it fails.
pub proof fn law_restore_end(comes: spec_fn(RestoreStep) -> StepOutcome, k: Kind)
    ensures
        ({
            let end = restore_course(comes, k, 6);
            let free = comes(RestoreStep::CheckFree) == StepOutcome::Fine;
            let room = free && comes(RestoreStep::MakeParent) == StepOutcome::Fine;
            let first = comes(RestoreStep::RenameFree);
            let second = comes(RestoreStep::Rename);
            &&& end == RestoreStep::Restored || end == RestoreStep::Conflict || end
                == RestoreStep::Failed
            &&& end == RestoreStep::Restored <==> room && (first == StepOutcome::Fine || (first
                == StepOutcome::Unsupported && second == StepOutcome::Fine) || ((first
                == StepOutcome::Failed || (first == StepOutcome::Unsupported && second
                != StepOutcome::Fine)) && copied_out(comes, k)))
            &&& end == RestoreStep::Conflict <==> !free || (room && first == StepOutcome::Taken)
        }),
{
    reveal_with_fuel(restore_course, 7);
}

/// What has ended stays ended.
pub proof fn law_restore_stays(s: RestoreStep, k: Kind, o: StepOutcome)
    requires
        s == RestoreStep::Restored || s == RestoreStep::Conflict || s == RestoreStep::Failed,
    ensures
        restore_after(s, k, o) == s,
{
}

/// A rename is told to have met something exactly by the error for it, and to be unknown
/// to the system by the two errors for that.
pub proof fn law_rename_outcome(errno: Option<i32>, r: StepOutcome)
    requires
        call_ensures(rename_outcome, (errno,), r),
    ensures
        r == StepOutcome::Fine <==> errno is None,
        r == StepOutcome::Taken <==> errno == Some(17i32),
        r == StepOutcome::Unsupported <==> errno == Some(38i32) || errno == Some(22i32),
{
}

/// Where an entry is restored to. A named target is taken as it is, for an orphan too.
/// Without one it is the path where the item stood; an orphan has none, and a path that
/// climbs, or that leads out of the filesystem of a trash other than the home's, is not
/// gone to.
pub proof fn law_destination(e: Entry, target: Seq<u8>, home: Seq<u8>)
    ensures
        destination(e, Some(target), home) == Ok::<Seq<u8>, Failure>(target),
        destination(e, None, home) == Ok::<Seq<u8>, Failure>(e.info.original_path) <==> !e.orphaned
            && !components(e.info.original_path).contains(seq![46u8, 46u8]) && (
        components(e.trash_root) == components(home) || components(
            topdir_of(e.trash_root),
        ).is_prefix_of(components(e.info.original_path))),
        destination(e, None, home) == Err::<Seq<u8>, Failure>(
            Failure::Refused(e.info.original_path),
        ) <==> e.orphaned,
        destination(e, None, home) matches Err(f) ==> f == Failure::Refused(e.info.original_path) || f
            == Failure::RestoreTraversal(e.info.original_path),
        destination(e, None, home) matches Ok(p) ==> p == e.info.original_path,
{
    assert(dotdot() =~= seq![46u8, 46u8]);
}

/// An entry is found where its id is the text, else where its name is, else where its name
/// is one that the text is a pattern for; each stage is only looked at where the one before
/// finds none, and one that finds several is an error that tells how many.
pub proof fn law_found(p: Seq<char>, v: Seq<Entry>)
    ensures
        ({
            let a = hits(Search::Id, p, v);
            let b = hits(Search::Name, p, v);
            let c = hits(Search::Glob, p, v);
            &&& found(p, v) matches Ok(i) ==> {
                ||| a == seq![i]
                ||| a.len() == 0 && b == seq![i]
                ||| a.len() == 0 && b.len() == 0 && c == seq![i]
            }
            &&& a.len() == 1 ==> found(p, v) == Ok::<int, Failure>(a[0])
            &&& a.len() == 0 && b.len() == 1 ==> found(p, v) == Ok::<int, Failure>(b[0])
            &&& a.len() == 0 && b.len() == 0 && c.len() == 1 ==> found(p, v) == Ok::<int, Failure>(c[0])
            &&& a.len() == 0 && b.len() == 0 && c.len() == 0 ==> found(p, v) == Err::<int, Failure>(
                Failure::EntryNotFound(p),
            )
            &&& found(p, v) matches Err(Failure::AmbiguousMatch { pattern, count }) ==> pattern == p
                && count > 1 && (count == a.len() || count == b.len() || count == c.len())
        }),
{
    let a = hits(Search::Id, p, v);
    let b = hits(Search::Name, p, v);
    let c = hits(Search::Glob, p, v);
    assert(a.len() == 1 ==> a =~= seq![a[0]]);
    assert(b.len() == 1 ==> b =~= seq![b[0]]);
    assert(c.len() == 1 ==> c =~= seq![c[0]]);
}

/// The entries that a text means, at each stage, in their order and each once: those whose
/// id it is, those whose original path ends in it, those whose name it is a pattern for.
pub proof fn law_hits(p: Seq<char>, v: Seq<Entry>, i: int)
    requires
        0 <= i < v.len(),
    ensures
        hits(Search::Id, p, v).contains(i) <==> v[i].id == p,
        hits(Search::Name, p, v).contains(i) <==> (name_of(v[i].info.original_path) matches Some(n)
            && lossy(n) == p),
        hits(Search::Glob, p, v).contains(i) <==> glob(
            p,
            match name_of(v[i].info.original_path) {
                Some(n) => lossy(n),
                None => seq![],
            },
        ),
{
    lemma_hit_iff(Search::Id, p, v, i);
    lemma_hit_iff(Search::Name, p, v, i);
    lemma_hit_iff(Search::Glob, p, v, i);
}

proof fn lemma_hits_within(s: Search, p: Seq<char>, v: Seq<Entry>)
    ensures
        forall|k: int| 0 <= k < hits(s, p, v).len() ==> 0 <= #[trigger] hits(s, p, v)[k] < v.len(),
    decreases v.len(),
{
    if v.len() > 0 {
        let w = v.drop_last();
        lemma_hits_within(s, p, w);
        assert forall|k: int| 0 <= k < hits(s, p, v).len() implies 0 <= #[trigger] hits(s, p, v)[k]
            < v.len() by {
            if k < hits(s, p, w).len() {
                assert(hits(s, p, v)[k] == hits(s, p, w)[k]);
            }
        }
    }
}

proof fn lemma_hit_iff(s: Search, p: Seq<char>, v: Seq<Entry>, i: int)
    requires
        0 <= i < v.len(),
    ensures
        hits(s, p, v).contains(i) <==> meant(s, p, v[i]),
    decreases v.len(),
{
    let w = v.drop_last();
    let h = hits(s, p, w);
    let all = hits(s, p, v);
    lemma_hits_within(s, p, w);
    if i < w.len() {
        lemma_hit_iff(s, p, w, i);
        if h.contains(i) {
            let k = choose|k: int| 0 <= k < h.len() && h[k] == i;
            assert(all[k] == i);
        }
        if all.contains(i) {
            let k = choose|k: int| 0 <= k < all.len() && all[k] == i;
            assert(h[k] == i);
        }
    } else {
        if meant(s, p, v[i]) {
            assert(all[h.len() as int] == i);
        } else {
            if all.contains(i) {
                let k = choose|k: int| 0 <= k < all.len() && all[k] == i;
                assert(h[k] == i);
                assert(false);
            }
        }
    }
}

/// A hash is warned of exactly where one is recorded, a file was restored, and neither
/// algorithm gives the recorded one; and the warning tells the recorded one.
pub proof fn law_hash_warning(
    expected: Option<Seq<char>>,
    is_file: bool,
    xxhash: Option<Seq<char>>,
    sha256: Option<Seq<char>>,
)
    ensures
        hash_warning(expected, is_file, xxhash, sha256) is Some <==> is_file && expected is Some
            && xxhash != expected && sha256 != expected,
        hash_warning(expected, is_file, xxhash, sha256) matches Some(w) ==> Some(w.0) == expected && (
        xxhash is Some ==> Some(w.1) == xxhash) && (xxhash is None && sha256 is Some ==> Some(w.1)
            == sha256),
{
}

/// The entry that is undone is the first of the list that is no orphan: all before it are
/// orphans, and there is none only where all are.
pub proof fn law_undo(v: Seq<Entry>)
    ensures
        0 <= first_recorded(v, 0) <= v.len(),
        first_recorded(v, 0) < v.len() ==> !v[first_recorded(v, 0)].orphaned,
        forall|i: int| 0 <= i < first_recorded(v, 0) ==> (#[trigger] v[i]).orphaned,
{
    lemma_first_recorded(v, 0);
}

proof fn lemma_first_recorded(v: Seq<Entry>, i: int)
    requires
        0 <= i <= v.len(),
    ensures
        i <= first_recorded(v, i) <= v.len(),
        first_recorded(v, i) < v.len() ==> !v[first_recorded(v, i)].orphaned,
        forall|k: int| i <= k < first_recorded(v, i) ==> (#[trigger] v[k]).orphaned,
    decreases v.len() - i,
{
    if i < v.len() && v[i].orphaned {
        lemma_first_recorded(v, i + 1);
    }
}

/// A tree is removed exactly for a directory, and a link never by what it leads to; a
/// record is kept exactly where there is data that could not be removed.
pub proof fn law_purge(kind: Option<Kind>, step: PurgeStep, removed: bool, forget: bool)
    requires
        call_ensures(purge_step, (kind,), step),
        call_ensures(forget_record, (step, removed), forget),
    ensures
        step == PurgeStep::RemoveTree <==> kind == Some(Kind::Dir),
        step == PurgeStep::Nothing <==> kind is None,
        step == PurgeStep::RemoveFile <==> kind is Some && kind != Some(Kind::Dir),
        !forget <==> kind is Some && !removed,
{
}

/// The id of a record is what stands before its ending, and a file with another ending is
/// none.
pub proof fn law_record_id(id: Seq<char>, name: Seq<char>)
    ensures
        id_of(id + ".trashinfo"@) == Some(id),
        id_of(name) matches Some(x) ==> name == x + ".trashinfo"@,
{
    let ext = ".trashinfo"@;
    let n = id + ext;
    assert(n.skip(n.len() - ext.len()) =~= ext);
    assert(n.take(n.len() - ext.len()) =~= id);
    assert(ext.is_suffix_of(n));
    if let Some(x) = id_of(name) {
        assert(name =~= x + ext);
    }
}

/// Data lies under `files` by its id, and the record under `info` by the id and its ending.
pub proof fn law_places_in_trash(trash: Seq<u8>, id: Seq<char>)
    ensures
        data_path(trash, id) == joined(joined(trash, encode_utf8("files"@)), encode_utf8(id)),
        record_path(trash, id) == joined(
            joined(trash, encode_utf8("info"@)),
            encode_utf8(id + ".trashinfo"@),
        ),
{
}

/// An entry with a record has what the record says, with its path as it is meant there,
/// and one without has the moment of the listing and no more than its name.
pub proof fn law_entries_made(trash: Seq<u8>, id: Seq<char>, r: Record, now: Moment)
    ensures
        ({
            let e = entry_of(trash, id + ".trashinfo"@, Some(r));
            let o = orphan(trash, id, now);
            &&& e is Some && e->0.id == id && !e->0.orphaned && e->0.trash_root == trash
            &&& e->0.info == Record { original_path: meant_path(trash, r.original_path), ..r }
            &&& e->0.trashed_path == data_path(trash, id) && e->0.info_path == record_path(trash, id)
            &&& o.id == id && o.orphaned && o.trash_root == trash && o.info.deletion_date == now
            &&& o.info.size is None && o.info.sha256 is None && o.info.compressed is None
                && o.info.command is None && o.info.pid is None
            &&& o.trashed_path == data_path(trash, id) && o.info_path == record_path(trash, id)
        }),
        forall|name: Seq<char>| #[trigger] entry_of(trash, name, None) is None,
{
    law_record_id(id, id);
}

/// A pattern shows an entry by the name of its original path or by the path, an orphan by
/// its id; and without a pattern all is shown.
pub proof fn law_shown(pattern: Seq<char>, e: Entry)
    ensures
        shows(None, e),
        e.orphaned ==> shows(Some(pattern), e) == glob(pattern, e.id),
        !e.orphaned ==> shows(Some(pattern), e) == (glob(pattern, lossy(e.info.original_path)) || glob(
            pattern,
            match name_of(e.info.original_path) {
                Some(n) => lossy(n),
                None => seq![],
            },
        )),
{
}

/// The list is by date alone: of two dates the later comes first.
pub proof fn law_recency(a: Moment, b: Moment)
    ensures
        recency(a) < recency(b) <==> a.secs > b.secs || (a.secs == b.secs && a.nanos > b.nanos),
{
}

/// A text that means several entries at the first stage at which it means any is ambiguous,
/// and the number of them is told.
pub proof fn law_ambiguous(p: Seq<char>, v: Seq<Entry>)
    ensures
        ({
            let a = hits(Search::Id, p, v).len();
            let b = hits(Search::Name, p, v).len();
            let c = hits(Search::Glob, p, v).len();
            &&& a > 1 ==> found(p, v) == Err::<int, Failure>(
                Failure::AmbiguousMatch { pattern: p, count: a },
            )
            &&& a == 0 && b > 1 ==> found(p, v) == Err::<int, Failure>(
                Failure::AmbiguousMatch { pattern: p, count: b },
            )
            &&& a == 0 && b == 0 && c > 1 ==> found(p, v) == Err::<int, Failure>(
                Failure::AmbiguousMatch { pattern: p, count: c },
            )
        }),
{
}

/// An entry that is restored into a directory keeps the last name of its original path, and
/// one without such a name is not.
pub proof fn law_restored_into(e: &TrashEntry, dir: &[u8], r: Option<Vec<u8>>)
    requires
        call_ensures(restore_into, (e, dir), r),
    ensures
        r is Some <==> name_of(e.info.original_path@) is Some,
        r matches Some(p) ==> (name_of(e.info.original_path@) matches Some(n) && p@ == joined(
            dir@,
            n,
        )),
{
}

/// What is undone is the newest entry with a record: the first of the list that is no orphan.
pub proof fn law_undone(v: &Vec<TrashEntry>, r: Result<usize, TrashError>)
    requires
        call_ensures(undo_choice, (v,), r),
    ensures
        r matches Ok(i) ==> i < v@.len() && !v@[i as int].orphaned && forall|k: int|
            0 <= k < i ==> (#[trigger] v@[k]).orphaned,
        r is Err ==> forall|k: int| 0 <= k < v@.len() ==> (#[trigger] v@[k]).orphaned,
        r matches Err(e) ==> e@ == Failure::EntryNotFound("(trash is empty)"@),
{
    let e = entries(v@);
    law_undo(e);
    assert forall|k: int| 0 <= k < v@.len() implies (#[trigger] v@[k]).orphaned == e[k].orphaned by {}
}

/// A restored file that cannot be read is told as such.
pub proof fn law_unreadable(expected: Seq<char>)
    ensures
        hash_warning(Some(expected), true, None, None) == Some((expected, "(unreadable)"@)),
        hash_warning(Some(expected), false, None, None) is None,
{
}

} // verus!
