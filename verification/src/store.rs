//! The entries of the trash: listing, finding, restoring and removing them.

use crate::dates::{earlier, Moment};
use crate::errors::{Failure, TrashError};
use crate::glob::{glob, simple_glob_match};
use crate::job::{law_recorded_path, meant_path, recorded_path, resolve_recorded, topdir_for_trash, topdir_of, Kind};
use crate::path;
use crate::path::{absolute, climbs, file_name, joined, name_of, path_eq, path_starts_with, same_path, under};
use crate::seqs::to_vec;
use crate::sorting::{law_order_keeps, law_ordered_permutation, of_key, of_rank, ordered_from, sort, sorted_from, Ranked};
use crate::text::{chars_of, listed, lossy, opt_text, push_text, same_text, string_of, text_lossy, texts};
use crate::trashinfo::{read_back, Record, TrashInfo};
use vstd::prelude::*;
use vstd::slice::slice_subrange;
use vstd::utf8::encode_utf8;

verus! {

/// An item in the trash.
#[derive(Debug)]
pub struct TrashEntry {
    /// The name of its data in the trash.
    pub id: String,
    pub info: TrashInfo,
    /// Where its data is.
    pub trashed_path: Vec<u8>,
    /// Where its `.trashinfo` file is.
    pub info_path: Vec<u8>,
    /// The trash directory it is in.
    pub trash_root: Vec<u8>,
    /// It has no `.trashinfo` file.
    pub orphaned: bool,
}

/// An item in the trash as values.
#[verifier::ext_equal]
pub struct Entry {
    pub id: Seq<char>,
    pub info: Record,
    pub trashed_path: Seq<u8>,
    pub info_path: Seq<u8>,
    pub trash_root: Seq<u8>,
    pub orphaned: bool,
}

impl View for TrashEntry {
    type V = Entry;

    open spec fn view(&self) -> Entry {
        Entry {
            id: self.id@,
            info: self.info@,
            trashed_path: self.trashed_path@,
            info_path: self.info_path@,
            trash_root: self.trash_root@,
            orphaned: self.orphaned,
        }
    }
}

pub open spec fn entries(v: Seq<TrashEntry>) -> Seq<Entry> {
    v.map_values(|e: TrashEntry| e@)
}

/// The later the date, the earlier in the list.
pub open spec fn recency(m: Moment) -> int {
    -(m.secs * 0x1_0000_0000 + m.nanos)
}

impl Ranked for TrashEntry {
    open spec fn rank(&self) -> int {
        recency(self.info.deletion_date)
    }

    fn precedes(&self, other: &Self) -> (r: bool) {
        let a = self.info.deletion_date;
        let b = other.info.deletion_date;
        a.secs > b.secs || (a.secs == b.secs && a.nanos > b.nanos)
    }
}

/// A file of the directory `info`.
#[derive(Debug)]
pub struct InfoFile {
    pub name: String,
    /// What it records, if it could be read.
    pub info: Option<TrashInfo>,
}

/// The id of a `.trashinfo` file.
pub open spec fn id_of(name: Seq<char>) -> Option<Seq<char>> {
    let ext = ".trashinfo"@;
    if ext.is_suffix_of(name) {
        Some(name.take(name.len() - ext.len()))
    } else {
        None
    }
}

/// The id of a `.trashinfo` file, by its name.
pub fn info_id(name: &str) -> (r: Option<String>)
    ensures
        match r {
            Some(id) => id_of(name@) == Some(id@),
            None => id_of(name@) is None,
        },
{
    let n = chars_of(name);
    let e = chars_of(".trashinfo");
    if crate::seqs::ends_with(n.as_slice(), e.as_slice()) {
        let head = slice_subrange(n.as_slice(), 0, n.len() - e.len());
        assert(head@ =~= name@.take(name@.len() - e@.len()));
        Some(string_of(head))
    } else {
        None
    }
}

pub open spec fn files_dir(trash: Seq<u8>) -> Seq<u8> {
    joined(trash, encode_utf8("files"@))
}

pub open spec fn info_dir(trash: Seq<u8>) -> Seq<u8> {
    joined(trash, encode_utf8("info"@))
}

/// Where the data of an id is in a trash directory.
pub open spec fn data_path(trash: Seq<u8>, id: Seq<char>) -> Seq<u8> {
    joined(files_dir(trash), encode_utf8(id))
}

/// Where the `.trashinfo` file of an id is in a trash directory.
pub open spec fn record_path(trash: Seq<u8>, id: Seq<char>) -> Seq<u8> {
    joined(info_dir(trash), encode_utf8(id + ".trashinfo"@))
}

/// Where the data of an id is in a trash directory.
pub fn path_of_data(trash: &[u8], id: &str) -> (r: Vec<u8>)
    ensures
        r@ == data_path(trash@, id@),
{
    let d = path::join(trash, "files".as_bytes());
    path::join(d.as_slice(), id.as_bytes())
}

/// Where the `.trashinfo` file of an id is in a trash directory.
pub fn path_of_record(trash: &[u8], id: &str) -> (r: Vec<u8>)
    ensures
        r@ == record_path(trash@, id@),
{
    let d = path::join(trash, "info".as_bytes());
    let mut n: String = id.to_owned();
    push_text(&mut n, ".trashinfo");
    path::join(d.as_slice(), n.as_str().as_bytes())
}

/// The name of an original path, as text; empty where it has none.
pub open spec fn shown_name(p: Seq<u8>) -> Seq<char> {
    match name_of(p) {
        Some(n) => lossy(n),
        None => seq![],
    }
}

fn name_text(p: &[u8]) -> (r: String)
    ensures
        r@ == shown_name(p@),
{
    match file_name(p) {
        Some(n) => text_lossy(n),
        None => String::new(),
    }
}

/// A pattern stands for the name of an original path, or for the path.
pub open spec fn listed_by(pattern: Option<Seq<char>>, p: Seq<u8>) -> bool {
    match pattern {
        Some(g) => glob(g, shown_name(p)) || glob(g, lossy(p)),
        None => true,
    }
}

fn is_listed(pattern: Option<&str>, p: &[u8]) -> (r: bool)
    ensures
        r == listed_by(
            match pattern {
                Some(g) => Some(g@),
                None => None,
            },
            p@,
        ),
{
    match pattern {
        Some(g) => {
            let n = name_text(p);
            let t = text_lossy(p);
            simple_glob_match(g, n.as_str()) || simple_glob_match(g, t.as_str())
        },
        None => true,
    }
}

/// A record with the path that it means in a trash directory.
pub open spec fn in_place(trash: Seq<u8>, r: Record) -> Record {
    Record { original_path: meant_path(trash, r.original_path), ..r }
}

/// The entry of a `.trashinfo` file that could be read.
pub open spec fn entry_of(trash: Seq<u8>, name: Seq<char>, info: Option<Record>) -> Option<Entry> {
    match (id_of(name), info) {
        (Some(id), Some(r)) => Some(
            Entry {
                id,
                info: in_place(trash, r),
                trashed_path: data_path(trash, id),
                info_path: joined(info_dir(trash), encode_utf8(name)),
                trash_root: trash,
                orphaned: false,
            },
        ),
        _ => None,
    }
}

pub open spec fn opt_record(i: Option<TrashInfo>) -> Option<Record> {
    match i {
        Some(x) => Some(x@),
        None => None,
    }
}

/// The entries of the `.trashinfo` files that could be read, in their order.
pub open spec fn recorded(trash: Seq<u8>, infos: Seq<InfoFile>) -> Seq<Entry>
    decreases infos.len(),
{
    if infos.len() == 0 {
        seq![]
    } else {
        let v = recorded(trash, infos.drop_last());
        match entry_of(trash, infos.last().name@, opt_record(infos.last().info)) {
            Some(e) => v.push(e),
            None => v,
        }
    }
}

/// The entry of data without a `.trashinfo` file that could be read.
pub open spec fn orphan(trash: Seq<u8>, name: Seq<char>, now: Moment) -> Entry {
    Entry {
        id: name,
        info: Record {
            original_path: encode_utf8("(orphaned: "@ + name + ")"@),
            deletion_date: now,
            command: None,
            pid: None,
            size: None,
            sha256: None,
            compressed: None,
        },
        trashed_path: data_path(trash, name),
        info_path: record_path(trash, name),
        trash_root: trash,
        orphaned: true,
    }
}

pub open spec fn ids(v: Seq<Entry>) -> Seq<Seq<char>> {
    v.map_values(|e: Entry| e.id)
}

/// The entries of data whose id is none of those known, in their order.
pub open spec fn orphans(trash: Seq<u8>, known: Seq<Seq<char>>, files: Seq<Seq<char>>, now: Moment) -> Seq<
    Entry,
>
    decreases files.len(),
{
    if files.len() == 0 {
        seq![]
    } else {
        let v = orphans(trash, known, files.drop_last(), now);
        if known.contains(files.last()) {
            v
        } else {
            v.push(orphan(trash, files.last(), now))
        }
    }
}

/// A pattern lists an entry: by its original path, or by its id where it is an orphan.
pub open spec fn shows(pattern: Option<Seq<char>>, e: Entry) -> bool {
    if e.orphaned {
        match pattern {
            Some(g) => glob(g, e.id),
            None => true,
        }
    } else {
        listed_by(pattern, e.info.original_path)
    }
}

/// The entries of a trash directory that a pattern lists: those with a `.trashinfo` file,
/// then those without one.
pub open spec fn listing(
    trash: Seq<u8>,
    infos: Seq<InfoFile>,
    files: Seq<Seq<char>>,
    pattern: Option<Seq<char>>,
    now: Moment,
) -> Seq<Entry> {
    let known = recorded(trash, infos);
    (known + orphans(trash, ids(known), files, now)).filter(|e: Entry| shows(pattern, e))
}

fn make_orphan(trash: &[u8], name: &str, now: Moment) -> (r: TrashEntry)
    ensures
        r@ == orphan(trash@, name@, now),
{
    let mut p: String = "(orphaned: ".to_owned();
    push_text(&mut p, name);
    push_text(&mut p, ")");
    let info = TrashInfo::at(to_vec(p.as_str().as_bytes()), now);
    TrashEntry {
        id: name.to_owned(),
        info,
        trashed_path: path_of_data(trash, name),
        info_path: path_of_record(trash, name),
        trash_root: to_vec(trash),
        orphaned: true,
    }
}

fn make_entry(trash: &[u8], id: String, name: &str, info: TrashInfo) -> (r: TrashEntry)
    requires
        id_of(name@) == Some(id@),
    ensures
        entry_of(trash@, name@, Some(info@)) == Some(r@),
{
    let mut info = info;
    info.original_path = resolve_recorded(trash, info.original_path.as_slice());
    let d = path::join(trash, "info".as_bytes());
    let trashed_path = path_of_data(trash, id.as_str());
    let info_path = path::join(d.as_slice(), name.as_bytes());
    TrashEntry { id, info, trashed_path, info_path, trash_root: to_vec(trash), orphaned: false }
}

/// The entries of a trash directory that a pattern lists, from the files of its directory
/// `info`, of which each was read or not, and the names in its directory `files`.
#[verifier::spinoff_prover]
#[verifier::rlimit(80)]
pub fn list_in_dir(
    trash: &[u8],
    infos: Vec<InfoFile>,
    files: &Vec<String>,
    pattern: Option<&str>,
    now: Moment,
) -> (r: Vec<TrashEntry>)
    ensures
        entries(r@) == listing(
            trash@,
            infos@,
            texts(files@),
            match pattern {
                Some(g) => Some(g@),
                None => None,
            },
            now,
        ),
{
    let ghost g = match pattern {
        Some(g) => Some(g@),
        None => None,
    };
    let ghost keep = |e: Entry| shows(g, e);
    let ghost all_infos = infos@;
    let mut rest = infos;
    let mut known: Vec<String> = Vec::new();
    // Read from the back, so that each record can be moved out of its place.
    let mut back: Vec<TrashEntry> = Vec::new();
    let ghost mut shown: Seq<Entry> = seq![];
    let ghost mut full: Seq<Entry> = seq![];
    let ghost mut known_ids: Seq<Seq<char>> = seq![];
    proof {
        reveal(Seq::filter);
        assert(recorded(trash@, rest@) + full =~= recorded(trash@, all_infos));
        assert(entries(back@) =~= shown.reverse());
        assert(texts(known@) =~= ids(full).reverse());
    }
    while rest.len() > 0
        invariant
            g == (match pattern {
                Some(g) => Some(g@),
                None => None,
            }),
            keep == (|e: Entry| shows(g, e)),
            recorded(trash@, rest@) + full == recorded(trash@, all_infos),
            shown == full.filter(keep),
            entries(back@) == shown.reverse(),
            texts(known@) == ids(full).reverse(),
        decreases rest@.len(),
    {
        let ghost before = rest@;
        let ghost full0 = full;
        if let Some(f) = rest.pop() {
            assert(before.drop_last() =~= rest@);
            assert(before.last() == f);
            if let Some(id) = info_id(f.name.as_str()) {
                if let Some(info) = f.info {
                    let known_id = id.clone();
                    let e = make_entry(trash, id, f.name.as_str(), info);
                    let ghost known0 = known@;
                    known.push(known_id);
                    proof {
                        full = seq![e@] + full0;
                        assert(recorded(trash@, rest@) + full =~= recorded(trash@, before) + full0);
                        full0.lemma_filter_prepend(e@, keep);
                        assert(texts(known@) =~= texts(known0).push(e@.id));
                        assert(ids(full).reverse() =~= ids(full0).reverse().push(e@.id));
                    }
                    if is_listed(pattern, e.info.original_path.as_slice()) {
                        let ghost back0 = back@;
                        back.push(e);
                        proof {
                            shown = seq![e@] + shown;
                            assert(entries(back@) =~= entries(back0).push(e@));
                            assert(shown.reverse() =~= full0.filter(keep).reverse().push(e@));
                        }
                    }
                }
            }
        }
    }
    let mut r: Vec<TrashEntry> = Vec::new();
    let ghost all_back = back@;
    while back.len() > 0
        invariant
            back@ == all_back.take(all_back.len() - r@.len()),
            r@.len() <= all_back.len(),
            r@ == all_back.reverse().take(r@.len() as int),
        decreases back@.len(),
    {
        if let Some(e) = back.pop() {
            r.push(e);
            assert(r@ =~= all_back.reverse().take(r@.len() as int));
        }
    }
    proof {
        assert(r@ =~= all_back.reverse());
        assert(entries(r@) =~= shown) by {
            assert forall|i: int| 0 <= i < r@.len() implies entries(r@)[i] == shown[i] by {
                assert(entries(all_back)[all_back.len() - 1 - i] == shown.reverse()[all_back.len() - 1
                    - i]);
            }
        }
        assert(recorded(trash@, rest@) + full =~= full);
        assert(full == recorded(trash@, all_infos));
    }
    let mut i: usize = 0;
    let ghost names = texts(files@);
    let ghost kn = ids(full);
    proof {
        assert(names.take(0) =~= seq![]);
        assert(orphans(trash@, kn, names.take(0), now) =~= seq![]);
        assert(full + orphans(trash@, kn, names.take(0), now) =~= full);
    }
    while i < files.len()
        invariant
            i <= files@.len(),
            names == texts(files@),
            g == (match pattern {
                Some(g) => Some(g@),
                None => None,
            }),
            keep == (|e: Entry| shows(g, e)),
            texts(known@) == kn.reverse(),
            entries(r@) == (full + orphans(trash@, kn, names.take(i as int), now)).filter(keep),
        decreases files@.len() - i,
    {
        let name = &files[i];
        let ghost os = orphans(trash@, kn, names.take(i as int), now);
        proof {
            assert(names.take(i + 1).drop_last() =~= names.take(i as int));
            assert(names.take(i + 1).last() == name@);
            lemma_reverse_contains(kn, name@);
        }
        if !listed(&known, name.as_str()) {
            let e = make_orphan(trash, name.as_str(), now);
            proof {
                assert((full + os.push(e@)).drop_last() =~= full + os);
                reveal(Seq::filter);
            }
            let show: bool = match pattern {
                Some(p) => simple_glob_match(p, name.as_str()),
                None => true,
            };
            if show {
                let ghost r0 = r@;
                r.push(e);
                assert(entries(r@) =~= entries(r0).push(e@));
            }
        }
        i += 1;
    }
    assert(names.take(i as int) =~= names);
    r
}

proof fn lemma_reverse_contains<T>(s: Seq<T>, x: T)
    ensures
        s.reverse().contains(x) == s.contains(x),
{
    if s.contains(x) {
        let i = choose|i: int| 0 <= i < s.len() && s[i] == x;
        assert(s.reverse()[s.len() - 1 - i] == x);
    }
    if s.reverse().contains(x) {
        let i = choose|i: int| 0 <= i < s.reverse().len() && s.reverse()[i] == x;
        assert(s[s.len() - 1 - i] == x);
    }
}

/// Every name among the data is the id of an entry that is listed: no data is hidden.
pub proof fn law_no_data_hidden(
    trash: Seq<u8>,
    infos: Seq<InfoFile>,
    files: Seq<Seq<char>>,
    now: Moment,
    i: int,
)
    requires
        0 <= i < files.len(),
    ensures
        exists|k: int|
            0 <= k < listing(trash, infos, files, None, now).len() && (#[trigger] listing(
                trash,
                infos,
                files,
                None,
                now,
            )[k]).id == files[i],
{
    let known = recorded(trash, infos);
    let os = orphans(trash, ids(known), files, now);
    lemma_listing_all(trash, infos, files, now);
    if !ids(known).contains(files[i]) {
        lemma_orphan_there(trash, ids(known), files, now, i);
    }
    lemma_id_in_either(known, os, files[i]);
}

pub proof fn lemma_listing_all(trash: Seq<u8>, infos: Seq<InfoFile>, files: Seq<Seq<char>>, now: Moment)
    ensures
        listing(trash, infos, files, None, now) == recorded(trash, infos) + orphans(
            trash,
            ids(recorded(trash, infos)),
            files,
            now,
        ),
{
    lemma_filter_all(
        recorded(trash, infos) + orphans(trash, ids(recorded(trash, infos)), files, now),
        |e: Entry| shows(None, e),
    );
}

proof fn lemma_id_in_either(a: Seq<Entry>, b: Seq<Entry>, id: Seq<char>)
    requires
        ids(a).contains(id) || exists|k: int| 0 <= k < b.len() && (#[trigger] b[k]).id == id,
    ensures
        exists|k: int| 0 <= k < (a + b).len() && (#[trigger] (a + b)[k]).id == id,
{
    if ids(a).contains(id) {
        let k = choose|k: int| 0 <= k < ids(a).len() && ids(a)[k] == id;
        assert((a + b)[k].id == id);
    } else {
        let k = choose|k: int| 0 <= k < b.len() && (#[trigger] b[k]).id == id;
        assert((a + b)[a.len() + k].id == id);
    }
}

proof fn lemma_filter_all<T>(s: Seq<T>, keep: spec_fn(T) -> bool)
    requires
        forall|x: T| #[trigger] keep(x),
    ensures
        s.filter(keep) == s,
    decreases s.len(),
{
    reveal(Seq::filter);
    if s.len() > 0 {
        lemma_filter_all(s.drop_last(), keep);
        assert(s.drop_last().push(s.last()) =~= s);
    }
}

proof fn lemma_orphan_there(
    trash: Seq<u8>,
    known: Seq<Seq<char>>,
    files: Seq<Seq<char>>,
    now: Moment,
    i: int,
)
    requires
        0 <= i < files.len(),
        !known.contains(files[i]),
    ensures
        exists|k: int|
            0 <= k < orphans(trash, known, files, now).len() && (#[trigger] orphans(
                trash,
                known,
                files,
                now,
            )[k]).id == files[i],
    decreases files.len(),
{
    let v = orphans(trash, known, files.drop_last(), now);
    let w = orphans(trash, known, files, now);
    if i == files.len() - 1 {
        assert(w[v.len() as int].id == files[i]);
    } else {
        lemma_orphan_there(trash, known, files.drop_last(), now, i);
        let k = choose|k: int| 0 <= k < v.len() && (#[trigger] v[k]).id == files.drop_last()[i];
        assert(w[k].id == files[i]);
    }
}

/// A list of entries whose dates can be shown.
pub open spec fn dates_valid(v: Seq<Entry>) -> bool {
    forall|i: int| 0 <= i < v.len() ==> (#[trigger] v[i]).info.deletion_date.valid()
}

/// Where the dates of the records can be shown, and that of the listing, those of all that
/// is listed can.
pub proof fn law_listed_dates_are_valid(
    trash: Seq<u8>,
    infos: Seq<InfoFile>,
    files: Seq<Seq<char>>,
    pattern: Option<Seq<char>>,
    now: Moment,
)
    requires
        forall|i: int|
            0 <= i < infos.len() ==> ((#[trigger] infos[i]).info matches Some(r)
                ==> r.deletion_date.valid()),
        now.valid(),
    ensures
        dates_valid(listing(trash, infos, files, pattern, now)),
{
    let known = recorded(trash, infos);
    lemma_recorded_dates(trash, infos);
    lemma_orphan_dates(trash, ids(known), files, now);
    let all = known + orphans(trash, ids(known), files, now);
    assert forall|i: int| 0 <= i < all.len() implies (#[trigger] all[i]).info.deletion_date.valid() by {
        if i < known.len() {
            assert(all[i] == known[i]);
        } else {
            assert(all[i] == orphans(trash, ids(known), files, now)[i - known.len()]);
        }
    }
    lemma_filter_dates(all, |e: Entry| shows(pattern, e));
}

proof fn lemma_recorded_dates(trash: Seq<u8>, infos: Seq<InfoFile>)
    requires
        forall|i: int|
            0 <= i < infos.len() ==> ((#[trigger] infos[i]).info matches Some(r)
                ==> r.deletion_date.valid()),
    ensures
        dates_valid(recorded(trash, infos)),
    decreases infos.len(),
{
    if infos.len() > 0 {
        lemma_recorded_dates(trash, infos.drop_last());
        assert(infos.last() == infos[infos.len() - 1]);
    }
}

proof fn lemma_orphan_dates(
    trash: Seq<u8>,
    known: Seq<Seq<char>>,
    files: Seq<Seq<char>>,
    now: Moment,
)
    requires
        now.valid(),
    ensures
        dates_valid(orphans(trash, known, files, now)),
    decreases files.len(),
{
    if files.len() > 0 {
        lemma_orphan_dates(trash, known, files.drop_last(), now);
    }
}

proof fn lemma_filter_dates(v: Seq<Entry>, keep: spec_fn(Entry) -> bool)
    requires
        dates_valid(v),
    ensures
        dates_valid(v.filter(keep)),
    decreases v.len(),
{
    reveal(Seq::filter);
    if v.len() > 0 {
        assert forall|i: int| 0 <= i < v.drop_last().len() implies (
        #[trigger] v.drop_last()[i]).info.deletion_date.valid() by {
            assert(v.drop_last()[i] == v[i]);
        }
        lemma_filter_dates(v.drop_last(), keep);
        assert(v.last() == v[v.len() - 1]);
    }
}

/// What was read of a trash directory.
#[derive(Debug)]
pub struct DirContents {
    pub trash: Vec<u8>,
    /// The files of its directory `info`.
    pub infos: Vec<InfoFile>,
    /// The names in its directory `files`.
    pub files: Vec<String>,
}

/// The entries of a directory that a pattern lists.
pub open spec fn dir_listing(d: DirContents, pattern: Option<Seq<char>>, now: Moment) -> Seq<Entry> {
    listing(d.trash@, d.infos@, texts(d.files@), pattern, now)
}

/// The entries of all directories that a pattern lists, directory by directory.
pub open spec fn gathered(dirs: Seq<DirContents>, pattern: Option<Seq<char>>, now: Moment) -> Seq<
    Entry,
>
    decreases dirs.len(),
{
    if dirs.len() == 0 {
        seq![]
    } else {
        gathered(dirs.drop_last(), pattern, now) + dir_listing(dirs.last(), pattern, now)
    }
}

pub open spec fn by_recency() -> spec_fn(Entry) -> int {
    |e: Entry| recency(e.info.deletion_date)
}

/// `r` holds the entries of `s`, the newest first, and those of one date in the order of
/// `s`.
pub open spec fn newest_from(r: Seq<Entry>, s: Seq<Entry>) -> bool {
    ordered_from(r, s, by_recency())
}

/// The entries of all trash directories, the newest first.
pub fn newest_first(v: Vec<TrashEntry>) -> (r: Vec<TrashEntry>)
    ensures
        sorted_from(r@, v@),
        newest_from(entries(r@), entries(v@)),
        r@.to_multiset() == v@.to_multiset(),
        r@.len() == v@.len(),
{
    let ghost s = v@;
    let r = sort(v);
    proof {
        assert forall|k: int|
            #[trigger] of_key(entries(r@), by_recency(), k) == of_key(entries(s), by_recency(), k) by {
            lemma_entries_of_rank(r@, k);
            lemma_entries_of_rank(s, k);
            assert(of_rank(r@, k) == of_rank(s, k));
        }
        assert forall|i: int, j: int| 0 <= i <= j < entries(r@).len() implies by_recency()(
            #[trigger] entries(r@)[i],
        ) <= by_recency()(#[trigger] entries(r@)[j]) by {
            assert(r@[i].rank() <= r@[j].rank());
        }
    }
    r
}

proof fn lemma_entries_of_rank(v: Seq<TrashEntry>, k: int)
    ensures
        of_key(entries(v), by_recency(), k) == entries(of_rank(v, k)),
    decreases v.len(),
{
    reveal(Seq::filter);
    if v.len() > 0 {
        lemma_entries_of_rank(v.drop_last(), k);
        assert(entries(v).drop_last() =~= entries(v.drop_last()));
        assert(entries(v).last() == v.last()@);
        assert(entries(of_rank(v.drop_last(), k).push(v.last())) =~= entries(
            of_rank(v.drop_last(), k),
        ).push(v.last()@));
    } else {
        assert(entries(of_rank(v, k)) =~= of_key(entries(v), by_recency(), k));
    }
}

/// The entries of all trash directories that a pattern lists, the newest first.
#[verifier::spinoff_prover]
#[verifier::rlimit(80)]
pub fn list(dirs: Vec<DirContents>, pattern: Option<&str>, now: Moment) -> (r: Vec<TrashEntry>)
    ensures
        newest_from(
            entries(r@),
            gathered(
                dirs@,
                match pattern {
                    Some(g) => Some(g@),
                    None => None,
                },
                now,
            ),
        ),
{
    let ghost g = match pattern {
        Some(g) => Some(g@),
        None => None,
    };
    let ghost whole = dirs@;
    let mut rest = dirs;
    let mut all: Vec<TrashEntry> = Vec::new();
    assert(gathered(rest@, g, now) + entries(all@) =~= gathered(whole, g, now));
    while rest.len() > 0
        invariant
            g == (match pattern {
                Some(g) => Some(g@),
                None => None,
            }),
            gathered(rest@, g, now) + entries(all@) == gathered(whole, g, now),
        decreases rest@.len(),
    {
        let ghost before = rest@;
        let ghost all0 = all@;
        if let Some(d) = rest.pop() {
            assert(before.drop_last() =~= rest@);
            assert(before.last() == d);
            let mut own = list_in_dir(d.trash.as_slice(), d.infos, &d.files, pattern, now);
            let ghost own0 = own@;
            own.append(&mut all);
            all = own;
            proof {
                assert(entries(all@) =~= entries(own0) + entries(all0));
                assert(gathered(rest@, g, now) + entries(all@) =~= gathered(before, g, now) + entries(
                    all0,
                ));
            }
        }
    }
    assert(gathered(rest@, g, now) + entries(all@) =~= entries(all@));
    newest_first(all)
}

/// In a list with the newest first no entry is newer than one before it.
pub proof fn law_newest_first(r: Seq<Entry>, s: Seq<Entry>, i: int, j: int)
    requires
        newest_from(r, s),
        0 <= i < j < r.len(),
    ensures
        !earlier(r[i].info.deletion_date, r[j].info.deletion_date),
{
    assert(by_recency()(r[i]) <= by_recency()(r[j]));
}

/// What a pattern lists is what of the whole list it stands for, in the same order.
pub proof fn law_pattern_filters(
    dirs: Seq<DirContents>,
    pattern: Option<Seq<char>>,
    now: Moment,
    all: Seq<Entry>,
    some: Seq<Entry>,
)
    requires
        newest_from(all, gathered(dirs, None, now)),
        newest_from(some, gathered(dirs, pattern, now)),
    ensures
        some == all.filter(|e: Entry| shows(pattern, e)),
{
    lemma_gathered_filter(dirs, pattern, now);
    law_order_keeps(
        all,
        some,
        gathered(dirs, None, now),
        by_recency(),
        |e: Entry| shows(pattern, e),
    );
}

proof fn lemma_gathered_filter(dirs: Seq<DirContents>, pattern: Option<Seq<char>>, now: Moment)
    ensures
        gathered(dirs, pattern, now) == gathered(dirs, None, now).filter(
            |e: Entry| shows(pattern, e),
        ),
    decreases dirs.len(),
{
    let keep = |e: Entry| shows(pattern, e);
    if dirs.len() > 0 {
        let d = dirs.last();
        lemma_gathered_filter(dirs.drop_last(), pattern, now);
        lemma_listing_all(d.trash@, d.infos@, texts(d.files@), now);
        Seq::filter_distributes_over_add(
            gathered(dirs.drop_last(), None, now),
            dir_listing(d, None, now),
            keep,
        );
    } else {
        reveal(Seq::filter);
        assert(gathered(dirs, None, now).filter(keep) =~= seq![]);
    }
}

/// No two entries have an id and a trash directory in common.
pub open spec fn told_apart(v: Seq<Entry>) -> bool {
    forall|i: int, j: int|
        0 <= i < j < v.len() ==> (#[trigger] v[i]).id != (#[trigger] v[j]).id || !same_path(
            v[i].trash_root,
            v[j].trash_root,
        )
}

pub open spec fn info_names(v: Seq<InfoFile>) -> Seq<Seq<char>> {
    v.map_values(|f: InfoFile| f.name@)
}

/// What is read of a filesystem: no directory comes twice, and no name in a directory.
pub open spec fn names_once(dirs: Seq<DirContents>) -> bool {
    &&& forall|i: int, j: int|
        0 <= i < j < dirs.len() ==> !same_path(
            (#[trigger] dirs[i]).trash@,
            (#[trigger] dirs[j]).trash@,
        )
    &&& forall|i: int|
        0 <= i < dirs.len() ==> info_names((#[trigger] dirs[i]).infos@).no_duplicates() && texts(
            dirs[i].files@,
        ).no_duplicates()
}

/// The list of the whole trash holds each entry of each directory once, and nothing else.
pub proof fn law_listed_once(dirs: Seq<DirContents>, now: Moment, all: Seq<Entry>)
    requires
        newest_from(all, gathered(dirs, None, now)),
        names_once(dirs),
    ensures
        told_apart(all),
        forall|e: Entry| #[trigger]
            all.contains(e) <==> exists|d: int|
                0 <= d < dirs.len() && (#[trigger] dir_listing(dirs[d], None, now)).contains(e),
{
    broadcast use vstd::seq_lib::group_to_multiset_ensures;

    let s = gathered(dirs, None, now);
    law_ordered_permutation(all, s, by_recency());
    lemma_gathered_apart(dirs, now);
    s.lemma_multiset_has_no_duplicates();
    all.lemma_multiset_has_no_duplicates_conv();
    assert forall|i: int, j: int| 0 <= i < j < all.len() implies (#[trigger] all[i]).id != (
    #[trigger] all[j]).id || !same_path(all[i].trash_root, all[j].trash_root) by {
        assert(all.to_multiset().count(all[i]) > 0 && all.to_multiset().count(all[j]) > 0);
        assert(s.contains(all[i]) && s.contains(all[j]));
        let a = choose|a: int| 0 <= a < s.len() && s[a] == all[i];
        let b = choose|b: int| 0 <= b < s.len() && s[b] == all[j];
        assert(all[i] != all[j]);
        if a < b {
            assert(s[a].id != s[b].id || !same_path(s[a].trash_root, s[b].trash_root));
        } else {
            assert(s[b].id != s[a].id || !same_path(s[b].trash_root, s[a].trash_root));
        }
    }
    assert forall|e: Entry| #[trigger] all.contains(e) <==> exists|d: int|
        0 <= d < dirs.len() && (#[trigger] dir_listing(dirs[d], None, now)).contains(e) by {
        lemma_gathered_contains(dirs, now, e);
        assert(all.contains(e) == (all.to_multiset().count(e) > 0));
        assert(s.contains(e) == (s.to_multiset().count(e) > 0));
    }
}

proof fn lemma_gathered_contains(dirs: Seq<DirContents>, now: Moment, e: Entry)
    ensures
        gathered(dirs, None, now).contains(e) <==> exists|d: int|
            0 <= d < dirs.len() && (#[trigger] dir_listing(dirs[d], None, now)).contains(e),
    decreases dirs.len(),
{
    if dirs.len() > 0 {
        let before = dirs.drop_last();
        let a = gathered(before, None, now);
        let b = dir_listing(dirs.last(), None, now);
        lemma_gathered_contains(before, now, e);
        if (a + b).contains(e) {
            let i = choose|i: int| 0 <= i < (a + b).len() && (a + b)[i] == e;
            if i < a.len() {
                assert(a[i] == e);
                let d = choose|d: int|
                    0 <= d < before.len() && (#[trigger] dir_listing(before[d], None, now)).contains(e);
                assert(dir_listing(dirs[d], None, now).contains(e));
            } else {
                assert(b[i - a.len()] == e);
                assert(dir_listing(dirs[dirs.len() - 1], None, now).contains(e));
            }
        }
        if exists|d: int|
            0 <= d < dirs.len() && (#[trigger] dir_listing(dirs[d], None, now)).contains(e) {
            let d = choose|d: int|
                0 <= d < dirs.len() && (#[trigger] dir_listing(dirs[d], None, now)).contains(e);
            if d < before.len() {
                assert(dir_listing(before[d], None, now).contains(e));
                let i = choose|i: int| 0 <= i < a.len() && a[i] == e;
                assert((a + b)[i] == e);
            } else {
                let i = choose|i: int| 0 <= i < b.len() && b[i] == e;
                assert((a + b)[a.len() + i] == e);
            }
        }
    }
}

proof fn lemma_gathered_apart(dirs: Seq<DirContents>, now: Moment)
    requires
        names_once(dirs),
    ensures
        told_apart(gathered(dirs, None, now)),
        forall|i: int|
            0 <= i < gathered(dirs, None, now).len() ==> exists|d: int|
                0 <= d < dirs.len() && same_path(
                    (#[trigger] gathered(dirs, None, now)[i]).trash_root,
                    (#[trigger] dirs[d]).trash@,
                ),
    decreases dirs.len(),
{
    if dirs.len() > 0 {
        let before = dirs.drop_last();
        let last = dirs.last();
        assert forall|i: int, j: int| 0 <= i < j < before.len() implies !same_path(
            (#[trigger] before[i]).trash@,
            (#[trigger] before[j]).trash@,
        ) by {
            assert(before[i] == dirs[i] && before[j] == dirs[j]);
        }
        assert forall|i: int| 0 <= i < before.len() implies info_names(
            (#[trigger] before[i]).infos@,
        ).no_duplicates() && texts(before[i].files@).no_duplicates() by {
            assert(before[i] == dirs[i]);
        }
        lemma_gathered_apart(before, now);
        assert(last == dirs[dirs.len() - 1]);
        lemma_listing_apart(last, now);
        let a = gathered(before, None, now);
        let b = dir_listing(last, None, now);
        let s = gathered(dirs, None, now);
        assert(s =~= a + b);
        assert forall|i: int| 0 <= i < s.len() implies exists|d: int|
            0 <= d < dirs.len() && same_path((#[trigger] s[i]).trash_root, (#[trigger] dirs[d]).trash@) by {
            if i < a.len() {
                assert(s[i] == a[i]);
                let d = choose|d: int|
                    0 <= d < before.len() && same_path(a[i].trash_root, (#[trigger] before[d]).trash@);
                assert(before[d] == dirs[d]);
            } else {
                assert(s[i] == b[i - a.len()]);
                assert(same_path(s[i].trash_root, dirs[dirs.len() - 1].trash@));
            }
        }
        assert forall|i: int, j: int| 0 <= i < j < s.len() implies (#[trigger] s[i]).id != (
        #[trigger] s[j]).id || !same_path(s[i].trash_root, s[j].trash_root) by {
            if j < a.len() {
                assert(s[i] == a[i] && s[j] == a[j]);
            } else if i >= a.len() {
                assert(s[i] == b[i - a.len()] && s[j] == b[j - a.len()]);
            } else {
                assert(s[i] == a[i] && s[j] == b[j - a.len()]);
                let d = choose|d: int|
                    0 <= d < before.len() && same_path(a[i].trash_root, (#[trigger] before[d]).trash@);
                assert(before[d] == dirs[d]);
                assert(!same_path(dirs[d].trash@, dirs[dirs.len() - 1].trash@));
            }
        }
    }
}

#[verifier::spinoff_prover]
#[verifier::rlimit(80)]
proof fn lemma_listing_apart(d: DirContents, now: Moment)
    requires
        info_names(d.infos@).no_duplicates(),
        texts(d.files@).no_duplicates(),
    ensures
        told_apart(dir_listing(d, None, now)),
        forall|i: int|
            0 <= i < dir_listing(d, None, now).len() ==> (#[trigger] dir_listing(
                d,
                None,
                now,
            )[i]).trash_root == d.trash@,
{
    let known = recorded(d.trash@, d.infos@);
    let files = texts(d.files@);
    let os = orphans(d.trash@, ids(known), files, now);
    let s = dir_listing(d, None, now);
    lemma_listing_all(d.trash@, d.infos@, files, now);
    lemma_recorded_apart(d.trash@, d.infos@);
    lemma_orphans_apart(d.trash@, ids(known), files, now);
    assert(s =~= known + os);
    assert forall|i: int, j: int| 0 <= i < j < s.len() implies (#[trigger] s[i]).id != (
    #[trigger] s[j]).id by {
        if j < known.len() {
            assert(s[i] == known[i] && s[j] == known[j]);
        } else if i >= known.len() {
            assert(s[i] == os[i - known.len()] && s[j] == os[j - known.len()]);
        } else {
            assert(s[i] == known[i] && s[j] == os[j - known.len()]);
            assert(ids(known)[i] == known[i].id);
            assert(ids(known).contains(known[i].id));
        }
    }
}

proof fn lemma_recorded_apart(trash: Seq<u8>, infos: Seq<InfoFile>)
    requires
        info_names(infos).no_duplicates(),
    ensures
        forall|i: int, j: int|
            0 <= i < j < recorded(trash, infos).len() ==> (#[trigger] recorded(trash, infos)[i]).id != (
            #[trigger] recorded(trash, infos)[j]).id,
        forall|i: int|
            0 <= i < recorded(trash, infos).len() ==> info_names(infos).contains(
                (#[trigger] recorded(trash, infos)[i]).id + ".trashinfo"@,
            ),
        forall|i: int|
            0 <= i < recorded(trash, infos).len() ==> (#[trigger] recorded(
                trash,
                infos,
            )[i]).trash_root == trash,
    decreases infos.len(),
{
    if infos.len() > 0 {
        let before = infos.drop_last();
        let names = info_names(infos);
        assert(info_names(before) =~= names.drop_last());
        lemma_recorded_apart(trash, before);
        let v = recorded(trash, before);
        let r = recorded(trash, infos);
        let last = infos.last().name@;
        assert(names[infos.len() - 1] == last);
        assert forall|i: int| 0 <= i < r.len() implies names.contains(
            (#[trigger] r[i]).id + ".trashinfo"@,
        ) by {
            if i < v.len() {
                let n = v[i].id + ".trashinfo"@;
                let k = choose|k: int| 0 <= k < info_names(before).len() && info_names(before)[k] == n;
                assert(names[k] == n);
            } else {
                assert(last =~= r[i].id + ".trashinfo"@);
            }
        }
        if r.len() > v.len() {
            let id = r[v.len() as int].id;
            assert(last =~= id + ".trashinfo"@);
            assert forall|i: int| 0 <= i < v.len() implies (#[trigger] v[i]).id != id by {
                let n = v[i].id + ".trashinfo"@;
                let k = choose|k: int| 0 <= k < info_names(before).len() && info_names(before)[k] == n;
                assert(names[k] == n);
            }
        }
    }
}

proof fn lemma_orphans_apart(
    trash: Seq<u8>,
    known: Seq<Seq<char>>,
    files: Seq<Seq<char>>,
    now: Moment,
)
    requires
        files.no_duplicates(),
    ensures
        forall|i: int, j: int|
            0 <= i < j < orphans(trash, known, files, now).len() ==> (#[trigger] orphans(
                trash,
                known,
                files,
                now,
            )[i]).id != (#[trigger] orphans(trash, known, files, now)[j]).id,
        forall|i: int|
            0 <= i < orphans(trash, known, files, now).len() ==> {
                let e = #[trigger] orphans(trash, known, files, now)[i];
                &&& files.contains(e.id)
                &&& !known.contains(e.id)
                &&& e.trash_root == trash
            },
    decreases files.len(),
{
    if files.len() > 0 {
        let before = files.drop_last();
        lemma_orphans_apart(trash, known, before, now);
        let v = orphans(trash, known, before, now);
        let r = orphans(trash, known, files, now);
        assert(files[files.len() - 1] == files.last());
        assert forall|i: int| 0 <= i < v.len() implies files.contains((#[trigger] v[i]).id) && v[i].id
            != files.last() by {
            let k = choose|k: int| 0 <= k < before.len() && before[k] == v[i].id;
            assert(files[k] == v[i].id);
        }
        assert forall|i: int| 0 <= i < r.len() implies ({
            let e = #[trigger] r[i];
            &&& files.contains(e.id)
            &&& !known.contains(e.id)
            &&& e.trash_root == trash
        }) by {
            if i < v.len() {
                assert(r[i] == v[i]);
            }
        }
    }
}

/// Every `.trashinfo` file that can be read is listed.
pub proof fn law_record_listed(d: DirContents, now: Moment, i: int)
    requires
        0 <= i < d.infos@.len(),
    ensures
        entry_of(d.trash@, d.infos@[i].name@, opt_record(d.infos@[i].info)) matches Some(e)
            ==> dir_listing(d, None, now).contains(e),
{
    let known = recorded(d.trash@, d.infos@);
    let os = orphans(d.trash@, ids(known), texts(d.files@), now);
    lemma_listing_all(d.trash@, d.infos@, texts(d.files@), now);
    lemma_recorded_there(d.trash@, d.infos@, i);
    if let Some(e) = entry_of(d.trash@, d.infos@[i].name@, opt_record(d.infos@[i].info)) {
        let k = choose|k: int| 0 <= k < known.len() && known[k] == e;
        assert((known + os)[k] == e);
    }
}

proof fn lemma_recorded_there(trash: Seq<u8>, infos: Seq<InfoFile>, i: int)
    requires
        0 <= i < infos.len(),
    ensures
        entry_of(trash, infos[i].name@, opt_record(infos[i].info)) matches Some(e) ==> recorded(
            trash,
            infos,
        ).contains(e),
    decreases infos.len(),
{
    let v = recorded(trash, infos.drop_last());
    let w = recorded(trash, infos);
    if let Some(e) = entry_of(trash, infos[i].name@, opt_record(infos[i].info)) {
        if i == infos.len() - 1 {
            assert(w[v.len() as int] == e);
        } else {
            lemma_recorded_there(trash, infos.drop_last(), i);
            let k = choose|k: int| 0 <= k < v.len() && v[k] == e;
            assert(w[k] == e);
        }
    }
}

/// An id that neither a record nor data has is not listed.
pub proof fn lemma_unlisted(d: DirContents, id: Seq<char>, pattern: Option<Seq<char>>, now: Moment)
    requires
        !texts(d.files@).contains(id),
        !info_names(d.infos@).contains(id + ".trashinfo"@),
    ensures
        forall|i: int|
            0 <= i < dir_listing(d, pattern, now).len() ==> (#[trigger] dir_listing(
                d,
                pattern,
                now,
            )[i]).id != id,
{
    let known = recorded(d.trash@, d.infos@);
    let all = known + orphans(d.trash@, ids(known), texts(d.files@), now);
    lemma_recorded_others(d.trash@, d.infos@, id);
    lemma_orphans_others(d.trash@, ids(known), texts(d.files@), now, id);
    assert forall|i: int| 0 <= i < all.len() implies (#[trigger] all[i]).id != id by {
        if i < known.len() {
            assert(all[i] == known[i]);
        } else {
            assert(all[i] == orphans(d.trash@, ids(known), texts(d.files@), now)[i - known.len()]);
        }
    }
    let keep = |e: Entry| shows(pattern, e);
    assert forall|i: int| 0 <= i < all.filter(keep).len() implies (
    #[trigger] all.filter(keep)[i]).id != id by {
        all.lemma_filter_contains_rev(keep, all.filter(keep)[i]);
    }
}

proof fn lemma_recorded_others(trash: Seq<u8>, infos: Seq<InfoFile>, id: Seq<char>)
    requires
        !info_names(infos).contains(id + ".trashinfo"@),
    ensures
        forall|i: int|
            0 <= i < recorded(trash, infos).len() ==> (#[trigger] recorded(trash, infos)[i]).id != id,
    decreases infos.len(),
{
    if infos.len() > 0 {
        let before = infos.drop_last();
        let names = info_names(infos);
        assert(info_names(before) =~= names.drop_last());
        assert forall|k: int| 0 <= k < before.len() implies info_names(before)[k] != id
            + ".trashinfo"@ by {
            assert(info_names(before)[k] == names[k]);
        }
        lemma_recorded_others(trash, before, id);
        let last = infos.last().name@;
        assert(names[infos.len() - 1] == last);
        if let Some(x) = id_of(last) {
            assert(last =~= x + ".trashinfo"@);
        }
    }
}

proof fn lemma_orphans_others(
    trash: Seq<u8>,
    known: Seq<Seq<char>>,
    files: Seq<Seq<char>>,
    now: Moment,
    id: Seq<char>,
)
    requires
        !files.contains(id),
    ensures
        forall|i: int|
            0 <= i < orphans(trash, known, files, now).len() ==> (#[trigger] orphans(
                trash,
                known,
                files,
                now,
            )[i]).id != id,
    decreases files.len(),
{
    if files.len() > 0 {
        let before = files.drop_last();
        assert forall|k: int| 0 <= k < before.len() implies before[k] != id by {
            assert(before[k] == files[k]);
        }
        lemma_orphans_others(trash, known, before, now, id);
        assert(files[files.len() - 1] == files.last());
    }
}

/// How an entry is looked for.
#[derive(Debug, Clone, Copy, PartialEq, Eq, Structural)]
pub enum Search {
    Id,
    Name,
    Glob,
}

/// An entry is meant by a text: it is its id, the name of its original path, or a pattern
/// for that name.
pub open spec fn meant(s: Search, p: Seq<char>, e: Entry) -> bool {
    match s {
        Search::Id => e.id == p,
        Search::Name => name_of(e.info.original_path) matches Some(n) && lossy(n) == p,
        Search::Glob => glob(p, shown_name(e.info.original_path)),
    }
}

/// The positions of the entries that a text means.
pub open spec fn hits(s: Search, p: Seq<char>, v: Seq<Entry>) -> Seq<int>
    decreases v.len(),
{
    if v.len() == 0 {
        seq![]
    } else {
        let h = hits(s, p, v.drop_last());
        if meant(s, p, v.last()) {
            h.push(v.len() - 1)
        } else {
            h
        }
    }
}

pub open spec fn ambiguous(p: Seq<char>, n: nat) -> Failure {
    Failure::AmbiguousMatch { pattern: p, count: n }
}

/// The entry that a text means: the one with that id, else the one with that name, else
/// the one whose name it is a pattern for. More than one is an error at each stage.
pub open spec fn found(p: Seq<char>, v: Seq<Entry>) -> Result<int, Failure> {
    let a = hits(Search::Id, p, v);
    let b = hits(Search::Name, p, v);
    let c = hits(Search::Glob, p, v);
    if a.len() == 1 {
        Ok(a[0])
    } else if a.len() > 1 {
        Err(ambiguous(p, a.len()))
    } else if b.len() == 1 {
        Ok(b[0])
    } else if b.len() > 1 {
        Err(ambiguous(p, b.len()))
    } else if c.len() == 1 {
        Ok(c[0])
    } else if c.len() > 1 {
        Err(ambiguous(p, c.len()))
    } else {
        Err(Failure::EntryNotFound(p))
    }
}

/// Whether a text means an entry.
pub fn means(s: Search, p: &str, e: &TrashEntry) -> (r: bool)
    ensures
        r == meant(s, p@, e@),
{
    match s {
        Search::Id => same_text(e.id.as_str(), p),
        Search::Name => match file_name(e.info.original_path.as_slice()) {
            Some(n) => {
                let t = text_lossy(n);
                same_text(t.as_str(), p)
            },
            None => false,
        },
        Search::Glob => {
            let n = name_text(e.info.original_path.as_slice());
            simple_glob_match(p, n.as_str())
        },
    }
}

pub open spec fn ints(v: Seq<usize>) -> Seq<int> {
    v.map_values(|i: usize| i as int)
}

/// The positions of the entries that a text means.
pub fn find_hits(s: Search, p: &str, v: &Vec<TrashEntry>) -> (r: Vec<usize>)
    ensures
        ints(r@) == hits(s, p@, entries(v@)),
        forall|k: int| 0 <= k < r@.len() ==> (#[trigger] r@[k]) < v@.len(),
{
    let mut r: Vec<usize> = Vec::new();
    let mut i: usize = 0;
    let ghost all = entries(v@);
    assert(all.take(0) =~= seq![]);
    assert(ints(r@) =~= hits(s, p@, all.take(0)));
    while i < v.len()
        invariant
            i <= v@.len(),
            all == entries(v@),
            ints(r@) == hits(s, p@, all.take(i as int)),
            forall|k: int| 0 <= k < r@.len() ==> (#[trigger] r@[k]) < v@.len(),
        decreases v@.len() - i,
    {
        proof {
            assert(all.take(i + 1).drop_last() =~= all.take(i as int));
            assert(all.take(i + 1).last() == v@[i as int]@);
        }
        if means(s, p, &v[i]) {
            let ghost before = r@;
            r.push(i);
            assert(ints(r@) =~= ints(before).push(i as int));
        }
        i += 1;
    }
    assert(all.take(i as int) =~= all);
    r
}

/// The entry that a text means, by its position.
pub fn find_entry(p: &str, v: &Vec<TrashEntry>) -> (r: Result<usize, TrashError>)
    ensures
        match r {
            Ok(i) => found(p@, entries(v@)) == Ok::<int, Failure>(i as int) && i < v@.len(),
            Err(e) => found(p@, entries(v@)) == Err::<int, Failure>(e@),
        },
{
    let a = find_hits(Search::Id, p, v);
    assert(ints(a@).len() == a@.len());
    if a.len() == 1 {
        assert(ints(a@)[0] == a@[0] as int);
        return Ok(a[0]);
    }
    if a.len() > 1 {
        return Err(TrashError::AmbiguousMatch { pattern: p.to_owned(), count: a.len() });
    }
    let b = find_hits(Search::Name, p, v);
    assert(ints(b@).len() == b@.len());
    if b.len() == 1 {
        assert(ints(b@)[0] == b@[0] as int);
        return Ok(b[0]);
    }
    if b.len() > 1 {
        return Err(TrashError::AmbiguousMatch { pattern: p.to_owned(), count: b.len() });
    }
    let c = find_hits(Search::Glob, p, v);
    assert(ints(c@).len() == c@.len());
    if c.len() == 1 {
        assert(ints(c@)[0] == c@[0] as int);
        return Ok(c[0]);
    }
    if c.len() > 1 {
        return Err(TrashError::AmbiguousMatch { pattern: p.to_owned(), count: c.len() });
    }
    Err(TrashError::EntryNotFound(p.to_owned()))
}

proof fn lemma_hits(s: Search, p: Seq<char>, v: Seq<Entry>)
    ensures
        forall|i: int| 0 <= i < v.len() && meant(s, p, #[trigger] v[i]) ==> hits(s, p, v).contains(i),
        forall|k: int|
            0 <= k < hits(s, p, v).len() ==> 0 <= #[trigger] hits(s, p, v)[k] < v.len() && meant(
                s,
                p,
                v[hits(s, p, v)[k]],
            ),
    decreases v.len(),
{
    if v.len() > 0 {
        let w = v.drop_last();
        lemma_hits(s, p, w);
        let h0 = hits(s, p, w);
        let h = hits(s, p, v);
        assert forall|i: int| 0 <= i < v.len() && meant(s, p, #[trigger] v[i]) implies h.contains(i) by {
            if i < w.len() {
                assert(w[i] == v[i]);
                let k = choose|k: int| 0 <= k < h0.len() && h0[k] == i;
                assert(h[k] == i);
            } else {
                assert(h[h0.len() as int] == i);
            }
        }
        assert forall|k: int| 0 <= k < h.len() implies 0 <= #[trigger] h[k] < v.len() && meant(
            s,
            p,
            v[h[k]],
        ) by {
            if k < h0.len() {
                assert(h[k] == h0[k]);
                assert(w[h0[k]] == v[h0[k]]);
            }
        }
    }
}

/// An id that one entry alone has means that entry, whatever the names of others are.
pub proof fn law_id_finds(p: Seq<char>, v: Seq<Entry>, i: int)
    requires
        0 <= i < v.len(),
        v[i].id == p,
        forall|j: int| 0 <= j < v.len() && j != i ==> (#[trigger] v[j]).id != p,
    ensures
        found(p, v) == Ok::<int, Failure>(i),
{
    lemma_hits(Search::Id, p, v);
    let h = hits(Search::Id, p, v);
    assert(meant(Search::Id, p, v[i]));
    assert(h.contains(i));
    let k = choose|k: int| 0 <= k < h.len() && h[k] == i;
    if h.len() > 1 {
        lemma_hits_ascending(Search::Id, p, v);
        let m = if k == 0 {
            1
        } else {
            0
        };
        assert(h[m] == i);
        assert(h[0] < h[1]);
    }
}

proof fn lemma_hits_ascending(s: Search, p: Seq<char>, v: Seq<Entry>)
    ensures
        forall|j: int, k: int|
            0 <= j < k < hits(s, p, v).len() ==> #[trigger] hits(s, p, v)[j] < #[trigger] hits(
                s,
                p,
                v,
            )[k],
    decreases v.len(),
{
    if v.len() > 0 {
        let w = v.drop_last();
        lemma_hits_ascending(s, p, w);
        lemma_hits(s, p, w);
        let h0 = hits(s, p, w);
        let h = hits(s, p, v);
        assert forall|j: int, k: int| 0 <= j < k < h.len() implies #[trigger] h[j]
            < #[trigger] h[k] by {
            assert(h[j] == h0[j]);
            if k < h0.len() {
                assert(h[k] == h0[k]);
            }
        }
    }
}

/// An id that several entries have is an error.
pub proof fn law_id_ambiguous(p: Seq<char>, v: Seq<Entry>, i: int, j: int)
    requires
        0 <= i < j < v.len(),
        v[i].id == p,
        v[j].id == p,
    ensures
        found(p, v) matches Err(Failure::AmbiguousMatch { .. }),
{
    lemma_hits(Search::Id, p, v);
    let h = hits(Search::Id, p, v);
    assert(meant(Search::Id, p, v[i]));
    assert(meant(Search::Id, p, v[j]));
    let a = choose|a: int| 0 <= a < h.len() && h[a] == i;
    let b = choose|b: int| 0 <= b < h.len() && h[b] == j;
    assert(a != b);
}

/// Where an entry is restored to, or why it is not: an orphan only where a target is
/// named, and without one nothing that climbs or leads out of the filesystem that the
/// trash belongs to.
pub open spec fn destination(e: Entry, target: Option<Seq<u8>>, home: Seq<u8>) -> Result<
    Seq<u8>,
    Failure,
> {
    match target {
        Some(t) => Ok(t),
        None => if e.orphaned {
            Err(Failure::Refused(e.info.original_path))
        } else if climbs(e.info.original_path) {
            Err(Failure::RestoreTraversal(e.info.original_path))
        } else if !same_path(e.trash_root, home) && !under(
            e.info.original_path,
            topdir_of(e.trash_root),
        ) {
            Err(Failure::RestoreTraversal(e.info.original_path))
        } else {
            Ok(e.info.original_path)
        },
    }
}

/// Where an entry is restored to.
pub fn restore_destination(e: &TrashEntry, target: Option<&[u8]>, home: &[u8]) -> (r: Result<
    Vec<u8>,
    TrashError,
>)
    ensures
        match r {
            Ok(p) => destination(
                e@,
                match target {
                    Some(t) => Some(t@),
                    None => None,
                },
                home@,
            ) == Ok::<Seq<u8>, Failure>(p@),
            Err(x) => destination(
                e@,
                match target {
                    Some(t) => Some(t@),
                    None => None,
                },
                home@,
            ) == Err::<Seq<u8>, Failure>(x@),
        },
{
    match target {
        Some(t) => Ok(to_vec(t)),
        None => {
            let p = e.info.original_path.as_slice();
            if e.orphaned {
                return Err(TrashError::Refused(to_vec(p)));
            }
            if path::has_parent_component(p) {
                return Err(TrashError::RestoreTraversal(to_vec(p)));
            }
            if !path_eq(e.trash_root.as_slice(), home) {
                let top = topdir_for_trash(e.trash_root.as_slice());
                if !path_starts_with(p, top.as_slice()) {
                    return Err(TrashError::RestoreTraversal(to_vec(p)));
                }
            }
            Ok(to_vec(p))
        },
    }
}

/// The path under which an entry is restored into a directory: that of the name of its
/// original path in it. An original path without a name has none.
pub fn restore_into(e: &TrashEntry, dir: &[u8]) -> (r: Option<Vec<u8>>)
    ensures
        match r {
            Some(p) => name_of(e@.info.original_path) matches Some(n) && p@ == joined(dir@, n),
            None => name_of(e@.info.original_path) is None,
        },
{
    match file_name(e.info.original_path.as_slice()) {
        Some(n) => Some(path::join(dir, n)),
        None => None,
    }
}

/// Without a target, an entry of a filesystem's trash is restored only to a path on that
/// filesystem that does not climb.
pub proof fn law_restore_stays_inside(e: Entry, home: Seq<u8>, p: Seq<u8>)
    requires
        destination(e, None, home) == Ok::<Seq<u8>, Failure>(p),
        !same_path(e.trash_root, home),
    ensures
        under(p, topdir_of(e.trash_root)),
        !climbs(p),
        !e.orphaned,
{
}

/// What was trashed is restored where it stood: the entry of the record that is read back
/// leads to the item's data and to its path, in the home trash and in any trash of the
/// filesystem that the path lies on.
pub proof fn law_restored_where_it_stood(
    trash: Seq<u8>,
    home: Seq<u8>,
    p: Seq<u8>,
    id: Seq<char>,
    written: Record,
    info: TrashInfo,
)
    requires
        absolute(trash),
        absolute(p),
        !climbs(p),
        same_path(trash, home) || under(p, topdir_of(trash)),
        written.original_path == recorded_path(trash, home, p),
        read_back(written, info),
    ensures
        entry_of(trash, id + ".trashinfo"@, Some(info@)) matches Some(e) && {
            &&& e.id == id
            &&& e.trashed_path == data_path(trash, id)
            &&& e.info_path == record_path(trash, id)
            &&& destination(e, None, home) matches Ok(q) && same_path(q, p)
        },
{
    let name = id + ".trashinfo"@;
    assert(name.skip(name.len() - ".trashinfo"@.len()) =~= ".trashinfo"@);
    assert(name.take(name.len() - ".trashinfo"@.len()) =~= id);
    assert(".trashinfo"@.is_suffix_of(name));
    let top = topdir_of(trash);
    path::lemma_parent_absolute(trash);
    if let Some(q) = path::parent_of(trash) {
        path::lemma_parent_absolute(q);
    }
    law_recorded_path(trash, home, p);
    path::lemma_joined_same(top, info.original_path@, written.original_path);
}

/// How a step went.
#[derive(Debug, Clone, Copy, PartialEq, Eq, Structural)]
pub enum StepOutcome {
    Fine,
    /// The destination is taken.
    Taken,
    Unsupported,
    Failed,
}

pub const EEXIST: i32 = 17;

pub const ENOSYS: i32 = 38;

pub const EINVAL: i32 = 22;

/// How a rename went, by the number of its error.
pub fn rename_outcome(errno: Option<i32>) -> (r: StepOutcome)
    ensures
        r == (match errno {
            None => StepOutcome::Fine,
            Some(e) => if e == EEXIST {
                StepOutcome::Taken
            } else if e == ENOSYS || e == EINVAL {
                StepOutcome::Unsupported
            } else {
                StepOutcome::Failed
            },
        }),
{
    match errno {
        None => StepOutcome::Fine,
        Some(e) => {
            if e == EEXIST {
                StepOutcome::Taken
            } else if e == ENOSYS || e == EINVAL {
                StepOutcome::Unsupported
            } else {
                StepOutcome::Failed
            }
        },
    }
}

/// A step of moving an item out of the trash.
#[derive(Debug, Clone, Copy, PartialEq, Eq, Structural)]
pub enum RestoreStep {
    /// Look whether something stands at the destination.
    CheckFree,
    /// Make the directories above the destination.
    MakeParent,
    /// Rename without replacing.
    RenameFree,
    /// Rename.
    Rename,
    /// Make the link again.
    CopyLink,
    CopyTree,
    /// Copy the file with its permissions.
    CopyFile,
    /// Make the pipe again.
    MakeFifo,
    /// Remove the data in the trash, which is no directory.
    RemoveFile,
    RemoveTree,
    /// The item is restored: check its hash and remove its record.
    Restored,
    /// Something stands at the destination.
    Conflict,
    /// A system call failed: the record stays.
    Failed,
}

pub open spec fn restore_copy(k: Kind) -> RestoreStep {
    match k {
        Kind::Symlink => RestoreStep::CopyLink,
        Kind::Dir => RestoreStep::CopyTree,
        Kind::Fifo => RestoreStep::MakeFifo,
        _ => RestoreStep::CopyFile,
    }
}

pub open spec fn restore_copies(s: RestoreStep) -> bool {
    s == RestoreStep::CopyLink || s == RestoreStep::CopyTree || s == RestoreStep::CopyFile || s
        == RestoreStep::MakeFifo
}

pub open spec fn restore_removes(s: RestoreStep) -> bool {
    s == RestoreStep::RemoveFile || s == RestoreStep::RemoveTree
}

/// The step after one that was made.
pub open spec fn restore_after(s: RestoreStep, k: Kind, o: StepOutcome) -> RestoreStep {
    if s == RestoreStep::CheckFree {
        if o == StepOutcome::Fine {
            RestoreStep::MakeParent
        } else {
            RestoreStep::Conflict
        }
    } else if s == RestoreStep::MakeParent {
        if o == StepOutcome::Fine {
            RestoreStep::RenameFree
        } else {
            RestoreStep::Failed
        }
    } else if s == RestoreStep::RenameFree {
        match o {
            StepOutcome::Fine => RestoreStep::Restored,
            StepOutcome::Taken => RestoreStep::Conflict,
            StepOutcome::Unsupported => RestoreStep::Rename,
            StepOutcome::Failed => restore_copy(k),
        }
    } else if s == RestoreStep::Rename {
        if o == StepOutcome::Fine {
            RestoreStep::Restored
        } else {
            restore_copy(k)
        }
    } else if restore_copies(s) {
        if o != StepOutcome::Fine {
            RestoreStep::Failed
        } else if s == RestoreStep::CopyTree {
            RestoreStep::RemoveTree
        } else {
            RestoreStep::RemoveFile
        }
    } else if restore_removes(s) {
        if o == StepOutcome::Fine {
            RestoreStep::Restored
        } else {
            RestoreStep::Failed
        }
    } else {
        s
    }
}

/// The step after one that was made.
pub fn next_restore(s: RestoreStep, k: Kind, o: StepOutcome) -> (r: RestoreStep)
    ensures
        r == restore_after(s, k, o),
{
    let ok: bool = match o {
        StepOutcome::Fine => true,
        _ => false,
    };
    let copy: RestoreStep = match k {
        Kind::Symlink => RestoreStep::CopyLink,
        Kind::Dir => RestoreStep::CopyTree,
        Kind::Fifo => RestoreStep::MakeFifo,
        _ => RestoreStep::CopyFile,
    };
    match s {
        RestoreStep::CheckFree => {
            if ok {
                RestoreStep::MakeParent
            } else {
                RestoreStep::Conflict
            }
        },
        RestoreStep::MakeParent => {
            if ok {
                RestoreStep::RenameFree
            } else {
                RestoreStep::Failed
            }
        },
        RestoreStep::RenameFree => match o {
            StepOutcome::Fine => RestoreStep::Restored,
            StepOutcome::Taken => RestoreStep::Conflict,
            StepOutcome::Unsupported => RestoreStep::Rename,
            StepOutcome::Failed => copy,
        },
        RestoreStep::Rename => {
            if ok {
                RestoreStep::Restored
            } else {
                copy
            }
        },
        RestoreStep::CopyLink | RestoreStep::CopyFile | RestoreStep::MakeFifo => {
            if ok {
                RestoreStep::RemoveFile
            } else {
                RestoreStep::Failed
            }
        },
        RestoreStep::CopyTree => {
            if ok {
                RestoreStep::RemoveTree
            } else {
                RestoreStep::Failed
            }
        },
        RestoreStep::RemoveFile | RestoreStep::RemoveTree => {
            if ok {
                RestoreStep::Restored
            } else {
                RestoreStep::Failed
            }
        },
        RestoreStep::Restored => RestoreStep::Restored,
        RestoreStep::Conflict => RestoreStep::Conflict,
        RestoreStep::Failed => RestoreStep::Failed,
    }
}

/// The steps of a restore, from the outcomes of those before.
pub open spec fn restore_run(k: Kind, outcomes: Seq<StepOutcome>) -> RestoreStep
    decreases outcomes.len(),
{
    if outcomes.len() == 0 {
        RestoreStep::CheckFree
    } else {
        restore_after(restore_run(k, outcomes.drop_last()), k, outcomes.last())
    }
}

/// Data in the trash is removed only after it was copied, and a record only once the item
/// was renamed out of the trash or its data was removed there.
pub proof fn law_restore_keeps(k: Kind, outcomes: Seq<StepOutcome>)
    ensures
        restore_removes(restore_run(k, outcomes)) ==> outcomes.len() > 0 && outcomes.last()
            == StepOutcome::Fine && restore_copies(restore_run(k, outcomes.drop_last())),
        restore_run(k, outcomes) == RestoreStep::Restored && outcomes.len() > 0 && restore_run(
            k,
            outcomes.drop_last(),
        ) != RestoreStep::Restored ==> {
            let s = restore_run(k, outcomes.drop_last());
            outcomes.last() == StepOutcome::Fine && (s == RestoreStep::RenameFree || s
                == RestoreStep::Rename || restore_removes(s))
        },
{
}

/// Where something stands at the destination nothing is moved.
pub proof fn law_restore_conflict(k: Kind, outcomes: Seq<StepOutcome>)
    requires
        outcomes.len() > 0,
        outcomes[0] != StepOutcome::Fine,
    ensures
        restore_run(k, outcomes) == RestoreStep::Conflict,
    decreases outcomes.len(),
{
    reveal_with_fuel(restore_run, 2);
    if outcomes.len() > 1 {
        law_restore_conflict(k, outcomes.drop_last());
    } else {
        assert(outcomes.last() == outcomes[0]);
    }
}

/// A hash that a restored file does not have: the one recorded, and what it has.
pub open spec fn hash_warning(
    expected: Option<Seq<char>>,
    is_file: bool,
    xxhash: Option<Seq<char>>,
    sha256: Option<Seq<char>>,
) -> Option<(Seq<char>, Seq<char>)> {
    match expected {
        Some(h) => if !is_file || xxhash == Some(h) || sha256 == Some(h) {
            None
        } else {
            Some(
                (
                    h,
                    match xxhash {
                        Some(x) => x,
                        None => match sha256 {
                            Some(s) => s,
                            None => "(unreadable)"@,
                        },
                    },
                ),
            )
        },
        None => None,
    }
}

fn has_text(o: &Option<String>, s: &str) -> (r: bool)
    ensures
        r == (opt_text(*o) == Some(s@)),
{
    match o {
        Some(x) => same_text(x.as_str(), s),
        None => false,
    }
}

/// Compares the recorded hash of a restored file with those of what was restored, by
/// either algorithm.
pub fn check_hash(
    expected: &Option<String>,
    is_file: bool,
    xxhash: Option<String>,
    sha256: Option<String>,
) -> (r: Option<(String, String)>)
    ensures
        match r {
            Some((e, a)) => hash_warning(
                opt_text(*expected),
                is_file,
                opt_text(xxhash),
                opt_text(sha256),
            ) == Some((e@, a@)),
            None => hash_warning(
                opt_text(*expected),
                is_file,
                opt_text(xxhash),
                opt_text(sha256),
            ) is None,
        },
{
    match expected {
        Some(h) => {
            if !is_file || has_text(&xxhash, h.as_str()) || has_text(&sha256, h.as_str()) {
                None
            } else {
                let actual = match xxhash {
                    Some(x) => x,
                    None => match sha256 {
                        Some(s) => s,
                        None => "(unreadable)".to_owned(),
                    },
                };
                Some((h.clone(), actual))
            }
        },
        None => None,
    }
}

/// The first entry that is no orphan.
pub open spec fn first_recorded(v: Seq<Entry>, i: int) -> int
    decreases v.len() - i,
{
    if i >= v.len() || !v[i].orphaned {
        i
    } else {
        first_recorded(v, i + 1)
    }
}

/// The entry that was trashed last, in a list with the newest first; never an orphan.
pub fn undo_choice(v: &Vec<TrashEntry>) -> (r: Result<usize, TrashError>)
    ensures
        match r {
            Ok(i) => i == first_recorded(entries(v@), 0) && i < v@.len() && !v@[i as int].orphaned,
            Err(e) => e@ == Failure::EntryNotFound("(trash is empty)"@) && forall|k: int|
                0 <= k < v@.len() ==> (#[trigger] v@[k]).orphaned,
        },
{
    let mut i: usize = 0;
    while i < v.len()
        invariant
            i <= v@.len(),
            first_recorded(entries(v@), 0) == first_recorded(entries(v@), i as int),
            forall|k: int| 0 <= k < i ==> (#[trigger] v@[k]).orphaned,
        decreases v@.len() - i,
    {
        assert(entries(v@)[i as int].orphaned == v@[i as int].orphaned);
        if !v[i].orphaned {
            return Ok(i);
        }
        i += 1;
    }
    Err(TrashError::EntryNotFound("(trash is empty)".to_owned()))
}

/// How the data of an entry is removed for good.
#[derive(Debug, Clone, Copy, PartialEq, Eq, Structural)]
pub enum PurgeStep {
    RemoveTree,
    RemoveFile,
    /// There is none: only the record is removed.
    Nothing,
}

/// How the data of an entry is removed for good, by what it is; a link is never followed.
pub fn purge_step(kind: Option<Kind>) -> (r: PurgeStep)
    ensures
        r == (match kind {
            Some(k) => if k == Kind::Dir {
                PurgeStep::RemoveTree
            } else {
                PurgeStep::RemoveFile
            },
            None => PurgeStep::Nothing,
        }),
{
    match kind {
        Some(k) => match k {
            Kind::Dir => PurgeStep::RemoveTree,
            _ => PurgeStep::RemoveFile,
        },
        None => PurgeStep::Nothing,
    }
}

/// Whether the record of an entry is removed: only once its data is gone.
pub fn forget_record(step: PurgeStep, removed: bool) -> (r: bool)
    ensures
        r == (step == PurgeStep::Nothing || removed),
{
    match step {
        PurgeStep::Nothing => true,
        _ => removed,
    }
}

} // verus!
