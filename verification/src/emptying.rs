//! What emptying the trash leaves.

use crate::dates::Moment;
use crate::disk::{read_from, Disk};
use crate::job::lemma_encode_concat;
use crate::path::{absolute, components, entry_name, joined, lemma_joined_name, same_path, SEP};
use crate::retention::goes;
use crate::sorting::{law_one_order, law_order_keeps, of_key};
use crate::store::{by_recency, data_path, dir_listing, entry_of, files_dir, gathered, id_of, ids, info_dir, info_names, law_listed_once, lemma_listing_all, names_once, newest_from, opt_record, orphan, orphans, record_path, recorded, DirContents, Entry, InfoFile};
use crate::text::texts;
use crate::trashinfo::Record;
use vstd::prelude::*;
use vstd::utf8::{encode_utf8, encode_utf8_decode_utf8, is_ascii_chars_encode_utf8};

verus! {

/// The components of the place of a name in the directory of the data.
proof fn lemma_data_place(trash: Seq<u8>, id: Seq<char>)
    requires
        absolute(trash),
        entry_name(encode_utf8(id)),
    ensures
        components(data_path(trash, id)) == components(trash).push(encode_utf8("files"@)).push(
            encode_utf8(id),
        ),
{
    lemma_dir_names();
    lemma_joined_name(trash, encode_utf8("files"@));
    lemma_joined_name(files_dir(trash), encode_utf8(id));
}

/// The components of the place of a name in the directory of the records.
proof fn lemma_info_place(trash: Seq<u8>, name: Seq<char>)
    requires
        absolute(trash),
        entry_name(encode_utf8(name)),
    ensures
        components(joined(info_dir(trash), encode_utf8(name))) == components(trash).push(
            encode_utf8("info"@),
        ).push(encode_utf8(name)),
{
    lemma_dir_names();
    lemma_joined_name(trash, encode_utf8("info"@));
    lemma_joined_name(info_dir(trash), encode_utf8(name));
}

proof fn lemma_dir_names()
    ensures
        entry_name(encode_utf8("files"@)),
        entry_name(encode_utf8("info"@)),
        encode_utf8("files"@) != encode_utf8("info"@),
{
    reveal_strlit("files");
    reveal_strlit("info");
    is_ascii_chars_encode_utf8("files"@);
    is_ascii_chars_encode_utf8("info"@);
}

proof fn lemma_record_name(id: Seq<char>)
    requires
        entry_name(encode_utf8(id)),
    ensures
        entry_name(encode_utf8(id + ".trashinfo"@)),
{
    reveal_strlit(".trashinfo");
    is_ascii_chars_encode_utf8(".trashinfo"@);
    lemma_encode_concat(id, ".trashinfo"@);
    let a = encode_utf8(id);
    let b = encode_utf8(".trashinfo"@);
    assert forall|k: int| 0 <= k < (a + b).len() implies (a + b)[k] != SEP by {
        if k < a.len() {
            assert(a.contains(a[k]));
        }
    }
}

/// What can be read of a trash directory: it has an absolute path, the names in it are
/// names, and every record is named after one.
pub open spec fn proper(d: DirContents) -> bool {
    &&& absolute(d.trash@)
    &&& forall|n: Seq<char>| #[trigger]
        texts(d.files@).contains(n) ==> entry_name(encode_utf8(n))
    &&& forall|n: Seq<char>| #[trigger]
        info_names(d.infos@).contains(n) ==> entry_name(encode_utf8(n)) && (id_of(n) matches Some(
            id,
        ) ==> entry_name(encode_utf8(id)))
}

/// A place of the data or of the record of an entry.
pub open spec fn gone_places(gone: Seq<Entry>) -> Set<Seq<Seq<u8>>> {
    Set::new(
        |q: Seq<Seq<u8>>|
            exists|i: int|
                0 <= i < gone.len() && (q == components((#[trigger] gone[i]).trashed_path) || q
                    == components(gone[i].info_path)),
    )
}

/// A disk from which the data and the records of entries were removed.
pub open spec fn purged(disk: Disk, gone: Seq<Entry>) -> Disk {
    disk.remove_keys(gone_places(gone))
}

/// The names and the contents of records.
pub open spec fn info_views(v: Seq<InfoFile>) -> Seq<(Seq<char>, Option<Record>)> {
    v.map_values(|f: InfoFile| (f.name@, opt_record(f.info)))
}

/// What is read of a trash directory again: of the names that were there those that still
/// are, in their order.
pub open spec fn read_again(d: DirContents, again: DirContents, disk: Disk) -> bool {
    &&& again.trash@ == d.trash@
    &&& texts(again.files@) == texts(d.files@).filter(
        |n: Seq<char>| disk.contains_key(components(data_path(d.trash@, n))),
    )
    &&& info_views(again.infos@) == info_views(d.infos@).filter(
        |f: (Seq<char>, Option<Record>)|
            disk.contains_key(components(joined(info_dir(d.trash@), encode_utf8(f.0)))),
    )
}

/// An id in a trash directory is that of an entry that is gone.
pub open spec fn struck(gone: Seq<Entry>, trash: Seq<u8>, id: Seq<char>) -> bool {
    exists|i: int|
        0 <= i < gone.len() && (#[trigger] gone[i]).trash_root == trash && gone[i].id == id
}

spec fn recorded_of(trash: Seq<u8>, v: Seq<(Seq<char>, Option<Record>)>) -> Seq<Entry>
    decreases v.len(),
{
    if v.len() == 0 {
        seq![]
    } else {
        let r = recorded_of(trash, v.drop_last());
        match entry_of(trash, v.last().0, v.last().1) {
            Some(e) => r.push(e),
            None => r,
        }
    }
}

proof fn lemma_recorded_of(trash: Seq<u8>, infos: Seq<InfoFile>)
    ensures
        recorded(trash, infos) == recorded_of(trash, info_views(infos)),
    decreases infos.len(),
{
    if infos.len() > 0 {
        lemma_recorded_of(trash, infos.drop_last());
        assert(info_views(infos).drop_last() =~= info_views(infos.drop_last()));
    }
}

/// The records that stay are the entries that stay.
proof fn lemma_records_stay(
    trash: Seq<u8>,
    v: Seq<(Seq<char>, Option<Record>)>,
    stays: spec_fn((Seq<char>, Option<Record>)) -> bool,
    keep: spec_fn(Entry) -> bool,
)
    requires
        forall|i: int|
            0 <= i < v.len() ==> (entry_of(trash, (#[trigger] v[i]).0, v[i].1) matches Some(e)
                ==> keep(e) == stays(v[i])),
    ensures
        recorded_of(trash, v.filter(stays)) == recorded_of(trash, v).filter(keep),
    decreases v.len(),
{
    reveal(Seq::filter);
    if v.len() > 0 {
        let w = v.drop_last();
        assert forall|i: int| 0 <= i < w.len() implies (entry_of(trash, (#[trigger] w[i]).0, w[i].1) matches Some(
            e,
        ) ==> keep(e) == stays(w[i])) by {
            assert(w[i] == v[i]);
        }
        lemma_records_stay(trash, w, stays, keep);
        let x = v.last();
        assert(x == v[v.len() - 1]);
        assert(w.filter(stays).push(x).drop_last() =~= w.filter(stays));
        if let Some(e) = entry_of(trash, x.0, x.1) {
            assert(recorded_of(trash, w).push(e).drop_last() =~= recorded_of(trash, w));
        }
    } else {
        assert(recorded_of(trash, v).filter(keep) =~= seq![]);
        assert(v.filter(stays) =~= seq![]);
    }
}

/// The data that stays without a record are the entries without one that stay.
proof fn lemma_orphans_stay(
    trash: Seq<u8>,
    known: Seq<Seq<char>>,
    known_after: Seq<Seq<char>>,
    files: Seq<Seq<char>>,
    now: Moment,
    stays: spec_fn(Seq<char>) -> bool,
    keep: spec_fn(Entry) -> bool,
)
    requires
        forall|n: Seq<char>|
            #![trigger stays(n)]
            files.contains(n) ==> keep(orphan(trash, n, now)) == stays(n) && (stays(n) ==> known.contains(
                n,
            ) == known_after.contains(n)),
    ensures
        orphans(trash, known_after, files.filter(stays), now) == orphans(trash, known, files, now).filter(
            keep,
        ),
    decreases files.len(),
{
    reveal(Seq::filter);
    if files.len() > 0 {
        let before = files.drop_last();
        let n = files.last();
        assert(files[files.len() - 1] == n);
        assert forall|m: Seq<char>|
            #![trigger stays(m)]
            before.contains(m) implies keep(orphan(trash, m, now)) == stays(m) && (stays(m)
            ==> known.contains(m) == known_after.contains(m)) by {
            let k = choose|k: int| 0 <= k < before.len() && before[k] == m;
            assert(files[k] == m);
        }
        lemma_orphans_stay(trash, known, known_after, before, now, stays, keep);
        assert(files.contains(n));
        assert(stays(n) ==> known.contains(n) == known_after.contains(n));
        assert(before.filter(stays).push(n).drop_last() =~= before.filter(stays));
        let o = orphans(trash, known, before, now);
        assert(o.push(orphan(trash, n, now)).drop_last() =~= o);
    } else {
        assert(orphans(trash, known, files, now).filter(keep) =~= seq![]);
        assert(files.filter(stays) =~= seq![]);
    }
}

proof fn lemma_kept_ids(v: Seq<Entry>, keep: spec_fn(Entry) -> bool, id: Seq<char>)
    requires
        forall|i: int| 0 <= i < v.len() && (#[trigger] v[i]).id == id ==> keep(v[i]),
    ensures
        ids(v.filter(keep)).contains(id) == ids(v).contains(id),
    decreases v.len(),
{
    reveal(Seq::filter);
    if v.len() > 0 {
        let w = v.drop_last();
        assert forall|i: int| 0 <= i < w.len() && (#[trigger] w[i]).id == id implies keep(w[i]) by {
            assert(w[i] == v[i]);
        }
        lemma_kept_ids(w, keep, id);
        assert(v.last() == v[v.len() - 1]);
        lemma_ids_push(w, v.last(), id);
        assert(w.push(v.last()) =~= v);
        lemma_ids_push(w.filter(keep), v.last(), id);
    } else {
        assert(v.filter(keep) =~= v);
    }
}

proof fn lemma_ids_push(v: Seq<Entry>, e: Entry, id: Seq<char>)
    ensures
        ids(v.push(e)).contains(id) == (ids(v).contains(id) || e.id == id),
{
    let a = ids(v);
    let b = ids(v.push(e));
    assert(b =~= a.push(e.id));
    if a.contains(id) {
        let k = choose|k: int| 0 <= k < a.len() && a[k] == id;
        assert(b[k] == id);
    }
    if e.id == id {
        assert(b[a.len() as int] == id);
    }
}

proof fn lemma_recorded_entries(trash: Seq<u8>, infos: Seq<InfoFile>)
    ensures
        forall|i: int|
            0 <= i < recorded(trash, infos).len() ==> {
                let e = #[trigger] recorded(trash, infos)[i];
                &&& e.trash_root == trash
                &&& e.trashed_path == data_path(trash, e.id)
                &&& e.info_path == record_path(trash, e.id)
                &&& info_names(infos).contains(e.id + ".trashinfo"@)
                &&& id_of(e.id + ".trashinfo"@) == Some(e.id)
            },
    decreases infos.len(),
{
    if infos.len() > 0 {
        let before = infos.drop_last();
        let names = info_names(infos);
        lemma_recorded_entries(trash, before);
        let v = recorded(trash, before);
        let r = recorded(trash, infos);
        let last = infos.last().name@;
        assert(names[infos.len() - 1] == last);
        assert forall|i: int| 0 <= i < r.len() implies ({
            let e = #[trigger] r[i];
            &&& e.trash_root == trash
            &&& e.trashed_path == data_path(trash, e.id)
            &&& e.info_path == record_path(trash, e.id)
            &&& names.contains(e.id + ".trashinfo"@)
            &&& id_of(e.id + ".trashinfo"@) == Some(e.id)
        }) by {
            if i < v.len() {
                assert(r[i] == v[i]);
                let n = v[i].id + ".trashinfo"@;
                let k = choose|k: int| 0 <= k < info_names(before).len() && info_names(before)[k] == n;
                assert(names[k] == n);
            } else {
                assert(last =~= r[i].id + ".trashinfo"@);
            }
        }
    }
}

proof fn lemma_orphan_entries(
    trash: Seq<u8>,
    known: Seq<Seq<char>>,
    files: Seq<Seq<char>>,
    now: Moment,
)
    ensures
        forall|i: int|
            0 <= i < orphans(trash, known, files, now).len() ==> {
                let e = #[trigger] orphans(trash, known, files, now)[i];
                &&& e == orphan(trash, e.id, now)
                &&& files.contains(e.id)
            },
    decreases files.len(),
{
    if files.len() > 0 {
        let before = files.drop_last();
        lemma_orphan_entries(trash, known, before, now);
        let v = orphans(trash, known, before, now);
        let r = orphans(trash, known, files, now);
        assert(files[files.len() - 1] == files.last());
        assert forall|i: int| 0 <= i < r.len() implies ({
            let e = #[trigger] r[i];
            &&& e == orphan(trash, e.id, now)
            &&& files.contains(e.id)
        }) by {
            if i < v.len() {
                assert(r[i] == v[i]);
                let k = choose|k: int| 0 <= k < before.len() && before[k] == v[i].id;
                assert(files[k] == v[i].id);
            }
        }
    }
}

/// Where an entry that is listed has its data and its record.
proof fn lemma_listed_places(d: DirContents, now: Moment, e: Entry)
    requires
        proper(d),
        dir_listing(d, None, now).contains(e),
    ensures
        e.trash_root == d.trash@,
        e.trashed_path == data_path(d.trash@, e.id),
        e.info_path == record_path(d.trash@, e.id),
        entry_name(encode_utf8(e.id)),
        entry_name(encode_utf8(e.id + ".trashinfo"@)),
{
    let known = recorded(d.trash@, d.infos@);
    let os = orphans(d.trash@, ids(known), texts(d.files@), now);
    lemma_listing_all(d.trash@, d.infos@, texts(d.files@), now);
    lemma_recorded_entries(d.trash@, d.infos@);
    lemma_orphan_entries(d.trash@, ids(known), texts(d.files@), now);
    let i = choose|i: int| 0 <= i < (known + os).len() && (known + os)[i] == e;
    if i < known.len() {
        assert(known[i] == e);
    } else {
        assert(os[i - known.len()] == e);
        lemma_record_name(e.id);
    }
}

/// Entries that were listed of directories.
spec fn listed_of(dirs: Seq<DirContents>, now: Moment, gone: Seq<Entry>) -> bool {
    forall|i: int|
        0 <= i < gone.len() ==> exists|d: int|
            0 <= d < dirs.len() && (#[trigger] dir_listing(dirs[d], None, now)).contains(
                #[trigger] gone[i],
            )
}

/// What can be read of all trash directories.
pub open spec fn all_proper(dirs: Seq<DirContents>) -> bool {
    forall|i: int| 0 <= i < dirs.len() ==> proper(#[trigger] dirs[i])
}

proof fn lemma_pushed_twice<T>(a: Seq<T>, x: T, p: T, b: Seq<T>, y: T, q: T)
    requires
        a.push(x).push(p) == b.push(y).push(q),
    ensures
        a == b,
        x == y,
        p == q,
{
    let l = a.push(x).push(p);
    let r = b.push(y).push(q);
    assert(l.last() == r.last());
    assert(l.drop_last() =~= a.push(x));
    assert(r.drop_last() =~= b.push(y));
    assert(a.push(x).last() == b.push(y).last());
    assert(a.push(x).drop_last() =~= a);
    assert(b.push(y).drop_last() =~= b);
}

/// Where an entry that is gone had its data and its record, and that the places of two ids
/// are the same only in one directory.
proof fn lemma_gone_entry(dirs: Seq<DirContents>, now: Moment, gone: Seq<Entry>, d: int, i: int)
    requires
        names_once(dirs),
        all_proper(dirs),
        listed_of(dirs, now, gone),
        0 <= d < dirs.len(),
        0 <= i < gone.len(),
    ensures
        components(gone[i].trashed_path) == components(gone[i].trash_root).push(
            encode_utf8("files"@),
        ).push(encode_utf8(gone[i].id)),
        components(gone[i].info_path) == components(gone[i].trash_root).push(
            encode_utf8("info"@),
        ).push(encode_utf8(gone[i].id + ".trashinfo"@)),
        same_path(gone[i].trash_root, dirs[d].trash@) ==> gone[i].trash_root == dirs[d].trash@,
{
    let e = gone[i];
    let j = choose|j: int|
        0 <= j < dirs.len() && (#[trigger] dir_listing(dirs[j], None, now)).contains(gone[i]);
    assert(proper(dirs[j]));
    lemma_listed_places(dirs[j], now, e);
    lemma_data_place(dirs[j].trash@, e.id);
    lemma_info_place(dirs[j].trash@, e.id + ".trashinfo"@);
    if same_path(e.trash_root, dirs[d].trash@) && j != d {
        if j < d {
            assert(!same_path(dirs[j].trash@, dirs[d].trash@));
        } else {
            assert(!same_path(dirs[d].trash@, dirs[j].trash@));
        }
    }
}

/// Data is there no more where its id is that of an entry that is gone, and only there.
proof fn lemma_data_stays(
    dirs: Seq<DirContents>,
    now: Moment,
    gone: Seq<Entry>,
    disk: Disk,
    d: int,
    n: Seq<char>,
)
    requires
        names_once(dirs),
        all_proper(dirs),
        listed_of(dirs, now, gone),
        0 <= d < dirs.len(),
        entry_name(encode_utf8(n)),
    ensures
        ({
            let q = components(data_path(dirs[d].trash@, n));
            &&& gone_places(gone).contains(q) == struck(gone, dirs[d].trash@, n)
            &&& disk.contains_key(q) ==> purged(disk, gone).contains_key(q) == !struck(
                gone,
                dirs[d].trash@,
                n,
            )
        }),
{
    let t = dirs[d].trash@;
    let q = components(data_path(t, n));
    assert(proper(dirs[d]));
    lemma_data_place(t, n);
    lemma_dir_names();
    if gone_places(gone).contains(q) {
        let i = choose|i: int|
            0 <= i < gone.len() && (q == components((#[trigger] gone[i]).trashed_path) || q
                == components(gone[i].info_path));
        let g = gone[i];
        lemma_gone_entry(dirs, now, gone, d, i);
        if q == components(g.trashed_path) {
            lemma_pushed_twice(
                components(t),
                encode_utf8("files"@),
                encode_utf8(n),
                components(g.trash_root),
                encode_utf8("files"@),
                encode_utf8(g.id),
            );
            encode_utf8_decode_utf8(n);
            encode_utf8_decode_utf8(g.id);
            assert(gone[i].trash_root == t && gone[i].id == n);
        } else {
            lemma_pushed_twice(
                components(t),
                encode_utf8("files"@),
                encode_utf8(n),
                components(g.trash_root),
                encode_utf8("info"@),
                encode_utf8(g.id + ".trashinfo"@),
            );
        }
    }
    if struck(gone, t, n) {
        let i = choose|i: int|
            0 <= i < gone.len() && (#[trigger] gone[i]).trash_root == t && gone[i].id == n;
        lemma_gone_entry(dirs, now, gone, d, i);
        assert(q == components(gone[i].trashed_path));
    }
}

/// A record is there no more where it is named after an entry that is gone, and only there.
proof fn lemma_record_stays(
    dirs: Seq<DirContents>,
    now: Moment,
    gone: Seq<Entry>,
    disk: Disk,
    d: int,
    n: Seq<char>,
)
    requires
        names_once(dirs),
        all_proper(dirs),
        listed_of(dirs, now, gone),
        0 <= d < dirs.len(),
        entry_name(encode_utf8(n)),
        disk.contains_key(components(joined(info_dir(dirs[d].trash@), encode_utf8(n)))),
    ensures
        purged(disk, gone).contains_key(
            components(joined(info_dir(dirs[d].trash@), encode_utf8(n))),
        ) == !(id_of(n) matches Some(id) && struck(gone, dirs[d].trash@, id)),
{
    let t = dirs[d].trash@;
    let q = components(joined(info_dir(t), encode_utf8(n)));
    let ext = ".trashinfo"@;
    assert(proper(dirs[d]));
    lemma_info_place(t, n);
    lemma_dir_names();
    if gone_places(gone).contains(q) {
        let i = choose|i: int|
            0 <= i < gone.len() && (q == components((#[trigger] gone[i]).trashed_path) || q
                == components(gone[i].info_path));
        let g = gone[i];
        lemma_gone_entry(dirs, now, gone, d, i);
        if q == components(g.info_path) {
            lemma_pushed_twice(
                components(t),
                encode_utf8("info"@),
                encode_utf8(n),
                components(g.trash_root),
                encode_utf8("info"@),
                encode_utf8(g.id + ext),
            );
            encode_utf8_decode_utf8(n);
            encode_utf8_decode_utf8(g.id + ext);
            assert(n == g.id + ext);
            assert(n.skip(n.len() - ext.len()) =~= ext);
            assert(n.take(n.len() - ext.len()) =~= g.id);
            assert(ext.is_suffix_of(n));
            assert(id_of(n) == Some(g.id));
            assert(gone[i].trash_root == t);
        } else {
            lemma_pushed_twice(
                components(t),
                encode_utf8("info"@),
                encode_utf8(n),
                components(g.trash_root),
                encode_utf8("files"@),
                encode_utf8(g.id),
            );
        }
    }
    if let Some(id) = id_of(n) {
        if struck(gone, t, id) {
            let i = choose|i: int|
                0 <= i < gone.len() && (#[trigger] gone[i]).trash_root == t && gone[i].id == id;
            lemma_gone_entry(dirs, now, gone, d, i);
            assert(n =~= id + ext);
            assert(q == components(gone[i].info_path));
        }
    }
}

spec fn not_struck(gone: Seq<Entry>) -> spec_fn(Entry) -> bool {
    |e: Entry| !struck(gone, e.trash_root, e.id)
}

proof fn lemma_filter_same<T>(s: Seq<T>, p: spec_fn(T) -> bool, q: spec_fn(T) -> bool)
    requires
        forall|i: int| 0 <= i < s.len() ==> p(#[trigger] s[i]) == q(s[i]),
    ensures
        s.filter(p) == s.filter(q),
    decreases s.len(),
{
    reveal(Seq::filter);
    if s.len() > 0 {
        let t = s.drop_last();
        assert forall|i: int| 0 <= i < t.len() implies p(#[trigger] t[i]) == q(t[i]) by {
            assert(t[i] == s[i]);
        }
        lemma_filter_same(t, p, q);
        assert(s.last() == s[s.len() - 1]);
    }
}

/// What is listed of a directory afterwards is what was listed without what is gone.
proof fn lemma_listing_stays(
    dirs: Seq<DirContents>,
    now: Moment,
    gone: Seq<Entry>,
    disk: Disk,
    d: int,
    again: DirContents,
    later: Moment,
)
    requires
        names_once(dirs),
        all_proper(dirs),
        listed_of(dirs, now, gone),
        0 <= d < dirs.len(),
        read_from(disk, dirs[d]),
        read_again(dirs[d], again, purged(disk, gone)),
    ensures
        dir_listing(again, None, later) == dir_listing(dirs[d], None, later).filter(not_struck(gone)),
{
    let t = dirs[d].trash@;
    let after = purged(disk, gone);
    let keep = not_struck(gone);
    let names = texts(dirs[d].files@);
    let infos = info_views(dirs[d].infos@);
    assert(proper(dirs[d]));
    let data_there = |n: Seq<char>| after.contains_key(components(data_path(t, n)));
    let record_there = |f: (Seq<char>, Option<Record>)|
        after.contains_key(components(joined(info_dir(t), encode_utf8(f.0))));
    let known = recorded(t, dirs[d].infos@);
    let known_after = recorded(t, again.infos@);
    assert forall|i: int| 0 <= i < infos.len() implies (entry_of(t, (#[trigger] infos[i]).0, infos[i].1) matches Some(
        e,
    ) ==> keep(e) == record_there(infos[i])) by {
        let n = infos[i].0;
        assert(info_names(dirs[d].infos@)[i] == n);
        assert(info_names(dirs[d].infos@).contains(n));
        lemma_record_stays(dirs, now, gone, disk, d, n);
    }
    lemma_records_stay(t, infos, record_there, keep);
    lemma_recorded_of(t, dirs[d].infos@);
    lemma_recorded_of(t, again.infos@);
    assert(known_after == known.filter(keep));
    lemma_recorded_entries(t, dirs[d].infos@);
    assert forall|n: Seq<char>|
        #![trigger data_there(n)]
        names.contains(n) implies keep(orphan(t, n, later)) == data_there(n) && (data_there(n)
        ==> ids(known).contains(n) == ids(known_after).contains(n)) by {
        lemma_data_stays(dirs, now, gone, disk, d, n);
        if data_there(n) {
            assert forall|i: int| 0 <= i < known.len() && (#[trigger] known[i]).id == n implies keep(
                known[i],
            ) by {
                assert(known[i].trash_root == t);
            }
            lemma_kept_ids(known, keep, n);
        }
    }
    lemma_orphans_stay(t, ids(known), ids(known_after), names, later, data_there, keep);
    lemma_listing_all(t, dirs[d].infos@, names, later);
    lemma_listing_all(t, again.infos@, texts(again.files@), later);
    Seq::filter_distributes_over_add(known, orphans(t, ids(known), names, later), keep);
}

proof fn lemma_gathered_stays(
    dirs: Seq<DirContents>,
    now: Moment,
    gone: Seq<Entry>,
    disk: Disk,
    after: Seq<DirContents>,
    later: Moment,
    n: int,
)
    requires
        names_once(dirs),
        all_proper(dirs),
        listed_of(dirs, now, gone),
        after.len() == dirs.len(),
        forall|d: int|
            0 <= d < dirs.len() ==> read_from(disk, #[trigger] dirs[d]) && read_again(
                dirs[d],
                after[d],
                purged(disk, gone),
            ),
        0 <= n <= dirs.len(),
    ensures
        gathered(after.take(n), None, later) == gathered(dirs.take(n), None, later).filter(
            not_struck(gone),
        ),
    decreases n,
{
    let keep = not_struck(gone);
    if n > 0 {
        lemma_gathered_stays(dirs, now, gone, disk, after, later, n - 1);
        assert(after.take(n).drop_last() =~= after.take(n - 1));
        assert(dirs.take(n).drop_last() =~= dirs.take(n - 1));
        assert(read_from(disk, dirs[n - 1]));
        lemma_listing_stays(dirs, now, gone, disk, n - 1, after[n - 1], later);
        Seq::filter_distributes_over_add(
            gathered(dirs.take(n - 1), None, later),
            dir_listing(dirs[n - 1], None, later),
            keep,
        );
    } else {
        reveal(Seq::filter);
        assert(gathered(dirs.take(0), None, later).filter(keep) =~= seq![]);
        assert(gathered(after.take(0), None, later) =~= seq![]);
    }
}

/// Emptying the trash, where every removal goes well, leaves what did not go: the list
/// afterwards is the list before without the entries that went, in the same order, and the
/// data of what stays is untouched. Where the trash is listed at another moment, which is
/// the date of what has no record, it is what would have been listed then without what
/// went.
pub proof fn law_emptied(
    dirs: Seq<DirContents>,
    disk: Disk,
    now: Moment,
    all: Seq<Entry>,
    at: Moment,
    days: Option<u32>,
    after: Seq<DirContents>,
    later: Moment,
    before: Seq<Entry>,
    rest: Seq<Entry>,
)
    requires
        names_once(dirs),
        all_proper(dirs),
        newest_from(all, gathered(dirs, None, now)),
        after.len() == dirs.len(),
        forall|d: int|
            0 <= d < dirs.len() ==> read_from(disk, #[trigger] dirs[d]) && read_again(
                dirs[d],
                after[d],
                purged(disk, all.filter(|e: Entry| goes(e.info.deletion_date, at, days))),
            ),
        newest_from(before, gathered(dirs, None, later)),
        newest_from(rest, gathered(after, None, later)),
    ensures
        later == now ==> rest == all.filter(|e: Entry| !goes(e.info.deletion_date, at, days)),
        ({
            let gone = all.filter(|e: Entry| goes(e.info.deletion_date, at, days));
            &&& rest == before.filter(|e: Entry| !struck(gone, e.trash_root, e.id))
            &&& forall|e: Entry| #[trigger]
                rest.contains(e) ==> {
                    let q = components(e.trashed_path);
                    &&& purged(disk, gone).contains_key(q) == disk.contains_key(q)
                    &&& disk.contains_key(q) ==> purged(disk, gone)[q] == disk[q]
                }
        }),
{
    let leaves = |e: Entry| goes(e.info.deletion_date, at, days);
    let gone = all.filter(leaves);
    let keep = not_struck(gone);
    law_listed_once(dirs, now, all);
    law_listed_once(dirs, later, before);
    assert(listed_of(dirs, now, gone)) by {
        assert forall|i: int| 0 <= i < gone.len() implies exists|d: int|
            0 <= d < dirs.len() && (#[trigger] dir_listing(dirs[d], None, now)).contains(
                #[trigger] gone[i],
            ) by {
            all.lemma_filter_contains_rev(leaves, gone[i]);
            assert(all.contains(gone[i]));
        }
    }
    lemma_gathered_stays(dirs, now, gone, disk, after, later, dirs.len() as int);
    assert(after.take(dirs.len() as int) =~= after);
    assert(dirs.take(dirs.len() as int) =~= dirs);
    law_order_keeps(before, rest, gathered(dirs, None, later), by_recency(), keep);
    assert(keep =~= |e: Entry| !struck(gone, e.trash_root, e.id));
    assert forall|e: Entry| #[trigger] rest.contains(e) implies ({
        let q = components(e.trashed_path);
        &&& purged(disk, gone).contains_key(q) == disk.contains_key(q)
        &&& disk.contains_key(q) ==> purged(disk, gone)[q] == disk[q]
    }) by {
        before.lemma_filter_contains_rev(keep, e);
        let k = choose|k: int| 0 <= k < rest.len() && rest[k] == e;
        before.filter_lemma(keep);
        assert(keep(rest[k]));
        let d = choose|d: int|
            0 <= d < dirs.len() && (#[trigger] dir_listing(dirs[d], None, later)).contains(e);
        assert(proper(dirs[d]));
        lemma_listed_places(dirs[d], later, e);
        lemma_data_stays(dirs, now, gone, disk, d, e.id);
    }
    if later == now {
        assert forall|k: int| #[trigger] of_key(before, by_recency(), k) == of_key(all, by_recency(), k) by {
            let s = gathered(dirs, None, now);
            assert(of_key(all, by_recency(), k) == of_key(s, by_recency(), k));
        }
        law_one_order(before, all, by_recency());
        assert forall|i: int| 0 <= i < all.len() implies keep(#[trigger] all[i]) == !leaves(all[i]) by {
            if leaves(all[i]) {
                all.lemma_filter_contains(leaves, i);
                let k = choose|k: int| 0 <= k < gone.len() && gone[k] == all[i];
                assert(gone[k].trash_root == all[i].trash_root && gone[k].id == all[i].id);
            } else if !keep(all[i]) {
                let k = choose|k: int|
                    0 <= k < gone.len() && (#[trigger] gone[k]).trash_root == all[i].trash_root
                        && gone[k].id == all[i].id;
                all.lemma_filter_contains_rev(leaves, gone[k]);
                all.filter_lemma(leaves);
                let j = choose|j: int| 0 <= j < all.len() && all[j] == gone[k];
                assert(leaves(all[j]));
                if i < j {
                    assert(all[i].id != all[j].id || !same_path(all[i].trash_root, all[j].trash_root));
                } else {
                    assert(all[j].id != all[i].id || !same_path(all[j].trash_root, all[i].trash_root));
                }
            }
        }
        lemma_filter_same(all, keep, |e: Entry| !goes(e.info.deletion_date, at, days));
    }
}

} // verus!
