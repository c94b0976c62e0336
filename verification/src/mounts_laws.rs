//! What follows for callers from how mounts are read and trash directories are chosen.

use crate::mounts::{check_shared_trash, device_id_or_parent, find_mount_point, first_under, home_trash_dir, is_own_dir, label_of, list_mounts, makeshift_home_dir, mount_of, mounts, mounts_of, octal_value, own_dir, own_trash_path, places, same_filesystem, shared_dir, shared_ok, shared_trash_path, trash_dir_for_path, unescaped, virtual_types, with_place, Mount, MountPoint, MountTrash, Place, SharedTrash};
use crate::path::{joined, same_path, under};
use crate::sorting::{ascending, sorted_from};
use crate::text::{decimal, lines, lossy, words};
use vstd::prelude::*;
use vstd::utf8::encode_utf8;

verus! {

/// The filesystem of a path is the first of the list that the path lies under, and there is
/// none only where it lies under none of them.
pub proof fn law_mount_found(ms: &Vec<MountPoint>, abs: &[u8], r: Option<usize>)
    requires
        call_ensures(find_mount_point, (ms, abs), r),
    ensures
        r matches Some(i) ==> i < ms@.len() && under(abs@, ms@[i as int].path@) && forall|k: int|
            0 <= k < i ==> !under(abs@, (#[trigger] ms@[k]).path@),
        r is None ==> forall|k: int| 0 <= k < ms@.len() ==> !under(abs@, (#[trigger] ms@[k]).path@),
{
    let all = mounts(ms@);
    lemma_first_under(all, abs@);
    assert forall|k: int| 0 <= k < ms@.len() implies (#[trigger] ms@[k]).path@ == all[k].path by {}
}

proof fn lemma_first_under(ms: Seq<Mount>, abs: Seq<u8>)
    ensures
        first_under(ms, abs) matches Some(i) ==> 0 <= i < ms.len() && under(abs, ms[i].path)
            && forall|k: int| 0 <= k < i ==> !under(abs, (#[trigger] ms[k]).path),
        first_under(ms, abs) is None ==> forall|k: int|
            0 <= k < ms.len() ==> !under(abs, (#[trigger] ms[k]).path),
    decreases ms.len(),
{
    if ms.len() > 0 {
        let d = ms.drop_last();
        lemma_first_under(d, abs);
        assert forall|k: int| 0 <= k < d.len() implies #[trigger] ms[k] == d[k] by {}
        if first_under(ms, abs) is None {
            assert forall|k: int| 0 <= k < ms.len() implies !under(abs, (#[trigger] ms[k]).path) by {
                if k < d.len() {
                    assert(d[k] == ms[k]);
                }
            }
        }
    }
}

/// A device is that of the item itself where it is known, else that of its parent, and two
/// devices are one only where both are known.
pub proof fn law_devices(own: Option<u64>, parent: Option<u64>, d: Option<u64>, same: bool)
    requires
        call_ensures(device_id_or_parent, (own, parent), d),
        call_ensures(same_filesystem, (own, parent), same),
    ensures
        own matches Some(x) ==> d == Some(x),
        own is None ==> d == parent,
        same <==> (own matches Some(x) && parent matches Some(y) && x == y),
{
}

/// A shared trash is used only where it is a directory and no link to one, the bit is set
/// by which nobody can remove what is another's, and the user has a place in it.
pub proof fn law_shared_trash(s: Option<SharedTrash>, r: bool)
    requires
        call_ensures(check_shared_trash, (s,), r),
    ensures
        s is None ==> !r,
        s matches Some(t) ==> (r <==> !t.symlink && t.dir && t.usable && t.mode & 0o1000 != 0),
{
    if let Some(t) = s {
        let m = t.mode;
        assert((m / 512) % 2 == 1 <==> m & 0o1000 != 0) by (bit_vector);
    }
}

/// The trash directory for an item. It is the home trash for what is known to lie on its
/// filesystem and for what lies on none that is known; for all else it lies at the top of
/// the item's own filesystem, in the shared trash where that may be used.
pub proof fn law_trash_dir(
    home: &[u8],
    item_dev: Option<u64>,
    home_dev: Option<u64>,
    mount: Option<&[u8]>,
    shared: Option<SharedTrash>,
    uid: u32,
    r: Vec<u8>,
)
    requires
        call_ensures(trash_dir_for_path, (home, item_dev, home_dev, mount, shared, uid), r),
    ensures
        (item_dev matches Some(x) && home_dev matches Some(y) && x == y) ==> r@ == home@,
        mount is None ==> r@ == home@,
        !(item_dev matches Some(x) && home_dev matches Some(y) && x == y) ==> (mount matches Some(
            top,
        ) ==> r@ == (match shared {
            Some(t) if !t.symlink && t.dir && t.usable && t.mode & 0o1000 != 0 => joined(
                joined(top@, encode_utf8(".Trash"@)),
                encode_utf8(decimal(uid as nat)),
            ),
            _ => joined(top@, encode_utf8(".Trash-"@ + decimal(uid as nat))),
        })),
{
    if let Some(t) = shared {
        let m = t.mode;
        assert((m / 512) % 2 == 1 <==> m & 0o1000 != 0) by (bit_vector);
    }
}

/// Where the two trash directories of a user at the top of a filesystem lie.
pub proof fn law_top_dirs(top: &[u8], uid: u32, shared: Vec<u8>, own: Vec<u8>)
    requires
        call_ensures(shared_trash_path, (top, uid), shared),
        call_ensures(own_trash_path, (top, uid), own),
    ensures
        shared@ == joined(joined(top@, encode_utf8(".Trash"@)), encode_utf8(decimal(uid as nat))),
        own@ == joined(top@, encode_utf8(".Trash-"@ + decimal(uid as nat))),
{
}

/// The home trash lies in the directory for data where one is set, else in the home, else in
/// a directory of the user's own for want of a home.
pub proof fn law_home_trash(
    data_dir: Option<&[u8]>,
    home: Option<&[u8]>,
    uid: u32,
    makeshift: Vec<u8>,
    r: Vec<u8>,
)
    requires
        call_ensures(home_trash_dir, (data_dir, home, uid), r),
        call_ensures(makeshift_home_dir, (uid,), makeshift),
    ensures
        makeshift@ == encode_utf8("/tmp/trashd-"@ + decimal(uid as nat)),
        data_dir matches Some(d) ==> r@ == joined(d@, encode_utf8("Trash"@)),
        data_dir is None ==> (home matches Some(h) ==> r@ == joined(
            joined(h@, encode_utf8(".local/share"@)),
            encode_utf8("Trash"@),
        )),
        data_dir is None && home is None ==> r@ == joined(
            joined(makeshift@, encode_utf8(".local/share"@)),
            encode_utf8("Trash"@),
        ),
{
}

/// A directory is the user's own only where it is one and belongs to them, or was made for
/// them where nothing stood.
pub proof fn law_own_dir(there: Option<(bool, u32)>, made: bool, uid: u32, r: bool)
    requires
        call_ensures(is_own_dir, (there, made, uid), r),
    ensures
        there matches Some(t) ==> (r <==> t.0 && t.1 == uid),
        there is None ==> (r <==> made),
{
}

/// Three octal digits behind a backslash stand for the character with that number, up to
/// that of a byte, and anything else stands for itself.
pub proof fn law_octal(a: int, b: int, c: int)
    requires
        0 <= a <= 7,
        0 <= b <= 7,
        0 <= c <= 7,
    ensures
        octal_value(seq![(48 + a) as char, (48 + b) as char, (48 + c) as char]) == (if 64 * a + 8
            * b + c <= 255 {
            Some((64 * a + 8 * b + c) as u8)
        } else {
            None
        }),
{
}

/// What three characters behind a backslash are where they are no octal number.
pub proof fn law_no_octal(o: Seq<char>)
    requires
        o.len() != 3 || !('0' <= o[1] <= '7') || !('0' <= o[2] <= '7') || !('0' <= o[0] <= '7'
            || o[0] == '+'),
    ensures
        octal_value(o) is None,
{
}

/// A line of the table of mounts is that of a filesystem with files where it has three
/// words or more and the third names none of the kinds that hold no files.
pub proof fn law_mount_line(line: Seq<char>)
    ensures
        mount_of(line) is Some <==> words(line).len() >= 3 && !virtual_types().contains(
            words(line)[2],
        ),
        mount_of(line) matches Some(m) ==> m.device == words(line)[0] && m.fstype == words(line)[2]
            && m.path == encode_utf8(unescaped(words(line)[1], 0)),
{
}

/// The kinds of filesystem that hold no files of a user.
pub proof fn law_virtual_types()
    ensures
        virtual_types().len() == 19,
        virtual_types().take(10) == seq![
            "proc"@,
            "sysfs"@,
            "devtmpfs"@,
            "devpts"@,
            "cgroup"@,
            "cgroup2"@,
            "pstore"@,
            "securityfs"@,
            "debugfs"@,
            "tracefs"@,
        ],
        virtual_types().skip(10) == seq![
            "hugetlbfs"@,
            "mqueue"@,
            "configfs"@,
            "fusectl"@,
            "binfmt_misc"@,
            "autofs"@,
            "efivarfs"@,
            "bpf"@,
            "nsfs"@,
        ],
{
}

/// The table of mounts is read line by line: every line of a filesystem with files gives
/// it, in the order of the lines, and no other line gives anything.
pub proof fn law_mounts_read(a: Seq<Seq<char>>, line: Seq<char>, b: Seq<Seq<char>>)
    ensures
        mounts_of(a + b) == mounts_of(a) + mounts_of(b),
        mounts_of(seq![line]) == (match mount_of(line) {
            Some(m) => seq![m],
            None => seq![],
        }),
    decreases b.len(),
{
    reveal_with_fuel(mounts_of, 2);
    assert(seq![line].drop_last() =~= seq![]);
    if b.len() == 0 {
        assert(a + b =~= a);
        assert(mounts_of(a) + mounts_of(b) =~= mounts_of(a));
    } else {
        law_mounts_read(a, line, b.drop_last());
        assert((a + b).drop_last() =~= a + b.drop_last());
        assert(mounts_of(a + b) =~= mounts_of(a) + mounts_of(b));
    }
}

/// A trash directory of a filesystem: not of the home's own, the shared one where it may be
/// used and is there, and the user's own where it is there.
pub open spec fn held_by(dir: Seq<u8>, m: MountTrash, uid: u32) -> bool {
    !m.on_home && ((m.shared_is_dir && shared_ok(m.shared) && dir == joined(
        joined(m.mount.path@, encode_utf8(".Trash"@)),
        encode_utf8(decimal(uid as nat)),
    )) || (m.own_is_dir && dir == joined(
        m.mount.path@,
        encode_utf8(".Trash-"@ + decimal(uid as nat)),
    )))
}

/// A place is a trash directory of one of some filesystems, and is called by the path and
/// the kind of it.
pub open spec fn held_by_one(p: Place, ms: Seq<MountTrash>, uid: u32) -> bool {
    exists|k: int|
        0 <= k < ms.len() && #[trigger] held_by(p.0, ms[k], uid) && p.1 == lossy(ms[k].mount.path@)
            + " ("@ + ms[k].mount.fstype@ + ")"@
}

/// A list of places has a directory.
pub open spec fn has_dir(v: Seq<Place>, dir: Seq<u8>) -> bool {
    exists|i: int| 0 <= i < v.len() && same_path((#[trigger] v[i]).0, dir)
}

proof fn lemma_with_place(v: Seq<Place>, p: Place)
    ensures
        forall|d: Seq<u8>| has_dir(v, d) ==> #[trigger] has_dir(with_place(v, p), d),
        has_dir(with_place(v, p), p.0),
        v.is_prefix_of(with_place(v, p)),
        with_place(v, p).len() <= v.len() + 1,
        with_place(v, p).len() == v.len() + 1 ==> with_place(v, p)[v.len() as int] == p,
{
    let w = with_place(v, p);
    assert(w.take(v.len() as int) =~= v);
    assert forall|d: Seq<u8>| has_dir(v, d) implies #[trigger] has_dir(w, d) by {
        let i = choose|i: int| 0 <= i < v.len() && same_path((#[trigger] v[i]).0, d);
        assert(w[i] == v[i]);
    }
    if w.len() > v.len() {
        assert(w[v.len() as int] == p);
    }
}

/// Every trash directory of a filesystem is among the places, and a place other than the
/// home is one of them and is called by the path and the kind of its filesystem.
pub proof fn law_every_place(home: Seq<u8>, ms: Seq<MountTrash>, uid: u32)
    ensures
        has_dir(places(home, ms, uid), home),
        forall|k: int, d: Seq<u8>|
            0 <= k < ms.len() && #[trigger] held_by(d, ms[k], uid) ==> has_dir(
                places(home, ms, uid),
                d,
            ),
        forall|i: int|
            1 <= i < places(home, ms, uid).len() ==> held_by_one(
                #[trigger] places(home, ms, uid)[i],
                ms,
                uid,
            ),
        places(home, ms, uid).len() > 0 && places(home, ms, uid)[0] == (home, "home"@),
    decreases ms.len(),
{
    let v = places(home, ms, uid);
    if ms.len() == 0 {
        assert(v[0].0 == home);
    } else {
        let rest = ms.drop_last();
        let m = ms.last();
        law_every_place(home, rest, uid);
        let u = places(home, rest, uid);
        let p = (shared_dir(m.mount@.path, uid), label_of(m.mount@));
        let q = (own_dir(m.mount@.path, uid), label_of(m.mount@));
        let a = if !m.on_home && shared_ok(m.shared) && m.shared_is_dir {
            with_place(u, p)
        } else {
            u
        };
        lemma_with_place(u, p);
        lemma_with_place(a, q);
        assert(v == if !m.on_home && m.own_is_dir {
            with_place(a, q)
        } else {
            a
        });
        assert forall|d: Seq<u8>| has_dir(u, d) implies #[trigger] has_dir(v, d) by {
            assert(has_dir(a, d));
        }
        assert forall|k: int, d: Seq<u8>|
            0 <= k < ms.len() && #[trigger] held_by(d, ms[k], uid) implies has_dir(v, d) by {
            if k < rest.len() {
                assert(held_by(d, rest[k], uid));
                assert(has_dir(u, d));
            } else if m.own_is_dir && d == q.0 {
                assert(has_dir(v, d));
            } else {
                assert(has_dir(a, d));
            }
        }
        assert(u.is_prefix_of(a) && a.is_prefix_of(v)) by {
            assert(u.take(u.len() as int) =~= u);
            assert(a.take(a.len() as int) =~= a);
        }
        assert forall|i: int| 1 <= i < v.len() implies held_by_one(#[trigger] v[i], ms, uid) by {
            if i < u.len() {
                assert(a[i] == u[i]);
                assert(v[i] == a[i]);
                let k = choose|k: int|
                    0 <= k < rest.len() && #[trigger] held_by(u[i].0, rest[k], uid) && u[i].1
                        == lossy(rest[k].mount.path@) + " ("@ + rest[k].mount.fstype@ + ")"@;
                assert(held_by(v[i].0, ms[k], uid));
            } else if i < a.len() {
                assert(v[i] == a[i] && a[i] == p);
                assert(held_by(v[i].0, ms[ms.len() - 1], uid));
            } else {
                assert(v[i] == q);
                assert(held_by(v[i].0, ms[ms.len() - 1], uid));
            }
        }
        assert(v[0] == a[0] && a[0] == u[0]);
    }
}

/// A path of the table is read character by character: a backslash with a number in base
/// eight behind it is one character, and one without is itself with what stands in its
/// place, up to three characters.
pub proof fn law_unescaped(s: Seq<char>, i: int)
    requires
        0 <= i,
    ensures
        i >= s.len() ==> unescaped(s, i).len() == 0,
        i < s.len() && s[i] != '\\' ==> unescaped(s, i) == seq![s[i]] + unescaped(s, i + 1),
        i + 4 <= s.len() && s[i] == '\\' ==> match octal_value(seq![s[i + 1], s[i + 2], s[i + 3]]) {
            Some(v) => unescaped(s, i) == seq![v as char] + unescaped(s, i + 4),
            None => unescaped(s, i) == s.subrange(i, i + 4) + unescaped(s, i + 4),
        },
        i < s.len() && s[i] == '\\' && i + 4 > s.len() ==> unescaped(s, i) == s.skip(i),
        i + 2 < s.len() && '0' <= s[i + 1] <= '7' && '0' <= s[i + 2] <= '7' ==> octal_value(
            seq!['+', s[i + 1], s[i + 2]],
        ) == Some((8 * (s[i + 1] as int - 48) + (s[i + 2] as int - 48)) as u8),
{
    reveal_with_fuel(unescaped, 2);
    if i + 4 <= s.len() {
        assert(s.subrange(i + 1, i + 4) =~= seq![s[i + 1], s[i + 2], s[i + 3]]);
    } else if i < s.len() && s[i] == '\\' {
        let n = s.len() as int;
        assert(s.subrange(i + 1, n).len() < 3);
        assert(s.subrange(i, n) + unescaped(s, n) =~= s.skip(i));
    }
}

/// The filesystems are listed with the longest path first, so that of those that a path lies
/// under the deepest is found.
pub proof fn law_deepest_found(content: &str, ms: Vec<MountPoint>, abs: &[u8], r: Option<usize>)
    requires
        call_ensures(list_mounts, (content,), ms),
        call_ensures(find_mount_point, (&ms, abs), r),
    ensures
        forall|i: int, j: int|
            0 <= i < j < ms@.len() ==> (#[trigger] ms@[i]).path@.len() >= (#[trigger] ms@[j]).path@.len(),
        r matches Some(i) ==> forall|k: int|
            0 <= k < ms@.len() && under(abs@, (#[trigger] ms@[k]).path@) ==> ms@[k].path@.len()
                <= ms@[i as int].path@.len(),
{
    law_mount_found(&ms, abs, r);
    let v = choose|v: Seq<MountPoint>|
        mounts(v) == mounts_of(lines(content@)) && #[trigger] sorted_from(ms@, v);
    assert(ascending(ms@));
    if let Some(i) = r {
        assert forall|k: int| 0 <= k < ms@.len() && under(abs@, (#[trigger] ms@[k]).path@) implies ms@[k].path@.len()
            <= ms@[i as int].path@.len() by {
            assert(k >= i);
        }
    }
}

} // verus!
