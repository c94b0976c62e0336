//! Mounted filesystems, and which trash directory a path goes to.

use crate::path::{join, joined, path_eq, path_starts_with, same_path, under};
use crate::seqs::to_vec;
use crate::sorting::{sort, sorted_from, Ranked};
use crate::text::{chars_of, decimal, lines, lines_of, listed, lossy, push_chars, push_decimal, push_text, string_of, text_lossy, texts, views, words, words_of};
use vstd::prelude::*;
use vstd::slice::slice_subrange;
use vstd::utf8::encode_utf8;

verus! {

/// A mounted filesystem.
#[derive(Debug)]
pub struct MountPoint {
    pub device: String,
    pub path: Vec<u8>,
    pub fstype: String,
}

/// A mounted filesystem as values.
#[verifier::ext_equal]
pub struct Mount {
    pub device: Seq<char>,
    pub path: Seq<u8>,
    pub fstype: Seq<char>,
}

impl View for MountPoint {
    type V = Mount;

    open spec fn view(&self) -> Mount {
        Mount { device: self.device@, path: self.path@, fstype: self.fstype@ }
    }
}

/// The longer the path, the earlier.
impl Ranked for MountPoint {
    open spec fn rank(&self) -> int {
        -(self.path@.len() as int)
    }

    fn precedes(&self, other: &Self) -> (r: bool) {
        self.path.len() > other.path.len()
    }
}

pub open spec fn mounts(v: Seq<MountPoint>) -> Seq<Mount> {
    v.map_values(|m: MountPoint| m@)
}

pub open spec fn is_octal(c: char) -> bool {
    '0' <= c <= '7'
}

pub open spec fn octal_digit(c: char) -> int {
    c as int - '0' as int
}

/// The number that three characters write in base eight, if it fits in a byte. A plus sign
/// may stand for the first digit.
pub open spec fn octal_value(o: Seq<char>) -> Option<u8> {
    if o.len() == 3 && (is_octal(o[0]) || o[0] == '+') && is_octal(o[1]) && is_octal(o[2]) {
        let v = (if o[0] == '+' {
            0
        } else {
            64 * octal_digit(o[0])
        }) + 8 * octal_digit(o[1]) + octal_digit(o[2]);
        if v <= 255 {
            Some(v as u8)
        } else {
            None
        }
    } else {
        None
    }
}

/// The end of up to three characters behind a backslash at `i`.
pub open spec fn escape_end(s: Seq<char>, i: int) -> int {
    if i + 4 <= s.len() {
        i + 4
    } else {
        s.len() as int
    }
}

/// A text from `i` on with its octal escapes replaced. What is no escape stays.
pub open spec fn unescaped(s: Seq<char>, i: int) -> Seq<char>
    decreases s.len() - i,
{
    if i < 0 || i >= s.len() {
        seq![]
    } else if s[i] == '\\' {
        let e = escape_end(s, i);
        match octal_value(s.subrange(i + 1, e)) {
            Some(v) => seq![v as char] + unescaped(s, e),
            None => s.subrange(i, e) + unescaped(s, e),
        }
    } else {
        seq![s[i]] + unescaped(s, i + 1)
    }
}

pub open spec fn virtual_types() -> Seq<Seq<char>> {
    seq![
        "proc"@,
        "sysfs"@,
        "devtmpfs"@,
        "devpts"@,
        "cgroup"@,
        "cgroup2"@,
        "pstore"@,
        "securityfs"@,
        "debugfs"@,
        "tracefs"@,
        "hugetlbfs"@,
        "mqueue"@,
        "configfs"@,
        "fusectl"@,
        "binfmt_misc"@,
        "autofs"@,
        "efivarfs"@,
        "bpf"@,
        "nsfs"@,
    ]
}

/// The filesystem of a line of the table of mounts, if it holds files.
pub open spec fn mount_of(line: Seq<char>) -> Option<Mount> {
    let w = words(line);
    if w.len() < 3 || virtual_types().contains(w[2]) {
        None
    } else {
        Some(Mount { device: w[0], path: encode_utf8(unescaped(w[1], 0)), fstype: w[2] })
    }
}

/// The filesystems of the table of mounts, in its order.
pub open spec fn mounts_of(ls: Seq<Seq<char>>) -> Seq<Mount>
    decreases ls.len(),
{
    if ls.len() == 0 {
        seq![]
    } else {
        let m = mounts_of(ls.drop_last());
        match mount_of(ls.last()) {
            Some(x) => m.push(x),
            None => m,
        }
    }
}

fn is_virtual(fstype: &str) -> (r: bool)
    ensures
        r == virtual_types().contains(fstype@),
{
    let mut v: Vec<String> = Vec::new();
    v.push("proc".to_owned());
    v.push("sysfs".to_owned());
    v.push("devtmpfs".to_owned());
    v.push("devpts".to_owned());
    v.push("cgroup".to_owned());
    v.push("cgroup2".to_owned());
    v.push("pstore".to_owned());
    v.push("securityfs".to_owned());
    v.push("debugfs".to_owned());
    v.push("tracefs".to_owned());
    v.push("hugetlbfs".to_owned());
    v.push("mqueue".to_owned());
    v.push("configfs".to_owned());
    v.push("fusectl".to_owned());
    v.push("binfmt_misc".to_owned());
    v.push("autofs".to_owned());
    v.push("efivarfs".to_owned());
    v.push("bpf".to_owned());
    v.push("nsfs".to_owned());
    assert(texts(v@) =~= virtual_types());
    listed(&v, fstype)
}

fn octal(o: &[char]) -> (r: Option<u8>)
    ensures
        r == octal_value(o@),
{
    if o.len() != 3 {
        return None;
    }
    let ok: bool = (('0' <= o[0] && o[0] <= '7') || o[0] == '+') && '0' <= o[1] && o[1] <= '7'
        && '0' <= o[2] && o[2] <= '7';
    if !ok {
        return None;
    }
    let a: u32 = if o[0] == '+' {
        0
    } else {
        64 * (o[0] as u32 - '0' as u32)
    };
    let v: u32 = a + 8 * (o[1] as u32 - '0' as u32) + (o[2] as u32 - '0' as u32);
    if v <= 255 {
        Some(v as u8)
    } else {
        None
    }
}

/// A text with its octal escapes replaced.
pub fn unescape_octal(s: &[char]) -> (r: String)
    ensures
        r@ == unescaped(s@, 0),
{
    let n: usize = s.len();
    let mut r: String = String::new();
    let mut i: usize = 0;
    assert(r@ + unescaped(s@, 0) =~= unescaped(s@, 0));
    while i < n
        invariant
            n == s@.len(),
            i <= n,
            r@ + unescaped(s@, i as int) == unescaped(s@, 0),
        decreases n - i,
    {
        let ghost before = r@;
        if s[i] == '\\' {
            let e: usize = if n - i >= 4 {
                i + 4
            } else {
                n
            };
            match octal(slice_subrange(s, i + 1, e)) {
                Some(v) => {
                    r.push(v as char);
                    assert(r@ + unescaped(s@, e as int) =~= before + (seq![v as char] + unescaped(
                        s@,
                        e as int,
                    )));
                },
                None => {
                    push_chars(&mut r, slice_subrange(s, i, e));
                    assert(r@ + unescaped(s@, e as int) =~= before + (s@.subrange(
                        i as int,
                        e as int,
                    ) + unescaped(s@, e as int)));
                },
            }
            i = e;
        } else {
            r.push(s[i]);
            assert(r@ + unescaped(s@, i + 1) =~= before + (seq![s@[i as int]] + unescaped(
                s@,
                i + 1,
            )));
            i += 1;
        }
    }
    assert(r@ + unescaped(s@, i as int) =~= r@);
    r
}

/// How the table of mounts writes a character of a path: a space, tab, line feed or
/// backslash as a backslash and three octal digits.
pub open spec fn escaped_char(c: char) -> Seq<char> {
    if c == ' ' {
        seq!['\\', '0', '4', '0']
    } else if c == '\t' {
        seq!['\\', '0', '1', '1']
    } else if c == '\n' {
        seq!['\\', '0', '1', '2']
    } else if c == '\\' {
        seq!['\\', '1', '3', '4']
    } else {
        seq![c]
    }
}

/// How the table of mounts writes a path.
pub open spec fn escaped(s: Seq<char>) -> Seq<char>
    decreases s.len(),
{
    if s.len() == 0 {
        seq![]
    } else {
        escaped_char(s[0]) + escaped(s.drop_first())
    }
}

proof fn lemma_unescape_back(s: Seq<char>, t: Seq<char>, i: int)
    requires
        0 <= i <= t.len(),
        t.skip(i) == escaped(s),
    ensures
        unescaped(t, i) == s,
    decreases s.len(),
{
    let e = t.skip(i);
    if s.len() == 0 {
        assert(e.len() == 0);
        assert(unescaped(t, i) =~= s);
    } else {
        let c = s[0];
        let h = escaped_char(c);
        let n = h.len() as int;
        let rest = escaped(s.drop_first());
        assert(e.len() == n + rest.len());
        assert(t.skip(i + n) =~= rest) by {
            assert(e.skip(n) =~= rest);
            assert(e.skip(n) =~= t.skip(i + n));
        }
        lemma_unescape_back(s.drop_first(), t, i + n);
        assert(s =~= seq![c] + s.drop_first());
        assert(e.take(n) =~= h);
        assert(t[i] == e[0] && e[0] == h[0]);
        if n == 4 {
            assert(t[i + 1] == e[1] && e[1] == h[1]);
            assert(t[i + 2] == e[2] && e[2] == h[2]);
            assert(t[i + 3] == e[3] && e[3] == h[3]);
            let o = t.subrange(i + 1, i + 4);
            assert(o.len() == 3 && o[0] == h[1] && o[1] == h[2] && o[2] == h[3]);
            assert(octal_value(o) == Some(c as u8));
            assert((c as u8) as char == c);
        }
    }
}

/// The path that the table of mounts writes is read back.
pub proof fn law_mount_path_read_back(s: Seq<char>)
    ensures
        unescaped(escaped(s), 0) == s,
{
    assert(escaped(s).skip(0) =~= escaped(s));
    lemma_unescape_back(s, escaped(s), 0);
}

fn parse_mount(line: &[char]) -> (r: Option<MountPoint>)
    ensures
        match r {
            Some(m) => mount_of(line@) == Some(m@),
            None => mount_of(line@) is None,
        },
{
    let w = words_of(line);
    proof {
        assert(views(w@).len() == w@.len());
    }
    if w.len() < 3 {
        return None;
    }
    proof {
        assert(views(w@)[0] == w@[0]@);
        assert(views(w@)[1] == w@[1]@);
        assert(views(w@)[2] == w@[2]@);
    }
    let fstype = string_of(w[2].as_slice());
    if is_virtual(fstype.as_str()) {
        return None;
    }
    let device = string_of(w[0].as_slice());
    let path = unescape_octal(w[1].as_slice());
    Some(MountPoint { device, path: to_vec(path.as_str().as_bytes()), fstype })
}

/// The filesystems that hold files, from the contents of the table of mounts, those with
/// longer paths first.
pub fn list_mounts(content: &str) -> (r: Vec<MountPoint>)
    ensures
        exists|v: Seq<MountPoint>|
            mounts(v) == mounts_of(lines(content@)) && #[trigger] sorted_from(r@, v),
{
    let chars = chars_of(content);
    let ls = lines_of(chars.as_slice());
    let ghost all = views(ls@);
    let mut v: Vec<MountPoint> = Vec::new();
    let mut i: usize = 0;
    assert(all.take(0) =~= seq![]);
    assert(mounts(v@) =~= mounts_of(all.take(0)));
    while i < ls.len()
        invariant
            i <= ls@.len(),
            all == views(ls@),
            mounts(v@) == mounts_of(all.take(i as int)),
        decreases ls@.len() - i,
    {
        proof {
            assert(all.take(i + 1).drop_last() =~= all.take(i as int));
            assert(all.take(i + 1).last() == ls@[i as int]@);
        }
        if let Some(m) = parse_mount(ls[i].as_slice()) {
            let ghost before = v@;
            v.push(m);
            assert(mounts(v@) =~= mounts(before).push(m@));
        }
        i += 1;
    }
    assert(all.take(i as int) =~= all);
    sort(v)
}

/// The first of a list of filesystems that a path lies under.
pub open spec fn first_under(ms: Seq<Mount>, abs: Seq<u8>) -> Option<int>
    decreases ms.len(),
{
    if ms.len() == 0 {
        None
    } else {
        match first_under(ms.drop_last(), abs) {
            Some(i) => Some(i),
            None => if under(abs, ms.last().path) {
                Some(ms.len() - 1)
            } else {
                None
            },
        }
    }
}

/// The filesystem that an absolute path lies on, by position in a list with longer paths
/// first.
pub fn find_mount_point(ms: &Vec<MountPoint>, abs: &[u8]) -> (r: Option<usize>)
    ensures
        match r {
            Some(i) => first_under(mounts(ms@), abs@) == Some(i as int) && i < ms@.len(),
            None => first_under(mounts(ms@), abs@) is None,
        },
{
    let mut i: usize = 0;
    let ghost all = mounts(ms@);
    assert(all.take(0) =~= seq![]);
    while i < ms.len()
        invariant
            i <= ms@.len(),
            all == mounts(ms@),
            first_under(all.take(i as int), abs@) is None,
        decreases ms@.len() - i,
    {
        proof {
            assert(all.take(i + 1).drop_last() =~= all.take(i as int));
            assert(all.take(i + 1).last() == ms@[i as int]@);
        }
        if path_starts_with(abs, ms[i].path.as_slice()) {
            proof {
                lemma_first_under_on(all, abs@, i + 1);
            }
            return Some(i);
        }
        i += 1;
    }
    assert(all.take(i as int) =~= all);
    None
}

proof fn lemma_first_under_on(ms: Seq<Mount>, abs: Seq<u8>, n: int)
    requires
        0 <= n <= ms.len(),
        first_under(ms.take(n), abs) is Some,
    ensures
        first_under(ms, abs) == first_under(ms.take(n), abs),
    decreases ms.len() - n,
{
    if n == ms.len() {
        assert(ms.take(n) =~= ms);
    } else {
        assert(ms.take(n + 1).drop_last() =~= ms.take(n));
        lemma_first_under_on(ms, abs, n + 1);
    }
}

/// The device of a path, or of its parent where it has none itself.
pub fn device_id_or_parent(own: Option<u64>, parent: Option<u64>) -> (r: Option<u64>)
    ensures
        r == (if own is Some {
            own
        } else {
            parent
        }),
{
    if own.is_some() {
        own
    } else {
        parent
    }
}

/// Whether two devices are known to be one.
pub fn same_filesystem(a: Option<u64>, b: Option<u64>) -> (r: bool)
    ensures
        r == (a is Some && a == b),
{
    match (a, b) {
        (Some(x), Some(y)) => x == y,
        _ => false,
    }
}

/// What is known of the directory `.Trash` at the top of a filesystem.
#[derive(Debug, Clone, Copy, PartialEq, Eq, Structural)]
pub struct SharedTrash {
    pub symlink: bool,
    pub dir: bool,
    pub mode: u32,
    /// The user's directory in it is there, or could be made.
    pub usable: bool,
}

pub open spec fn sticky(mode: u32) -> bool {
    (mode / 512) % 2 == 1
}

/// A shared trash may be used: it is a directory, no link, and has the sticky bit.
pub open spec fn shared_ok(s: Option<SharedTrash>) -> bool {
    s matches Some(t) && !t.symlink && t.dir && sticky(t.mode) && t.usable
}

/// Whether a shared trash may be used.
pub fn check_shared_trash(s: Option<SharedTrash>) -> (r: bool)
    ensures
        r == shared_ok(s),
{
    match s {
        Some(t) => !t.symlink && t.dir && (t.mode / 512) % 2 == 1 && t.usable,
        None => false,
    }
}

/// `.Trash/<uid>` at the top of a filesystem.
pub open spec fn shared_dir(top: Seq<u8>, uid: u32) -> Seq<u8> {
    joined(joined(top, encode_utf8(".Trash"@)), encode_utf8(decimal(uid as nat)))
}

/// `.Trash-<uid>` at the top of a filesystem.
pub open spec fn own_dir(top: Seq<u8>, uid: u32) -> Seq<u8> {
    joined(top, encode_utf8(".Trash-"@ + decimal(uid as nat)))
}

pub fn shared_trash_path(top: &[u8], uid: u32) -> (r: Vec<u8>)
    ensures
        r@ == shared_dir(top@, uid),
{
    let d = join(top, ".Trash".as_bytes());
    let mut n: String = String::new();
    push_decimal(&mut n, uid as u64);
    assert(n@ =~= decimal(uid as nat));
    join(d.as_slice(), n.as_str().as_bytes())
}

pub fn own_trash_path(top: &[u8], uid: u32) -> (r: Vec<u8>)
    ensures
        r@ == own_dir(top@, uid),
{
    let mut n: String = ".Trash-".to_owned();
    push_decimal(&mut n, uid as u64);
    join(top, n.as_str().as_bytes())
}

/// The directory that stands in for the home of a user who has none. It is theirs alone.
pub open spec fn makeshift_home(uid: u32) -> Seq<u8> {
    encode_utf8("/tmp/trashd-"@ + decimal(uid as nat))
}

/// The directory that stands in for the home of a user who has none.
pub fn makeshift_home_dir(uid: u32) -> (r: Vec<u8>)
    ensures
        r@ == makeshift_home(uid),
{
    let mut n: String = "/tmp/trashd-".to_owned();
    push_decimal(&mut n, uid as u64);
    crate::seqs::to_vec(n.as_str().as_bytes())
}

/// Whether a directory is the user's own: what stands there has to be a real directory
/// that belongs to them, and where nothing did, it has to have been made.
pub fn is_own_dir(there: Option<(bool, u32)>, made: bool, uid: u32) -> (r: bool)
    ensures
        r == match there {
            Some((dir, owner)) => dir && owner == uid,
            None => made,
        },
{
    match there {
        Some((dir, owner)) => dir && owner == uid,
        None => made,
    }
}

/// The trash directory of the user: in their directory for data, or where that is kept
/// in their home.
pub open spec fn home_trash(data_dir: Option<Seq<u8>>, home: Option<Seq<u8>>, uid: u32) -> Seq<u8> {
    let data = match data_dir {
        Some(d) => d,
        None => joined(
            match home {
                Some(h) => h,
                None => makeshift_home(uid),
            },
            encode_utf8(".local/share"@),
        ),
    };
    joined(data, encode_utf8("Trash"@))
}

pub open spec fn opt_path(o: Option<&[u8]>) -> Option<Seq<u8>> {
    match o {
        Some(b) => Some(b@),
        None => None,
    }
}

/// The trash directory of the user.
pub fn home_trash_dir(data_dir: Option<&[u8]>, home: Option<&[u8]>, uid: u32) -> (r: Vec<u8>)
    ensures
        r@ == home_trash(opt_path(data_dir), opt_path(home), uid),
{
    match data_dir {
        Some(d) => join(d, "Trash".as_bytes()),
        None => {
            let d = match home {
                Some(h) => join(h, ".local/share".as_bytes()),
                None => join(makeshift_home_dir(uid).as_slice(), ".local/share".as_bytes()),
            };
            join(d.as_slice(), "Trash".as_bytes())
        },
    }
}

/// The trash directory for an item: that of the home where the item lies on its
/// filesystem, else the shared one or the user's own at the top of the item's, and that
/// of the home again where no filesystem is known.
pub open spec fn trash_dir_for(
    home: Seq<u8>,
    on_home: bool,
    mount: Option<Seq<u8>>,
    shared: Option<SharedTrash>,
    uid: u32,
) -> Seq<u8> {
    if on_home {
        home
    } else {
        match mount {
            Some(top) => if shared_ok(shared) {
                shared_dir(top, uid)
            } else {
                own_dir(top, uid)
            },
            None => home,
        }
    }
}

/// The trash directory for an item, from the devices of the item and of the home trash,
/// the top of the filesystem it lies on, and the shared trash there.
pub fn trash_dir_for_path(
    home: &[u8],
    item_dev: Option<u64>,
    home_dev: Option<u64>,
    mount: Option<&[u8]>,
    shared: Option<SharedTrash>,
    uid: u32,
) -> (r: Vec<u8>)
    ensures
        r@ == trash_dir_for(
            home@,
            item_dev is Some && item_dev == home_dev,
            match mount {
                Some(m) => Some(m@),
                None => None,
            },
            shared,
            uid,
        ),
{
    if same_filesystem(item_dev, home_dev) {
        return to_vec(home);
    }
    match mount {
        Some(top) => {
            if check_shared_trash(shared) {
                shared_trash_path(top, uid)
            } else {
                own_trash_path(top, uid)
            }
        },
        None => to_vec(home),
    }
}

/// What was found of the trash directories of a filesystem.
#[derive(Debug)]
pub struct MountTrash {
    pub mount: MountPoint,
    /// It is the filesystem of the home trash.
    pub on_home: bool,
    pub shared: Option<SharedTrash>,
    /// The user's directory in the shared trash is a directory.
    pub shared_is_dir: bool,
    /// The user's own trash at the top is a directory.
    pub own_is_dir: bool,
}

/// A trash directory and what it is called.
pub type Place = (Seq<u8>, Seq<char>);

pub open spec fn label_of(m: Mount) -> Seq<char> {
    lossy(m.path) + " ("@ + m.fstype + ")"@
}

/// A list with a place at its end, unless its directory is there already.
pub open spec fn with_place(v: Seq<Place>, p: Place) -> Seq<Place> {
    if exists|i: int| 0 <= i < v.len() && same_path((#[trigger] v[i]).0, p.0) {
        v
    } else {
        v.push(p)
    }
}

/// The places of one more filesystem behind those of others.
pub open spec fn with_mount(v: Seq<Place>, m: MountTrash, uid: u32) -> Seq<Place> {
    if m.on_home {
        v
    } else {
        let a = if shared_ok(m.shared) && m.shared_is_dir {
            with_place(v, (shared_dir(m.mount@.path, uid), label_of(m.mount@)))
        } else {
            v
        };
        if m.own_is_dir {
            with_place(a, (own_dir(m.mount@.path, uid), label_of(m.mount@)))
        } else {
            a
        }
    }
}

/// All trash directories: that of the home, and those of the filesystems.
pub open spec fn places(home: Seq<u8>, ms: Seq<MountTrash>, uid: u32) -> Seq<Place>
    decreases ms.len(),
{
    if ms.len() == 0 {
        seq![(home, "home"@)]
    } else {
        with_mount(places(home, ms.drop_last(), uid), ms.last(), uid)
    }
}

pub open spec fn place_views(v: Seq<(Vec<u8>, String)>) -> Seq<Place> {
    v.map_values(|p: (Vec<u8>, String)| (p.0@, p.1@))
}

fn put_place(v: &mut Vec<(Vec<u8>, String)>, dir: Vec<u8>, label: String)
    ensures
        place_views(final(v)@) == with_place(place_views(old(v)@), (dir@, label@)),
{
    let mut i: usize = 0;
    while i < v.len()
        invariant
            i <= v@.len(),
            v@ == old(v)@,
            forall|k: int| 0 <= k < i ==> !same_path((#[trigger] place_views(v@)[k]).0, dir@),
        decreases v@.len() - i,
    {
        assert(place_views(v@)[i as int].0 == v@[i as int].0@);
        if path_eq(v[i].0.as_slice(), dir.as_slice()) {
            return;
        }
        i += 1;
    }
    let ghost before = v@;
    v.push((dir, label));
    assert(place_views(v@) =~= place_views(before).push((dir@, label@)));
}

fn mount_label(m: &MountPoint) -> (r: String)
    ensures
        r@ == label_of(m@),
{
    let mut r = text_lossy(m.path.as_slice());
    push_text(&mut r, " (");
    push_text(&mut r, m.fstype.as_str());
    push_text(&mut r, ")");
    r
}

/// All trash directories with what they are called, each once, that of the home first.
pub fn all_trash_dirs(home: &[u8], ms: &Vec<MountTrash>, uid: u32) -> (r: Vec<(Vec<u8>, String)>)
    ensures
        place_views(r@) == places(home@, ms@, uid),
{
    let mut r: Vec<(Vec<u8>, String)> = Vec::new();
    r.push((to_vec(home), "home".to_owned()));
    let mut i: usize = 0;
    proof {
        assert(ms@.take(0) =~= seq![]);
        assert(place_views(r@) =~= seq![(home@, "home"@)]);
    }
    while i < ms.len()
        invariant
            i <= ms@.len(),
            place_views(r@) == places(home@, ms@.take(i as int), uid),
        decreases ms@.len() - i,
    {
        proof {
            assert(ms@.take(i + 1).drop_last() =~= ms@.take(i as int));
        }
        let m = &ms[i];
        if !m.on_home {
            if check_shared_trash(m.shared) && m.shared_is_dir {
                put_place(
                    &mut r,
                    shared_trash_path(m.mount.path.as_slice(), uid),
                    mount_label(&m.mount),
                );
            }
            if m.own_is_dir {
                put_place(
                    &mut r,
                    own_trash_path(m.mount.path.as_slice(), uid),
                    mount_label(&m.mount),
                );
            }
        }
        i += 1;
    }
    assert(ms@.take(i as int) =~= ms@);
    r
}

/// No trash directory is named twice, and that of the home is always there.
pub proof fn law_places(home: Seq<u8>, ms: Seq<MountTrash>, uid: u32)
    ensures
        places(home, ms, uid).len() > 0,
        places(home, ms, uid)[0] == (home, "home"@),
        forall|i: int, j: int|
            0 <= i < j < places(home, ms, uid).len() ==> !same_path(
                (#[trigger] places(home, ms, uid)[i]).0,
                (#[trigger] places(home, ms, uid)[j]).0,
            ),
    decreases ms.len(),
{
    if ms.len() > 0 {
        law_places(home, ms.drop_last(), uid);
        let v = places(home, ms.drop_last(), uid);
        let m = ms.last();
        if !m.on_home {
            let p = (shared_dir(m.mount@.path, uid), label_of(m.mount@));
            lemma_with_place(v, p);
            let a = if shared_ok(m.shared) && m.shared_is_dir {
                with_place(v, p)
            } else {
                v
            };
            lemma_with_place(a, (own_dir(m.mount@.path, uid), label_of(m.mount@)));
        }
    }
}

proof fn lemma_with_place(v: Seq<Place>, p: Place)
    requires
        v.len() > 0,
        forall|i: int, j: int|
            0 <= i < j < v.len() ==> !same_path((#[trigger] v[i]).0, (#[trigger] v[j]).0),
    ensures
        with_place(v, p).len() > 0,
        with_place(v, p)[0] == v[0],
        forall|i: int, j: int|
            0 <= i < j < with_place(v, p).len() ==> !same_path(
                (#[trigger] with_place(v, p)[i]).0,
                (#[trigger] with_place(v, p)[j]).0,
            ),
{
}

} // verus!
