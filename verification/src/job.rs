//! Moving an item into the trash: what is admitted, under which name, and in which steps.

use crate::config::{local_lists, skips, Config, LocalConfig};
use crate::dates::Moment;
use crate::errors::{Failure, TrashError};
use crate::path;
use crate::path::{absolute, file_name, joined, lexical, name_of, parent_of, path_eq, path_starts_with, same_path, stripped, under};
use crate::seqs::to_vec;
use crate::text::{
    chars_of, decimal, lemma_decimal, lossy, push_decimal, push_text, same_text, string_of, text_lossy, texts,
    views,
};
use crate::trashinfo::{Record, TrashInfo};
use vstd::prelude::*;
use vstd::slice::slice_subrange;
use vstd::utf8::{encode_scalar, encode_utf8};

verus! {

/// What a path leads to, without following a link.
#[derive(Debug, Clone, Copy, PartialEq, Eq, Structural)]
pub enum Kind {
    File,
    Dir,
    Symlink,
    Fifo,
    Device,
    Socket,
}

/// What is known of an item.
#[derive(Debug, Clone, Copy, PartialEq, Eq, Structural)]
pub struct Meta {
    pub kind: Kind,
    pub size: u64,
}

/// The size of a tree, as far as it was counted.
#[derive(Debug, Clone, Copy, PartialEq, Eq, Structural)]
pub struct TreeSize {
    pub bytes: u64,
    /// The count of files reached its limit, so that the size is only a part.
    pub capped: bool,
}

pub const MEGABYTE: u64 = 1_048_576;

/// A path seen from the current directory, or the error of the system where that cannot be
/// told.
pub fn absolute_path(p: &[u8], cwd: Result<Vec<u8>, String>) -> (r: Result<Vec<u8>, TrashError>)
    ensures
        match r {
            Ok(a) => if absolute(p@) {
                a@ == p@
            } else {
                cwd matches Ok(c) && a@ == joined(c@, p@)
            },
            Err(e) => !absolute(p@) && (cwd matches Err(t) && e@ == Failure::Io(t@)),
        },
{
    if path::is_absolute(p) {
        return Ok(to_vec(p));
    }
    match cwd {
        Ok(c) => Ok(path::join(c.as_slice(), p)),
        Err(t) => Err(TrashError::Io(t)),
    }
}

/// A path with the links in its directories resolved, but not one in its last component;
/// where its directory cannot be resolved, by its text alone.
pub open spec fn normalized(p: Seq<u8>, canonical_parent: Option<Seq<u8>>) -> Seq<u8> {
    match (parent_of(p), canonical_parent) {
        (Some(_), Some(c)) => match name_of(p) {
            Some(n) => joined(c, n),
            None => c,
        },
        _ => lexical(p),
    }
}

/// A path with the links in its directories resolved.
pub fn normalize_path(p: &[u8], canonical_parent: Option<&[u8]>) -> (r: Vec<u8>)
    ensures
        r@ == normalized(
            p@,
            match canonical_parent {
                Some(c) => Some(c@),
                None => None,
            },
        ),
{
    if path::parent(p).is_some() {
        if let Some(c) = canonical_parent {
            return match file_name(p) {
                Some(n) => path::join(c, n),
                None => to_vec(c),
            };
        }
    }
    path::normalize_lexically(p)
}

/// A path is one of the trash directories, lies in one, or holds one.
pub open spec fn touches(p: Seq<u8>, dirs: Seq<Seq<u8>>) -> bool {
    exists|i: int| 0 <= i < dirs.len() && (under(p, #[trigger] dirs[i]) || under(dirs[i], p))
}

/// Whether a path is, lies in, or holds a trash directory.
pub fn touches_trash(p: &[u8], dirs: &Vec<Vec<u8>>) -> (r: bool)
    ensures
        r == touches(p@, views(dirs@)),
{
    let mut i: usize = 0;
    while i < dirs.len()
        invariant
            i <= dirs@.len(),
            forall|k: int|
                0 <= k < i ==> !under(p@, #[trigger] views(dirs@)[k]) && !under(
                    views(dirs@)[k],
                    p@,
                ),
        decreases dirs@.len() - i,
    {
        let d = dirs[i].as_slice();
        assert(views(dirs@)[i as int] == d@);
        if path_starts_with(p, d) || path_starts_with(d, p) {
            return true;
        }
        i += 1;
    }
    false
}

/// A text begins with one of a list.
pub open spec fn begins_with_one(list: Seq<Seq<char>>, s: Seq<char>) -> bool {
    exists|i: int| 0 <= i < list.len() && (#[trigger] list[i]).is_prefix_of(s)
}

fn begins_with_any(list: &Vec<String>, s: &[char]) -> (r: bool)
    ensures
        r == begins_with_one(texts(list@), s@),
{
    let mut i: usize = 0;
    while i < list.len()
        invariant
            i <= list@.len(),
            forall|k: int| 0 <= k < i ==> !(#[trigger] texts(list@)[k]).is_prefix_of(s@),
        decreases list@.len() - i,
    {
        let p = chars_of(list[i].as_str());
        assert(texts(list@)[i as int] == p@);
        if crate::seqs::starts_with(s, p.as_slice()) {
            return true;
        }
        i += 1;
    }
    false
}

/// Whether an executable's deletions are real.
pub fn exe_bypassed(config: &Config, exe: &[u8]) -> (r: bool)
    ensures
        r == begins_with_one(config@.bypass_paths, lossy(exe@)),
{
    let t = text_lossy(exe);
    let c = chars_of(t.as_str());
    begins_with_any(&config.bypass_paths, c.as_slice())
}

/// Whether the size of a tree has to be counted before it is admitted.
pub fn needs_tree_size(config: &Config, meta: &Meta) -> (r: bool)
    ensures
        r == (meta.kind == Kind::Dir && config.max_dir_size_mb > 0),
{
    meta.kind == Kind::Dir && config.max_dir_size_mb > 0
}

/// What is known when an item is to be trashed.
pub struct Facts<'a> {
    /// Where the item stands, absolute and normalized.
    pub path: &'a [u8],
    /// What stands there, if anything.
    pub meta: Option<Meta>,
    /// The trash directories.
    pub trash_dirs: &'a Vec<Vec<u8>>,
    /// The settings of the item's directory.
    pub local: Option<&'a LocalConfig>,
    /// The size of the tree, where it is a directory.
    pub tree: TreeSize,
    /// The executable that deletes it.
    pub exe: Option<&'a [u8]>,
}

/// Why an item is not trashed, if it is not. What belongs to the trash is refused before
/// the settings are asked, since what they exclude is deleted for real.
pub open spec fn objection(c: Config, f: Facts) -> Option<Failure> {
    match f.meta {
        None => Some(Failure::NotFound(f.path@)),
        Some(m) => if touches(f.path@, views(f.trash_dirs@)) {
            Some(Failure::Refused(f.path@))
        } else if skips(c@.never_trash, c@.only_trash, local_lists(f.local), lossy(f.path@)) {
            Some(Failure::Excluded(f.path@))
        } else if m.kind == Kind::File && m.size / MEGABYTE > c.max_file_size_mb {
            Some(
                Failure::TooLarge {
                    path: f.path@,
                    size_mb: m.size / MEGABYTE,
                    limit_mb: c.max_file_size_mb,
                },
            )
        } else if m.kind == Kind::Dir && c.max_dir_size_mb > 0 && (f.tree.capped || f.tree.bytes
            / MEGABYTE > c.max_dir_size_mb) {
            Some(
                Failure::TooLarge {
                    path: f.path@,
                    size_mb: f.tree.bytes / MEGABYTE,
                    limit_mb: c.max_dir_size_mb,
                },
            )
        } else if f.exe matches Some(e) && begins_with_one(c@.bypass_paths, lossy(e@)) {
            Some(Failure::Excluded(f.path@))
        } else {
            None
        },
    }
}

/// Admits an item to the trash, or says why not.
pub fn accept_item(config: &Config, facts: &Facts) -> (r: Result<Meta, TrashError>)
    ensures
        match r {
            Ok(m) => objection(*config, *facts) is None && facts.meta == Some(m),
            Err(e) => objection(*config, *facts) == Some(e@),
        },
{
    let m: Meta = match facts.meta {
        Some(m) => m,
        None => {
            return Err(TrashError::NotFound(to_vec(facts.path)));
        },
    };
    if touches_trash(facts.path, facts.trash_dirs) {
        return Err(TrashError::Refused(to_vec(facts.path)));
    }
    if config.should_skip(facts.path, facts.local) {
        return Err(TrashError::Excluded(to_vec(facts.path)));
    }
    if m.kind == Kind::File {
        let size_mb: u64 = m.size / MEGABYTE;
        if size_mb > config.max_file_size_mb {
            return Err(
                TrashError::TooLarge {
                    path: to_vec(facts.path),
                    size_mb,
                    limit_mb: config.max_file_size_mb,
                },
            );
        }
    }
    if m.kind == Kind::Dir && config.max_dir_size_mb > 0 {
        let size_mb: u64 = facts.tree.bytes / MEGABYTE;
        if facts.tree.capped || size_mb > config.max_dir_size_mb {
            return Err(
                TrashError::TooLarge {
                    path: to_vec(facts.path),
                    size_mb,
                    limit_mb: config.max_dir_size_mb,
                },
            );
        }
    }
    if let Some(exe) = facts.exe {
        if exe_bypassed(config, exe) {
            return Err(TrashError::Excluded(to_vec(facts.path)));
        }
    }
    Ok(m)
}

/// Nothing that belongs to a trash directory is admitted, whatever the settings say.
pub proof fn law_trash_is_refused(c: Config, f: Facts)
    requires
        f.meta is Some,
        touches(f.path@, views(f.trash_dirs@)),
    ensures
        objection(c, f) == Some(Failure::Refused(f.path@)),
{
}

/// The longest start of a text whose encoding has at most `max` bytes.
pub open spec fn fitting(s: Seq<char>, max: nat) -> Seq<char>
    decreases s.len(),
{
    if s.len() == 0 || encode_utf8(s).len() <= max {
        s
    } else {
        fitting(s.drop_last(), max)
    }
}

/// The number of bytes that a character is encoded in.
pub fn width(c: char) -> (r: usize)
    ensures
        r == encode_scalar(c as u32).len(),
        1 <= r <= 4,
{
    let u: u32 = c as u32;
    if u <= 0x7f {
        1
    } else if u <= 0x7ff {
        2
    } else if u <= 0xffff {
        3
    } else {
        4
    }
}

/// The encoding of two texts in a row.
pub proof fn lemma_encode_concat(a: Seq<char>, b: Seq<char>)
    ensures
        encode_utf8(a + b) == encode_utf8(a) + encode_utf8(b),
    decreases a.len(),
{
    if a.len() == 0 {
        assert(a + b =~= b);
        assert(encode_utf8(a) + encode_utf8(b) =~= encode_utf8(b));
    } else {
        lemma_encode_concat(a.drop_first(), b);
        assert((a + b).drop_first() =~= a.drop_first() + b);
        assert((a + b)[0] == a[0]);
        assert(encode_utf8(a + b) =~= encode_utf8(a) + encode_utf8(b));
    }
}

proof fn lemma_encode_push(a: Seq<char>, c: char)
    ensures
        encode_utf8(a.push(c)).len() == encode_utf8(a).len() + encode_scalar(c as u32).len(),
{
    lemma_encode_concat(a, seq![c]);
    assert(a.push(c) =~= a + seq![c]);
    assert(seq![c].drop_first() =~= seq![]);
    assert(encode_utf8(seq![c]) =~= encode_scalar(c as u32)) by {
        reveal_with_fuel(encode_utf8, 2);
    }
}

proof fn lemma_encode_mono(s: Seq<char>, i: int)
    requires
        0 <= i <= s.len(),
    ensures
        encode_utf8(s.take(i)).len() <= encode_utf8(s).len(),
{
    lemma_encode_concat(s.take(i), s.skip(i));
    assert(s.take(i) + s.skip(i) =~= s);
}

proof fn lemma_fitting_is(s: Seq<char>, max: nat, i: int)
    requires
        0 <= i <= s.len(),
        encode_utf8(s.take(i)).len() <= max,
        i < s.len() ==> encode_utf8(s.take(i + 1)).len() > max,
    ensures
        fitting(s, max) == s.take(i),
    decreases s.len(),
{
    if i == s.len() {
        assert(s.take(i) =~= s);
    } else {
        lemma_encode_mono(s, i + 1);
        let t = s.drop_last();
        assert(t.take(i) =~= s.take(i));
        if i < t.len() {
            assert(t.take(i + 1) =~= s.take(i + 1));
        }
        lemma_fitting_is(t, max, i);
    }
}

/// The longest start of a text that fits in `max` bytes.
pub fn fit(s: &str, max: usize) -> (r: String)
    ensures
        r@ == fitting(s@, max as nat),
{
    let c = chars_of(s);
    let mut i: usize = 0;
    let mut used: usize = 0;
    assert(c@.take(0) =~= seq![]);
    while i < c.len()
        invariant
            i <= c@.len(),
            c@ == s@,
            used == encode_utf8(c@.take(i as int)).len(),
            used <= max,
        decreases c@.len() - i,
    {
        let w: usize = width(c[i]);
        proof {
            lemma_encode_push(c@.take(i as int), c@[i as int]);
            assert(c@.take(i + 1) =~= c@.take(i as int).push(c@[i as int]));
        }
        if w > max - used {
            proof {
                lemma_fitting_is(s@, max as nat, i as int);
            }
            let head = slice_subrange(c.as_slice(), 0, i);
            assert(head@ =~= s@.take(i as int));
            return string_of(head);
        }
        used += w;
        i += 1;
    }
    proof {
        lemma_fitting_is(s@, max as nat, i as int);
        assert(s@.take(i as int) =~= s@);
    }
    string_of(c.as_slice())
}

pub const MAX_BASE: usize = 223;

/// The name that an item's id starts with.
pub open spec fn base_of(p: Seq<u8>) -> Seq<char> {
    fitting(
        match name_of(p) {
            Some(n) => lossy(n),
            None => "unnamed"@,
        },
        MAX_BASE as nat,
    )
}

/// The id that is tried after `n` others: the name itself, then with the time behind it,
/// then with a number behind that.
pub open spec fn candidate_of(base: Seq<char>, stamp: Seq<char>, n: nat) -> Seq<char> {
    if n == 0 {
        base
    } else if n == 1 {
        base.push('.') + stamp
    } else {
        (base.push('.') + stamp).push('.') + decimal((n - 1) as nat)
    }
}

/// The search for an id that is free.
#[derive(Debug)]
pub struct Claim {
    pub base: String,
    pub stamp: String,
    pub tried: u32,
    /// How many ids with the time behind the name may be tried.
    pub limit: u32,
}

/// What became of the attempt to claim an id.
#[derive(Debug)]
pub enum ClaimOutcome {
    /// The `.trashinfo` file was made, and no data of that id was there.
    Claimed,
    /// The `.trashinfo` file was made, but data of that id was there: it has to be
    /// removed again.
    DataThere,
    /// There is a `.trashinfo` file of that id.
    InfoThere,
    /// The file could not be made.
    Failed(String),
}

/// How the search goes on.
#[derive(Debug)]
pub enum ClaimStep {
    /// The id is the item's.
    Own(String),
    /// Try the next.
    Next(Claim),
    /// Give up.
    Stop(TrashError),
}

impl Claim {
    pub open spec fn id(self) -> Seq<char> {
        candidate_of(self.base@, self.stamp@, self.tried as nat)
    }

    /// Starts the search for an item's id at a moment.
    pub fn start(p: &[u8], now: &Moment, limit: u32) -> (r: Claim)
        requires
            now.valid(),
        ensures
            r.base@ == base_of(p@),
            r.stamp@ == crate::dates::date_text("%Y%m%d%H%M%S"@, now.wall(), now.nanos as int),
            r.tried == 0,
            r.limit == limit,
    {
        let name = match file_name(p) {
            Some(n) => text_lossy(n),
            None => "unnamed".to_owned(),
        };
        let base = fit(name.as_str(), MAX_BASE);
        let stamp = now.format("%Y%m%d%H%M%S");
        Claim { base, stamp, tried: 0, limit }
    }

    /// The id to try.
    pub fn candidate(&self) -> (r: String)
        ensures
            r@ == self.id(),
    {
        let mut r = self.base.clone();
        if self.tried > 0 {
            r.push('.');
            push_text(&mut r, self.stamp.as_str());
            if self.tried > 1 {
                r.push('.');
                push_decimal(&mut r, (self.tried - 1) as u64);
            }
        }
        r
    }

    /// How the search goes on after an attempt.
    pub fn next(self, outcome: ClaimOutcome) -> (r: ClaimStep)
        ensures
            match outcome {
                ClaimOutcome::Claimed => r matches ClaimStep::Own(id) && id@ == self.id(),
                ClaimOutcome::Failed(e) => r matches ClaimStep::Stop(x) && x@ == Failure::Io(e@),
                _ => if self.tried < self.limit {
                    r matches ClaimStep::Next(c) && c.base == self.base && c.stamp == self.stamp
                        && c.tried == self.tried + 1 && c.limit == self.limit
                } else {
                    r matches ClaimStep::Stop(x) && x@ == Failure::Io(exhausted(self.limit))
                },
            },
    {
        match outcome {
            ClaimOutcome::Claimed => ClaimStep::Own(self.candidate()),
            ClaimOutcome::Failed(e) => ClaimStep::Stop(TrashError::Io(e)),
            _ => {
                if self.tried < self.limit {
                    ClaimStep::Next(
                        Claim {
                            base: self.base,
                            stamp: self.stamp,
                            tried: self.tried + 1,
                            limit: self.limit,
                        },
                    )
                } else {
                    let mut m: String = "failed to generate unique trash ID after ".to_owned();
                    push_decimal(&mut m, self.limit as u64);
                    push_text(&mut m, " attempts");
                    ClaimStep::Stop(TrashError::Io(m))
                }
            },
        }
    }
}

pub open spec fn exhausted(limit: u32) -> Seq<char> {
    "failed to generate unique trash ID after "@ + decimal(limit as nat) + " attempts"@
}

/// No id is tried twice.
pub proof fn law_candidates_differ(base: Seq<char>, stamp: Seq<char>, m: nat, n: nat)
    requires
        m != n,
    ensures
        candidate_of(base, stamp, m) != candidate_of(base, stamp, n),
{
    let a = candidate_of(base, stamp, m);
    let b = candidate_of(base, stamp, n);
    if m > 1 {
        lemma_decimal((m - 1) as nat);
    }
    if n > 1 {
        lemma_decimal((n - 1) as nat);
    }
    if m > 1 && n > 1 && a == b {
        let k = base.len() + 1 + stamp.len() + 1;
        assert(a.skip(k as int) =~= decimal((m - 1) as nat));
        assert(b.skip(k as int) =~= decimal((n - 1) as nat));
    }
}

/// The file names of every id that can be tried fit in the 255 bytes that a filesystem
/// allows, where the time is written in 14 digits and at most 10,000 are tried.
pub proof fn law_names_fit(p: Seq<u8>, stamp: Seq<char>, n: nat)
    requires
        stamp.len() == 14,
        forall|i: int| 0 <= i < 14 ==> crate::text::is_digit(#[trigger] stamp[i]),
        n <= 10_000,
    ensures
        encode_utf8(candidate_of(base_of(p), stamp, n) + ".trashinfo"@).len() <= 255,
{
    let base = base_of(p);
    let name = match name_of(p) {
        Some(x) => lossy(x),
        None => "unnamed"@,
    };
    lemma_fitting_fits(name, MAX_BASE as nat);
    let c = candidate_of(base, stamp, n);
    let tail = if n == 0 {
        Seq::<char>::empty()
    } else if n == 1 {
        seq!['.'] + stamp
    } else {
        seq!['.'] + stamp + seq!['.'] + decimal((n - 1) as nat)
    };
    assert(c =~= base + tail);
    if n > 1 {
        lemma_decimal((n - 1) as nat);
        lemma_decimal_len((n - 1) as nat);
    }
    reveal_strlit(".trashinfo");
    let rest = tail + ".trashinfo"@;
    assert(c + ".trashinfo"@ =~= base + rest);
    lemma_encode_concat(base, rest);
    assert forall|i: int| 0 <= i < rest.len() implies '\0' <= #[trigger] rest[i] <= '\u{7f}' by {
        if i < tail.len() {
            assert(rest[i] == tail[i]);
            if n >= 1 && 1 <= i < 15 {
                assert(tail[i] == stamp[i - 1]);
                assert(crate::text::is_digit(stamp[i - 1]));
            }
            if n > 1 && i >= 16 {
                assert(tail[i] == decimal((n - 1) as nat)[i - 16]);
                assert(crate::text::is_digit(decimal((n - 1) as nat)[i - 16]));
            }
        } else {
            assert(rest[i] == ".trashinfo"@[i - tail.len()]);
        }
    }
    vstd::utf8::is_ascii_chars_encode_utf8(rest);
}

proof fn lemma_fitting_fits(s: Seq<char>, max: nat)
    ensures
        encode_utf8(fitting(s, max)).len() <= max,
    decreases s.len(),
{
    if s.len() == 0 {
        assert(encode_utf8(s).len() == 0);
    } else if encode_utf8(s).len() > max {
        lemma_fitting_fits(s.drop_last(), max);
    }
}

proof fn lemma_decimal_len(n: nat)
    requires
        n < 10_000,
    ensures
        decimal(n).len() <= 4,
{
    reveal_with_fuel(decimal, 5);
}

/// The top of the filesystem that a trash directory belongs to: its parent, or the one
/// above where the parent is a shared `.Trash`.
pub open spec fn topdir_of(trash_dir: Seq<u8>) -> Seq<u8> {
    match parent_of(trash_dir) {
        Some(p) => if name_of(p) matches Some(n) && lossy(n) == ".Trash"@ {
            match parent_of(p) {
                Some(g) => g,
                None => p,
            }
        } else {
            p
        },
        None => trash_dir,
    }
}

/// The top of the filesystem that a trash directory belongs to.
pub fn topdir_for_trash(trash_dir: &[u8]) -> (r: Vec<u8>)
    ensures
        r@ == topdir_of(trash_dir@),
{
    match path::parent(trash_dir) {
        Some(p) => {
            let shared: bool = match file_name(p) {
                Some(n) => {
                    let t = text_lossy(n);
                    same_text(t.as_str(), ".Trash")
                },
                None => false,
            };
            if shared {
                match path::parent(p) {
                    Some(g) => to_vec(g),
                    None => to_vec(p),
                }
            } else {
                to_vec(p)
            }
        },
        None => to_vec(trash_dir),
    }
}

/// The path that is recorded of an item: as it is in the home trash, and relative to the
/// top of the filesystem in any other.
pub open spec fn recorded_path(trash_dir: Seq<u8>, home: Seq<u8>, p: Seq<u8>) -> Seq<u8> {
    if same_path(trash_dir, home) {
        p
    } else {
        match stripped(p, topdir_of(trash_dir)) {
            Some(rest) => rest,
            None => p,
        }
    }
}

/// The path that a recorded path means in a trash directory.
pub open spec fn meant_path(trash_dir: Seq<u8>, recorded: Seq<u8>) -> Seq<u8> {
    if absolute(recorded) {
        recorded
    } else {
        joined(topdir_of(trash_dir), recorded)
    }
}

/// The path that is recorded of an item.
pub fn path_to_record(trash_dir: &[u8], home: &[u8], p: &[u8]) -> (r: Vec<u8>)
    ensures
        r@ == recorded_path(trash_dir@, home@, p@),
{
    if path_eq(trash_dir, home) {
        return to_vec(p);
    }
    let top = topdir_for_trash(trash_dir);
    match path::strip_prefix(p, top.as_slice()) {
        Some(rest) => rest,
        None => to_vec(p),
    }
}

/// The path that a recorded path means in a trash directory.
pub fn resolve_recorded(trash_dir: &[u8], recorded: &[u8]) -> (r: Vec<u8>)
    ensures
        r@ == meant_path(trash_dir@, recorded@),
{
    if path::is_absolute(recorded) {
        to_vec(recorded)
    } else {
        let top = topdir_for_trash(trash_dir);
        path::join(top.as_slice(), recorded)
    }
}

/// The path that is recorded of an item means the item's path.
pub proof fn law_recorded_path(trash_dir: Seq<u8>, home: Seq<u8>, p: Seq<u8>)
    requires
        absolute(p),
        absolute(trash_dir),
    ensures
        same_path(meant_path(trash_dir, recorded_path(trash_dir, home, p)), p),
{
    let top = topdir_of(trash_dir);
    path::lemma_parent_absolute(trash_dir);
    if let Some(q) = parent_of(trash_dir) {
        path::lemma_parent_absolute(q);
    }
    if under(p, top) {
        path::law_strip_join(p, top);
    }
}

/// What the hash limit says of a file: its size in bytes is within the megabytes.
pub open spec fn hashed(limit_mb: u64, m: Meta) -> bool {
    m.kind == Kind::File && limit_mb > 0 && m.size <= limit_mb * MEGABYTE
}

/// Whether a file is hashed when it is trashed.
pub fn wants_hash(config: &Config, m: &Meta) -> (r: bool)
    ensures
        r == hashed(config.sha256_max_size_mb, *m),
{
    let mb: u64 = config.sha256_max_size_mb;
    m.kind == Kind::File && mb > 0 && (m.size / MEGABYTE < mb || (m.size / MEGABYTE == mb && m.size
        % MEGABYTE == 0))
}

/// The size that is recorded of an item: that of a file, and of anything else that of the
/// tree which is read from its path. There is one behind a directory and behind a link to
/// one, and none behind the rest.
pub open spec fn own_size(m: Meta, tree_bytes: u64) -> u64 {
    if m.kind == Kind::File {
        m.size
    } else {
        tree_bytes
    }
}

/// What is recorded of an item that is trashed.
pub fn build_info(
    recorded: Vec<u8>,
    now: Moment,
    command: Option<&str>,
    pid: u32,
    meta: &Meta,
    tree_bytes: u64,
    hash: Option<String>,
) -> (r: TrashInfo)
    ensures
        r@ == (Record {
            original_path: recorded@,
            deletion_date: now,
            command: match command {
                Some(c) => Some(c@),
                None => None,
            },
            pid: Some(pid),
            size: Some(own_size(*meta, tree_bytes)),
            sha256: crate::text::opt_text(hash),
            compressed: None,
        }),
{
    let mut info = TrashInfo::at(recorded, now);
    info.command = match command {
        Some(c) => Some(c.to_owned()),
        None => None,
    };
    info.pid = Some(pid);
    info.size = Some(
        if meta.kind == Kind::File {
            meta.size
        } else {
            tree_bytes
        },
    );
    info.sha256 = hash;
    info
}

/// A step of moving an item into the trash.
#[derive(Debug, Clone, Copy, PartialEq, Eq, Structural)]
pub enum MoveStep {
    /// Rename it.
    Rename,
    /// Make the link again in the trash.
    CopyLink,
    /// Copy the tree.
    CopyTree,
    /// Copy the file.
    CopyFile,
    /// Make the pipe again in the trash.
    MakeFifo,
    /// Remove the original, which is no directory.
    RemoveFile,
    /// Remove the original tree.
    RemoveTree,
    /// Remove the `.trashinfo` file and what was copied, and report the failure.
    CleanUp,
    /// Remove the `.trashinfo` file and report the item as excluded.
    Decline,
    /// Keep the copy in the trash and report that the original could not be removed.
    Keep,
    /// The item is in the trash.
    Done,
}

pub open spec fn copies(s: MoveStep) -> bool {
    s == MoveStep::CopyLink || s == MoveStep::CopyTree || s == MoveStep::CopyFile || s
        == MoveStep::MakeFifo
}

pub open spec fn removes_original(s: MoveStep) -> bool {
    s == MoveStep::RemoveFile || s == MoveStep::RemoveTree
}

pub open spec fn ends(s: MoveStep) -> bool {
    s == MoveStep::CleanUp || s == MoveStep::Decline || s == MoveStep::Keep || s == MoveStep::Done
}

/// The copy that a kind of item takes on another filesystem. What stands for a device or
/// a socket is not copied.
pub open spec fn copy_step(k: Kind) -> MoveStep {
    match k {
        Kind::Symlink => MoveStep::CopyLink,
        Kind::Dir => MoveStep::CopyTree,
        Kind::File => MoveStep::CopyFile,
        Kind::Fifo => MoveStep::MakeFifo,
        Kind::Device => MoveStep::Decline,
        Kind::Socket => MoveStep::Decline,
    }
}

/// The step after one that was made, and went well or not.
pub open spec fn step_after(s: MoveStep, k: Kind, ok: bool) -> MoveStep {
    if s == MoveStep::Rename {
        if ok {
            MoveStep::Done
        } else {
            copy_step(k)
        }
    } else if copies(s) {
        if !ok {
            MoveStep::CleanUp
        } else if k == Kind::Dir {
            MoveStep::RemoveTree
        } else {
            MoveStep::RemoveFile
        }
    } else if removes_original(s) {
        if ok {
            MoveStep::Done
        } else {
            MoveStep::Keep
        }
    } else {
        s
    }
}

/// The step after one that was made, and went well or not.
pub fn next_move(s: MoveStep, k: Kind, ok: bool) -> (r: MoveStep)
    ensures
        r == step_after(s, k, ok),
{
    match s {
        MoveStep::Rename => {
            if ok {
                MoveStep::Done
            } else {
                match k {
                    Kind::Symlink => MoveStep::CopyLink,
                    Kind::Dir => MoveStep::CopyTree,
                    Kind::File => MoveStep::CopyFile,
                    Kind::Fifo => MoveStep::MakeFifo,
                    Kind::Device | Kind::Socket => MoveStep::Decline,
                }
            }
        },
        MoveStep::CopyLink | MoveStep::CopyTree | MoveStep::CopyFile | MoveStep::MakeFifo => {
            if !ok {
                MoveStep::CleanUp
            } else {
                match k {
                    Kind::Dir => MoveStep::RemoveTree,
                    _ => MoveStep::RemoveFile,
                }
            }
        },
        MoveStep::RemoveFile | MoveStep::RemoveTree => {
            if ok {
                MoveStep::Done
            } else {
                MoveStep::Keep
            }
        },
        MoveStep::CleanUp => MoveStep::CleanUp,
        MoveStep::Decline => MoveStep::Decline,
        MoveStep::Keep => MoveStep::Keep,
        MoveStep::Done => MoveStep::Done,
    }
}

/// The steps of a move, from the outcomes of those before.
pub open spec fn run(k: Kind, outcomes: Seq<bool>) -> MoveStep
    decreases outcomes.len(),
{
    if outcomes.len() == 0 {
        MoveStep::Rename
    } else {
        step_after(run(k, outcomes.drop_last()), k, outcomes.last())
    }
}

/// The original is removed only after a copy of it was made, and once one was made the
/// copy and its record are never cleaned up.
pub proof fn law_no_copy_no_removal(k: Kind, outcomes: Seq<bool>)
    ensures
        removes_original(run(k, outcomes)) ==> outcomes.len() > 0 && outcomes.last() && copies(
            run(k, outcomes.drop_last()),
        ),
        run(k, outcomes) == MoveStep::CleanUp ==> forall|n: int|
            0 <= n <= outcomes.len() ==> !removes_original(#[trigger] run(k, outcomes.take(n))),
    decreases outcomes.len(),
{
    if outcomes.len() > 0 {
        let before = outcomes.drop_last();
        law_no_copy_no_removal(k, before);
        assert forall|n: int|
            0 <= n <= outcomes.len() && run(k, outcomes) == MoveStep::CleanUp implies !removes_original(
            #[trigger] run(k, outcomes.take(n)),
        ) by {
            if n == outcomes.len() {
                assert(outcomes.take(n) =~= outcomes);
            } else {
                assert(outcomes.take(n) =~= before.take(n));
                if run(k, before) != MoveStep::CleanUp {
                    lemma_run_short(k, before);
                    if n == before.len() {
                        assert(before.take(n) =~= before);
                    } else {
                        lemma_run_early(k, before, n);
                    }
                }
            }
        }
    } else {
        assert forall|n: int| 0 <= n <= outcomes.len() implies !removes_original(
            #[trigger] run(k, outcomes.take(n)),
        ) by {
            assert(outcomes.take(n) =~= outcomes);
        }
    }
}

/// A copy is the second step.
proof fn lemma_run_short(k: Kind, o: Seq<bool>)
    ensures
        copies(run(k, o)) ==> o.len() == 1,
        run(k, o) == MoveStep::Rename ==> o.len() == 0,
    decreases o.len(),
{
    reveal_with_fuel(run, 3);
    if o.len() > 0 {
        lemma_run_short(k, o.drop_last());
    }
}

proof fn lemma_run_early(k: Kind, o: Seq<bool>, n: int)
    requires
        copies(run(k, o)),
        0 <= n < o.len(),
    ensures
        !removes_original(run(k, o.take(n))),
{
    lemma_run_short(k, o);
    assert(o.take(0) =~= seq![]);
}

/// A move comes to an end within three steps.
pub proof fn law_move_ends(k: Kind, outcomes: Seq<bool>)
    requires
        outcomes.len() >= 3,
    ensures
        ends(run(k, outcomes)),
    decreases outcomes.len(),
{
    reveal_with_fuel(run, 4);
    if outcomes.len() > 3 {
        law_move_ends(k, outcomes.drop_last());
    }
}

pub const SIZE_WALK_LIMIT: u64 = 10_000;

/// The size of a tree while it is walked.
#[derive(Debug, Clone, Copy, PartialEq, Eq, Structural)]
pub struct SizeWalk {
    pub total: u64,
    pub count: u64,
}

/// What is met in a walk.
#[derive(Debug, Clone, Copy, PartialEq, Eq, Structural)]
pub enum Met {
    /// Its kind and size could not be read.
    Unknown,
    Item(Meta),
}

/// The walk with one more thing met: a link and a directory add nothing of their own.
pub open spec fn walked(w: SizeWalk, m: Met) -> SizeWalk {
    SizeWalk {
        total: match m {
            Met::Item(x) => if x.kind == Kind::Symlink || x.kind == Kind::Dir {
                w.total
            } else if w.total + x.size <= u64::MAX {
                (w.total + x.size) as u64
            } else {
                u64::MAX
            },
            Met::Unknown => w.total,
        },
        count: (w.count + 1) as u64,
    }
}

impl SizeWalk {
    pub fn start() -> (r: SizeWalk)
        ensures
            r == (SizeWalk { total: 0, count: 0 }),
    {
        SizeWalk { total: 0, count: 0 }
    }

    /// Whether the walk has come to its limit.
    pub fn full(&self) -> (r: bool)
        ensures
            r == (self.count >= SIZE_WALK_LIMIT),
    {
        self.count >= SIZE_WALK_LIMIT
    }

    /// Counts what is met. The result says whether it is a directory to go down into.
    pub fn meet(&mut self, m: Met) -> (r: bool)
        requires
            old(self).count < SIZE_WALK_LIMIT,
        ensures
            *final(self) == walked(*old(self), m),
            r == (m matches Met::Item(x) && x.kind == Kind::Dir),
    {
        self.count += 1;
        match m {
            Met::Unknown => false,
            Met::Item(x) => match x.kind {
                Kind::Symlink => false,
                Kind::Dir => true,
                _ => {
                    self.total = self.total.saturating_add(x.size);
                    false
                },
            },
        }
    }

    /// The size of the tree that was walked.
    pub fn finish(&self) -> (r: TreeSize)
        ensures
            r == (TreeSize { bytes: self.total, capped: self.count >= SIZE_WALK_LIMIT }),
    {
        TreeSize { bytes: self.total, capped: self.full() }
    }
}

pub const COPY_DEPTH_LIMIT: u32 = 100;

/// What is done with an entry of a tree that is copied.
#[derive(Debug, Clone, Copy, PartialEq, Eq, Structural)]
pub enum CopyStep {
    /// Make the link again.
    Link,
    /// Copy the directory below.
    Descend,
    /// Make the pipe again.
    Fifo,
    /// Copy the file with its permissions.
    File,
    /// Leave it out.
    Skip,
    /// Give up: the tree is too deep.
    TooDeep,
}

/// What is done with an entry of a tree, by its kind and the depth of its directory.
pub fn copy_entry(k: Kind, depth: u32) -> (r: CopyStep)
    ensures
        r == (match k {
            Kind::Symlink => CopyStep::Link,
            Kind::Dir => if depth >= COPY_DEPTH_LIMIT {
                CopyStep::TooDeep
            } else {
                CopyStep::Descend
            },
            Kind::Fifo => CopyStep::Fifo,
            Kind::Device => CopyStep::Skip,
            Kind::Socket => CopyStep::Skip,
            Kind::File => CopyStep::File,
        }),
{
    match k {
        Kind::Symlink => CopyStep::Link,
        Kind::Dir => {
            if depth >= COPY_DEPTH_LIMIT {
                CopyStep::TooDeep
            } else {
                CopyStep::Descend
            }
        },
        Kind::Fifo => CopyStep::Fifo,
        Kind::Device | Kind::Socket => CopyStep::Skip,
        Kind::File => CopyStep::File,
    }
}

/// What keeps an item out of the trash. It is not there; or it touches a trash directory;
/// or else a setting skips it, or its executable is bypassed; or else it is too large: a
/// file from the first byte that no longer counts in the megabytes of the limit, and a
/// directory likewise where it has a limit, or could not be counted. A reported size is
/// the whole megabytes of the item, and nothing but these keeps it out.
pub proof fn law_admission(c: Config, f: Facts)
    ensures
        objection(c, f) == Some(Failure::NotFound(f.path@)) <==> f.meta is None,
        objection(c, f) == Some(Failure::Refused(f.path@)) <==> f.meta is Some && touches(
            f.path@,
            views(f.trash_dirs@),
        ),
        objection(c, f) == Some(Failure::Excluded(f.path@)) <==> f.meta is Some && !touches(
            f.path@,
            views(f.trash_dirs@),
        ) && (skips(c@.never_trash, c@.only_trash, local_lists(f.local), lossy(f.path@)) || (
        !too_large(c, f) && (f.exe matches Some(e) && begins_with_one(c@.bypass_paths, lossy(e@))))),
        (objection(c, f) matches Some(Failure::TooLarge { path, size_mb, limit_mb })) <==> f.meta is Some
            && !touches(f.path@, views(f.trash_dirs@)) && !skips(
            c@.never_trash,
            c@.only_trash,
            local_lists(f.local),
            lossy(f.path@),
        ) && too_large(c, f),
        objection(c, f) matches Some(Failure::TooLarge { path, size_mb, limit_mb }) ==> {
            let m = f.meta->0;
            let bytes = if m.kind == Kind::File {
                m.size
            } else {
                f.tree.bytes
            };
            &&& path == f.path@
            &&& size_mb * 1_048_576 <= bytes < (size_mb + 1) * 1_048_576
            &&& limit_mb == (if m.kind == Kind::File {
                c.max_file_size_mb
            } else {
                c.max_dir_size_mb
            })
            &&& size_mb > limit_mb || (m.kind == Kind::Dir && f.tree.capped)
        },
        objection(c, f) is None || objection(c, f) == Some(Failure::NotFound(f.path@)) || objection(
            c,
            f,
        ) == Some(Failure::Refused(f.path@)) || objection(c, f) == Some(Failure::Excluded(f.path@))
            || (objection(c, f) matches Some(Failure::TooLarge { path, size_mb, limit_mb })),
{
}

/// An item is over its limit.
pub open spec fn too_large(c: Config, f: Facts) -> bool {
    f.meta matches Some(m) && {
        ||| m.kind == Kind::File && m.size >= (c.max_file_size_mb + 1) * 1_048_576
        ||| m.kind == Kind::Dir && c.max_dir_size_mb > 0 && (f.tree.capped || f.tree.bytes >= (
        c.max_dir_size_mb + 1) * 1_048_576)
    }
}

/// An item that is there, away from the trash, skipped by no setting and of no bypassed
/// executable is admitted exactly where it is within its limit; what is neither a file nor
/// a directory always is.
pub proof fn law_admitted_within_limit(c: Config, f: Facts)
    requires
        f.meta is Some,
        !touches(f.path@, views(f.trash_dirs@)),
        !skips(c@.never_trash, c@.only_trash, local_lists(f.local), lossy(f.path@)),
        f.exe matches Some(e) ==> !begins_with_one(c@.bypass_paths, lossy(e@)),
    ensures
        ({
            let m = f.meta->0;
            objection(c, f) is None <==> {
                &&& m.kind == Kind::File ==> m.size < (c.max_file_size_mb + 1) * 1_048_576
                &&& m.kind == Kind::Dir && c.max_dir_size_mb > 0 ==> !f.tree.capped && f.tree.bytes < (
                c.max_dir_size_mb + 1) * 1_048_576
            }
        }),
{
}

/// A path touches the trash where one of the two lies under the other, component by
/// component; one that shares only a part of a name with it does not.
pub proof fn law_touches(p: Seq<u8>, dirs: Seq<Seq<u8>>)
    ensures
        touches(p, dirs) <==> exists|i: int|
            0 <= i < dirs.len() && ((#[trigger] path::components(dirs[i])).is_prefix_of(
                path::components(p),
            ) || path::components(p).is_prefix_of(path::components(dirs[i]))),
{
    if touches(p, dirs) {
        let i = choose|i: int|
            0 <= i < dirs.len() && (under(p, #[trigger] dirs[i]) || under(dirs[i], p));
        assert(path::components(dirs[i]).is_prefix_of(path::components(p)) || path::components(
            p,
        ).is_prefix_of(path::components(dirs[i])));
    }
    if exists|i: int|
        0 <= i < dirs.len() && ((#[trigger] path::components(dirs[i])).is_prefix_of(
            path::components(p),
        ) || path::components(p).is_prefix_of(path::components(dirs[i]))) {
        let i = choose|i: int|
            0 <= i < dirs.len() && ((#[trigger] path::components(dirs[i])).is_prefix_of(
                path::components(p),
            ) || path::components(p).is_prefix_of(path::components(dirs[i])));
        assert(under(p, dirs[i]) || under(dirs[i], p));
    }
}

/// An executable is bypassed where its path begins with one of a list, and by an empty
/// list never.
pub proof fn law_bypassed_executables(list: Seq<Seq<char>>, s: Seq<char>, rest: Seq<char>, i: int)
    ensures
        0 <= i < list.len() && s == list[i] + rest ==> begins_with_one(list, s),
        begins_with_one(list, s) ==> exists|k: int|
            0 <= k < list.len() && s.len() >= (#[trigger] list[k]).len() && s.take(
                list[k].len() as int,
            ) == list[k],
        list.len() == 0 ==> !begins_with_one(list, s),
{
    if 0 <= i < list.len() && s == list[i] + rest {
        assert(s.take(list[i].len() as int) =~= list[i]);
        assert(list[i].is_prefix_of(s));
    }
    if begins_with_one(list, s) {
        let k = choose|k: int| 0 <= k < list.len() && (#[trigger] list[k]).is_prefix_of(s);
        assert(s.take(list[k].len() as int) =~= list[k]);
    }
}

/// The size of a tree is counted exactly for a directory where there is a limit.
pub proof fn law_needs_tree_size(config: Config, m: Meta, r: bool)
    requires
        call_ensures(needs_tree_size, (&config, &m), r),
    ensures
        r <==> m.kind == Kind::Dir && config.max_dir_size_mb != 0,
{
}

/// An id starts with the item's name: all of it where it is short enough, and else as many
/// characters of it as 223 bytes hold, and not one less. What follows is the time, and
/// behind that a number.
pub proof fn law_id_of_item(p: Seq<u8>, stamp: Seq<char>, n: nat)
    ensures
        ({
            let name = match name_of(p) {
                Some(x) => lossy(x),
                None => "unnamed"@,
            };
            let base = base_of(p);
            &&& base.is_prefix_of(name)
            &&& encode_utf8(base).len() <= 223
            &&& encode_utf8(name).len() <= 223 ==> base == name
            &&& base.len() < name.len() ==> encode_utf8(name.take(base.len() as int + 1)).len() > 223
            &&& candidate_of(base, stamp, 0) == base
            &&& candidate_of(base, stamp, 1) == base + seq!['.'] + stamp
            &&& n > 1 ==> candidate_of(base, stamp, n) == base + seq!['.'] + stamp + seq!['.'] + decimal(
                (n - 1) as nat,
            )
        }),
{
    let name = match name_of(p) {
        Some(x) => lossy(x),
        None => "unnamed"@,
    };
    lemma_fitting_fits(name, 223);
    lemma_fitting_most(name, 223);
    assert(candidate_of(base_of(p), stamp, 1) =~= base_of(p) + seq!['.'] + stamp);
    if n > 1 {
        assert(candidate_of(base_of(p), stamp, n) =~= base_of(p) + seq!['.'] + stamp + seq!['.']
            + decimal((n - 1) as nat));
    }
}

proof fn lemma_fitting_most(s: Seq<char>, max: nat)
    ensures
        fitting(s, max).is_prefix_of(s),
        encode_utf8(s).len() <= max ==> fitting(s, max) == s,
        fitting(s, max).len() < s.len() ==> encode_utf8(s.take(fitting(s, max).len() as int + 1)).len()
            > max,
    decreases s.len(),
{
    if s.len() > 0 && encode_utf8(s).len() > max {
        let t = s.drop_last();
        lemma_fitting_most(t, max);
        let f = fitting(t, max);
        if f.len() < t.len() {
            assert(t.take(f.len() as int + 1) =~= s.take(f.len() as int + 1));
        } else {
            assert(s.take(f.len() as int + 1) =~= s);
        }
        assert(s.take(f.len() as int) =~= t.take(f.len() as int));
        assert(f =~= s.take(f.len() as int));
    }
}

/// An id is an item's own exactly where it was claimed; one that is taken, by a record or
/// by data, leads to the next until so many were tried as are allowed; and no other id of
/// the search changes.
pub proof fn law_claim(c: Claim, o: ClaimOutcome, r: ClaimStep)
    requires
        call_ensures(Claim::next, (c, o), r),
    ensures
        r is Own <==> o is Claimed,
        r matches ClaimStep::Own(id) ==> id@ == candidate_of(c.base@, c.stamp@, c.tried as nat),
        r is Next <==> (o is DataThere || o is InfoThere) && c.tried < c.limit,
        r matches ClaimStep::Next(d) ==> d.base@ == c.base@ && d.stamp@ == c.stamp@ && d.limit
            == c.limit && d.tried == c.tried + 1,
        o matches ClaimOutcome::Failed(e) ==> (r matches ClaimStep::Stop(x) && x@ == Failure::Io(e@)),
{
}

/// In the home trash the path itself is recorded; in any other, of an item below the top
/// of its filesystem, one that does not begin at the root, so that it holds wherever the
/// filesystem is mounted.
pub proof fn law_recorded_relative(trash_dir: Seq<u8>, home: Seq<u8>, p: Seq<u8>)
    requires
        absolute(p),
        absolute(trash_dir),
    ensures
        same_path(trash_dir, home) ==> recorded_path(trash_dir, home, p) == p,
        !same_path(trash_dir, home) && under(p, topdir_of(trash_dir)) ==> !absolute(
            recorded_path(trash_dir, home, p),
        ) && same_path(joined(topdir_of(trash_dir), recorded_path(trash_dir, home, p)), p),
        !same_path(trash_dir, home) && !under(p, topdir_of(trash_dir)) ==> recorded_path(
            trash_dir,
            home,
            p,
        ) == p,
{
    let top = topdir_of(trash_dir);
    path::lemma_parent_absolute(trash_dir);
    if let Some(q) = parent_of(trash_dir) {
        path::lemma_parent_absolute(q);
    }
    if under(p, top) {
        path::law_strip_join(p, top);
    }
}

/// A file is hashed exactly where there is a limit and it has at most so many megabytes;
/// nothing else ever is.
pub proof fn law_hashed(limit_mb: u64, m: Meta)
    ensures
        hashed(limit_mb, m) <==> m.kind == Kind::File && limit_mb >= 1 && m.size <= limit_mb
            * 1_048_576,
{
}

/// The size that is recorded of a file is its own, whatever tree is behind its path, and
/// that of anything else is that of the tree.
pub proof fn law_own_size(m: Meta, tree: u64)
    ensures
        m.kind == Kind::File ==> own_size(m, tree) == m.size,
        m.kind != Kind::File ==> own_size(m, tree) == tree,
{
}

/// What is recorded of an item that is trashed: its path, the moment, what deleted it, its
/// size and its hash, each as it was given, and that it is not packed.
pub proof fn law_recorded(
    recorded: Vec<u8>,
    now: Moment,
    command: Option<&str>,
    pid: u32,
    m: Meta,
    tree: u64,
    hash: Option<String>,
    r: TrashInfo,
)
    requires
        call_ensures(build_info, (recorded, now, command, pid, &m, tree, hash), r),
    ensures
        r.original_path@ == recorded@,
        r.deletion_date == now,
        r.pid == Some(pid),
        r.compressed is None,
        (r.command is Some) == (command is Some),
        command matches Some(c) ==> r.command->0@ == c@,
        (r.sha256 is Some) == (hash is Some),
        hash matches Some(h) ==> r.sha256->0@ == h@,
        r.size == Some(
            if m.kind == Kind::File {
                m.size
            } else {
                tree
            },
        ),
{
    assert(r@.original_path == recorded@);
}

/// The step that a move is at after some steps, from how each step goes.
pub open spec fn move_course(goes: spec_fn(MoveStep) -> bool, k: Kind, n: nat) -> MoveStep
    decreases n,
{
    if n == 0 {
        MoveStep::Rename
    } else {
        let s = move_course(goes, k, (n - 1) as nat);
        step_after(s, k, goes(s))
    }
}

/// The copy that a kind of item takes goes well: a link is made again as a link, a
/// directory is copied with what is in it, a file with its contents, a pipe is made again
/// as a pipe, and nothing else is copied.
pub open spec fn copy_goes(goes: spec_fn(MoveStep) -> bool, k: Kind) -> bool {
    ||| k == Kind::Symlink && goes(MoveStep::CopyLink)
    ||| k == Kind::Dir && goes(MoveStep::CopyTree)
    ||| k == Kind::File && goes(MoveStep::CopyFile)
    ||| k == Kind::Fifo && goes(MoveStep::MakeFifo)
}

/// How a move ends. The item is in the trash exactly where it could be renamed, or else
/// the copy that its kind takes was made and the original was removed as its kind is. A
/// copy that could not be made is cleaned up; one whose original could not be removed is
/// kept; and what stands for a device or a socket is declined where it cannot be renamed.
pub proof fn law_move_end(goes: spec_fn(MoveStep) -> bool, k: Kind)
    ensures
        ({
            let end = move_course(goes, k, 3);
            let removed = if k == Kind::Dir {
                goes(MoveStep::RemoveTree)
            } else {
                goes(MoveStep::RemoveFile)
            };
            &&& end == MoveStep::Done <==> goes(MoveStep::Rename) || (copy_goes(goes, k) && removed)
            &&& end == MoveStep::Keep <==> !goes(MoveStep::Rename) && copy_goes(goes, k) && !removed
            &&& end == MoveStep::Decline <==> !goes(MoveStep::Rename) && (k == Kind::Device || k
                == Kind::Socket)
            &&& end == MoveStep::CleanUp <==> !goes(MoveStep::Rename) && k != Kind::Device && k
                != Kind::Socket && !copy_goes(goes, k)
        }),
{
    reveal_with_fuel(move_course, 4);
}

/// What has ended stays ended.
pub proof fn law_move_stays(s: MoveStep, k: Kind, ok: bool)
    requires
        s == MoveStep::Done || s == MoveStep::Keep || s == MoveStep::Decline || s == MoveStep::CleanUp,
    ensures
        step_after(s, k, ok) == s,
{
}

/// A walk counts everything that is met, and adds the size of what is neither a directory
/// nor a link, as far as it fits.
pub proof fn law_walked(w: SizeWalk, kind: Kind, size: u64)
    requires
        w.count < 10_000,
    ensures
        ({
            let x = walked(w, Met::Item(Meta { kind, size }));
            &&& x.count == w.count + 1
            &&& kind == Kind::Dir || kind == Kind::Symlink ==> x.total == w.total
            &&& kind != Kind::Dir && kind != Kind::Symlink && w.total + size <= u64::MAX ==> x.total
                == w.total + size
            &&& w.total + size > u64::MAX && kind != Kind::Dir && kind != Kind::Symlink ==> x.total
                == u64::MAX
        }),
        walked(w, Met::Unknown) == (SizeWalk { total: w.total, count: (w.count + 1) as u64 }),
{
}

/// The size of a tree is a part of it exactly where ten thousand things were met.
pub proof fn law_walk_finished(w: SizeWalk, full: bool, r: TreeSize)
    requires
        call_ensures(SizeWalk::full, (&w,), full),
        call_ensures(SizeWalk::finish, (&w,), r),
    ensures
        full == (w.count >= 10_000),
        r.capped == (w.count >= 10_000),
        r.bytes == w.total,
{
}

/// What is done with each entry of a tree that is copied: it is made again as what it is,
/// a directory below the hundredth level stops the copy, and only what stands for a device
/// or a socket is left out.
pub proof fn law_copy_entry(k: Kind, depth: u32, r: CopyStep)
    requires
        call_ensures(copy_entry, (k, depth), r),
    ensures
        r == CopyStep::Link <==> k == Kind::Symlink,
        r == CopyStep::File <==> k == Kind::File,
        r == CopyStep::Fifo <==> k == Kind::Fifo,
        r == CopyStep::Skip <==> k == Kind::Device || k == Kind::Socket,
        r == CopyStep::Descend <==> k == Kind::Dir && depth < 100,
        r == CopyStep::TooDeep <==> k == Kind::Dir && depth >= 100,
{
}

/// Where the directory of an item is resolved, the item is the same name in it; where it is
/// not, the path is taken by its text.
pub proof fn law_normalized(p: Seq<u8>, c: Seq<u8>)
    ensures
        normalized(p, None) == lexical(p),
        parent_of(p) is Some ==> (name_of(p) matches Some(n) ==> normalized(p, Some(c)) == joined(c, n)),
        parent_of(p) is None ==> normalized(p, Some(c)) == lexical(p),
{
}

} // verus!
