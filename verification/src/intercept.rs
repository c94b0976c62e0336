//! Deletions caught inside a process: which are taken over, and in which steps.

use crate::config::{default_never_trash, default_never_trash_list, extend_list, extended_by, local_lists, skipped, skips, LocalConfig};
use crate::dates::Moment;
use crate::job::Kind;
use crate::path::{components, components_of, path_starts_with, under};
use crate::seqs;
use crate::text::{lossy, texts, views};
use crate::trashinfo::{Record, TrashInfo};
use vstd::prelude::*;

verus! {

/// The settings that count inside a process.
#[derive(Debug)]
pub struct PreloadConfig {
    pub never_trash: Vec<String>,
    /// Where it is not empty, only what it matches is trashed.
    pub only_trash: Vec<String>,
    pub bypass_processes: Vec<String>,
}

/// What a file of settings says; what it leaves out stays.
#[derive(Debug)]
pub struct PartialPreloadConfig {
    pub never_trash: Option<Vec<String>>,
    pub only_trash: Option<Vec<String>>,
    pub bypass_processes: Option<Vec<String>>,
}

/// The settings, as texts.
#[verifier::ext_equal]
pub struct Lists {
    pub never_trash: Seq<Seq<char>>,
    pub only_trash: Seq<Seq<char>>,
    pub bypass_processes: Seq<Seq<char>>,
}

impl View for PreloadConfig {
    type V = Lists;

    open spec fn view(&self) -> Lists {
        Lists {
            never_trash: texts(self.never_trash@),
            only_trash: texts(self.only_trash@),
            bypass_processes: texts(self.bypass_processes@),
        }
    }
}

pub open spec fn preload_bypass_list() -> Seq<Seq<char>> {
    seq![
        "apt"@,
        "apt-get"@,
        "dpkg"@,
        "yum"@,
        "dnf"@,
        "pacman"@,
        "rpm"@,
        "pip"@,
        "cargo"@,
        "npm"@,
        "make"@,
        "git"@,
        "journald"@,
        "containerd"@,
        "dockerd"@,
    ]
}

/// The settings with what a file says: the lists of what is never trashed and of the
/// processes grow, the list of what alone is trashed is replaced.
pub open spec fn merged_lists(l: Lists, p: PartialPreloadConfig) -> Lists {
    Lists {
        never_trash: extended_by(l.never_trash, p.never_trash),
        only_trash: match p.only_trash {
            Some(o) => texts(o@),
            None => l.only_trash,
        },
        bypass_processes: extended_by(l.bypass_processes, p.bypass_processes),
    }
}

pub open spec fn merged_lists_opt(l: Lists, p: Option<PartialPreloadConfig>) -> Lists {
    match p {
        Some(p) => merged_lists(l, p),
        None => l,
    }
}

pub open spec fn default_lists() -> Lists {
    Lists {
        never_trash: default_never_trash_list(),
        only_trash: seq![],
        bypass_processes: preload_bypass_list(),
    }
}

impl Default for PreloadConfig {
    fn default() -> (r: Self)
        ensures
            r@ == default_lists(),
    {
        let bypass: Vec<String> = vec![
            "apt".to_owned(),
            "apt-get".to_owned(),
            "dpkg".to_owned(),
            "yum".to_owned(),
            "dnf".to_owned(),
            "pacman".to_owned(),
            "rpm".to_owned(),
            "pip".to_owned(),
            "cargo".to_owned(),
            "npm".to_owned(),
            "make".to_owned(),
            "git".to_owned(),
            "journald".to_owned(),
            "containerd".to_owned(),
            "dockerd".to_owned(),
        ];
        assert(texts(bypass@) =~= preload_bypass_list());
        let only: Vec<String> = Vec::new();
        assert(texts(only@) =~= seq![]);
        PreloadConfig { never_trash: default_never_trash(), only_trash: only, bypass_processes: bypass }
    }
}

impl PreloadConfig {
    /// Takes in what a file of settings says.
    pub fn merge(&mut self, partial: PartialPreloadConfig)
        ensures
            final(self)@ == merged_lists(old(self)@, partial),
    {
        if let Some(extra) = partial.never_trash {
            extend_list(&mut self.never_trash, extra);
        }
        if let Some(list) = partial.only_trash {
            self.only_trash = list;
        }
        if let Some(extra) = partial.bypass_processes {
            extend_list(&mut self.bypass_processes, extra);
        }
        assert(self@ =~= merged_lists(old(self)@, partial));
    }

    /// The settings under the file for all and that of the user.
    pub fn load(global: Option<PartialPreloadConfig>, user: Option<PartialPreloadConfig>) -> (r: Self)
        ensures
            r@ == merged_lists_opt(merged_lists_opt(default_lists(), global), user),
    {
        let mut c = PreloadConfig::default();
        if let Some(p) = global {
            c.merge(p);
        }
        if let Some(p) = user {
            c.merge(p);
        }
        c
    }
}

/// A number by which a change of the two files of settings is seen, from the times at
/// which they were written.
pub fn config_stamp(global: i64, user: i64) -> (r: i64)
    ensures
        r == global.wrapping_mul(1_000_003) ^ user,
{
    global.wrapping_mul(1_000_003) ^ user
}

/// The files of settings are looked at again after this many seconds.
pub const RECHECK_SECONDS: i64 = 60;

/// Whether the files of settings are looked at again.
pub fn recheck_due(now: i64, last: i64) -> (r: bool)
    requires
        i64::MIN <= now - last <= i64::MAX,
    ensures
        r == (now - last >= RECHECK_SECONDS),
{
    now - last >= RECHECK_SECONDS
}

/// Whether it is said that the files of settings have changed: not the first time that
/// they are looked at.
pub fn change_told(current: i64, known: i64) -> (r: bool)
    ensures
        r == (current != known && known != 0),
{
    current != known && known != 0
}

/// `.Trash`, in bytes.
pub open spec fn shared_name() -> Seq<u8> {
    seq![46u8, 84, 114, 97, 115, 104]
}

pub open spec fn digit_bytes(b: Seq<u8>) -> bool {
    forall|k: int| 0 <= k < b.len() ==> 48 <= #[trigger] b[k] <= 57
}

/// A directory of this name is a trash directory of a mounted filesystem: `.Trash`, or
/// `.Trash-` and the number of a user.
pub open spec fn names_trash(c: Seq<u8>) -> bool {
    c == shared_name() || (c.len() > 7 && c.take(7) == shared_name().push(45u8) && digit_bytes(
        c.skip(7),
    ))
}

fn is_trash_name(c: &[u8]) -> (r: bool)
    ensures
        r == names_trash(c@),
{
    let shared: Vec<u8> = vec![46, 84, 114, 97, 115, 104];
    let own: Vec<u8> = vec![46, 84, 114, 97, 115, 104, 45];
    assert(shared@ =~= shared_name());
    assert(own@ =~= shared_name().push(45u8));
    if seqs::same_run(c, shared.as_slice()) {
        return true;
    }
    if c.len() <= 7 || !seqs::starts_with(c, own.as_slice()) {
        proof {
            if c@.len() > 7 && c@.take(7) == own@ {
                assert(own@.is_prefix_of(c@));
            }
        }
        return false;
    }
    assert(c@.take(7) =~= own@);
    let mut i: usize = 7;
    while i < c.len()
        invariant
            7 <= i <= c@.len(),
            forall|k: int| 7 <= k < i ==> 48 <= #[trigger] c@[k] <= 57,
        decreases c@.len() - i,
    {
        if c[i] < 48 || c[i] > 57 {
            assert(c@.skip(7)[i - 7] == c@[i as int]);
            assert(c@ != shared_name());
            return false;
        }
        i += 1;
    }
    assert(digit_bytes(c@.skip(7)));
    true
}

/// A path lies in the trash of the user or in that of a mounted filesystem, told by whole
/// names.
pub open spec fn in_trash(p: Seq<u8>, home_trash: Seq<u8>) -> bool {
    under(p, home_trash) || exists|k: int|
        0 <= k < components(p).len() && names_trash(#[trigger] components(p)[k])
}

/// Whether a path lies in a trash directory. It is never taken over there.
pub fn is_inside_trash(p: &[u8], home_trash: &[u8]) -> (r: bool)
    ensures
        r == in_trash(p@, home_trash@),
{
    if path_starts_with(p, home_trash) {
        return true;
    }
    let parts = components_of(p);
    assert(views(parts@).len() == parts@.len());
    let mut i: usize = 0;
    while i < parts.len()
        invariant
            i <= parts@.len(),
            views(parts@) == components(p@),
            views(parts@).len() == parts@.len(),
            forall|k: int| 0 <= k < i ==> !names_trash(#[trigger] components(p@)[k]),
        decreases parts@.len() - i,
    {
        assert(components(p@)[i as int] == parts@[i as int]@);
        if is_trash_name(parts[i].as_slice()) {
            return true;
        }
        i += 1;
    }
    false
}

/// Whether a deletion is left to the system: of what lies in a trash directory, and of
/// what the settings, with those of the directory, keep out of the trash.
pub fn should_skip_path(
    p: &[u8],
    home_trash: &[u8],
    config: &PreloadConfig,
    local: Option<&LocalConfig>,
) -> (r: bool)
    ensures
        r == (in_trash(p@, home_trash@) || skips(
            config@.never_trash,
            config@.only_trash,
            local_lists(local),
            lossy(p@),
        )),
{
    is_inside_trash(p, home_trash) || skipped(&config.never_trash, &config.only_trash, local, p)
}

/// An environment variable is set to `1`.
pub open spec fn is_set(v: Option<&[u8]>) -> bool {
    match v {
        Some(b) => b@ == seq![49u8],
        None => false,
    }
}

fn set_to_one(v: Option<&[u8]>) -> (r: bool)
    ensures
        r == is_set(v),
{
    match v {
        Some(b) => {
            let one: Vec<u8> = vec![49];
            assert(one@ =~= seq![49u8]);
            seqs::same_run(b, one.as_slice())
        },
        None => false,
    }
}

/// Whether deletions of this process are taken over: not while one is being taken over,
/// not where it is turned off, not where the supervisor does it, and not under a process
/// that the trash is not for.
pub fn should_intercept(
    within: bool,
    bypass: Option<&[u8]>,
    supervised: Option<&[u8]>,
    parent_bypassed: bool,
) -> (r: bool)
    ensures
        r == (!within && !is_set(bypass) && !is_set(supervised) && !parent_bypassed),
{
    !within && !set_to_one(bypass) && !set_to_one(supervised) && !parent_bypassed
}

/// Whether a deletion is taken over, by what it is of: a directory only by a call that
/// removes directories, and only where it is known to be empty; anything else only by
/// the other calls.
pub fn takes_over(remove_dir: bool, kind: Kind, empty: Option<bool>) -> (r: bool)
    ensures
        r == (if remove_dir {
            kind is Dir && empty == Some(true)
        } else {
            !(kind is Dir)
        }),
{
    let dir: bool = matches!(kind, Kind::Dir);
    if remove_dir {
        let known_empty: bool = match empty {
            Some(e) => e,
            None => false,
        };
        dir && known_empty
    } else {
        !dir
    }
}

/// What is written down of an item that was taken over.
pub fn hook_info(recorded: Vec<u8>, now: Moment, pid: u32, size: Option<u64>) -> (r: TrashInfo)
    ensures
        r@ == (Record {
            original_path: recorded@,
            deletion_date: now,
            command: Some("preload"@),
            pid: Some(pid),
            size,
            sha256: None,
            compressed: None,
        }),
{
    let mut info = TrashInfo::at(recorded, now);
    info.command = Some("preload".to_owned());
    info.pid = Some(pid);
    info.size = size;
    info
}

/// What is done next with an item that is taken over, after its record was written.
#[derive(Debug, Clone, Copy, PartialEq, Eq, Structural)]
pub enum HookStep {
    /// See that the path still leads to the same item.
    Recheck,
    Rename,
    /// Make the link again in the trash.
    CopyLink,
    /// Make the pipe again in the trash.
    MakeFifo,
    /// Copy the file.
    CopyFile,
    /// Delete the original for real.
    Unlink,
    /// Remove the record; the system's own call is made.
    DropRecord,
    /// Remove the record and the copy; the system's own call is made.
    DropBoth,
    /// The item is in the trash; the caller is told of success.
    Taken,
}

/// What is done after a step that went well or not. Directories, devices and sockets are
/// not copied to another filesystem.
pub open spec fn hook_after(s: HookStep, k: Kind, ok: bool) -> HookStep {
    match s {
        HookStep::Recheck => if ok {
            HookStep::Rename
        } else {
            HookStep::DropRecord
        },
        HookStep::Rename => if ok {
            HookStep::Taken
        } else {
            match k {
                Kind::Symlink => HookStep::CopyLink,
                Kind::Fifo => HookStep::MakeFifo,
                Kind::File => HookStep::CopyFile,
                _ => HookStep::DropRecord,
            }
        },
        HookStep::CopyLink => if ok {
            HookStep::Unlink
        } else {
            HookStep::DropRecord
        },
        HookStep::MakeFifo => if ok {
            HookStep::Unlink
        } else {
            HookStep::DropRecord
        },
        HookStep::CopyFile => if ok {
            HookStep::Unlink
        } else {
            HookStep::DropBoth
        },
        HookStep::Unlink => if ok {
            HookStep::Taken
        } else {
            HookStep::DropBoth
        },
        _ => s,
    }
}

/// What is done after a step that went well or not.
pub fn next_hook(s: HookStep, k: Kind, ok: bool) -> (r: HookStep)
    ensures
        r == hook_after(s, k, ok),
{
    match s {
        HookStep::Recheck => {
            if ok {
                HookStep::Rename
            } else {
                HookStep::DropRecord
            }
        },
        HookStep::Rename => {
            if ok {
                HookStep::Taken
            } else {
                match k {
                    Kind::Symlink => HookStep::CopyLink,
                    Kind::Fifo => HookStep::MakeFifo,
                    Kind::File => HookStep::CopyFile,
                    _ => HookStep::DropRecord,
                }
            }
        },
        HookStep::CopyLink => {
            if ok {
                HookStep::Unlink
            } else {
                HookStep::DropRecord
            }
        },
        HookStep::MakeFifo => {
            if ok {
                HookStep::Unlink
            } else {
                HookStep::DropRecord
            }
        },
        HookStep::CopyFile => {
            if ok {
                HookStep::Unlink
            } else {
                HookStep::DropBoth
            }
        },
        HookStep::Unlink => {
            if ok {
                HookStep::Taken
            } else {
                HookStep::DropBoth
            }
        },
        _ => s,
    }
}

/// The step after what has happened so far.
pub open spec fn hook_run(k: Kind, outcomes: Seq<bool>) -> HookStep
    decreases outcomes.len(),
{
    if outcomes.len() == 0 {
        HookStep::Recheck
    } else {
        hook_after(hook_run(k, outcomes.drop_last()), k, outcomes.last())
    }
}

pub open spec fn hook_ends(s: HookStep) -> bool {
    s is DropRecord || s is DropBoth || s is Taken
}

/// How many steps can still come.
pub open spec fn hook_left(s: HookStep) -> nat {
    match s {
        HookStep::Recheck => 4,
        HookStep::Rename => 3,
        HookStep::CopyLink => 2,
        HookStep::MakeFifo => 2,
        HookStep::CopyFile => 2,
        HookStep::Unlink => 1,
        _ => 0,
    }
}

proof fn lemma_hook_left(k: Kind, outcomes: Seq<bool>)
    ensures
        hook_left(hook_run(k, outcomes)) <= if outcomes.len() <= 4 {
            4 - outcomes.len()
        } else {
            0
        },
    decreases outcomes.len(),
{
    if outcomes.len() > 0 {
        lemma_hook_left(k, outcomes.drop_last());
    }
}

/// A deletion that is taken over is decided after four steps at most: it is in the trash,
/// or nothing of it is left there and the system's own call is made.
pub proof fn law_hook_ends(k: Kind, outcomes: Seq<bool>)
    requires
        outcomes.len() >= 4,
    ensures
        hook_ends(hook_run(k, outcomes)),
{
    lemma_hook_left(k, outcomes);
}

/// The original is deleted for real only after a whole copy was made, and a caller is
/// told of success only where the item was moved or was so deleted.
pub proof fn law_hook_success(k: Kind, outcomes: Seq<bool>)
    requires
        outcomes.len() > 0,
    ensures
        hook_run(k, outcomes) is Unlink ==> outcomes.last() && {
            let s = hook_run(k, outcomes.drop_last());
            s is CopyLink || s is MakeFifo || s is CopyFile
        },
        hook_run(k, outcomes) is Taken && !(hook_run(k, outcomes.drop_last()) is Taken)
            ==> outcomes.last() && {
            let s = hook_run(k, outcomes.drop_last());
            s is Rename || s is Unlink
        },
{
}

} // verus!
