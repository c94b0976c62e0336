//! Answering a trapped system call: which path it names, and what the caller is told.

use crate::config::Config;
use crate::errors::TrashError;
use crate::filter::{nr_rmdir, nr_unlinkat, Arch};
use crate::job::{begins_with_one, exe_bypassed, Kind};
use crate::path::{absolute, dot, dotdot, is_absolute, join, joined, root};
use crate::process::{bypassed_from, is_parent_bypassed, Ancestor};
use crate::seqs;
use crate::seqs::{find_from, lemma_find_from, position, to_vec};
use crate::text::{listed, lossy};
use vstd::prelude::*;
use vstd::slice::slice_subrange;

verus! {

pub const ENOENT: i32 = 2;

pub const EBADF: i32 = 9;

pub const EAGAIN: i32 = 11;

pub const ENOTDIR: i32 = 20;

pub const EISDIR: i32 = 21;

pub const ENOTEMPTY: i32 = 39;

/// The descriptor that stands for the current directory.
pub const AT_FDCWD: i32 = -100;

/// The flag by which `unlinkat` removes a directory.
pub const AT_REMOVEDIR: u64 = 0x200;

/// Tells the kernel to run the call after all.
pub const FLAG_CONTINUE: u32 = 1;

/// The data of a trapped call.
#[derive(Debug, Clone, Copy)]
pub struct SeccompData {
    pub nr: i32,
    pub arch: u32,
    pub instruction_pointer: u64,
    pub args: [u64; 6],
}

/// A trapped call.
#[derive(Debug)]
pub struct SeccompNotif {
    pub id: u64,
    pub pid: u32,
    pub flags: u32,
    pub data: SeccompData,
}

/// The answer to a trapped call, as the kernel reads it.
#[derive(Debug, Clone, Copy, PartialEq, Eq, Structural)]
pub struct SeccompNotifResp {
    pub id: u64,
    pub val: i64,
    pub error: i32,
    pub flags: u32,
}

/// What a trapped call is answered.
#[derive(Debug, Clone, Copy, PartialEq, Eq, Structural)]
pub enum Answer {
    /// The kernel runs the call.
    Continue,
    /// The call has succeeded and is not run.
    Success,
    /// The call has failed with this error and is not run.
    Errno(i32),
}

/// The answer that has the kernel run the call.
pub fn respond_continue(id: u64) -> (r: SeccompNotifResp)
    ensures
        r == (SeccompNotifResp { id, val: 0, error: 0, flags: FLAG_CONTINUE }),
{
    SeccompNotifResp { id, val: 0, error: 0, flags: FLAG_CONTINUE }
}

/// The answer of a call that is done.
pub fn respond_success(id: u64) -> (r: SeccompNotifResp)
    ensures
        r == (SeccompNotifResp { id, val: 0, error: 0, flags: 0 }),
{
    SeccompNotifResp { id, val: 0, error: 0, flags: 0 }
}

/// The answer of a call that fails.
pub fn respond_errno(id: u64, errno: i32) -> (r: SeccompNotifResp)
    requires
        errno > i32::MIN,
    ensures
        r.id == id,
        r.val == 0,
        r.error == -errno,
        r.flags == 0,
{
    SeccompNotifResp { id, val: 0, error: -errno, flags: 0 }
}

/// An answer as the kernel reads it.
pub fn response(id: u64, a: Answer) -> (r: SeccompNotifResp)
    requires
        a matches Answer::Errno(e) ==> e > i32::MIN,
    ensures
        r.id == id,
        r.val == 0,
        r.error == (match a {
            Answer::Errno(e) => -e,
            _ => 0,
        }),
        r.flags == (if a is Continue {
            FLAG_CONTINUE
        } else {
            0
        }),
{
    match a {
        Answer::Continue => respond_continue(id),
        Answer::Success => respond_success(id),
        Answer::Errno(e) => respond_errno(id, e),
    }
}

fn is_unlinkat(a: Arch, nr: i32) -> (r: bool)
    ensures
        r == (nr == nr_unlinkat(a)),
{
    match a {
        Arch::X86_64 => nr == 263,
        Arch::Aarch64 => nr == 35,
    }
}

/// Where a call keeps its path: the descriptor that it is relative to, where the call
/// has one, and the path's address.
pub fn path_argument(a: Arch, data: &SeccompData) -> (r: (Option<i32>, u64))
    ensures
        r == (if data.nr == nr_unlinkat(a) {
            (Some(data.args[0] as i32), data.args[1])
        } else {
            (None, data.args[0])
        }),
{
    if is_unlinkat(a, data.nr) {
        (Some(data.args[0] as i32), data.args[1])
    } else {
        (None, data.args[0])
    }
}

/// A call removes a directory: `rmdir`, or `unlinkat` with its flag.
pub open spec fn removes_dir(a: Arch, data: SeccompData) -> bool {
    (nr_rmdir(a) is Some && data.nr == nr_rmdir(a)->0) || (data.nr == nr_unlinkat(a)
        && data.args[2] & AT_REMOVEDIR != 0)
}

/// Whether a call removes a directory.
pub fn is_rmdir(a: Arch, data: &SeccompData) -> (r: bool)
    ensures
        r == removes_dir(a, *data),
{
    let plain: bool = match a {
        Arch::X86_64 => data.nr == 84,
        Arch::Aarch64 => false,
    };
    plain || (is_unlinkat(a, data.nr) && data.args[2] & AT_REMOVEDIR != 0)
}

/// The path in memory that was read from its address on: what stands before the first
/// zero. There is none where no zero was read.
pub fn path_in_memory(read: &[u8]) -> (r: Option<Vec<u8>>)
    ensures
        match r {
            Some(p) => find_from(read@, 0u8, 0) < read@.len() && p@ == read@.take(
                find_from(read@, 0u8, 0),
            ),
            None => find_from(read@, 0u8, 0) == read@.len(),
        },
{
    proof {
        lemma_find_from(read@, 0u8, 0);
    }
    let n: usize = position(read, 0u8, 0);
    if n < read.len() {
        let p = slice_subrange(read, 0, n);
        assert(p@ =~= read@.take(n as int));
        Some(to_vec(p))
    } else {
        None
    }
}

/// What a trapped path starts from.
#[derive(Debug, Clone, Copy, PartialEq, Eq, Structural)]
pub enum Base {
    /// The root of the caller.
    Root,
    /// The caller's current directory.
    Cwd,
    /// A directory that the caller holds open.
    Dir(i32),
}

pub open spec fn base_of(p: Seq<u8>, dirfd: Option<i32>) -> Base {
    if absolute(p) {
        Base::Root
    } else {
        match dirfd {
            Some(fd) => if fd == AT_FDCWD {
                Base::Cwd
            } else {
                Base::Dir(fd)
            },
            None => Base::Cwd,
        }
    }
}

/// What a trapped path starts from.
pub fn base_for(p: &[u8], dirfd: Option<i32>) -> (r: Base)
    ensures
        r == base_of(p@, dirfd),
{
    if is_absolute(p) {
        return Base::Root;
    }
    match dirfd {
        Some(fd) => {
            if fd == AT_FDCWD {
                Base::Cwd
            } else {
                Base::Dir(fd)
            }
        },
        None => Base::Cwd,
    }
}

/// A trapped path, seen from the directory that it starts from.
pub fn resolve_syscall_path(p: &[u8], dir: &[u8]) -> (r: Vec<u8>)
    ensures
        r@ == (if absolute(p@) {
            p@
        } else {
            joined(dir@, p@)
        }),
{
    if is_absolute(p) {
        to_vec(p)
    } else {
        join(dir, p)
    }
}

/// The entries of an environment, each ended by a zero or the end.
pub open spec fn entries_from(env: Seq<u8>, i: int) -> Seq<Seq<u8>>
    decreases env.len() - i,
{
    let e = find_from(env, 0u8, i);
    if i < 0 || i >= env.len() || e < i {
        seq![]
    } else if e >= env.len() {
        seq![env.skip(i)]
    } else {
        seq![env.subrange(i, e)] + entries_from(env, e + 1)
    }
}

/// `TRASH_BYPASS=1`, in bytes.
pub open spec fn bypass_entry() -> Seq<u8> {
    seq![84u8, 82, 65, 83, 72, 95, 66, 89, 80, 65, 83, 83, 61, 49]
}

/// Whether an environment turns the trash off.
pub fn environ_bypasses(env: &[u8]) -> (r: bool)
    ensures
        r == entries_from(env@, 0).contains(bypass_entry()),
{
    let wanted: Vec<u8> = vec![84, 82, 65, 83, 72, 95, 66, 89, 80, 65, 83, 83, 61, 49];
    assert(wanted@ =~= bypass_entry());
    let n: usize = env.len();
    let mut i: usize = 0;
    while i < n
        invariant
            n == env@.len(),
            i <= n,
            wanted@ == bypass_entry(),
            entries_from(env@, 0).contains(bypass_entry()) == entries_from(env@, i as int).contains(
                bypass_entry(),
            ),
        decreases n - i,
    {
        proof {
            lemma_find_from(env@, 0u8, i as int);
        }
        let e: usize = position(env, 0u8, i);
        let entry = slice_subrange(env, i, e);
        let ghost rest = if e < n {
            entries_from(env@, e + 1)
        } else {
            seq![]
        };
        proof {
            let all = entries_from(env@, i as int);
            assert(e == n ==> entry@ =~= env@.skip(i as int));
            assert(all =~= seq![entry@] + rest);
            if all.contains(bypass_entry()) && entry@ != bypass_entry() {
                let k = choose|k: int| 0 <= k < all.len() && all[k] == bypass_entry();
                assert(rest[k - 1] == bypass_entry());
            }
            if rest.contains(bypass_entry()) {
                let k = choose|k: int| 0 <= k < rest.len() && rest[k] == bypass_entry();
                assert(all[k + 1] == bypass_entry());
            }
            if entry@ == bypass_entry() {
                assert(all[0] == bypass_entry());
            }
        }
        if seqs::same_run(entry, wanted.as_slice()) {
            return true;
        }
        if e == n {
            return false;
        }
        i = e + 1;
    }
    false
}

/// Whether a caller is one that the trash is not for: by its environment, its executable,
/// its own name, or that of a process above it.
pub fn caller_bypassed(
    config: &Config,
    env: &[u8],
    exe: Option<&[u8]>,
    name: Option<&str>,
    ancestors: &Vec<Ancestor>,
) -> (r: bool)
    ensures
        r == {
            ||| entries_from(env@, 0).contains(bypass_entry())
            ||| exe matches Some(e) && begins_with_one(config@.bypass_paths, lossy(e@))
            ||| name matches Some(n) && config@.bypass_processes.contains(n@)
            ||| bypassed_from(config@.bypass_processes, ancestors@, 0)
        },
{
    if environ_bypasses(env) {
        return true;
    }
    if let Some(e) = exe {
        if exe_bypassed(config, e) {
            return true;
        }
    }
    if let Some(n) = name {
        if listed(&config.bypass_processes, n) {
            return true;
        }
    }
    is_parent_bypassed(&config.bypass_processes, ancestors)
}

/// What an attempt to handle a call through held directories came to.
#[derive(Debug, Clone, Copy, PartialEq, Eq, Structural)]
pub enum Decision {
    /// The item is in the trash.
    Trashed,
    /// The kernel runs the call.
    Continue,
    /// The call fails with this error and is not run.
    Errno(i32),
    /// This way of handling is not to be had; the call is handled by its path.
    FallBack,
}

/// How an attempt to trash ended.
#[derive(Debug, Clone, Copy, PartialEq, Eq, Structural)]
pub enum Trial {
    Trashed,
    /// The settings keep the item out of the trash.
    Excluded,
    /// The item is part of the trash or holds it.
    Refused,
    /// The item is larger than the settings allow.
    TooLarge,
    Failed,
}

/// How an attempt to trash ended, from its error.
pub fn trial_of(e: Option<&TrashError>) -> (r: Trial)
    ensures
        r == (match e {
            None => Trial::Trashed,
            Some(TrashError::Excluded(_)) => Trial::Excluded,
            Some(TrashError::Refused(_)) => Trial::Refused,
            Some(TrashError::TooLarge { .. }) => Trial::TooLarge,
            Some(_) => Trial::Failed,
        }),
{
    match e {
        None => Trial::Trashed,
        Some(TrashError::Excluded(_)) => Trial::Excluded,
        Some(TrashError::Refused(_)) => Trial::Refused,
        Some(TrashError::TooLarge { .. }) => Trial::TooLarge,
        Some(_) => Trial::Failed,
    }
}

/// What is done next for a trapped call.
#[derive(Debug, Clone, Copy, PartialEq, Eq, Structural)]
pub enum TrapStep {
    /// Read the path out of the caller's memory.
    ReadPath,
    /// Ask whether the call still waits.
    CheckId,
    /// Ask whether the caller is one that the trash is not for.
    CheckBypass,
    /// Ask whether the settings keep the path out of the trash.
    CheckSkip,
    /// Try to handle the call through held directories.
    Pin,
    /// Look at the item.
    Look,
    /// Look into the directory.
    LookInside,
    /// Move the item to the trash.
    Trash,
    /// Answer.
    Respond(Answer),
}

/// What came of a step.
#[derive(Debug, Clone, Copy, PartialEq, Eq, Structural)]
pub enum TrapEvent {
    Yes,
    No,
    Pinned(Decision),
    Found(Kind),
    /// Whether the directory is empty.
    Inside(bool),
    Tried(Trial),
    /// The step could not be done.
    Failed,
}

/// What is done after a step of a call that removes a directory or not. A call is never
/// blocked: whatever keeps an item out of the trash leaves the call to the kernel, a refusal
/// and a size over the limit too. So a program under supervision can delete in the trash
/// itself, and only the `rm` command leaves what the trash refuses untouched.
pub open spec fn trap_after(s: TrapStep, e: TrapEvent, remove_dir: bool) -> TrapStep {
    match (s, e) {
        (TrapStep::Respond(a), _) => TrapStep::Respond(a),
        (TrapStep::ReadPath, TrapEvent::Yes) => TrapStep::CheckId,
        (TrapStep::CheckId, TrapEvent::Yes) => TrapStep::CheckBypass,
        (TrapStep::CheckBypass, TrapEvent::No) => TrapStep::CheckSkip,
        (TrapStep::CheckSkip, TrapEvent::No) => TrapStep::Pin,
        (TrapStep::Pin, TrapEvent::Pinned(Decision::Trashed)) => TrapStep::Respond(Answer::Success),
        (TrapStep::Pin, TrapEvent::Pinned(Decision::Errno(n))) => TrapStep::Respond(
            Answer::Errno(n),
        ),
        (TrapStep::Pin, TrapEvent::Pinned(Decision::FallBack)) => TrapStep::Look,
        (TrapStep::Pin, TrapEvent::Failed) => TrapStep::Look,
        (TrapStep::Look, TrapEvent::Found(k)) => if remove_dir {
            if k is Dir {
                TrapStep::LookInside
            } else {
                TrapStep::Respond(Answer::Errno(ENOTDIR))
            }
        } else if k is Dir {
            TrapStep::Respond(Answer::Errno(EISDIR))
        } else {
            TrapStep::Trash
        },
        (TrapStep::LookInside, TrapEvent::Inside(empty)) => if empty {
            TrapStep::Trash
        } else {
            TrapStep::Respond(Answer::Errno(ENOTEMPTY))
        },
        (TrapStep::Trash, TrapEvent::Tried(Trial::Trashed)) => TrapStep::Respond(Answer::Success),
        _ => TrapStep::Respond(Answer::Continue),
    }
}

/// What is done after a step.
pub fn next_trap(s: TrapStep, e: TrapEvent, remove_dir: bool) -> (r: TrapStep)
    ensures
        r == trap_after(s, e, remove_dir),
{
    match (s, e) {
        (TrapStep::Respond(a), _) => TrapStep::Respond(a),
        (TrapStep::ReadPath, TrapEvent::Yes) => TrapStep::CheckId,
        (TrapStep::CheckId, TrapEvent::Yes) => TrapStep::CheckBypass,
        (TrapStep::CheckBypass, TrapEvent::No) => TrapStep::CheckSkip,
        (TrapStep::CheckSkip, TrapEvent::No) => TrapStep::Pin,
        (TrapStep::Pin, TrapEvent::Pinned(d)) => match d {
            Decision::Trashed => TrapStep::Respond(Answer::Success),
            Decision::Continue => TrapStep::Respond(Answer::Continue),
            Decision::Errno(n) => TrapStep::Respond(Answer::Errno(n)),
            Decision::FallBack => TrapStep::Look,
        },
        (TrapStep::Pin, TrapEvent::Failed) => TrapStep::Look,
        (TrapStep::Look, TrapEvent::Found(k)) => {
            let dir: bool = matches!(k, Kind::Dir);
            if remove_dir && dir {
                TrapStep::LookInside
            } else if remove_dir {
                TrapStep::Respond(Answer::Errno(ENOTDIR))
            } else if dir {
                TrapStep::Respond(Answer::Errno(EISDIR))
            } else {
                TrapStep::Trash
            }
        },
        (TrapStep::LookInside, TrapEvent::Inside(empty)) => {
            if empty {
                TrapStep::Trash
            } else {
                TrapStep::Respond(Answer::Errno(ENOTEMPTY))
            }
        },
        (TrapStep::Trash, TrapEvent::Tried(Trial::Trashed)) => TrapStep::Respond(Answer::Success),
        _ => TrapStep::Respond(Answer::Continue),
    }
}

/// The step after what has happened so far.
pub open spec fn trap_run(events: Seq<TrapEvent>, remove_dir: bool) -> TrapStep
    decreases events.len(),
{
    if events.len() == 0 {
        TrapStep::ReadPath
    } else {
        trap_after(trap_run(events.drop_last(), remove_dir), events.last(), remove_dir)
    }
}

/// How many steps can still come before the answer.
pub open spec fn trap_left(s: TrapStep) -> nat {
    match s {
        TrapStep::ReadPath => 8,
        TrapStep::CheckId => 7,
        TrapStep::CheckBypass => 6,
        TrapStep::CheckSkip => 5,
        TrapStep::Pin => 4,
        TrapStep::Look => 3,
        TrapStep::LookInside => 2,
        TrapStep::Trash => 1,
        TrapStep::Respond(_) => 0,
    }
}

proof fn lemma_trap_left(events: Seq<TrapEvent>, remove_dir: bool)
    ensures
        trap_left(trap_run(events, remove_dir)) <= if events.len() <= 8 {
            8 - events.len()
        } else {
            0
        },
    decreases events.len(),
{
    if events.len() > 0 {
        lemma_trap_left(events.drop_last(), remove_dir);
    }
}

/// Every trapped call is answered, whatever happens, after eight steps at most: a caller
/// is never left waiting.
pub proof fn law_trap_answered(events: Seq<TrapEvent>, remove_dir: bool)
    requires
        events.len() >= 8,
    ensures
        trap_run(events, remove_dir) is Respond,
{
    lemma_trap_left(events, remove_dir);
}

/// The item of a call was moved to the trash.
pub open spec fn moved(e: TrapEvent) -> bool {
    e == TrapEvent::Pinned(Decision::Trashed) || e == TrapEvent::Tried(Trial::Trashed)
}

/// A caller is told of success only where its item was moved to the trash, and it is
/// told so then.
pub proof fn law_success_means_moved(events: Seq<TrapEvent>, remove_dir: bool)
    ensures
        trap_run(events, remove_dir) == TrapStep::Respond(Answer::Success) ==> exists|n: int|
            0 <= n < events.len() && #[trigger] moved(events[n]),
    decreases events.len(),
{
    if events.len() > 0 && trap_run(events, remove_dir) == TrapStep::Respond(Answer::Success) {
        let before = events.drop_last();
        law_success_means_moved(before, remove_dir);
        if trap_run(before, remove_dir) == TrapStep::Respond(Answer::Success) {
            let n = choose|n: int| 0 <= n < before.len() && #[trigger] moved(before[n]);
            assert(moved(events[n]));
        } else {
            assert(moved(events[events.len() - 1]));
        }
    }
}

/// An item that the trash took is never left to the kernel to delete as well.
pub proof fn law_moved_is_success(s: TrapStep, e: TrapEvent, remove_dir: bool)
    requires
        (s is Pin && e == TrapEvent::Pinned(Decision::Trashed)) || (s is Trash && e
            == TrapEvent::Tried(Trial::Trashed)),
    ensures
        trap_after(s, e, remove_dir) == TrapStep::Respond(Answer::Success),
{
}

/// A directory is moved only for a call that removes directories, and only when it was
/// found to be empty.
pub proof fn law_only_empty_dirs(events: Seq<TrapEvent>)
    requires
        trap_run(events, true) is Trash,
    ensures
        events.len() > 0,
        events.last() == TrapEvent::Inside(true),
{
}

/// The final part of a trapped path, and what leads to it.
#[derive(Debug)]
pub struct Target {
    /// The directories before the name; from the root where the path is absolute.
    pub prefix: Vec<u8>,
    pub name: Vec<u8>,
    /// The path ends in a separator, so that it can only mean a directory.
    pub trailing: bool,
}

/// A path without the separators at its end; one is kept where there is nothing else.
pub open spec fn end_stripped(p: Seq<u8>) -> Seq<u8>
    decreases p.len(),
{
    if p.len() > 1 && p.last() == 47u8 {
        end_stripped(p.drop_last())
    } else {
        p
    }
}

/// How many bytes of a path stand up to and with its last separator.
pub open spec fn upto_last_sep(p: Seq<u8>) -> int
    decreases p.len(),
{
    if p.len() == 0 {
        0
    } else if p.last() == 47u8 {
        p.len() as int
    } else {
        upto_last_sep(p.drop_last())
    }
}

pub open spec fn target_name(p: Seq<u8>) -> Seq<u8> {
    let s = end_stripped(p);
    s.skip(upto_last_sep(s))
}

pub open spec fn target_prefix(p: Seq<u8>) -> Seq<u8> {
    let s = end_stripped(p);
    s.subrange(if absolute(p) {
        1
    } else {
        0
    }, upto_last_sep(s))
}

/// A path names something that can be moved: not the root, and not by `.` or `..`.
pub open spec fn has_target(p: Seq<u8>) -> bool {
    p.len() > 0 && end_stripped(p) != root() && target_name(p) != dot() && target_name(p)
        != dotdot()
}

proof fn lemma_end_stripped(p: Seq<u8>, n: int)
    requires
        0 <= n <= p.len(),
        n > 0 || p.len() == 0,
        forall|k: int| n <= k < p.len() ==> p[k] == 47u8,
        n <= 1 || p[n - 1] != 47u8,
    ensures
        end_stripped(p) == p.take(n),
    decreases p.len(),
{
    if n < p.len() {
        assert(p.drop_last().take(n) =~= p.take(n));
        lemma_end_stripped(p.drop_last(), n);
    } else {
        assert(p.take(n) =~= p);
    }
}

proof fn lemma_upto_last_sep(p: Seq<u8>, n: int)
    requires
        0 <= n <= p.len(),
        forall|k: int| n <= k < p.len() ==> p[k] != 47u8,
        n == 0 || p[n - 1] == 47u8,
    ensures
        upto_last_sep(p) == n,
    decreases p.len(),
{
    if n < p.len() {
        lemma_upto_last_sep(p.drop_last(), n);
    }
}

/// The final part of a trapped path and what leads to it, where the path names
/// something that can be moved.
pub fn split_target(p: &[u8]) -> (r: Option<Target>)
    ensures
        match r {
            Some(t) => has_target(p@) && t.name@ == target_name(p@) && t.prefix@ == target_prefix(
                p@,
            ) && t.trailing == (p@.last() == 47u8),
            None => !has_target(p@),
        },
{
    let n: usize = p.len();
    if n == 0 {
        return None;
    }
    let mut end: usize = n;
    while end > 1 && p[end - 1] == 47
        invariant
            n == p@.len(),
            0 < end <= n,
            forall|k: int| end <= k < n ==> p@[k] == 47u8,
        decreases end,
    {
        end -= 1;
    }
    proof {
        lemma_end_stripped(p@, end as int);
    }
    let ghost s = p@.take(end as int);
    if end == 1 && p[0] == 47 {
        assert(s =~= root());
        return None;
    }
    assert(end == 1 ==> s[0] != 47u8);
    let mut from: usize = end;
    while from > 0 && p[from - 1] != 47
        invariant
            n == p@.len(),
            0 <= from <= end <= n,
            forall|k: int| from <= k < end ==> p@[k] != 47u8,
        decreases from,
    {
        from -= 1;
    }
    proof {
        lemma_upto_last_sep(s, from as int);
    }
    let name = slice_subrange(p, from, end);
    assert(name@ =~= target_name(p@));
    assert(s[0] == p@[0]);
    assert(s != root()) by {
        if s == root() {
            assert(s.len() == 1 && s[0] == 47u8);
        }
    }
    let start: usize = if is_absolute(p) {
        1
    } else {
        0
    };
    let prefix = slice_subrange(p, start, from);
    assert(prefix@ =~= target_prefix(p@));
    let one: Vec<u8> = vec![46];
    let two: Vec<u8> = vec![46, 46];
    assert(one@ =~= dot());
    assert(two@ =~= dotdot());
    if seqs::same_run(name, one.as_slice()) || seqs::same_run(name, two.as_slice()) {
        return None;
    }
    Some(Target { prefix: to_vec(prefix), name: to_vec(name), trailing: p[n - 1] == 47 })
}

/// The prefix and the name of a path put together again are the path, but for the
/// separators at its end and, where it is absolute, the one at its start; and the name
/// is one part.
pub proof fn law_target_is_path(p: Seq<u8>)
    requires
        has_target(p),
    ensures
        end_stripped(p) == (if absolute(p) {
            root()
        } else {
            seq![]
        }) + target_prefix(p) + target_name(p),
        target_name(p).len() > 0,
        !target_name(p).contains(47u8),
{
    let s = end_stripped(p);
    lemma_stripped_shape(p);
    lemma_sep_shape(s);
    assert(s =~= (if absolute(p) {
        root()
    } else {
        seq![]
    }) + target_prefix(p) + target_name(p));
    if upto_last_sep(s) == s.len() {
        assert(s =~= root());
    }
}

proof fn lemma_stripped_shape(p: Seq<u8>)
    requires
        p.len() > 0,
    ensures
        0 < end_stripped(p).len() <= p.len(),
        end_stripped(p) == p.take(end_stripped(p).len() as int),
        end_stripped(p).last() == 47u8 ==> end_stripped(p).len() == 1,
    decreases p.len(),
{
    if p.len() > 1 && p.last() == 47u8 {
        lemma_stripped_shape(p.drop_last());
        let s = end_stripped(p.drop_last());
        assert(p.drop_last().take(s.len() as int) =~= p.take(s.len() as int));
    } else {
        assert(p.take(p.len() as int) =~= p);
    }
}

proof fn lemma_sep_shape(s: Seq<u8>)
    ensures
        0 <= upto_last_sep(s) <= s.len(),
        upto_last_sep(s) > 0 ==> s[upto_last_sep(s) - 1] == 47u8,
        forall|k: int| upto_last_sep(s) <= k < s.len() ==> s[k] != 47u8,
        s.len() > 0 && s[0] == 47u8 ==> upto_last_sep(s) > 0,
    decreases s.len(),
{
    if s.len() > 0 && s.last() != 47u8 {
        lemma_sep_shape(s.drop_last());
        assert forall|k: int| upto_last_sep(s) <= k < s.len() implies s[k] != 47u8 by {
            if k < s.len() - 1 {
                assert(s.drop_last()[k] == s[k]);
            }
        }
    }
}

/// What is done next to handle a call through held directories.
#[derive(Debug, Clone, Copy, PartialEq, Eq, Structural)]
pub enum PinStep {
    /// Hold the caller.
    Open,
    /// Ask whether the call still waits, so that the held process is its caller.
    CheckId,
    /// Hold the directory that the path starts from.
    HoldBase,
    /// Walk the prefix from there in one step.
    Walk,
    /// Look at the item, without following a link.
    Look,
    /// Look into the directory.
    LookInside,
    /// Move the item to the trash.
    Move,
    Done(Decision),
}

/// What came of a step.
#[derive(Debug, Clone, Copy, PartialEq, Eq, Structural)]
pub enum PinEvent {
    Yes,
    No,
    /// The directory that the path starts from is held, or is no directory.
    Held(bool),
    Found(Kind),
    /// Whether the directory is empty.
    Inside(bool),
    Tried(Trial),
    Failed,
}

/// What the call and its path ask for.
#[derive(Debug, Clone, Copy, PartialEq, Eq, Structural)]
pub struct Asked {
    /// The path names something that can be moved.
    pub named: bool,
    /// There are directories to walk before the name.
    pub walk: bool,
    /// The path ends in a separator.
    pub trailing: bool,
    /// The call removes a directory.
    pub remove_dir: bool,
}

/// What a call asks for, from its path.
pub fn asked(target: &Option<Target>, remove_dir: bool) -> (r: Asked)
    ensures
        r.remove_dir == remove_dir,
        match *target {
            Some(t) => r.named && r.trailing == t.trailing && r.walk == (t.prefix@.len() > 0
                && t.prefix@ != root()),
            None => !r.named && !r.trailing && !r.walk,
        },
{
    match target {
        Some(t) => {
            let n: usize = t.prefix.len();
            proof {
                if n == 1 && t.prefix@[0] == 47u8 {
                    assert(t.prefix@ =~= root());
                }
            }
            let walk: bool = n > 0 && !(n == 1 && t.prefix[0] == 47);
            Asked { named: true, walk, trailing: t.trailing, remove_dir }
        },
        None => Asked { named: false, walk: false, trailing: false, remove_dir },
    }
}

/// What is done with an item of a kind.
pub open spec fn pin_found(k: Kind, q: Asked) -> PinStep {
    if q.remove_dir {
        if k is Dir {
            PinStep::LookInside
        } else {
            PinStep::Done(Decision::Errno(ENOTDIR))
        }
    } else if k is Dir {
        PinStep::Done(Decision::Errno(EISDIR))
    } else if q.trailing {
        PinStep::Done(Decision::Errno(ENOTDIR))
    } else {
        PinStep::Move
    }
}

/// What is done after a step. What cannot be done falls back to the path; an item that
/// cannot be found to be empty is left to the kernel, and so is one that is excluded or
/// that the trash refuses, since a call is never blocked.
pub open spec fn pin_after(s: PinStep, e: PinEvent, q: Asked) -> PinStep {
    match (s, e) {
        (PinStep::Done(d), _) => PinStep::Done(d),
        (PinStep::Open, PinEvent::Yes) => PinStep::CheckId,
        (PinStep::CheckId, PinEvent::Yes) => if q.named {
            PinStep::HoldBase
        } else {
            PinStep::Done(Decision::Continue)
        },
        (PinStep::CheckId, _) => PinStep::Done(Decision::Continue),
        (PinStep::HoldBase, PinEvent::Held(dir)) => if !dir {
            PinStep::Done(Decision::Errno(ENOTDIR))
        } else if q.walk {
            PinStep::Walk
        } else {
            PinStep::Look
        },
        (PinStep::Walk, PinEvent::Yes) => PinStep::Look,
        (PinStep::Look, PinEvent::Found(k)) => pin_found(k, q),
        (PinStep::LookInside, PinEvent::Inside(empty)) => if empty {
            PinStep::Move
        } else {
            PinStep::Done(Decision::Errno(ENOTEMPTY))
        },
        (PinStep::LookInside, _) => PinStep::Done(Decision::Continue),
        (PinStep::Move, PinEvent::Tried(Trial::Trashed)) => PinStep::Done(Decision::Trashed),
        (PinStep::Move, PinEvent::Tried(Trial::Excluded)) => PinStep::Done(Decision::Continue),
        (PinStep::Move, PinEvent::Tried(Trial::Refused)) => PinStep::Done(Decision::Continue),
        _ => PinStep::Done(Decision::FallBack),
    }
}

/// What is done after a step.
pub fn next_pin(s: PinStep, e: PinEvent, q: Asked) -> (r: PinStep)
    ensures
        r == pin_after(s, e, q),
{
    match (s, e) {
        (PinStep::Done(d), _) => PinStep::Done(d),
        (PinStep::Open, PinEvent::Yes) => PinStep::CheckId,
        (PinStep::CheckId, PinEvent::Yes) => {
            if q.named {
                PinStep::HoldBase
            } else {
                PinStep::Done(Decision::Continue)
            }
        },
        (PinStep::CheckId, _) => PinStep::Done(Decision::Continue),
        (PinStep::HoldBase, PinEvent::Held(dir)) => {
            if !dir {
                PinStep::Done(Decision::Errno(ENOTDIR))
            } else if q.walk {
                PinStep::Walk
            } else {
                PinStep::Look
            }
        },
        (PinStep::Walk, PinEvent::Yes) => PinStep::Look,
        (PinStep::Look, PinEvent::Found(k)) => {
            let dir: bool = matches!(k, Kind::Dir);
            if q.remove_dir && dir {
                PinStep::LookInside
            } else if q.remove_dir {
                PinStep::Done(Decision::Errno(ENOTDIR))
            } else if dir {
                PinStep::Done(Decision::Errno(EISDIR))
            } else if q.trailing {
                PinStep::Done(Decision::Errno(ENOTDIR))
            } else {
                PinStep::Move
            }
        },
        (PinStep::LookInside, PinEvent::Inside(empty)) => {
            if empty {
                PinStep::Move
            } else {
                PinStep::Done(Decision::Errno(ENOTEMPTY))
            }
        },
        (PinStep::LookInside, _) => PinStep::Done(Decision::Continue),
        (PinStep::Move, PinEvent::Tried(t)) => match t {
            Trial::Trashed => PinStep::Done(Decision::Trashed),
            Trial::Excluded => PinStep::Done(Decision::Continue),
            Trial::Refused => PinStep::Done(Decision::Continue),
            Trial::TooLarge => PinStep::Done(Decision::FallBack),
            Trial::Failed => PinStep::Done(Decision::FallBack),
        },
        _ => PinStep::Done(Decision::FallBack),
    }
}

/// The step after what has happened so far.
pub open spec fn pin_run(events: Seq<PinEvent>, q: Asked) -> PinStep
    decreases events.len(),
{
    if events.len() == 0 {
        PinStep::Open
    } else {
        pin_after(pin_run(events.drop_last(), q), events.last(), q)
    }
}

pub open spec fn pin_left(s: PinStep) -> nat {
    match s {
        PinStep::Open => 7,
        PinStep::CheckId => 6,
        PinStep::HoldBase => 5,
        PinStep::Walk => 4,
        PinStep::Look => 3,
        PinStep::LookInside => 2,
        PinStep::Move => 1,
        PinStep::Done(_) => 0,
    }
}

proof fn lemma_pin_left(events: Seq<PinEvent>, q: Asked)
    ensures
        pin_left(pin_run(events, q)) <= if events.len() <= 7 {
            7 - events.len()
        } else {
            0
        },
    decreases events.len(),
{
    if events.len() > 0 {
        lemma_pin_left(events.drop_last(), q);
    }
}

/// The handling through held directories comes to a decision after seven steps at most.
pub proof fn law_pin_decides(events: Seq<PinEvent>, q: Asked)
    requires
        events.len() >= 7,
    ensures
        pin_run(events, q) is Done,
{
    lemma_pin_left(events, q);
}

/// An item is decided to be in the trash only where it was moved there.
pub proof fn law_pin_trashed_means_moved(events: Seq<PinEvent>, q: Asked)
    ensures
        pin_run(events, q) == PinStep::Done(Decision::Trashed) ==> events.contains(
            PinEvent::Tried(Trial::Trashed),
        ),
    decreases events.len(),
{
    if events.len() > 0 && pin_run(events, q) == PinStep::Done(Decision::Trashed) {
        let before = events.drop_last();
        law_pin_trashed_means_moved(before, q);
        let wanted = PinEvent::Tried(Trial::Trashed);
        if pin_run(before, q) == PinStep::Done(Decision::Trashed) {
            let n = choose|n: int| 0 <= n < before.len() && before[n] == wanted;
            assert(events[n] == wanted);
        } else {
            assert(events[events.len() - 1] == wanted);
        }
    }
}

/// Who waits for trapped calls.
#[derive(Debug, Clone, Copy, PartialEq, Eq, Structural)]
pub enum Waiter {
    Supervisor,
    /// What stands in for the supervisor where there is no trash to move to.
    Standin,
    /// The watchdog, while it clears what waits.
    Drain,
    /// The watchdog, in the place of a supervisor that cannot be started.
    Passthrough,
}

/// What is done where no trapped call could be received.
#[derive(Debug, Clone, Copy, PartialEq, Eq, Structural)]
pub enum AfterFailure {
    Again,
    /// Report the error, and wait for the next call.
    Report,
    /// Wait until a call is there.
    Wait,
    Stop,
}

/// What is done where no trapped call could be received, by the error.
pub fn after_failure(w: Waiter, errno: i32) -> (r: AfterFailure)
    ensures
        r == (match w {
            Waiter::Drain => AfterFailure::Stop,
            Waiter::Supervisor => if errno == ENOENT {
                AfterFailure::Again
            } else if errno == EBADF {
                AfterFailure::Stop
            } else {
                AfterFailure::Report
            },
            Waiter::Standin => if errno == EBADF {
                AfterFailure::Stop
            } else {
                AfterFailure::Again
            },
            Waiter::Passthrough => if errno == EBADF {
                AfterFailure::Stop
            } else if errno == EAGAIN {
                AfterFailure::Wait
            } else {
                AfterFailure::Again
            },
        }),
{
    match w {
        Waiter::Drain => AfterFailure::Stop,
        Waiter::Supervisor => {
            if errno == ENOENT {
                AfterFailure::Again
            } else if errno == EBADF {
                AfterFailure::Stop
            } else {
                AfterFailure::Report
            }
        },
        Waiter::Standin => {
            if errno == EBADF {
                AfterFailure::Stop
            } else {
                AfterFailure::Again
            }
        },
        Waiter::Passthrough => {
            if errno == EBADF {
                AfterFailure::Stop
            } else if errno == EAGAIN {
                AfterFailure::Wait
            } else {
                AfterFailure::Again
            }
        },
    }
}

/// What the watchdog does next.
#[derive(Debug, Clone, Copy, PartialEq, Eq, Structural)]
pub enum WatchStep {
    /// Start a supervisor of its own.
    Fork,
    /// Wait for its end.
    Wait,
    /// Answer all that waits, so that the kernel runs it.
    Drain,
    /// Answer everything in the supervisor's place, for good.
    Passthrough,
}

/// What the watchdog does after a step that went well or not.
pub open spec fn watch_after(s: WatchStep, ok: bool) -> WatchStep {
    match s {
        WatchStep::Fork => if ok {
            WatchStep::Wait
        } else {
            WatchStep::Passthrough
        },
        WatchStep::Wait => WatchStep::Drain,
        WatchStep::Drain => WatchStep::Fork,
        WatchStep::Passthrough => WatchStep::Passthrough,
    }
}

/// What the watchdog does after a step that went well or not.
pub fn next_watch(s: WatchStep, ok: bool) -> (r: WatchStep)
    ensures
        r == watch_after(s, ok),
{
    match s {
        WatchStep::Fork => {
            if ok {
                WatchStep::Wait
            } else {
                WatchStep::Passthrough
            }
        },
        WatchStep::Wait => WatchStep::Drain,
        WatchStep::Drain => WatchStep::Fork,
        WatchStep::Passthrough => WatchStep::Passthrough,
    }
}

pub open spec fn watch_run(outcomes: Seq<bool>) -> WatchStep
    decreases outcomes.len(),
{
    if outcomes.len() == 0 {
        WatchStep::Fork
    } else {
        watch_after(watch_run(outcomes.drop_last()), outcomes.last())
    }
}

/// Where a supervisor has ended, what waits is answered before another is started; and
/// where none can be started, everything is answered from then on.
pub proof fn law_watchdog_fails_over(outcomes: Seq<bool>, ok: bool, after: bool)
    ensures
        watch_run(outcomes) is Wait ==> watch_run(outcomes.push(ok)) is Drain && watch_run(
            outcomes.push(ok).push(after),
        ) is Fork,
        watch_run(outcomes) is Fork ==> watch_run(outcomes.push(false)) is Passthrough,
        watch_run(outcomes) is Passthrough ==> watch_run(outcomes.push(ok)) is Passthrough,
{
    assert(outcomes.push(ok).drop_last() =~= outcomes);
    assert(outcomes.push(false).drop_last() =~= outcomes);
    assert(outcomes.push(ok).push(after).drop_last() =~= outcomes.push(ok));
}

/// How a process ended, from the word that waiting for it gives.
#[derive(Debug, Clone, Copy, PartialEq, Eq, Structural)]
pub enum Ended {
    Exited(u8),
    Signaled(u8),
    Unknown,
}

pub open spec fn ended_of(status: u32) -> Ended {
    let low = status % 128;
    if low == 0 {
        Ended::Exited((status / 256 % 256) as u8)
    } else if low < 127 {
        Ended::Signaled(low as u8)
    } else {
        Ended::Unknown
    }
}

/// How a process ended.
pub fn ended(status: u32) -> (r: Ended)
    ensures
        r == ended_of(status),
{
    let low: u32 = status % 128;
    if low == 0 {
        Ended::Exited((status / 256 % 256) as u8)
    } else if low < 127 {
        Ended::Signaled(low as u8)
    } else {
        Ended::Unknown
    }
}

/// The code with which the end of a process is passed on: its own, or 128 and the
/// signal that killed it.
pub fn exit_code(status: u32) -> (r: u8)
    ensures
        r == (match ended_of(status) {
            Ended::Exited(c) => c as int,
            Ended::Signaled(s) => 128 + s,
            Ended::Unknown => 1,
        }),
{
    match ended(status) {
        Ended::Exited(c) => c,
        Ended::Signaled(s) => 128 + s,
        Ended::Unknown => 1,
    }
}

/// The step that a call is at after some steps through held directories, from what comes of
/// each step.
pub open spec fn pin_course(comes: spec_fn(PinStep) -> PinEvent, q: Asked, n: nat) -> PinStep
    decreases n,
{
    if n == 0 {
        PinStep::Open
    } else {
        let s = pin_course(comes, q, (n - 1) as nat);
        pin_after(s, comes(s), q)
    }
}

/// The caller is held and still waits, the path names something, and what leads to it is
/// held too.
pub open spec fn pin_reached(comes: spec_fn(PinStep) -> PinEvent, q: Asked) -> bool {
    &&& comes(PinStep::Open) == PinEvent::Yes
    &&& comes(PinStep::CheckId) == PinEvent::Yes
    &&& q.named
    &&& comes(PinStep::HoldBase) == PinEvent::Held(true)
    &&& q.walk ==> comes(PinStep::Walk) == PinEvent::Yes
}

/// The item is of a kind that the call removes: a directory that is empty, for a call that
/// removes directories, and for any other call whatever is no directory and is not named as
/// one.
pub open spec fn pin_fits(comes: spec_fn(PinStep) -> PinEvent, q: Asked) -> bool {
    comes(PinStep::Look) matches PinEvent::Found(k) && (if q.remove_dir {
        k == Kind::Dir && comes(PinStep::LookInside) == PinEvent::Inside(true)
    } else {
        k != Kind::Dir && !q.trailing
    })
}

/// What becomes of a call that is handled through held directories. The item is in the
/// trash exactly where it was reached, is of a kind that the call removes, whichever of
/// those it is, and the trash took it. The kernel runs the call where the caller is gone,
/// nothing is named, a directory could not be looked into, or the trash does not take the
/// item by the settings or because it is part of it. The call fails where what the kernel
/// would find wrong with it was found. In every other case the call is handled by its path.
pub proof fn law_pin_decision(comes: spec_fn(PinStep) -> PinEvent, q: Asked)
    ensures
        pin_course(comes, q, 7) is Done,
        pin_course(comes, q, 7) == PinStep::Done(Decision::Trashed) <==> pin_reached(comes, q)
            && pin_fits(comes, q) && comes(PinStep::Move) == PinEvent::Tried(Trial::Trashed),
        pin_course(comes, q, 7) == PinStep::Done(Decision::Continue) <==> comes(PinStep::Open)
            == PinEvent::Yes && (comes(PinStep::CheckId) != PinEvent::Yes || !q.named || (pin_reached(
            comes,
            q,
        ) && q.remove_dir && comes(PinStep::Look) == PinEvent::Found(Kind::Dir) && !(comes(
            PinStep::LookInside,
        ) is Inside)) || (pin_reached(comes, q) && pin_fits(comes, q) && (comes(PinStep::Move)
            == PinEvent::Tried(Trial::Excluded) || comes(PinStep::Move) == PinEvent::Tried(
            Trial::Refused,
        )))),
        pin_course(comes, q, 7) == PinStep::Done(Decision::Errno(20)) <==> {
            ||| comes(PinStep::Open) == PinEvent::Yes && comes(PinStep::CheckId) == PinEvent::Yes
                && q.named && comes(PinStep::HoldBase) == PinEvent::Held(false)
            ||| pin_reached(comes, q) && (comes(PinStep::Look) matches PinEvent::Found(k) && k
                != Kind::Dir && (q.remove_dir || q.trailing))
        },
        pin_course(comes, q, 7) == PinStep::Done(Decision::Errno(21)) <==> pin_reached(comes, q)
            && !q.remove_dir && comes(PinStep::Look) == PinEvent::Found(Kind::Dir),
        pin_course(comes, q, 7) == PinStep::Done(Decision::Errno(39)) <==> pin_reached(comes, q)
            && q.remove_dir && comes(PinStep::Look) == PinEvent::Found(Kind::Dir) && comes(
            PinStep::LookInside,
        ) == PinEvent::Inside(false),
        pin_course(comes, q, 7) matches PinStep::Done(Decision::Errno(n)) ==> n == 20 || n == 21 || n
            == 39,
{
    reveal_with_fuel(pin_course, 8);
}

/// What was decided stays decided.
pub proof fn law_pin_stays(d: Decision, e: PinEvent, q: Asked)
    ensures
        pin_after(PinStep::Done(d), e, q) == PinStep::Done(d),
{
}

/// The step that a trapped call is at after some steps, from what comes of each step.
pub open spec fn trap_course(comes: spec_fn(TrapStep) -> TrapEvent, remove_dir: bool, n: nat) -> TrapStep
    decreases n,
{
    if n == 0 {
        TrapStep::ReadPath
    } else {
        let s = trap_course(comes, remove_dir, (n - 1) as nat);
        trap_after(s, comes(s), remove_dir)
    }
}

/// The path of a call was read, the call still waits, and neither the caller nor the path
/// is one that the trash is not for.
pub open spec fn trap_taken_up(comes: spec_fn(TrapStep) -> TrapEvent) -> bool {
    &&& comes(TrapStep::ReadPath) == TrapEvent::Yes
    &&& comes(TrapStep::CheckId) == TrapEvent::Yes
    &&& comes(TrapStep::CheckBypass) == TrapEvent::No
    &&& comes(TrapStep::CheckSkip) == TrapEvent::No
}

/// A call is handled by its path, because it could not be through held directories.
pub open spec fn trap_by_path(comes: spec_fn(TrapStep) -> TrapEvent) -> bool {
    trap_taken_up(comes) && (comes(TrapStep::Pin) == TrapEvent::Failed || comes(TrapStep::Pin)
        == TrapEvent::Pinned(Decision::FallBack))
}

/// What a trapped call is answered. It succeeds exactly where its item was moved to the
/// trash: through held directories, or by its path, where the item is a directory found
/// empty for a call that removes directories, and whatever is no directory for any other.
/// It fails where what the kernel would find wrong with it was found. In every other case
/// the kernel runs it.
pub proof fn law_trap_answer(comes: spec_fn(TrapStep) -> TrapEvent, remove_dir: bool)
    ensures
        trap_course(comes, remove_dir, 8) is Respond,
        trap_course(comes, remove_dir, 8) == TrapStep::Respond(Answer::Success) <==> {
            ||| trap_taken_up(comes) && comes(TrapStep::Pin) == TrapEvent::Pinned(Decision::Trashed)
            ||| trap_by_path(comes) && comes(TrapStep::Trash) == TrapEvent::Tried(Trial::Trashed) && (
            comes(TrapStep::Look) matches TrapEvent::Found(k) && (if remove_dir {
                k == Kind::Dir && comes(TrapStep::LookInside) == TrapEvent::Inside(true)
            } else {
                k != Kind::Dir
            }))
        },
        trap_taken_up(comes) ==> (comes(TrapStep::Pin) matches TrapEvent::Pinned(Decision::Errno(n))
            ==> trap_course(comes, remove_dir, 8) == TrapStep::Respond(Answer::Errno(n))),
        trap_by_path(comes) && remove_dir ==> (comes(TrapStep::Look) matches TrapEvent::Found(k) ==> k
            != Kind::Dir ==> trap_course(comes, remove_dir, 8) == TrapStep::Respond(
            Answer::Errno(20),
        )),
        trap_by_path(comes) && !remove_dir && comes(TrapStep::Look) == TrapEvent::Found(Kind::Dir)
            ==> trap_course(comes, remove_dir, 8) == TrapStep::Respond(Answer::Errno(21)),
        trap_by_path(comes) && remove_dir && comes(TrapStep::Look) == TrapEvent::Found(Kind::Dir)
            && comes(TrapStep::LookInside) == TrapEvent::Inside(false) ==> trap_course(
            comes,
            remove_dir,
            8,
        ) == TrapStep::Respond(Answer::Errno(39)),
        trap_course(comes, remove_dir, 8) is Respond && !(trap_course(comes, remove_dir, 8)
            == TrapStep::Respond(Answer::Success)) && !(trap_course(comes, remove_dir, 8)
            == TrapStep::Respond(Answer::Continue)) ==> {
            ||| trap_taken_up(comes) && comes(TrapStep::Pin) matches TrapEvent::Pinned(
                Decision::Errno(n),
            )
            ||| trap_by_path(comes) && (comes(TrapStep::Look) matches TrapEvent::Found(k) && (k
                == Kind::Dir && !remove_dir || k != Kind::Dir && remove_dir || k == Kind::Dir && comes(
                TrapStep::LookInside,
            ) == TrapEvent::Inside(false)))
        },
{
    reveal_with_fuel(trap_course, 9);
}

/// What was answered stays answered.
pub proof fn law_answer_stays(a: Answer, e: TrapEvent, remove_dir: bool)
    ensures
        trap_after(TrapStep::Respond(a), e, remove_dir) == TrapStep::Respond(a),
{
}

/// A call removes a directory where it is `rmdir`, and where it is `unlinkat` with the bit
/// for it, whatever other bits there are; `unlink` never does.
pub proof fn law_removes_dir(data: SeccompData)
    ensures
        removes_dir(Arch::X86_64, data) <==> data.nr == 84 || (data.nr == 263 && data.args[2]
            & 0x200u64 != 0),
        removes_dir(Arch::Aarch64, data) <==> data.nr == 35 && data.args[2] & 0x200u64 != 0,
{
}

/// A path starts from the root exactly where it begins with a separator, from a directory
/// that the caller holds open where the call names one, and else from where the caller is.
pub proof fn law_base(p: Seq<u8>, dirfd: Option<i32>)
    ensures
        base_of(p, dirfd) == Base::Root <==> p.len() > 0 && p[0] == 47u8,
        base_of(p, dirfd) is Dir <==> !(p.len() > 0 && p[0] == 47u8) && dirfd is Some && dirfd
            != Some(-100i32),
        base_of(p, dirfd) matches Base::Dir(fd) ==> dirfd == Some(fd),
{
}

/// An environment turns the trash off exactly where `TRASH_BYPASS=1` stands in it as a
/// whole entry: from its start or behind a zero, up to a zero or its end.
pub proof fn law_environ_bypasses(env: Seq<u8>)
    ensures
        entries_from(env, 0).contains(bypass_entry()) <==> has_entry(
            env,
            seq![84u8, 82, 65, 83, 72, 95, 66, 89, 80, 65, 83, 83, 61, 49],
        ),
{
    let e = seq![84u8, 82, 65, 83, 72, 95, 66, 89, 80, 65, 83, 83, 61, 49];
    assert(bypass_entry() =~= e);
    assert forall|k: int| 0 <= k < e.len() implies e[k] != 0u8 by {}
    lemma_entries(env, 0, e);
    if exists|i: int| #[trigger] entry_at(env, i, e) {
        let i = choose|i: int| #[trigger] entry_at(env, i, e);
        assert(0 <= i);
    }
}

/// A run of bytes is a whole entry of an environment at a place.
pub open spec fn entry_at(env: Seq<u8>, i: int, e: Seq<u8>) -> bool {
    &&& 0 <= i && i + e.len() <= env.len()
    &&& env.subrange(i, i + e.len()) == e
    &&& i == 0 || env[i - 1] == 0u8
    &&& i + e.len() == env.len() || env[i + e.len()] == 0u8
}

/// A run of bytes is a whole entry of an environment, wherever it stands.
pub open spec fn has_entry(env: Seq<u8>, e: Seq<u8>) -> bool {
    exists|i: int| #[trigger] entry_at(env, i, e)
}

proof fn lemma_entries(env: Seq<u8>, i: int, e: Seq<u8>)
    requires
        0 <= i <= env.len(),
        i == 0 || env[i - 1] == 0u8,
        e.len() > 0,
        forall|k: int| 0 <= k < e.len() ==> e[k] != 0u8,
    ensures
        entries_from(env, i).contains(e) <==> exists|j: int| i <= j && #[trigger] entry_at(env, j, e),
    decreases env.len() - i,
{
    if i < env.len() {
        lemma_find_from(env, 0u8, i);
        let n = find_from(env, 0u8, i);
        let first = env.subrange(i, n);
        if n >= env.len() {
            assert(first =~= env.skip(i));
        } else {
            lemma_entries(env, n + 1, e);
        }
        let rest = if n < env.len() {
            entries_from(env, n + 1)
        } else {
            seq![]
        };
        let all = entries_from(env, i);
        assert(all =~= seq![first] + rest);
        if all.contains(e) {
            let k = choose|k: int| 0 <= k < all.len() && all[k] == e;
            if k == 0 {
                assert(entry_at(env, i, e));
            } else {
                assert(rest[k - 1] == e);
                assert(rest.contains(e));
            }
        }
        if exists|j: int| i <= j && #[trigger] entry_at(env, j, e) {
            let j = choose|j: int| i <= j && #[trigger] entry_at(env, j, e);
            assert forall|k: int| j <= k < j + e.len() implies env[k] != 0u8 by {
                assert(env.subrange(j, j + e.len())[k - j] == e[k - j]);
            }
            if j == i {
                assert(n == i + e.len());
                assert(all[0] == e);
            } else {
                assert(env[j - 1] == 0u8);
                assert(n <= j - 1);
                assert(rest.contains(e));
                let k = choose|k: int| 0 <= k < rest.len() && rest[k] == e;
                assert(all[k + 1] == e);
            }
        }
    }
}

/// The name of a trapped path is what stands behind its last separator, once those at its
/// end are taken away; a path that is named by it and can be moved is neither the root nor
/// `.` nor `..`.
pub proof fn law_target_named(prefix: Seq<u8>, name: Seq<u8>, seps: nat)
    requires
        name.len() > 0,
        !name.contains(47u8),
        prefix.len() == 0 || prefix.last() == 47u8,
    ensures
        ({
            let p = prefix + name + Seq::new(seps, |i: int| 47u8);
            &&& target_name(p) == name
            &&& has_target(p) <==> name != seq![46u8] && name != seq![46u8, 46u8]
        }),
{
    let body = prefix + name;
    let p = body + Seq::new(seps, |i: int| 47u8);
    assert forall|k: int| 0 <= k < name.len() implies name[k] != 47u8 by {
        assert(name.contains(name[k]));
    }
    let n = body.len() as int;
    assert(body[n - 1] == name.last());
    lemma_end_stripped(p, n);
    assert(p.take(n) =~= body);
    lemma_upto_last_sep(body, prefix.len() as int);
    assert(body.skip(prefix.len() as int) =~= name);
    assert(body != root()) by {
        if body == root() {
            assert(body.last() == 47u8);
        }
    }
    assert(dot() =~= seq![46u8]);
    assert(dotdot() =~= seq![46u8, 46u8]);
}

/// A path of separators alone, and the empty path, name nothing.
pub proof fn law_root_has_no_target(seps: nat)
    ensures
        !has_target(Seq::new(seps, |i: int| 47u8)),
{
    let p = Seq::new(seps, |i: int| 47u8);
    if seps > 0 {
        lemma_end_stripped(p, 1);
        assert(p.take(1) =~= root());
    }
}

/// The watchdog waits for a supervisor that it could start, and starts another once what
/// waited was answered.
pub proof fn law_watchdog_starts_again(outcomes: Seq<bool>, ok: bool)
    ensures
        watch_run(seq![]) is Fork,
        watch_run(outcomes) is Fork ==> watch_run(outcomes.push(true)) is Wait,
        watch_run(outcomes) is Drain ==> watch_run(outcomes.push(ok)) is Fork,
{
    assert(outcomes.push(ok).drop_last() =~= outcomes);
    assert(outcomes.push(true).drop_last() =~= outcomes);
}

/// The word of a process that exited holds its code above a zero byte, and the word of one
/// that was killed holds the signal in its lowest bits, with or without the bit that tells
/// of a dump.
pub proof fn law_ended(code: u8, signal: u8, dumped: bool)
    requires
        0 < signal < 127,
    ensures
        ended_of((code as int * 256) as u32) == Ended::Exited(code),
        ended_of((signal + (if dumped {
            128int
        } else {
            0int
        })) as u32) == Ended::Signaled(signal),
{
}

/// An attempt with an error did not end well, and the errors of the settings, of the trash
/// itself and of the limits are told apart from any other.
pub proof fn law_trials_told_apart(e: TrashError, r: Trial)
    requires
        call_ensures(trial_of, (Some(&e),), r),
    ensures
        r != Trial::Trashed,
        (r == Trial::Excluded) == (e is Excluded),
        (r == Trial::Refused) == (e is Refused),
        (r == Trial::TooLarge) == (e is TooLarge),
{
}

/// The answers that the kernel reads differ: only one has it run the call, and only one
/// makes the call fail, with the error that was told.
pub proof fn law_responses(id: u64, a: Answer, r: SeccompNotifResp)
    requires
        a matches Answer::Errno(e) ==> e > 0,
        call_ensures(response, (id, a), r),
    ensures
        r.id == id,
        r.val == 0,
        (r.flags == 1) == (a is Continue),
        r.flags == 1 || r.flags == 0,
        (r.error != 0) == (a is Errno),
        a matches Answer::Errno(e) ==> r.error + e == 0,
{
}

/// Where no trapped call could be received because the descriptor is closed, every waiter
/// stops; a supervisor goes on after any other error, silently where the caller is gone;
/// and the watchdog stops clearing at the first.
pub proof fn law_after_failure(w: Waiter, errno: i32, r: AfterFailure)
    requires
        call_ensures(after_failure, (w, errno), r),
    ensures
        r == AfterFailure::Stop <==> w == Waiter::Drain || errno == 9,
        r == AfterFailure::Report <==> w == Waiter::Supervisor && errno != 9 && errno != 2,
        r == AfterFailure::Wait <==> w == Waiter::Passthrough && errno == 11,
{
}

/// The code that is passed on is that of the program, or tells the signal that killed it.
pub proof fn law_exit_code(status: u32, r: u8)
    requires
        call_ensures(exit_code, (status,), r),
    ensures
        status % 128 == 0 ==> r == status / 256 % 256,
        0 < status % 128 < 127 ==> r == 128 + status % 128,
        status % 128 == 127 ==> r == 1,
{
}

/// A call keeps its path behind the descriptor of a directory where it is `unlinkat`, and
/// first where it is another.
pub proof fn law_path_argument(a: Arch, data: SeccompData, r: (Option<i32>, u64))
    requires
        call_ensures(path_argument, (a, &data), r),
    ensures
        (a == Arch::X86_64 && data.nr == 263) || (a == Arch::Aarch64 && data.nr == 35) ==> r == (
            Some(data.args[0] as i32),
            data.args[1],
        ),
        !((a == Arch::X86_64 && data.nr == 263) || (a == Arch::Aarch64 && data.nr == 35)) ==> r == (
            None::<i32>,
            data.args[0],
        ),
{
}

/// A path in memory holds no zero and is ended by one; none is found only where no zero is.
pub proof fn law_path_in_memory(read: &[u8], r: Option<Vec<u8>>)
    requires
        call_ensures(path_in_memory, (read,), r),
    ensures
        match r {
            Some(p) => !p@.contains(0u8) && p@.push(0u8).is_prefix_of(read@),
            None => !read@.contains(0u8),
        },
{
    lemma_find_from(read@, 0u8, 0);
    if let Some(p) = r {
        let n = find_from(read@, 0u8, 0);
        assert(p@.push(0u8) =~= read@.subrange(0, n + 1));
    }
}

} // verus!
