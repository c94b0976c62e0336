//! What follows for callers from how deletions inside a process are taken over.

use crate::config::{default_settings, extended_by, law_extended, LocalConfig};
use crate::intercept::{
    change_told, config_stamp, default_lists, hook_after, hook_info, in_trash, is_inside_trash, merged_lists, names_trash, recheck_due, should_intercept,
    should_skip_path, takes_over, HookStep, Lists, PartialPreloadConfig, PreloadConfig,
};
use crate::dates::Moment;
use crate::job::Kind;
use crate::path::{components, law_components, piece, spans, under};
use crate::text::texts;
use crate::trashinfo::TrashInfo;
use vstd::prelude::*;

verus! {

/// The step that is reached after `n` steps, where `goes_well` says which steps do.
pub open spec fn hook_course(k: Kind, goes_well: spec_fn(HookStep) -> bool, n: nat) -> HookStep
    decreases n,
{
    if n == 0 {
        HookStep::Recheck
    } else {
        let s = hook_course(k, goes_well, (n - 1) as nat);
        hook_after(s, k, goes_well(s))
    }
}

/// The item could be made again in the trash: a link, a pipe and a file each by its own
/// step, and nothing else at all.
pub open spec fn copied_in(k: Kind, goes_well: spec_fn(HookStep) -> bool) -> bool {
    ||| k is Symlink && goes_well(HookStep::CopyLink)
    ||| k is Fifo && goes_well(HookStep::MakeFifo)
    ||| k is File && goes_well(HookStep::CopyFile)
}

/// How a deletion that is taken over ends. It is taken where the path still leads to the
/// item, and the item is moved, or else is copied and then deleted. A copy that was begun of
/// a file, or a copy whose original stays, is thrown away with the record, and after
/// anything else the record alone.
pub proof fn law_hook_end(k: Kind, goes_well: spec_fn(HookStep) -> bool, n: nat)
    requires
        n >= 4,
    ensures
        hook_course(k, goes_well, n) is Taken <==> goes_well(HookStep::Recheck) && (goes_well(
            HookStep::Rename,
        ) || (copied_in(k, goes_well) && goes_well(HookStep::Unlink))),
        hook_course(k, goes_well, n) is DropBoth <==> goes_well(HookStep::Recheck) && !goes_well(
            HookStep::Rename,
        ) && (if copied_in(k, goes_well) {
            !goes_well(HookStep::Unlink)
        } else {
            k is File
        }),
        hook_course(k, goes_well, n) is DropRecord <==> !goes_well(HookStep::Recheck) || (
        !goes_well(HookStep::Rename) && !copied_in(k, goes_well) && !(k is File)),
    decreases n,
{
    if n > 4 {
        law_hook_end(k, goes_well, (n - 1) as nat);
    } else {
        reveal_with_fuel(hook_course, 5);
    }
}

/// What was decided stays decided.
pub proof fn law_hook_stays(s: HookStep, k: Kind, ok: bool)
    ensures
        s is Taken || s is DropRecord || s is DropBoth ==> hook_after(s, k, ok) == s,
{
}

/// The names of trash directories: `.Trash`, and `.Trash-` with one digit or more behind
/// it and nothing else.
pub proof fn law_trash_names(c: Seq<u8>)
    ensures
        names_trash(c) <==> {
            &&& c.len() >= 6
            &&& c[0] == 46 && c[1] == 84 && c[2] == 114 && c[3] == 97 && c[4] == 115 && c[5] == 104
            &&& c.len() > 6 ==> c.len() > 7 && c[6] == 45
            &&& forall|k: int| 7 <= k < c.len() ==> 48 <= #[trigger] c[k] <= 57
        },
{
    let t = seq![46u8, 84, 114, 97, 115, 104];
    if c.len() == 6 {
        if c[0] == 46 && c[1] == 84 && c[2] == 114 && c[3] == 97 && c[4] == 115 && c[5] == 104 {
            assert(c =~= t);
        }
    } else if c.len() > 7 {
        let s = c.skip(7);
        assert forall|k: int| 0 <= k < s.len() implies s[k] == c[k + 7] by {}
        if names_trash(c) {
            assert(c.take(7)[0] == c[0] && c.take(7)[1] == c[1] && c.take(7)[2] == c[2] && c.take(
                7,
            )[3] == c[3] && c.take(7)[4] == c[4] && c.take(7)[5] == c[5] && c.take(7)[6] == c[6]);
            assert forall|k: int| 7 <= k < c.len() implies 48 <= #[trigger] c[k] <= 57 by {
                assert(s[k - 7] == c[k]);
            }
        }
        if c[0] == 46 && c[1] == 84 && c[2] == 114 && c[3] == 97 && c[4] == 115 && c[5] == 104
            && c[6] == 45 {
            assert(c.take(7) =~= t.push(45u8));
        }
    }
}

/// What lies in a trash directory is left alone however deep it lies there: below the home
/// trash, and below every directory with the name of a trash of a filesystem. The directory
/// itself counts, and a name that only begins like one does not.
pub proof fn law_inside_trash(p: &[u8], home_trash: &[u8], r: bool)
    requires
        call_ensures(is_inside_trash, (p, home_trash), r),
    ensures
        under(p@, home_trash@) ==> r,
        forall|i: int, j: int|
            #![trigger piece(p@, i, j)]
            piece(p@, i, j) && names_trash(p@.subrange(i, j)) ==> r,
        r && !under(p@, home_trash@) ==> exists|i: int, j: int|
            #![trigger piece(p@, i, j)]
            piece(p@, i, j) && names_trash(p@.subrange(i, j)),
{
    let c = components(p@);
    law_components(p@);
    assert forall|i: int, j: int|
        #![trigger piece(p@, i, j)]
        piece(p@, i, j) && names_trash(p@.subrange(i, j)) implies r by {
        law_trash_names(p@.subrange(i, j));
        assert(c.contains(p@.subrange(i, j)));
        let k = choose|k: int| 0 <= k < c.len() && c[k] == p@.subrange(i, j);
        assert(names_trash(c[k]));
    }
    if r && !under(p@, home_trash@) {
        let k = choose|k: int| 0 <= k < c.len() && names_trash(#[trigger] c[k]);
        law_trash_names(c[k]);
        let s = spans(p@)[k];
        assert(c[k] == p@.subrange(s.0, s.1));
        assert(piece(p@, s.0, s.1));
    }
}

/// Whatever the settings say, nothing in a trash directory is taken over. Where they are
/// empty, everything else is.
pub proof fn law_skipped(
    p: &[u8],
    home_trash: &[u8],
    config: &PreloadConfig,
    local: Option<&LocalConfig>,
    r: bool,
)
    requires
        call_ensures(should_skip_path, (p, home_trash, config, local), r),
    ensures
        in_trash(p@, home_trash@) ==> r,
        config.never_trash@.len() == 0 && config.only_trash@.len() == 0 && local is None
            && !in_trash(p@, home_trash@) ==> !r,
{
}

/// A process takes over deletions unless one of the four reasons holds: it is at it
/// already, one of the two variables says `1`, or the parent's deletions are real.
pub proof fn law_intercepts(
    within: bool,
    bypass: Option<&[u8]>,
    supervised: Option<&[u8]>,
    parent_bypassed: bool,
    r: bool,
)
    requires
        call_ensures(should_intercept, (within, bypass, supervised, parent_bypassed), r),
    ensures
        within || parent_bypassed ==> !r,
        (bypass matches Some(b) && b@.len() == 1 && b@[0] == 49) ==> !r,
        (supervised matches Some(b) && b@.len() == 1 && b@[0] == 49) ==> !r,
        !within && !parent_bypassed && (bypass matches Some(b) ==> b@.len() != 1 || b@[0] != 49)
            && (supervised matches Some(b) ==> b@.len() != 1 || b@[0] != 49) ==> r,
{
    if let Some(b) = bypass {
        if b@.len() == 1 && b@[0] == 49 {
            assert(b@ =~= seq![49u8]);
        }
    }
    if let Some(b) = supervised {
        if b@.len() == 1 && b@[0] == 49 {
            assert(b@ =~= seq![49u8]);
        }
    }
}

/// A directory that holds something, or of which nothing is known, is never taken over, and
/// no call takes over what it could not remove itself.
pub proof fn law_taken_over(remove_dir: bool, kind: Kind, empty: Option<bool>, r: bool)
    requires
        call_ensures(takes_over, (remove_dir, kind, empty), r),
    ensures
        kind is Dir && !remove_dir ==> !r,
        kind is Dir && remove_dir ==> (r <==> empty == Some(true)),
        !(kind is Dir) ==> (r <==> !remove_dir),
{
}

/// The files of settings are looked at again once a minute has passed, and not before.
pub proof fn law_recheck(now: i64, last: i64, r: bool)
    requires
        i64::MIN <= now - last <= i64::MAX,
        call_ensures(recheck_due, (now, last), r),
    ensures
        r <==> now >= last + 60,
{
}

/// A change of settings is told once they were known, and only where they are others.
pub proof fn law_change_told(current: i64, known: i64, r: bool)
    requires
        call_ensures(change_told, (current, known), r),
    ensures
        known == 0 || current == known ==> !r,
        known != 0 && current != known ==> r,
{
}

/// The record of an item that was taken over: who took it, its size and its path, and
/// neither a hash nor a packed size.
pub proof fn law_hook_record(recorded: Vec<u8>, now: Moment, pid: u32, size: Option<u64>, r: TrashInfo)
    requires
        call_ensures(hook_info, (recorded, now, pid, size), r),
    ensures
        r@.original_path == recorded@,
        r@.deletion_date == now,
        r@.command == Some("preload"@),
        r@.pid == Some(pid),
        r@.size == size,
        r@.sha256 is None,
        r@.compressed is None,
{
}

/// A list of a file of settings holds an item.
pub open spec fn asks(list: Option<Vec<String>>, x: Seq<char>) -> bool {
    match list {
        Some(l) => texts(l@).contains(x),
        None => false,
    }
}

proof fn lemma_extended_by(base: Seq<Seq<char>>, extra: Option<Vec<String>>, x: Seq<char>)
    ensures
        extended_by(base, extra).contains(x) <==> base.contains(x) || asks(extra, x),
{
    if let Some(l) = extra {
        law_extended(base, texts(l@));
    }
}

/// The settings of a process with what a file says: an item counts that counted before or
/// that the file names, and of what alone is trashed the file's own list where it has one.
pub proof fn law_layered(l: Lists, p: PartialPreloadConfig, x: Seq<char>)
    ensures
        merged_lists(l, p).never_trash.contains(x) <==> l.never_trash.contains(x) || asks(
            p.never_trash,
            x,
        ),
        merged_lists(l, p).bypass_processes.contains(x) <==> l.bypass_processes.contains(x) || asks(
            p.bypass_processes,
            x,
        ),
        p.only_trash matches Some(o) ==> (merged_lists(l, p).only_trash.contains(x) <==> asks(
            p.only_trash,
            x,
        )) && merged_lists(l, p).only_trash.len() == o@.len(),
        p.only_trash is None ==> merged_lists(l, p).only_trash == l.only_trash,
{
    lemma_extended_by(l.never_trash, p.never_trash, x);
    lemma_extended_by(l.bypass_processes, p.bypass_processes, x);
}

/// A file of settings that is read is merged in, and the user's own comes after the one for
/// all: it is the user's list of what alone is trashed that counts, and what either names
/// is never trashed or never taken over.
pub proof fn law_loaded(
    global: Option<PartialPreloadConfig>,
    user: Option<PartialPreloadConfig>,
    x: Seq<char>,
    r: PreloadConfig,
)
    requires
        call_ensures(PreloadConfig::load, (global, user), r),
    ensures
        r@.never_trash.contains(x) <==> default_lists().never_trash.contains(x) || (
        global matches Some(g) && asks(g.never_trash, x)) || (user matches Some(u) && asks(
            u.never_trash,
            x,
        )),
        r@.bypass_processes.contains(x) <==> default_lists().bypass_processes.contains(x) || (
        global matches Some(g) && asks(g.bypass_processes, x)) || (user matches Some(u) && asks(
            u.bypass_processes,
            x,
        )),
        r@.only_trash == (match user {
            Some(PartialPreloadConfig { only_trash: Some(o), .. }) => texts(o@),
            _ => match global {
                Some(PartialPreloadConfig { only_trash: Some(o), .. }) => texts(o@),
                _ => seq![],
            },
        }),
{
    let d = default_lists();
    let one = match global {
        Some(g) => merged_lists(d, g),
        None => d,
    };
    if let Some(g) = global {
        law_layered(d, g, x);
    }
    if let Some(u) = user {
        law_layered(one, u, x);
    }
}

/// The processes that are never taken over where no file says more.
pub proof fn law_defaults()
    ensures
        default_lists().bypass_processes.len() == 15,
        default_lists().bypass_processes.contains("apt"@),
        default_lists().bypass_processes.contains("apt-get"@),
        default_lists().bypass_processes.contains("dpkg"@),
        default_lists().bypass_processes.contains("yum"@),
        default_lists().bypass_processes.contains("dnf"@),
        default_lists().bypass_processes.contains("pacman"@),
        default_lists().bypass_processes.contains("rpm"@),
        default_lists().bypass_processes.contains("pip"@),
        default_lists().bypass_processes.contains("cargo"@),
        default_lists().bypass_processes.contains("npm"@),
        default_lists().bypass_processes.contains("make"@),
        default_lists().bypass_processes.contains("git"@),
        default_lists().bypass_processes.contains("journald"@),
        default_lists().bypass_processes.contains("containerd"@),
        default_lists().bypass_processes.contains("dockerd"@),
        default_lists().only_trash.len() == 0,
        default_lists().never_trash == default_settings().never_trash,
{
    let b = default_lists().bypass_processes;
    assert(b[0] == "apt"@ && b[1] == "apt-get"@ && b[2] == "dpkg"@ && b[3] == "yum"@ && b[4]
        == "dnf"@ && b[5] == "pacman"@ && b[6] == "rpm"@ && b[7] == "pip"@);
    assert(b[8] == "cargo"@ && b[9] == "npm"@ && b[10] == "make"@ && b[11] == "git"@ && b[12]
        == "journald"@ && b[13] == "containerd"@ && b[14] == "dockerd"@);
}

/// A change of the user's file alone is seen: at one time of the file for all, the numbers
/// of two times of the user's file are as different as the times.
pub proof fn law_stamp(global: i64, one: i64, other: i64, a: i64, b: i64)
    requires
        call_ensures(config_stamp, (global, one), a),
        call_ensures(config_stamp, (global, other), b),
    ensures
        a == b <==> one == other,
        a ^ one == b ^ other,
        a ^ one == global.wrapping_mul(1_000_003),
{
    let g = global.wrapping_mul(1_000_003);
    assert((g ^ one == g ^ other) == (one == other)) by (bit_vector);
    assert((g ^ one) ^ one == g) by (bit_vector);
    assert((g ^ other) ^ other == g) by (bit_vector);
}

/// A file of settings that is taken in changes the lists as each list by itself says.
pub proof fn law_taken_in(c: &mut PreloadConfig, p: PartialPreloadConfig)
    requires
        call_ensures(PreloadConfig::merge, (c, p), ()),
    ensures
        final(c)@ == merged_lists(old(c)@, p),
{
}

} // verus!
