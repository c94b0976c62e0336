//! What is carried out is what the laws speak of: each function agrees with its model.

use crate::config::{any_matches, some_matches, Config};
use crate::dates::{choose_moment, chosen, LocalTime, Moment};
use crate::errors::TrashError;
use crate::filter::{build_filter, build_program, program, Arch, SockFilter, SockFprog};
use crate::glob::{glob, simple_glob_match};
use crate::intercept::{hook_after, next_hook, HookStep};
use crate::job::{
    accept_item, begins_with_one, exe_bypassed, hashed, meant_path, next_move, objection, path_to_record, recorded_path,
    resolve_recorded, step_after, touches, touches_trash, wants_hash, Facts, Kind, Meta, MoveStep,
};
use crate::monitor::{dir_place, dir_record, events_from, odd_version_from, parse_events, DirRecord, FanEvent};
use crate::mounts::{all_trash_dirs, place_views, places, MountTrash};
use crate::path::{
    components, file_name, has_parent_component, join, joined, lexical, name_of, normalize_lexically, parent, parent_of,
    path_eq, path_starts_with, strip_prefix, stripped,
};
use crate::process::{bypassed_from, display_name, is_parent_bypassed, parent_pid, parent_told, Ancestor};
use crate::report::{
    chosen_total, disk_label, disk_name, duration_days, next_pack, pack_after, parse_duration_days, reach_back,
    recorded_total, seconds_back, total_chosen, total_recorded, PackStep,
};
use crate::retention::{after_relief, after_trim, relieved, trimmed};
use crate::rm::{after, after_trash, command_text, for_real, places_from, real_arguments, recorded_command, search_places, AfterTrash, FileStep, Lookup, Order, Rm};
use crate::store::{
    data_path, destination, entries, find_entry, found, info_id, next_restore, path_of_data, path_of_record, record_path,
    restore_after, restore_destination, RestoreStep, StepOutcome, TrashEntry,
};
use crate::supervise::{
    base_for, base_of, ended, ended_of, environ_bypasses, has_entry, is_rmdir, law_environ_bypasses, next_pin, next_trap,
    next_watch, pin_after, removes_dir, trap_after, watch_after, Asked, Base, Ended, PinEvent, PinStep, SeccompData,
    TrapEvent, TrapStep, Trial, WatchStep,
};
use crate::text::{lossy, texts, views};
use crate::trashinfo::{decode_path, decoded_path};
use crate::update::{next_update, release_version, update_after, version_of, UpdateStep};
use vstd::prelude::*;

verus! {

/// The steps of a trapped call, of looking at its target and of the watchdog are those of
/// their tables.
pub proof fn law_supervisor_steps(
    t: TrapStep,
    te: TrapEvent,
    remove_dir: bool,
    tr: TrapStep,
    p: PinStep,
    pe: PinEvent,
    q: Asked,
    pr: PinStep,
    w: WatchStep,
    ok: bool,
    wr: WatchStep,
)
    requires
        call_ensures(next_trap, (t, te, remove_dir), tr),
        call_ensures(next_pin, (p, pe, q), pr),
        call_ensures(next_watch, (w, ok), wr),
    ensures
        tr == trap_after(t, te, remove_dir),
        pr == pin_after(p, pe, q),
        wr == watch_after(w, ok),
{
}

/// The steps of moving an item, of restoring one, of taking one over, of compressing one and
/// of an update are those of their tables.
pub proof fn law_steps(
    k: Kind,
    ok: bool,
    m: MoveStep,
    mr: MoveStep,
    s: RestoreStep,
    o: StepOutcome,
    sr: RestoreStep,
    h: HookStep,
    hr: HookStep,
    c: PackStep,
    smaller: bool,
    cr: PackStep,
)
    requires
        call_ensures(next_move, (m, k, ok), mr),
        call_ensures(next_restore, (s, k, o), sr),
        call_ensures(next_hook, (h, k, ok), hr),
        call_ensures(next_pack, (c, ok, smaller), cr),
    ensures
        mr == step_after(m, k, ok),
        sr == restore_after(s, k, o),
        hr == hook_after(h, k, ok),
        cr == pack_after(c, ok, smaller),
{
}

/// The steps of an update, and the version that it is about.
pub proof fn law_update_steps(
    s: UpdateStep,
    ok: bool,
    latest_newer: bool,
    check_only: bool,
    r: UpdateStep,
    tag: &str,
    version: String,
)
    requires
        call_ensures(next_update, (s, ok, latest_newer, check_only), r),
        call_ensures(release_version, (tag,), version),
    ensures
        r == update_after(s, ok, latest_newer, check_only),
        version@ == version_of(tag@),
{
}

/// An item is admitted with what is known of it exactly where nothing is objected, and an
/// objection is the error.
pub proof fn law_admitted(config: &Config, facts: &Facts, r: Result<Meta, TrashError>)
    requires
        call_ensures(accept_item, (config, facts), r),
    ensures
        match objection(*config, *facts) {
            None => r matches Ok(m) && facts.meta == Some(m),
            Some(f) => r matches Err(e) && e@ == f,
        },
{
}

/// What is asked of an item: whether it belongs to a trash, whether its executable is
/// passed over, and whether it is hashed.
pub proof fn law_item_asked(
    config: &Config,
    p: &[u8],
    dirs: &Vec<Vec<u8>>,
    m: &Meta,
    touching: bool,
    bypassed: bool,
    hash: bool,
)
    requires
        call_ensures(touches_trash, (p, dirs), touching),
        call_ensures(exe_bypassed, (config, p), bypassed),
        call_ensures(wants_hash, (config, m), hash),
    ensures
        touching == touches(p@, views(dirs@)),
        bypassed == begins_with_one(texts(config.bypass_paths@), lossy(p@)),
        hash == hashed(config.sha256_max_size_mb, *m),
{
}

/// A path is recorded and meant again as its two models say.
pub proof fn law_paths_recorded(trash: &[u8], home: &[u8], p: &[u8], written: Vec<u8>, meant: Vec<u8>)
    requires
        call_ensures(path_to_record, (trash, home, p), written),
        call_ensures(resolve_recorded, (trash, p), meant),
    ensures
        written@ == recorded_path(trash@, home@, p@),
        meant@ == meant_path(trash@, p@),
{
}

/// What the command does with a file, with the whole command line and after an attempt.
pub proof fn law_command_decides(
    rm: &Rm,
    always: bool,
    look: Lookup,
    occupied: bool,
    step: FileStep,
    order: Order,
    t: Trial,
    next: AfterTrash,
)
    requires
        call_ensures(Rm::file_step, (rm, always, look, occupied), step),
        call_ensures(Rm::order, (rm,), order),
        call_ensures(after_trash, (t,), next),
    ensures
        step == rm.step_for(always, look, occupied),
        order == rm.ordered(),
        next == after(t),
{
}

/// What is handed to the real command, what is recorded of it, and where it is looked for.
pub proof fn law_command_passed_on(
    args: &Vec<Vec<u8>>,
    list: &[u8],
    passed: Vec<Vec<u8>>,
    text: String,
    at: Vec<Vec<u8>>,
)
    requires
        call_ensures(real_arguments, (args,), passed),
        call_ensures(command_text, (args,), text),
        call_ensures(search_places, (list,), at),
    ensures
        views(passed@) == for_real(views(args@)),
        text@ == recorded_command(views(args@)),
        views(at@) == places_from(list@, 0),
{
}

/// Which entries the two limits take, besides those that are gone.
pub proof fn law_limits_applied(
    held: &Vec<u64>,
    freed: &Vec<u64>,
    gone: &Vec<bool>,
    max_bytes: u64,
    full: bool,
    r: Vec<bool>,
    s: Vec<bool>,
)
    requires
        call_ensures(trimmed, (held, freed, gone, max_bytes), r),
        call_ensures(relieved, (gone, full), s),
    ensures
        r@ == after_trim(held@, freed@, gone@, max_bytes),
        s@ == after_relief(gone@, full),
{
}

/// Where the parts of an entry lie, which name is that of a record, and which entry a text
/// means.
pub proof fn law_entries_found(
    trash: &[u8],
    text: &str,
    v: &Vec<TrashEntry>,
    data: Vec<u8>,
    record: Vec<u8>,
    id: Option<String>,
    r: Result<usize, TrashError>,
)
    requires
        call_ensures(path_of_data, (trash, text), data),
        call_ensures(path_of_record, (trash, text), record),
        call_ensures(info_id, (text,), id),
        call_ensures(find_entry, (text, v), r),
    ensures
        data@ == data_path(trash@, text@),
        record@ == record_path(trash@, text@),
        id matches Some(x) ==> text@ == x@ + ".trashinfo"@,
        match found(text@, entries(v@)) {
            Ok(i) => r matches Ok(k) && k == i,
            Err(f) => r matches Err(e) && e@ == f,
        },
{
    crate::store_laws::law_record_id(text@, text@);
}

/// An entry goes back to where its model says, or is refused with its error.
pub proof fn law_sent_back(
    e: &TrashEntry,
    target: Option<&[u8]>,
    home: &[u8],
    r: Result<Vec<u8>, TrashError>,
)
    requires
        call_ensures(restore_destination, (e, target, home), r),
    ensures
        match destination(
            e@,
            match target {
                Some(t) => Some(t@),
                None => None,
            },
            home@,
        ) {
            Ok(p) => r matches Ok(x) && x@ == p,
            Err(f) => r matches Err(x) && x@ == f,
        },
{
}

/// Paths are taken apart and put together as components.
pub proof fn law_paths(
    p: &[u8],
    q: &[u8],
    both: Vec<u8>,
    same: bool,
    below: bool,
    up: bool,
    plain: Vec<u8>,
    rest: Option<Vec<u8>>,
)
    requires
        call_ensures(join, (p, q), both),
        call_ensures(path_eq, (p, q), same),
        call_ensures(path_starts_with, (p, q), below),
        call_ensures(has_parent_component, (p,), up),
        call_ensures(normalize_lexically, (p,), plain),
        call_ensures(strip_prefix, (p, q), rest),
    ensures
        both@ == joined(p@, q@),
        same <==> components(p@) == components(q@),
        below <==> components(q@).is_prefix_of(components(p@)),
        up <==> components(p@).contains(seq![46u8, 46u8]),
        plain@ == lexical(p@),
        rest is Some <==> below,
        rest matches Some(x) ==> stripped(p@, q@) == Some(x@),
{
    assert(crate::path::dotdot() =~= seq![46u8, 46u8]);
}

/// The last name of a path and what it lies in.
pub proof fn law_path_ends(p: &[u8], name: Option<&[u8]>, above: Option<&[u8]>)
    requires
        call_ensures(file_name, (p,), name),
        call_ensures(parent, (p,), above),
    ensures
        name is Some <==> name_of(p@) is Some,
        name matches Some(n) ==> name_of(p@) == Some(n@),
        above is Some <==> parent_of(p@) is Some,
        above matches Some(d) ==> parent_of(p@) == Some(d@),
{
}

/// What is read of times and sizes.
pub proof fn law_numbers_read(
    s: &str,
    v: &Vec<TrashEntry>,
    at: &Vec<usize>,
    days: Option<u32>,
    back: Option<i128>,
    whole: u64,
    some: u64,
)
    requires
        call_ensures(parse_duration_days, (s,), days),
        call_ensures(seconds_back, (s,), back),
        call_ensures(total_recorded, (v,), whole),
        call_ensures(total_chosen, (v, at), some),
    ensures
        days is Some <==> duration_days(s@) is Some,
        days matches Some(d) ==> duration_days(s@) == Some(d as nat),
        back is Some <==> reach_back(s@) is Some,
        back matches Some(b) ==> reach_back(s@) == Some(b as int),
        whole == recorded_total(v@),
        some == chosen_total(v@, at@),
{
}

/// What is read of trapped calls: whether a directory is to go, where the path starts, how a
/// process ended, and what its environment says.
pub proof fn law_calls_read(
    a: Arch,
    data: &SeccompData,
    rmdir: bool,
    p: &[u8],
    dirfd: Option<i32>,
    base: Base,
    status: u32,
    end: Ended,
    bypass: bool,
)
    requires
        call_ensures(is_rmdir, (a, data), rmdir),
        call_ensures(base_for, (p, dirfd), base),
        call_ensures(ended, (status,), end),
        call_ensures(environ_bypasses, (p,), bypass),
    ensures
        rmdir == removes_dir(a, *data),
        base == base_of(p@, dirfd),
        end == ended_of(status),
        bypass <==> has_entry(p@, seq![84u8, 82, 65, 83, 72, 95, 66, 89, 80, 65, 83, 83, 61, 49]),
{
    law_environ_bypasses(p@);
}

/// The filter that is installed is the program, whole.
pub proof fn law_filter_built(a: Arch, r: Vec<SockFilter>, f: SockFprog)
    requires
        call_ensures(build_filter, (a,), r),
        call_ensures(build_program, (a,), f),
    ensures
        r@ == program(a),
        f.filter@ == program(a),
        f.len == program(a).len(),
{
}

/// What is read of processes. One that has no number is the kernel.
pub proof fn law_processes_read(
    list: &Vec<String>,
    ancestors: &Vec<Ancestor>,
    stat: &str,
    exe: Option<&[u8]>,
    comm: Option<&str>,
    bypassed: bool,
    above: Option<u32>,
    kernel: String,
)
    requires
        call_ensures(is_parent_bypassed, (list, ancestors), bypassed),
        call_ensures(parent_pid, (stat,), above),
        call_ensures(display_name, (0u32, exe, comm), kernel),
    ensures
        bypassed == bypassed_from(texts(list@), ancestors@, 0),
        above is Some <==> parent_told(stat@) is Some,
        above matches Some(n) ==> parent_told(stat@) == Some(n as nat),
        kernel@ == "(kernel)"@,
{
}

/// What is read of the kernel's events, and of all trash directories.
pub proof fn law_events_read(
    b: &[u8],
    e: &FanEvent,
    ms: &Vec<MountTrash>,
    uid: u32,
    r: (Vec<FanEvent>, Option<u8>),
    d: Option<DirRecord>,
    dirs: Vec<(Vec<u8>, String)>,
)
    requires
        call_ensures(parse_events, (b,), r),
        call_ensures(dir_record, (b, e), d),
        call_ensures(all_trash_dirs, (b, ms, uid), dirs),
    ensures
        r.0@ == events_from(b@, 0),
        r.1 == odd_version_from(b@, 0),
        d is Some <==> dir_place(b@, *e) is Some,
        d matches Some(x) ==> dir_place(b@, *e) == Some(x@),
        place_views(dirs@) == places(b@, ms@, uid),
{
}

/// What is matched, which moment is chosen, what the disk of a trash is called, and how a
/// path is encoded and decoded.
pub proof fn law_models_kept(
    list: &Vec<String>,
    s: &[char],
    matched: bool,
    pattern: &str,
    text: &str,
    globbed: bool,
    first: LocalTime,
    shifted: LocalTime,
    m: Option<Moment>,
    p: &[u8],
    home: &[u8],
    disk: String,
    decoded: Vec<u8>,
)
    requires
        call_ensures(any_matches, (list, s), matched),
        call_ensures(simple_glob_match, (pattern, text), globbed),
        call_ensures(choose_moment, (first, shifted), m),
        call_ensures(disk_label, (p, home), disk),
        call_ensures(decode_path, (text,), decoded),
    ensures
        matched == some_matches(texts(list@), s@),
        globbed == glob(pattern@, text@),
        m == chosen(first, shifted),
        disk@ == disk_name(p@, home@),
        decoded@ == decoded_path(text@),
{
}

} // verus!
