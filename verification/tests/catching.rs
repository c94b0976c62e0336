use trashd::config::{Config, LocalConfig};
use trashd::dates::Moment;
use trashd::errors::TrashError;
use trashd::filter::{build_filter, build_program, Arch, SockFilter};
use trashd::intercept::{
    change_told, config_stamp, hook_info, is_inside_trash, next_hook, recheck_due, should_intercept, should_skip_path,
    takes_over, HookStep, PartialPreloadConfig, PreloadConfig,
};
use trashd::job::Kind;
use trashd::monitor::{
    deleted_path, dir_record, notice, parse_events, watchable, DeletionEvent, DirRecord, FanEvent, Notice,
};
use trashd::process::{display_name, is_parent_bypassed, parent_pid, process_name, Ancestor};
use trashd::supervise::{
    after_failure, asked, base_for, caller_bypassed, ended, environ_bypasses, exit_code, is_rmdir, next_pin, next_trap,
    next_watch, path_argument, path_in_memory, resolve_syscall_path, respond_continue, respond_errno, respond_success, response,
    split_target, trial_of, AfterFailure, Answer, Base, Decision, Ended, PinEvent, PinStep, SeccompData, SeccompNotif,
    TrapEvent, TrapStep, Trial, Waiter, WatchStep, AT_FDCWD, EISDIR, ENOTDIR, ENOTEMPTY,
};

const HOME: &[u8] = b"/home/u/.local/share/Trash";

/// Runs a filter on a call, as the kernel does.
fn run(p: &[SockFilter], arch: u32, nr: u32) -> u32 {
    let mut pc = 0;
    let mut a = 0u32;
    loop {
        let i = p[pc];
        match i.code {
            0x20 => {
                a = if i.k == 4 { arch } else { nr };
                pc += 1;
            }
            0x15 => pc += 1 + if a == i.k { i.jt as usize } else { i.jf as usize },
            0x06 => return i.k,
            other => panic!("unexpected {other}"),
        }
    }
}

#[test]
fn filter_traps_deletes_only() {
    let p = build_filter(Arch::X86_64);
    for nr in 0..500 {
        let trapped = run(&p, 0xC000_003E, nr) == 0x7FC0_0000;
        assert_eq!(trapped, nr == 84 || nr == 87 || nr == 263);
        assert_eq!(run(&p, 0xC000_00B7, nr), 0x7FFF_0000);
    }
    let p = build_filter(Arch::Aarch64);
    for nr in 0..500 {
        assert_eq!(run(&p, 0xC000_00B7, nr) == 0x7FC0_0000, nr == 35);
    }
    assert_eq!(build_program(Arch::X86_64).len, 9);
}

fn call(nr: i32, args: [u64; 6]) -> SeccompNotif {
    SeccompNotif {
        id: 7,
        pid: 1,
        flags: 0,
        data: SeccompData { nr, arch: 0xC000_003E, instruction_pointer: 0, args },
    }
}

#[test]
fn paths_of_calls() {
    let unlinkat = call(263, [AT_FDCWD as u64, 0x1000, 0x200, 0, 0, 0]);
    assert_eq!(path_argument(Arch::X86_64, &unlinkat.data), (Some(AT_FDCWD), 0x1000));
    assert!(is_rmdir(Arch::X86_64, &unlinkat.data));
    let unlink = call(87, [0x2000, 0, 0x200, 0, 0, 0]);
    assert_eq!(path_argument(Arch::X86_64, &unlink.data), (None, 0x2000));
    assert!(!is_rmdir(Arch::X86_64, &unlink.data));
    assert!(is_rmdir(Arch::X86_64, &call(84, [0; 6]).data));
    assert!(!is_rmdir(Arch::Aarch64, &call(84, [0; 6]).data));
    assert_eq!(path_in_memory(b"/a/b\0rest"), Some(b"/a/b".to_vec()));
    assert_eq!(path_in_memory(b"/a/b"), None);
    assert_eq!(base_for(b"/a", Some(3)), Base::Root);
    assert_eq!(base_for(b"a", Some(3)), Base::Dir(3));
    assert_eq!(base_for(b"a", Some(AT_FDCWD)), Base::Cwd);
    assert_eq!(base_for(b"a", None), Base::Cwd);
    assert_eq!(resolve_syscall_path(b"a", b"/d"), b"/d/a".to_vec());
    assert_eq!(resolve_syscall_path(b"/a", b"/d"), b"/a".to_vec());
}

#[test]
fn answers_to_the_kernel() {
    assert_eq!(respond_continue(7).flags, 1);
    assert_eq!(respond_success(7).flags, 0);
    assert_eq!(respond_errno(7, 39).error, -39);
    assert_eq!(response(7, Answer::Continue), respond_continue(7));
    assert_eq!(response(7, Answer::Errno(20)), respond_errno(7, 20));
    assert_eq!(response(7, Answer::Success), respond_success(7));
}

#[test]
fn environments_turn_it_off() {
    assert!(environ_bypasses(b"A=1\0TRASH_BYPASS=1\0B=2\0"));
    assert!(environ_bypasses(b"TRASH_BYPASS=1"));
    assert!(!environ_bypasses(b"TRASH_BYPASS=0\0"));
    assert!(!environ_bypasses(b"XTRASH_BYPASS=1\0"));
    assert!(!environ_bypasses(b""));
}

#[test]
fn trials() {
    assert_eq!(trial_of(None), Trial::Trashed);
    assert_eq!(trial_of(Some(&TrashError::Excluded(vec![]))), Trial::Excluded);
    assert_eq!(trial_of(Some(&TrashError::Refused(vec![]))), Trial::Refused);
    assert_eq!(trial_of(Some(&TrashError::Io("x".into()))), Trial::Failed);
}

fn trap(events: &[TrapEvent], remove_dir: bool) -> TrapStep {
    events.iter().fold(TrapStep::ReadPath, |s, e| next_trap(s, *e, remove_dir))
}

#[test]
fn traps_are_answered() {
    let start = [TrapEvent::Yes, TrapEvent::Yes, TrapEvent::No, TrapEvent::No];
    let with = |more: &[TrapEvent], dir: bool| {
        let mut e = start.to_vec();
        e.extend_from_slice(more);
        trap(&e, dir)
    };
    assert_eq!(trap(&[TrapEvent::Failed], false), TrapStep::Respond(Answer::Continue));
    assert_eq!(trap(&[TrapEvent::Yes, TrapEvent::No], false), TrapStep::Respond(Answer::Continue));
    assert_eq!(trap(&[TrapEvent::Yes, TrapEvent::Yes, TrapEvent::Yes], false), TrapStep::Respond(Answer::Continue));
    assert_eq!(with(&[TrapEvent::Pinned(Decision::Trashed)], false), TrapStep::Respond(Answer::Success));
    assert_eq!(with(&[TrapEvent::Pinned(Decision::Errno(20))], false), TrapStep::Respond(Answer::Errno(20)));
    let fallen = [TrapEvent::Failed, TrapEvent::Found(Kind::File), TrapEvent::Tried(Trial::Trashed)];
    assert_eq!(with(&fallen, false), TrapStep::Respond(Answer::Success));
    assert_eq!(with(&[TrapEvent::Failed, TrapEvent::Found(Kind::Dir)], false), TrapStep::Respond(Answer::Errno(EISDIR)));
    assert_eq!(with(&[TrapEvent::Failed, TrapEvent::Found(Kind::File)], true), TrapStep::Respond(Answer::Errno(ENOTDIR)));
    let full = [TrapEvent::Failed, TrapEvent::Found(Kind::Dir), TrapEvent::Inside(false)];
    assert_eq!(with(&full, true), TrapStep::Respond(Answer::Errno(ENOTEMPTY)));
    assert_eq!(with(&[TrapEvent::Failed, TrapEvent::Found(Kind::Dir), TrapEvent::Failed], true), TrapStep::Respond(Answer::Continue));
    let failed = [TrapEvent::Failed, TrapEvent::Found(Kind::File), TrapEvent::Tried(Trial::Failed)];
    assert_eq!(with(&failed, false), TrapStep::Respond(Answer::Continue));
}

fn pin(raw: &[u8], remove_dir: bool, events: &[PinEvent]) -> PinStep {
    let q = asked(&split_target(raw), remove_dir);
    events.iter().fold(PinStep::Open, |s, e| next_pin(s, *e, q))
}

#[test]
fn pinned_flow_trashes_via_cwd_fd() {
    assert_eq!(base_for(b"victim.txt", Some(AT_FDCWD)), Base::Cwd);
    let t = split_target(b"victim.txt").unwrap();
    assert_eq!((t.prefix.as_slice(), t.name.as_slice()), (&b""[..], &b"victim.txt"[..]));
    let events =
        [PinEvent::Yes, PinEvent::Yes, PinEvent::Held(true), PinEvent::Found(Kind::File), PinEvent::Tried(Trial::Trashed)];
    assert_eq!(pin(b"victim.txt", false, &events), PinStep::Done(Decision::Trashed));
}

#[test]
fn pinned_flow_trashes_via_duplicated_dirfd_and_prefix_walk() {
    assert_eq!(base_for(b"deep.txt", Some(3)), Base::Dir(3));
    let t = split_target(b"l1/l2/f.txt").unwrap();
    assert_eq!((t.prefix.as_slice(), t.name.as_slice()), (&b"l1/l2/"[..], &b"f.txt"[..]));
    let events = [
        PinEvent::Yes,
        PinEvent::Yes,
        PinEvent::Held(true),
        PinEvent::Yes,
        PinEvent::Found(Kind::File),
        PinEvent::Tried(Trial::Trashed),
    ];
    assert_eq!(pin(b"l1/l2/f.txt", false, &events), PinStep::Done(Decision::Trashed));
}

#[test]
fn pinned_rmdir_semantics_enotempty_and_eisdir() {
    let start = [PinEvent::Yes, PinEvent::Yes, PinEvent::Held(true), PinEvent::Found(Kind::Dir)];
    assert_eq!(pin(b"full", false, &start), PinStep::Done(Decision::Errno(EISDIR)));
    let mut full = start.to_vec();
    full.push(PinEvent::Inside(false));
    assert_eq!(pin(b"full", true, &full), PinStep::Done(Decision::Errno(ENOTEMPTY)));
    let mut hollow = start.to_vec();
    hollow.push(PinEvent::Inside(true));
    hollow.push(PinEvent::Tried(Trial::Trashed));
    assert_eq!(pin(b"hollow", true, &hollow), PinStep::Done(Decision::Trashed));
    let mut unknown = start.to_vec();
    unknown.push(PinEvent::Failed);
    assert_eq!(pin(b"full", true, &unknown), PinStep::Done(Decision::Continue));
}

#[test]
fn pinned_absolute_path_resolves_against_target_root() {
    let raw = b"/work/abs_victim.txt";
    assert_eq!(base_for(raw, Some(AT_FDCWD)), Base::Root);
    let t = split_target(raw).unwrap();
    assert_eq!((t.prefix.as_slice(), t.name.as_slice()), (&b"work/"[..], &b"abs_victim.txt"[..]));
    let top = split_target(b"/x").unwrap();
    assert_eq!(top.prefix, b"".to_vec());
    assert!(!asked(&Some(top), false).walk);
}

#[test]
fn pinned_trailing_slash_on_regular_file_is_enotdir() {
    let events = [PinEvent::Yes, PinEvent::Yes, PinEvent::Held(true), PinEvent::Found(Kind::File)];
    assert_eq!(pin(b"plain.txt/", false, &events), PinStep::Done(Decision::Errno(ENOTDIR)));
}

#[test]
fn pathological_paths_go_to_the_kernel() {
    for raw in [&b""[..], b"/", b"///", b".", b"a/..", b"a/./"] {
        assert!(split_target(raw).is_none());
        assert_eq!(pin(raw, false, &[PinEvent::Yes, PinEvent::Yes]), PinStep::Done(Decision::Continue));
    }
    assert_eq!(pin(b"x", false, &[PinEvent::Failed]), PinStep::Done(Decision::FallBack));
    assert_eq!(pin(b"x", false, &[PinEvent::Yes, PinEvent::No]), PinStep::Done(Decision::Continue));
    let not_dir = [PinEvent::Yes, PinEvent::Yes, PinEvent::Held(false)];
    assert_eq!(pin(b"x", false, &not_dir), PinStep::Done(Decision::Errno(ENOTDIR)));
}

#[test]
fn failures_to_receive() {
    assert_eq!(after_failure(Waiter::Supervisor, 2), AfterFailure::Again);
    assert_eq!(after_failure(Waiter::Supervisor, 9), AfterFailure::Stop);
    assert_eq!(after_failure(Waiter::Supervisor, 5), AfterFailure::Report);
    assert_eq!(after_failure(Waiter::Standin, 5), AfterFailure::Again);
    assert_eq!(after_failure(Waiter::Drain, 11), AfterFailure::Stop);
    assert_eq!(after_failure(Waiter::Passthrough, 11), AfterFailure::Wait);
}

#[test]
fn watchdog_fails_over() {
    assert_eq!(next_watch(WatchStep::Fork, true), WatchStep::Wait);
    assert_eq!(next_watch(WatchStep::Wait, false), WatchStep::Drain);
    assert_eq!(next_watch(WatchStep::Drain, true), WatchStep::Fork);
    assert_eq!(next_watch(WatchStep::Fork, false), WatchStep::Passthrough);
}

#[test]
fn ends_of_processes() {
    assert_eq!(ended(3 << 8), Ended::Exited(3));
    assert_eq!(ended(9), Ended::Signaled(9));
    assert_eq!(ended(0x7f), Ended::Unknown);
    assert_eq!(exit_code(0), 0);
    assert_eq!(exit_code(15), 143);
    assert_eq!(exit_code(0x7f), 1);
}

#[test]
fn parents_are_told() {
    assert_eq!(parent_pid("12 (my (odd) name) S 34 12 12 0"), Some(34));
    assert_eq!(parent_pid("12 (cut)"), None);
    assert_eq!(parent_pid("no brackets"), None);
    assert_eq!(process_name(Some(b"/usr/bin/make"), Some("x\n")).as_deref(), Some("make"));
    assert_eq!(process_name(None, Some("kthread\n")).as_deref(), Some("kthread"));
    assert_eq!(process_name(None, None), None);
    assert_eq!(display_name(0, None, None), "(kernel)");
    assert_eq!(display_name(9, None, None), "(pid 9)");
}

#[test]
fn ancestors_are_looked_at() {
    let a = |pid: u32, name: &str| Ancestor { pid, name: Some(name.to_string()) };
    let list = vec!["make".to_string()];
    assert!(is_parent_bypassed(&list, &vec![a(50, "sh"), a(40, "make")]));
    assert!(!is_parent_bypassed(&list, &vec![a(50, "sh"), a(1, "make")]));
    assert!(!is_parent_bypassed(&vec![], &vec![a(50, "make")]));
    let mut long: Vec<Ancestor> = (0..10).map(|i| a(100 + i, "sh")).collect();
    long.push(a(200, "make"));
    assert!(!is_parent_bypassed(&list, &long));
}

#[test]
fn preload_settings() {
    let c = PreloadConfig::default();
    assert_eq!(c.never_trash.len(), 22);
    assert!(c.bypass_processes.contains(&"git".to_string()));
    assert!(!c.bypass_processes.contains(&"systemd".to_string()));
    let user = PartialPreloadConfig {
        never_trash: Some(vec!["*.o".into(), "*.x".into()]),
        only_trash: Some(vec!["*.txt".into()]),
        bypass_processes: None,
    };
    let c = PreloadConfig::load(None, Some(user));
    assert_eq!(c.never_trash.len(), 23);
    assert_eq!(c.only_trash, vec!["*.txt".to_string()]);
    assert!(should_skip_path(b"/home/u/a.rs", HOME, &c, None));
    assert!(!should_skip_path(b"/home/u/a.txt", HOME, &c, None));
    let local = LocalConfig { never_trash: vec![], only_trash: vec!["*.rs".into()] };
    assert!(!should_skip_path(b"/home/u/a.rs", HOME, &c, Some(&local)));
    assert!(should_skip_path(b"/mnt/.Trash-5/files/a.txt", HOME, &c, None));
}

#[test]
fn trash_is_told_by_whole_names() {
    assert!(is_inside_trash(b"/home/u/.local/share/Trash/files/a", HOME));
    assert!(is_inside_trash(b"/mnt/.Trash/5/files/a", HOME));
    assert!(is_inside_trash(b"/mnt/.Trash-1000/files/a", HOME));
    assert!(!is_inside_trash(b"/home/u/my.Trash-backup/x", HOME));
    assert!(!is_inside_trash(b"/home/u/foo.local/share/Trash-notes", HOME));
    assert!(!is_inside_trash(b"/home/u/.Trash-x1/a", HOME));
    assert!(!is_inside_trash(b"/home/u/.Trash-/a", HOME));
}

#[test]
fn hooks_stand_aside() {
    assert!(should_intercept(false, None, None, false));
    assert!(should_intercept(false, Some(b"0"), None, false));
    assert!(!should_intercept(true, None, None, false));
    assert!(!should_intercept(false, Some(b"1"), None, false));
    assert!(!should_intercept(false, None, Some(b"1"), false));
    assert!(!should_intercept(false, None, None, true));
}

#[test]
fn hooks_by_kind() {
    assert!(takes_over(false, Kind::Symlink, None));
    assert!(!takes_over(false, Kind::Dir, Some(true)));
    assert!(takes_over(true, Kind::Dir, Some(true)));
    assert!(!takes_over(true, Kind::Dir, Some(false)));
    assert!(!takes_over(true, Kind::Dir, None));
    assert!(!takes_over(true, Kind::File, Some(true)));
}

#[test]
fn hooks_move() {
    let go = |k: Kind, o: &[bool]| o.iter().fold(HookStep::Recheck, |s, ok| next_hook(s, k, *ok));
    assert_eq!(go(Kind::File, &[true, true]), HookStep::Taken);
    assert_eq!(go(Kind::File, &[true, false, true, true]), HookStep::Taken);
    assert_eq!(go(Kind::File, &[true, false, true, false]), HookStep::DropBoth);
    assert_eq!(go(Kind::File, &[true, false, false]), HookStep::DropBoth);
    assert_eq!(go(Kind::Dir, &[true, false]), HookStep::DropRecord);
    assert_eq!(go(Kind::Socket, &[true, false]), HookStep::DropRecord);
    assert_eq!(go(Kind::File, &[false]), HookStep::DropRecord);
}

#[test]
fn hooks_record() {
    let i = hook_info(b"/a".to_vec(), Moment { secs: 0, nanos: 0, offset: 0 }, 4, Some(2));
    assert_eq!(
        i.to_trashinfo_string(),
        "[Trash Info]\nPath=/a\nDeletionDate=1970-01-01T00:00:00\nX-Trashd-Command=preload\nX-Trashd-PID=4\n\
         X-Trashd-Size=2\n"
    );
}

#[test]
fn changes_of_settings() {
    assert_ne!(config_stamp(100, 200), config_stamp(200, 100));
    assert_eq!(config_stamp(1, 0), 1_000_003);
    assert!(recheck_due(60, 0));
    assert!(!recheck_due(59, 0));
    assert!(change_told(2, 1));
    assert!(!change_told(2, 0));
    assert!(!change_told(2, 2));
}

fn event(len: u32, vers: u8, mask: u64, fd: i32, pid: i32) -> Vec<u8> {
    let mut b = len.to_le_bytes().to_vec();
    b.push(vers);
    b.push(0);
    b.extend_from_slice(&24u16.to_le_bytes());
    b.extend_from_slice(&mask.to_le_bytes());
    b.extend_from_slice(&fd.to_le_bytes());
    b.extend_from_slice(&pid.to_le_bytes());
    b
}

#[test]
fn events_are_read() {
    let mut b = event(24, 3, 0x200, 5, 10);
    b.extend(event(32, 3, 0x40, -1, 11));
    b.extend([0u8; 8]);
    b.extend(event(24, 3, 0x4000_0000_0400, -1, 12));
    b.extend([1, 2, 3]);
    let (v, odd) = parse_events(&b);
    assert_eq!(odd, None);
    assert_eq!(v, vec![
        FanEvent { mask: 0x200, fd: 5, pid: 10, from: 24, to: 24 },
        FanEvent { mask: 0x40, fd: -1, pid: 11, from: 48, to: 56 },
        FanEvent { mask: 0x4000_0000_0400, fd: -1, pid: 12, from: 80, to: 80 },
    ]);
    assert_eq!(notice(&v[0]), Notice::Deletion);
    assert_eq!(notice(&v[1]), Notice::Other);
    assert_eq!(notice(&v[2]), Notice::Deletion);
    assert_eq!(notice(&FanEvent { mask: 0x4200, fd: -1, pid: 0, from: 0, to: 0 }), Notice::Overflow);
    let mut odd_one = event(24, 3, 0x200, 5, 10);
    odd_one.extend(event(24, 2, 0x200, 5, 10));
    let (v, odd) = parse_events(&odd_one);
    assert_eq!((v.len(), odd), (1, Some(2)));
    assert_eq!(parse_events(&event(0, 3, 0x200, 1, 1)).0.len(), 1);
}

fn info_record(kind: u8, handle: &[u8], tail: &[u8]) -> Vec<u8> {
    let mut b = vec![kind, 0];
    b.extend_from_slice(&((20 + handle.len() + tail.len()) as u16).to_le_bytes());
    b.extend_from_slice(b"FILESYST");
    b.extend_from_slice(&(handle.len() as u32).to_le_bytes());
    b.extend_from_slice(&0x81i32.to_le_bytes());
    b.extend_from_slice(handle);
    b.extend_from_slice(tail);
    b
}

fn about(records: &[Vec<u8>]) -> Option<DirRecord> {
    let len: usize = records.iter().map(|r| r.len()).sum();
    let mut b = event(24, 3, 0x200, 5, 1);
    b.extend(event(24 + len as u32, 3, 0x400, -1, 7));
    b.extend(records.concat());
    let (v, odd) = parse_events(&b);
    assert_eq!((v.len(), odd), (2, None));
    assert!(dir_record(&b, &v[0]).is_none());
    dir_record(&b, &v[1])
}

#[test]
fn events_without_a_descriptor_tell_their_directory() {
    let r = about(&[info_record(1, b"self", b""), info_record(2, b"dirhandl", b"gone.txt\0\0\0\0")]).unwrap();
    assert_eq!(r.fsid, b"FILESYST".to_vec());
    assert_eq!(r.handle, [&[8, 0, 0, 0, 0x81, 0, 0, 0], &b"dirhandl"[..]].concat());
    assert_eq!(r.name.as_deref(), Some(&b"gone.txt"[..]));
    assert_eq!(deleted_path(b"/w/d", r.name.as_deref()), b"/w/d/gone.txt".to_vec());
    let r = about(&[info_record(3, b"dirhandl", b"")]).unwrap();
    assert!(r.name.is_none());
    assert_eq!(deleted_path(b"/w/d", None), b"/w/d".to_vec());
    assert_eq!(deleted_path(b"/w/d", Some(b".")), b"/w/d".to_vec());
    assert_eq!(about(&[info_record(2, b"h", b"end")]).unwrap().name.as_deref(), Some(&b"end"[..]));
    assert!(about(&[info_record(1, b"self", b"")]).is_none());
    assert!(about(&[]).is_none());
    let mut long = info_record(3, b"dirhandl", b"");
    long[12] = 200;
    assert!(about(&[long]).is_none());
    let mut stuck = info_record(1, b"self", b"");
    stuck[2] = 0;
    assert!(about(&[stuck, info_record(3, b"dirhandl", b"")]).is_none());
}

#[test]
fn deletions_are_logged() {
    let e = DeletionEvent { path: b"/a/b".to_vec(), pid: 4, process: "sh".into() };
    assert_eq!(e.log(false), "[trashd-daemon] DELETE pid=4 proc=sh path=/a/b");
    assert_eq!(e.log(true), "[trashd-daemon] DELETE pid=4 proc=sh path=/a/b (skipped)");
    assert!(watchable("ext4"));
    assert!(!watchable("tmpfs"));
}

#[test]
fn callers_that_the_trash_is_not_for() {
    let mut c = Config::default();
    c.bypass_paths = vec!["/opt/build/".to_string()];
    let plain: Vec<Ancestor> = vec![Ancestor { pid: 9, name: Some("bash".into()) }];
    let under_make: Vec<Ancestor> = vec![Ancestor { pid: 9, name: Some("make".into()) }];
    assert!(!caller_bypassed(&c, b"A=1\0", Some(b"/usr/bin/vi"), Some("vi"), &plain));
    assert!(caller_bypassed(&c, b"TRASH_BYPASS=1\0", Some(b"/usr/bin/vi"), Some("vi"), &plain));
    assert!(caller_bypassed(&c, b"", Some(b"/opt/build/cc"), Some("cc"), &plain));
    assert!(caller_bypassed(&c, b"", None, Some("dpkg"), &plain));
    assert!(caller_bypassed(&c, b"", None, None, &under_make));
}
