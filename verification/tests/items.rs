use trashd::config::Config;
use trashd::contents::{hash_data, is_zstd, pack, to_hex, unpack, xxh3_text, Unpacked};
use trashd::dates::Moment;
use trashd::errors::TrashError;
use trashd::job::{
    absolute_path, accept_item, build_info, copy_entry, exe_bypassed, fit, needs_tree_size, next_move, normalize_path,
    path_to_record, resolve_recorded, topdir_for_trash, touches_trash, wants_hash, Claim, ClaimOutcome, ClaimStep,
    CopyStep, Facts, Kind, Met, Meta, MoveStep, SizeWalk, TreeSize,
};
use trashd::path::path_eq;
use trashd::store::{
    check_hash, find_entry, find_hits, forget_record, info_id, list, list_in_dir, newest_first, next_restore,
    path_of_data, path_of_record, purge_step, rename_outcome, restore_destination, restore_into, undo_choice,
    DirContents, InfoFile, PurgeStep, RestoreStep, Search, StepOutcome, TrashEntry,
};
use trashd::trashinfo::TrashInfo;

const HOME: &[u8] = b"/home/u/.local/share/Trash";

fn at(secs: i64) -> Moment {
    Moment { secs, nanos: 0, offset: 0 }
}

fn info(path: &[u8], secs: i64) -> TrashInfo {
    TrashInfo::at(path.to_vec(), at(secs))
}

fn record(name: &str, path: &[u8], secs: i64) -> InfoFile {
    InfoFile { name: format!("{name}.trashinfo"), info: Some(info(path, secs)) }
}

fn file(size: u64) -> Meta {
    Meta { kind: Kind::File, size }
}

fn try_trash(path: &[u8], meta: Option<Meta>, tree: TreeSize, config: &Config) -> Result<Meta, TrashError> {
    let dirs = vec![HOME.to_vec()];
    accept_item(
        config,
        &Facts { path, meta, trash_dirs: &dirs, local: None, tree, exe: None },
    )
}

const SMALL: TreeSize = TreeSize { bytes: 0, capped: false };

#[test]
fn trash_nonexistent_file_errors() {
    let result = try_trash(b"/home/u/work/nonexistent_xyz", None, SMALL, &Config::default());
    assert!(matches!(result, Err(TrashError::NotFound(_))));
}

#[test]
fn never_trash_refuses_the_item() {
    let result = try_trash(b"/home/u/work/temp.tmp", Some(file(4)), SMALL, &Config::default());
    assert!(matches!(result, Err(TrashError::Excluded(_))));
}

#[test]
fn large_file_rejected() {
    let c = Config::default();
    assert!(try_trash(b"/home/u/work/small.txt", Some(file(2)), SMALL, &c).is_ok());
    match try_trash(b"/home/u/work/big", Some(file(1025 * 1_048_576)), SMALL, &c) {
        Err(TrashError::TooLarge { size_mb, limit_mb, .. }) => {
            assert_eq!(size_mb, 1025);
            assert_eq!(limit_mb, 1024);
        }
        other => panic!("unexpected {other:?}"),
    }
}

#[test]
fn large_directory_rejected() {
    let mut c = Config::default();
    let dir = Meta { kind: Kind::Dir, size: 4096 };
    let big = TreeSize { bytes: 3 * 1_048_576, capped: false };
    assert!(try_trash(b"/home/u/work/d", Some(dir), big, &c).is_ok());
    assert!(!needs_tree_size(&c, &dir));
    c.max_dir_size_mb = 2;
    assert!(needs_tree_size(&c, &dir));
    assert!(matches!(try_trash(b"/home/u/work/d", Some(dir), big, &c), Err(TrashError::TooLarge { .. })));
    let unknown = TreeSize { bytes: 0, capped: true };
    assert!(matches!(try_trash(b"/home/u/work/d", Some(dir), unknown, &c), Err(TrashError::TooLarge { .. })));
    assert!(try_trash(b"/home/u/work/d", Some(dir), SMALL, &c).is_ok());
}

#[test]
fn the_trash_itself_is_refused() {
    let c = Config::default();
    let dir = Some(Meta { kind: Kind::Dir, size: 4096 });
    for p in [&b"/home/u/.local/share/Trash"[..], b"/home/u/.local/share/Trash/files/x", b"/home/u", b"/"] {
        assert!(matches!(try_trash(p, dir, SMALL, &c), Err(TrashError::Refused(_))));
    }
    assert!(try_trash(b"/home/u/.local/share/Trash-notes", dir, SMALL, &c).is_ok());
    assert!(touches_trash(b"/home", &vec![HOME.to_vec()]));
    assert!(!touches_trash(b"/home/v", &vec![HOME.to_vec()]));
}

#[test]
fn bypassed_programs() {
    let mut c = Config::default();
    c.bypass_paths = vec!["/usr/bin/".into()];
    assert!(exe_bypassed(&c, b"/usr/bin/tool"));
    assert!(!exe_bypassed(&c, b"/opt/tool"));
    let dirs = vec![];
    let facts = Facts {
        path: b"/home/u/a",
        meta: Some(file(1)),
        trash_dirs: &dirs,
        local: None,
        tree: SMALL,
        exe: Some(b"/usr/bin/tool"),
    };
    assert!(matches!(accept_item(&c, &facts), Err(TrashError::Excluded(_))));
}

#[test]
fn paths_are_made_absolute_and_normal() {
    let gone = || Err("No such file or directory (os error 2)".to_string());
    assert_eq!(absolute_path(b"a/b", Ok(b"/home/u".to_vec())).unwrap(), b"/home/u/a/b".to_vec());
    assert_eq!(absolute_path(b"/a", gone()).unwrap(), b"/a".to_vec());
    match absolute_path(b"a", gone()) {
        Err(TrashError::Io(t)) => assert_eq!(t, "No such file or directory (os error 2)"),
        other => panic!("unexpected {other:?}"),
    }
    assert_eq!(normalize_path(b"/a/link/x", Some(b"/real")), b"/real/x".to_vec());
    assert_eq!(normalize_path(b"/a/./b/../x", None), b"/a/x".to_vec());
}

#[test]
fn duplicate_trash_gets_unique_id() {
    let claim = Claim::start(b"/home/u/work/same.txt", &at(0), 1000);
    let first = claim.candidate();
    assert_eq!(first, "same.txt");
    let second = match claim.next(ClaimOutcome::InfoThere) {
        ClaimStep::Next(c) => c,
        other => panic!("unexpected {other:?}"),
    };
    assert_ne!(second.candidate(), first);
    assert_eq!(second.candidate(), "same.txt.19700101000000");
    let third = match second.next(ClaimOutcome::InfoThere) {
        ClaimStep::Next(c) => c,
        other => panic!("unexpected {other:?}"),
    };
    assert_eq!(third.candidate(), "same.txt.19700101000000.1");
    match third.next(ClaimOutcome::Claimed) {
        ClaimStep::Own(id) => assert_eq!(id, "same.txt.19700101000000.1"),
        other => panic!("unexpected {other:?}"),
    }
}

#[test]
fn trashing_does_not_overwrite_orphan_file() {
    let claim = Claim::start(b"/home/u/work/dup.txt", &at(0), 1000);
    match claim.next(ClaimOutcome::DataThere) {
        ClaimStep::Next(c) => assert_ne!(c.candidate(), "dup.txt", "must not reuse the orphan's id"),
        other => panic!("unexpected {other:?}"),
    }
}

#[test]
fn claims_stop() {
    let claim = Claim::start(b"/a", &at(0), 0);
    assert!(matches!(claim.next(ClaimOutcome::InfoThere), ClaimStep::Stop(TrashError::Io(_))));
    let claim = Claim::start(b"/a", &at(0), 5);
    assert!(matches!(claim.next(ClaimOutcome::Failed("disk full".into())), ClaimStep::Stop(TrashError::Io(_))));
}

#[test]
fn long_names_are_cut_at_a_character() {
    let name = "\u{65e5}".repeat(100);
    let p = format!("/a/{name}");
    let claim = Claim::start(p.as_bytes(), &at(0), 10);
    assert_eq!(claim.candidate(), "\u{65e5}".repeat(74));
    assert_eq!(fit("abc", 2), "ab");
    assert_eq!(fit("abc", 3), "abc");
}

#[test]
fn recorded_paths_are_relative_to_the_top() {
    let own = b"/mnt/usb/.Trash-1000";
    assert_eq!(topdir_for_trash(own), b"/mnt/usb".to_vec());
    assert_eq!(topdir_for_trash(b"/mnt/usb/.Trash/1000"), b"/mnt/usb".to_vec());
    let rel = path_to_record(own, HOME, b"/mnt/usb/a/b");
    assert_eq!(rel, b"a/b".to_vec());
    assert_eq!(resolve_recorded(own, &rel), b"/mnt/usb/a/b".to_vec());
    assert_eq!(path_to_record(HOME, HOME, b"/home/u/x"), b"/home/u/x".to_vec());
}

#[test]
fn trashinfo_has_metadata() {
    let c = Config::default();
    let m = file(9);
    assert!(wants_hash(&c, &m));
    let hash = hash_data(&c.hash_algorithm, b"test data");
    let i = build_info(b"/w/meta.txt".to_vec(), at(5), Some("rm -f meta.txt"), 77, &m, 0, Some(hash));
    assert_eq!(i.command.as_deref(), Some("rm -f meta.txt"));
    assert!(i.pid.is_some());
    assert_eq!(i.size, Some(9));
    assert!(i.sha256.is_some());
}

#[test]
fn recorded_sizes() {
    let size = |m: &Meta, tree: u64| build_info(b"/w/x".to_vec(), at(5), None, 1, m, tree, None).size;
    assert_eq!(size(&file(9), 700), Some(9));
    assert_eq!(size(&Meta { kind: Kind::Dir, size: 4096 }, 700), Some(700));
    assert_eq!(size(&Meta { kind: Kind::Symlink, size: 8 }, 700), Some(700));
    assert_eq!(size(&Meta { kind: Kind::Symlink, size: 8 }, 0), Some(0));
    assert_eq!(size(&Meta { kind: Kind::Fifo, size: 0 }, 0), Some(0));
}

#[test]
fn hash_stored_on_trash() {
    let c = Config::default();
    assert!(wants_hash(&c, &file(8)), "hash should be computed for small files");
    assert!(!wants_hash(&c, &file(1_048_577)));
    assert!(!wants_hash(&c, &Meta { kind: Kind::Symlink, size: 8 }));
    assert_eq!(hash_data("xxhash", b""), "99aa06d3014798d86001c324468d497f");
    assert_eq!(
        hash_data("sha256", b"abc"),
        "ba7816bf8f01cfea414140de5dae2223b00361a396177a9cb410ff61f20015ad"
    );
}

#[test]
fn moves_between_filesystems() {
    assert_eq!(next_move(MoveStep::Rename, Kind::File, true), MoveStep::Done);
    assert_eq!(next_move(MoveStep::Rename, Kind::Dir, false), MoveStep::CopyTree);
    assert_eq!(next_move(MoveStep::CopyTree, Kind::Dir, true), MoveStep::RemoveTree);
    assert_eq!(next_move(MoveStep::RemoveTree, Kind::Dir, false), MoveStep::Keep);
    assert_eq!(next_move(MoveStep::CopyTree, Kind::Dir, false), MoveStep::CleanUp);
    assert_eq!(next_move(MoveStep::Rename, Kind::Socket, false), MoveStep::Decline);
    assert_eq!(next_move(MoveStep::Rename, Kind::Fifo, false), MoveStep::MakeFifo);
    assert_eq!(next_move(MoveStep::Rename, Kind::Symlink, false), MoveStep::CopyLink);
}

#[test]
fn trees_are_counted_without_links() {
    let mut w = SizeWalk::start();
    assert!(w.meet(Met::Item(Meta { kind: Kind::Dir, size: 4096 })));
    assert!(!w.meet(Met::Item(file(10))));
    assert!(!w.meet(Met::Item(Meta { kind: Kind::Symlink, size: 7 })));
    assert!(!w.meet(Met::Unknown));
    assert_eq!(w.finish(), TreeSize { bytes: 10, capped: false });
    assert!(!w.full());
    assert!(SizeWalk { total: 0, count: 10_000 }.finish().capped);
}

#[test]
fn entries_of_a_tree_are_copied_by_kind() {
    assert_eq!(copy_entry(Kind::Dir, 99), CopyStep::Descend);
    assert_eq!(copy_entry(Kind::Dir, 100), CopyStep::TooDeep);
    assert_eq!(copy_entry(Kind::Device, 0), CopyStep::Skip);
    assert_eq!(copy_entry(Kind::Fifo, 0), CopyStep::Fifo);
}

fn store(infos: Vec<InfoFile>, files: Vec<&str>, pattern: Option<&str>) -> Vec<TrashEntry> {
    let files = files.into_iter().map(String::from).collect();
    newest_first(list_in_dir(HOME, infos, &files, pattern, at(100)))
}

#[test]
fn list_pattern_filter() {
    let infos = || {
        vec![
            record("script.py", b"/w/script.py", 1),
            record("main.rs", b"/w/main.rs", 2),
            record("notes.txt", b"/w/notes.txt", 3),
        ]
    };
    let files = vec!["script.py", "main.rs", "notes.txt"];
    let all = store(infos(), files.clone(), None);
    assert_eq!(all.len(), 3);
    let py_only = store(infos(), files, Some("*.py"));
    assert_eq!(py_only.len(), 1);
    assert_eq!(py_only[0].info.original_path, b"/w/script.py".to_vec());
}

#[test]
fn list_pattern_filter_works() {
    let infos = vec![record("keep.py", b"/w/keep.py", 1), record("keep.rs", b"/w/keep.rs", 2)];
    let py = store(infos, vec!["keep.py", "keep.rs"], Some("*.py"));
    assert_eq!(py.len(), 1);
    assert!(py[0].info.original_path.ends_with(b"keep.py"));
}

#[test]
fn data_without_a_record_is_listed() {
    let infos = vec![
        record("a", b"/w/a", 1),
        InfoFile { name: "broken.trashinfo".into(), info: None },
    ];
    let v = store(infos, vec!["a", "broken", "b"], None);
    assert_eq!(v.len(), 3);
    let b = v.iter().find(|e| e.id == "b").unwrap();
    assert!(b.orphaned);
    assert_eq!(b.info.original_path, b"(orphaned: b)".to_vec());
    assert_eq!(b.trashed_path, b"/home/u/.local/share/Trash/files/b".to_vec());
    assert_eq!(b.info_path, b"/home/u/.local/share/Trash/info/b.trashinfo".to_vec());
    assert!(v.iter().find(|e| e.id == "broken").unwrap().orphaned);
    assert!(!v.iter().find(|e| e.id == "a").unwrap().orphaned);
}

fn two_disks() -> Vec<DirContents> {
    vec![
        DirContents {
            trash: HOME.to_vec(),
            infos: vec![record("a.txt", b"/w/a.txt", 10), record("b.rs", b"/w/b.rs", 30)],
            files: vec!["a.txt".to_string(), "b.rs".to_string(), "lost.txt".to_string()],
        },
        DirContents {
            trash: b"/mnt/.Trash-1".to_vec(),
            infos: vec![record("a.txt", b"docs/a.txt", 20), record("same.txt", b"same.txt", 30)],
            files: vec!["a.txt".to_string(), "same.txt".to_string()],
        },
    ]
}

#[test]
fn all_disks_are_listed_newest_first() {
    let key = |v: &Vec<TrashEntry>| -> Vec<(String, Vec<u8>)> {
        v.iter().map(|e| (e.id.clone(), e.trash_root.clone())).collect()
    };
    let all = list(two_disks(), None, at(100));
    let usb = b"/mnt/.Trash-1".to_vec();
    let home = HOME.to_vec();
    assert_eq!(
        key(&all),
        vec![
            ("lost.txt".to_string(), home.clone()),
            ("b.rs".to_string(), home.clone()),
            ("same.txt".to_string(), usb.clone()),
            ("a.txt".to_string(), usb),
            ("a.txt".to_string(), home),
        ]
    );
    let some = list(two_disks(), Some("*.txt"), at(100));
    let kept: Vec<TrashEntry> = all.into_iter().filter(|e| e.id.ends_with(".txt")).collect();
    assert_eq!(key(&some), key(&kept));
    assert!(list(vec![], None, at(100)).is_empty());
}

#[test]
fn what_is_gone_from_the_trash_is_not_listed() {
    let mut dirs = two_disks();
    dirs.truncate(1);
    dirs[0].infos.remove(0);
    dirs[0].files.remove(0);
    let v = list(dirs, None, at(100));
    assert!(v.iter().all(|e| e.id != "a.txt"));
    assert_eq!(v.len(), 2);
}

#[test]
fn a_move_and_its_way_back_come_through() {
    for k in [Kind::File, Kind::Dir, Kind::Symlink, Kind::Fifo] {
        let moved = [false, true, true].iter().fold(MoveStep::Rename, |s, ok| next_move(s, k, *ok));
        assert_eq!(moved, MoveStep::Done);
        let fine = StepOutcome::Fine;
        let runs = [
            [fine, fine, fine, fine, fine, fine],
            [fine, fine, StepOutcome::Unsupported, fine, fine, fine],
            [fine, fine, StepOutcome::Failed, fine, fine, fine],
            [fine, fine, StepOutcome::Unsupported, StepOutcome::Failed, fine, fine],
        ];
        for run in runs {
            let end = run.iter().fold(RestoreStep::CheckFree, |s, o| next_restore(s, k, *o));
            assert_eq!(end, RestoreStep::Restored);
        }
    }
    assert_eq!(next_move(MoveStep::Rename, Kind::Device, true), MoveStep::Done);
}

#[test]
fn restoring_into_a_directory() {
    let v = store(vec![record("foo", b"/w/foo.txt", 1), record("root", b"/", 2)], vec!["foo", "root"], None);
    assert_eq!(v[1].id, "foo");
    assert_eq!(restore_into(&v[1], b".").unwrap(), b"./foo.txt".to_vec());
    assert_eq!(restore_into(&v[1], b"/tmp/").unwrap(), b"/tmp/foo.txt".to_vec());
    assert!(restore_into(&v[0], b"/tmp").is_none());
}

#[test]
fn undo_restores_most_recent() {
    let infos = vec![record("first.txt", b"/w/first.txt", 1), record("second.txt", b"/w/second.txt", 2)];
    let v = store(infos, vec!["first.txt", "second.txt"], None);
    assert_eq!(v[undo_choice(&v).unwrap()].id, "second.txt");
    let orphans = store(vec![], vec!["x"], None);
    assert!(matches!(undo_choice(&orphans), Err(TrashError::EntryNotFound(_))));
    let mixed = store(vec![record("old", b"/w/old", 1)], vec!["old", "x"], None);
    assert_eq!(mixed[undo_choice(&mixed).unwrap()].id, "old");
}

#[test]
fn ambiguous_match_detected() {
    let infos = vec![record("dup.txt.1", b"/w/dup.txt", 1), record("dup.txt.2", b"/w/dup.txt", 2)];
    let v = store(infos, vec!["dup.txt.1", "dup.txt.2"], None);
    match find_entry("dup.txt", &v) {
        Err(TrashError::AmbiguousMatch { pattern, count }) => {
            assert_eq!(pattern, "dup.txt");
            assert_eq!(count, 2);
        }
        other => panic!("unexpected {other:?}"),
    }
    assert_eq!(v[find_entry("dup.txt.1", &v).unwrap()].id, "dup.txt.1");
    assert_eq!(find_hits(Search::Name, "dup.txt", &v).len(), 2);
    assert!(matches!(find_entry("nothing", &v), Err(TrashError::EntryNotFound(_))));
}

#[test]
fn an_id_in_two_places_is_ambiguous() {
    let files = vec!["x".to_string()];
    let mut v = list_in_dir(HOME, vec![record("x", b"/w/x", 1)], &files, None, at(9));
    v.extend(list_in_dir(b"/mnt/.Trash-1", vec![record("x", b"x", 2)], &files, None, at(9)));
    assert!(matches!(find_entry("x", &v), Err(TrashError::AmbiguousMatch { .. })));
}

#[test]
fn restore_conflict_errors() {
    assert_eq!(next_restore(RestoreStep::CheckFree, Kind::File, StepOutcome::Taken), RestoreStep::Conflict);
    assert_eq!(next_restore(RestoreStep::RenameFree, Kind::File, rename_outcome(Some(17))), RestoreStep::Conflict);
    assert_eq!(next_restore(RestoreStep::RenameFree, Kind::File, rename_outcome(None)), RestoreStep::Restored);
    assert_eq!(next_restore(RestoreStep::RenameFree, Kind::File, rename_outcome(Some(38))), RestoreStep::Rename);
    assert_eq!(next_restore(RestoreStep::RenameFree, Kind::Dir, rename_outcome(Some(18))), RestoreStep::CopyTree);
    assert_eq!(next_restore(RestoreStep::RenameFree, Kind::Fifo, rename_outcome(Some(18))), RestoreStep::MakeFifo);
    assert_eq!(next_restore(RestoreStep::MakeFifo, Kind::Fifo, StepOutcome::Fine), RestoreStep::RemoveFile);
}

#[test]
fn restore_to_alternate_path() {
    let v = store(vec![record("original.txt", b"/w/original.txt", 1)], vec!["original.txt"], None);
    assert_eq!(
        restore_destination(&v[0], Some(b"/w/restored_here.txt"), HOME).unwrap(),
        b"/w/restored_here.txt".to_vec()
    );
    assert_eq!(restore_destination(&v[0], None, HOME).unwrap(), b"/w/original.txt".to_vec());
}

#[test]
fn restore_refuses_path_traversal() {
    let content = "[Trash Info]\nPath=../../../../etc/evil\nDeletionDate=2026-01-01T00:00:00\n";
    let infos = vec![InfoFile { name: "evil.trashinfo".into(), info: TrashInfo::from_trashinfo(content) }];
    let v = store(infos, vec!["evil"], None);
    assert_eq!(v.len(), 1);
    let err = restore_destination(&v[0], None, HOME).unwrap_err();
    assert!(matches!(err, TrashError::RestoreTraversal(_)), "expected RestoreTraversal, got {err:?}");
}

#[test]
fn restore_stays_on_its_filesystem() {
    let files = vec!["x".to_string()];
    let v = list_in_dir(b"/mnt/.Trash-1", vec![record("x", b"/etc/passwd", 2)], &files, None, at(9));
    assert!(matches!(restore_destination(&v[0], None, HOME), Err(TrashError::RestoreTraversal(_))));
    let ok = list_in_dir(b"/mnt/.Trash-1", vec![record("x", b"a/x", 2)], &files, None, at(9));
    assert_eq!(restore_destination(&ok[0], None, HOME).unwrap(), b"/mnt/a/x".to_vec());
}

#[test]
fn orphans_need_a_target() {
    let v = store(vec![], vec!["x"], None);
    assert!(matches!(restore_destination(&v[0], None, HOME), Err(TrashError::Refused(_))));
    assert!(restore_destination(&v[0], Some(b"/w/x"), HOME).is_ok());
}

#[test]
fn compress_and_restore_roundtrip() {
    let content = "hello world! ".repeat(1000);
    let compressed = pack(content.as_bytes()).unwrap();
    assert!(compressed.len() < content.len(), "should compress");
    assert!(is_zstd(&compressed));
    match unpack(Some("zstd"), &compressed) {
        Unpacked::Bytes(b) => assert_eq!(b, content.as_bytes(), "content should match after decompress"),
        other => panic!("unexpected {other:?}"),
    }
}

#[test]
fn restore_does_not_decompress_unmarked_zstd_file() {
    let original = zstd::encode_all(b"the user's real data".as_slice(), 3).unwrap();
    assert!(is_zstd(&original));
    assert!(
        matches!(unpack(None, &original), Unpacked::AsIs),
        "a genuine .zst (no compression marker) must not be decompressed"
    );
}

#[test]
fn marked_contents_that_are_not_packed() {
    assert!(matches!(unpack(Some("zstd"), b"plain text"), Unpacked::AsIs));
    let broken = [0x28u8, 0xb5, 0x2f, 0xfd, 1, 2, 3];
    assert!(matches!(unpack(Some("zstd"), &broken), Unpacked::Corrupt));
}

#[test]
fn hexadecimal() {
    assert_eq!(to_hex(&[0, 0x0f, 0xab]), "000fab");
    assert_eq!(xxh3_text(0x1f), "0000000000000000000000000000001f");
}

#[test]
fn hashes_are_compared() {
    let h = |s: &str| Some(s.to_string());
    assert!(check_hash(&None, true, h("a"), h("b")).is_none());
    assert!(check_hash(&h("a"), true, h("a"), h("b")).is_none());
    assert!(check_hash(&h("b"), true, h("a"), h("b")).is_none());
    assert!(check_hash(&h("c"), false, h("a"), h("b")).is_none());
    assert_eq!(check_hash(&h("c"), true, h("a"), h("b")), Some(("c".to_string(), "a".to_string())));
}

#[test]
fn purge_permanently_deletes() {
    assert_eq!(purge_step(Some(Kind::Dir)), PurgeStep::RemoveTree);
    assert_eq!(purge_step(Some(Kind::Symlink)), PurgeStep::RemoveFile);
    assert_eq!(purge_step(None), PurgeStep::Nothing);
    assert!(forget_record(PurgeStep::RemoveFile, true));
    assert!(!forget_record(PurgeStep::RemoveFile, false));
    assert!(forget_record(PurgeStep::Nothing, false));
}

#[test]
fn ids_and_paths() {
    assert_eq!(info_id("a.b.trashinfo").as_deref(), Some("a.b"));
    assert_eq!(info_id("a.txt"), None);
    assert_eq!(path_of_data(b"/t", "x"), b"/t/files/x".to_vec());
    assert_eq!(path_of_record(b"/t", "x"), b"/t/info/x.trashinfo".to_vec());
}

#[test]
fn errors_are_told() {
    assert_eq!(TrashError::NotFound(b"/a".to_vec()).message(), "path does not exist: /a");
    assert_eq!(
        TrashError::TooLarge { path: b"/a".to_vec(), size_mb: 2, limit_mb: 1 }.message(),
        "file too large (2 MB > 1 MB limit): /a"
    );
    assert_eq!(
        TrashError::AmbiguousMatch { pattern: "x".into(), count: 2 }.message(),
        "multiple matches for 'x': 2 items (use trash ID for exact match)"
    );
}

#[test]
fn what_was_trashed_is_restored_where_it_stood() {
    let places: [(&[u8], &[u8]); 3] = [
        (HOME, b"/home/u/a b/\xff.txt"),
        (b"/mnt/usb/.Trash-1000", b"/mnt/usb/docs/r.txt"),
        (b"/mnt/usb/.Trash/1000", b"/mnt/usb/docs/./r.txt"),
    ];
    for (trash, path) in places {
        let recorded = path_to_record(trash, HOME, path);
        let text = build_info(recorded, Moment::now(), Some("rm r.txt"), 7, &file(3), 0, None).to_trashinfo_string();
        let read = TrashInfo::from_trashinfo(&text);
        assert!(read.is_some());
        let infos = vec![InfoFile { name: "r.txt.trashinfo".into(), info: read }];
        let v = list_in_dir(trash, infos, &vec!["r.txt".to_string()], None, Moment::now());
        assert_eq!(v.len(), 1);
        assert_eq!(v[0].trashed_path, path_of_data(trash, "r.txt"));
        assert_eq!(v[0].info_path, path_of_record(trash, "r.txt"));
        let to = restore_destination(&v[0], None, HOME).unwrap();
        assert!(path_eq(&to, path));
    }
}
