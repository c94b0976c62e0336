use trashd::dates::{LocalTime, Moment};
use trashd::job::Kind;
use trashd::mounts::{
    all_trash_dirs, check_shared_trash, device_id_or_parent, find_mount_point, home_trash_dir, is_own_dir,
    list_mounts, makeshift_home_dir, own_trash_path, same_filesystem, shared_trash_path, trash_dir_for_path, unescape_octal, MountPoint, MountTrash,
    SharedTrash,
};
use trashd::oplog::{log_empty, log_line, log_path, log_purge, log_restore, log_trash, read_log};
use trashd::report::{
    compress_wanted, cutoff_from, disk_label, entry_mentions, format_size, free_number, info_choice, info_problem,
    instant_back, is_yes,
    kind_text, largest_first, list_row, next_pack, parse_duration_days, parse_time_spec, renamed_path, repair_data,
    repair_info, several_disks, shown_size, total_chosen, total_recorded, truncate_path, within, InfoProblem, PackStep,
    Repair,
};
use trashd::retention::{
    count_set, empty_filter, empty_selection, expired, freed_size, held_size, purge_due, purge_notice, relieved, status, status_size,
    status_per_partition, trimmed, usage_parts, wants_compression,
};
use trashd::sorting::sort;
use trashd::store::{list, list_in_dir, newest_first, DirContents, InfoFile, TrashEntry};
use trashd::trashinfo::TrashInfo;

const HOME: &[u8] = b"/home/u/.local/share/Trash";

const DAY: i64 = 86_400;

fn at(secs: i64) -> Moment {
    Moment { secs, nanos: 0, offset: 0 }
}

fn entries_in(root: &[u8], items: &[(&str, &str, i64, Option<u64>)]) -> Vec<TrashEntry> {
    let infos = items
        .iter()
        .map(|(id, path, secs, size)| {
            let mut i = TrashInfo::at(path.as_bytes().to_vec(), at(*secs));
            i.size = *size;
            InfoFile { name: format!("{id}.trashinfo"), info: Some(i) }
        })
        .collect();
    list_in_dir(root, infos, &vec![], None, at(0))
}

fn entries(items: &[(&str, &str, i64, Option<u64>)]) -> Vec<TrashEntry> {
    newest_first(entries_in(HOME, items))
}

#[test]
fn retention_zero_disables_limits_not_wipes_trash() {
    let v = entries(&[
        ("keep0.txt", "/w/keep0.txt", 0, Some(4)),
        ("keep1.txt", "/w/keep1.txt", 0, Some(4)),
        ("keep2.txt", "/w/keep2.txt", 0, Some(4)),
    ]);
    let gone = expired(&v, &at(1000 * DAY), 0);
    assert_eq!(count_set(&gone), 0);
    let gone = trimmed(&vec![4, 4, 4], &vec![4, 4, 4], &gone, 0);
    assert_eq!(count_set(&gone), 0);
    let gone = relieved(&gone, false);
    assert_eq!(count_set(&gone), 0, "retention=0 must NOT purge the trash");
}

#[test]
fn old_items_expire() {
    let v = entries(&[("old", "/w/old", 0, None), ("new", "/w/new", 9 * DAY, None)]);
    assert_eq!(v[0].id, "new");
    assert_eq!(expired(&v, &at(10 * DAY), 5), vec![false, true]);
}

#[test]
fn the_oldest_are_trimmed_first() {
    assert_eq!(trimmed(&vec![10, 10, 10], &vec![10, 10, 10], &vec![false; 3], 20), vec![false, false, true]);
    assert_eq!(trimmed(&vec![10, 10, 10], &vec![10, 10, 10], &vec![false; 3], 30), vec![false; 3]);
    assert_eq!(trimmed(&vec![10, 10, 10], &vec![10, 10, 10], &vec![false, false, true], 20), vec![false, false, true]);
    assert_eq!(trimmed(&vec![10, 10, 10], &vec![10, 10, 10], &vec![false; 3], 5), vec![true; 3]);
    assert_eq!(trimmed(&vec![10, 0], &vec![10, 5], &vec![false; 2], 12), vec![false; 2]);
    assert_eq!(trimmed(&vec![10, 0], &vec![10, 5], &vec![false; 2], 8), vec![false, true]);
}

#[test]
fn pressure_takes_a_tenth_and_at_least_one() {
    assert_eq!(count_set(&relieved(&vec![false; 30], true)), 3);
    assert_eq!(relieved(&vec![false; 3], true), vec![false, false, true]);
    assert_eq!(count_set(&relieved(&vec![false; 30], false)), 0);
}

#[test]
fn sizes_for_retention() {
    assert_eq!(held_size(Some(Kind::Dir), 4096, Some(7)), 7);
    assert_eq!(held_size(Some(Kind::Dir), 4096, None), 4096);
    assert_eq!(held_size(Some(Kind::File), 10, Some(7)), 10);
    assert_eq!(held_size(None, 0, Some(7)), 0);
    assert_eq!(freed_size(Some(Kind::Dir), 4096, Some(7)), 7);
    assert_eq!(freed_size(Some(Kind::Symlink), 10, Some(7)), 10);
    assert_eq!(freed_size(None, 0, Some(7)), 7);
    assert_eq!(status_size(Some(4096), Some(7)), 4096);
    assert_eq!(status_size(None, Some(7)), 7);
    assert_eq!(status_size(None, None), 0);
}

#[test]
fn purges_are_throttled() {
    assert!(purge_due(0, Some(0)));
    assert!(!purge_due(60, Some(59)));
    assert!(purge_due(60, Some(60)));
    assert!(purge_due(60, None));
}

#[test]
fn old_files_are_compressed() {
    let v = entries(&[("a", "/w/a", 0, None)]);
    let now = at(8 * DAY);
    assert!(wants_compression(&v[0], &now, false, Some(Kind::File), 2048));
    assert!(!wants_compression(&v[0], &now, true, Some(Kind::File), 2048));
    assert!(!wants_compression(&v[0], &now, false, Some(Kind::Dir), 2048));
    assert!(!wants_compression(&v[0], &now, false, Some(Kind::File), 100));
    assert!(!wants_compression(&v[0], &at(DAY), false, Some(Kind::File), 2048));
    assert!(compress_wanted(&v[0], &now, 7, Some(Kind::File), 2048, false));
    assert!(!compress_wanted(&v[0], &now, 7, Some(Kind::File), 2048, true));
    assert!(!compress_wanted(&v[0], &now, 9, Some(Kind::File), 2048, false));
}

#[test]
fn usage_of_a_disk() {
    assert_eq!(usage_parts(100, 40, 20), Some((60, 80)));
    assert_eq!(usage_parts(0, 0, 0), None);
}

#[test]
fn purges_are_told() {
    assert_eq!(purge_notice(1), "1 item permanently deleted by retention policy");
    assert_eq!(purge_notice(2), "2 items permanently deleted by retention policy");
}

#[test]
fn empty_with_age_filter() {
    let v = entries(&[("old.txt", "/w/old.txt", 0, None)]);
    assert_eq!(empty_selection(&v, &at(10), Some(1)).len(), 0);
    assert_eq!(empty_selection(&v, &at(10), None), vec![0]);
    assert_eq!(empty_filter(Some(7)).as_deref(), Some("older than 7d"));
    assert_eq!(empty_filter(None), None);
}

#[test]
fn empty_clears_all() {
    let items: Vec<(String, String)> = (0..5).map(|i| (format!("f{i}.txt"), format!("/w/f{i}.txt"))).collect();
    let rows: Vec<(&str, &str, i64, Option<u64>)> =
        items.iter().map(|(a, b)| (a.as_str(), b.as_str(), 0, None)).collect();
    let v = entries(&rows);
    assert_eq!(empty_selection(&v, &at(0), None).len(), 5);
}

#[test]
fn status_reports_size_and_count() {
    assert_eq!(status(&vec![5]), (5, 1));
    assert_eq!(status(&vec![]), (0, 0));
    let mut v = entries_in(HOME, &[("a", "/w/a", 0, None), ("b", "/w/b", 0, None)]);
    v.extend(entries_in(b"/mnt/.Trash-1", &[("c", "c", 0, None)]));
    let dirs = vec![(HOME.to_vec(), "Home".to_string()), (b"/mnt/.Trash-1".to_vec(), "/mnt (ext4)".to_string())];
    let p = status_per_partition(&dirs, &v, &vec![1, 2, 40]);
    assert_eq!(p.len(), 2);
    assert_eq!(p.iter().map(|s| s.total_size).sum::<u64>(), 43);
    let home = p.iter().find(|s| s.trash_dir == HOME).unwrap();
    assert_eq!((home.count, home.total_size, home.label.as_str()), (2, 3, "Home"));
}

#[test]
fn mounts_are_read() {
    let content = "/dev/sda1 / ext4 rw 0 0\nproc /proc proc rw 0 0\n/dev/sdb1 /mnt/my\\040disk vfat rw 0 0\n";
    let ms = list_mounts(content);
    assert_eq!(ms.len(), 2);
    assert_eq!(ms[0].path, b"/mnt/my disk".to_vec());
    assert_eq!(ms[1].path, b"/".to_vec());
    assert_eq!(find_mount_point(&ms, b"/mnt/my disk/a"), Some(0));
    assert_eq!(find_mount_point(&ms, b"/home"), Some(1));
    assert_eq!(find_mount_point(&vec![], b"/home"), None);
    let c: Vec<char> = "a\\134b\\9".chars().collect();
    assert_eq!(unescape_octal(&c), "a\\b\\9");
}

#[test]
fn devices() {
    assert_eq!(device_id_or_parent(None, Some(2)), Some(2));
    assert_eq!(device_id_or_parent(Some(1), Some(2)), Some(1));
    assert!(same_filesystem(Some(1), Some(1)));
    assert!(!same_filesystem(Some(1), Some(2)));
    assert!(!same_filesystem(None, None));
}

const SHARED: SharedTrash = SharedTrash { symlink: false, dir: true, mode: 0o41777, usable: true };

#[test]
fn shared_trash_must_be_sticky() {
    assert!(check_shared_trash(Some(SHARED)));
    assert!(!check_shared_trash(Some(SharedTrash { mode: 0o40777, ..SHARED })));
    assert!(!check_shared_trash(Some(SharedTrash { symlink: true, ..SHARED })));
    assert!(!check_shared_trash(Some(SharedTrash { usable: false, ..SHARED })));
    assert!(!check_shared_trash(None));
}

#[test]
fn trash_of_a_path() {
    assert_eq!(shared_trash_path(b"/mnt", 5), b"/mnt/.Trash/5".to_vec());
    assert_eq!(own_trash_path(b"/mnt", 5), b"/mnt/.Trash-5".to_vec());
    assert_eq!(trash_dir_for_path(HOME, Some(1), Some(1), Some(b"/mnt"), Some(SHARED), 5), HOME.to_vec());
    assert_eq!(trash_dir_for_path(HOME, Some(2), Some(1), Some(b"/mnt"), Some(SHARED), 5), b"/mnt/.Trash/5".to_vec());
    assert_eq!(trash_dir_for_path(HOME, Some(2), Some(1), Some(b"/mnt"), None, 5), b"/mnt/.Trash-5".to_vec());
    assert_eq!(trash_dir_for_path(HOME, Some(2), Some(1), None, None, 5), HOME.to_vec());
    assert_eq!(home_trash_dir(Some(b"/d"), None, 5), b"/d/Trash".to_vec());
    assert_eq!(home_trash_dir(None, Some(b"/home/u"), 5), HOME.to_vec());
    assert_eq!(home_trash_dir(None, None, 5), b"/tmp/trashd-5/.local/share/Trash".to_vec());
    assert_eq!(makeshift_home_dir(1000), b"/tmp/trashd-1000".to_vec());
}

#[test]
fn own_directories() {
    assert!(is_own_dir(Some((true, 5)), false, 5));
    assert!(!is_own_dir(Some((true, 6)), true, 5));
    assert!(!is_own_dir(Some((false, 5)), true, 5));
    assert!(is_own_dir(None, true, 5));
    assert!(!is_own_dir(None, false, 5));
}

#[test]
fn all_places_of_trash() {
    let m = |path: &str, on_home: bool| MountTrash {
        mount: MountPoint { device: "d".into(), path: path.as_bytes().to_vec(), fstype: "ext4".into() },
        on_home,
        shared: Some(SHARED),
        shared_is_dir: true,
        own_is_dir: true,
    };
    let v = all_trash_dirs(HOME, &vec![m("/", true), m("/mnt", false)], 5);
    let dirs: Vec<&[u8]> = v.iter().map(|p| p.0.as_slice()).collect();
    assert_eq!(dirs, vec![HOME, b"/mnt/.Trash/5", b"/mnt/.Trash-5"]);
    assert_eq!(v[1].1, "/mnt (ext4)");
}

#[test]
fn operations_are_logged() {
    assert_eq!(log_trash(b"/a", "id", None), "TRASH id=id path=/a cmd=-");
    assert_eq!(log_trash(b"/a", "id", Some("rm a")), "TRASH id=id path=/a cmd=rm a");
    assert_eq!(log_restore("id", b"/b"), "RESTORE id=id to=/b");
    assert_eq!(log_purge("id"), "PURGE id=id");
    assert_eq!(log_empty(3, None), "EMPTY count=3 filter=all");
    assert_eq!(log_line(&at(0), 9, "X"), "1970-01-01T00:00:00 pid=9 X\n");
    assert_eq!(read_log("a\nb\nc\n", 2), vec!["b", "c"]);
    assert_eq!(log_path(HOME), b"/home/u/.local/share/Trash/.trashd/operations.log".to_vec());
}

#[test]
fn sizes_are_shown() {
    assert_eq!(format_size(0), "0 B");
    assert_eq!(format_size(1023), "1023 B");
    assert_eq!(format_size(1024), "1.0 KB");
    assert_eq!(format_size(1536), "1.5 KB");
    assert_eq!(format_size(1_048_576), "1.0 MB");
    assert_eq!(format_size(5 * 1_073_741_824), "5.0 GB");
    assert_eq!(format_size(u64::MAX), format!("{:.1} GB", u64::MAX as f64 / 1_073_741_824.0));
    for n in [1, 1000, 1100, 1127, 1126, 1280, 2_000_000, 123_456_789, 9_007_199_254_740_993u64, u64::MAX - 1024] {
        let expected = if n >= 1_073_741_824 {
            format!("{:.1} GB", n as f64 / 1_073_741_824.0)
        } else if n >= 1_048_576 {
            format!("{:.1} MB", n as f64 / 1_048_576.0)
        } else if n >= 1024 {
            format!("{:.1} KB", n as f64 / 1024.0)
        } else {
            format!("{n} B")
        };
        assert_eq!(format_size(n), expected);
    }
    assert_eq!(shown_size(None), "?");
}

#[test]
fn durations() {
    assert_eq!(parse_duration_days("7d"), Some(7));
    assert_eq!(parse_duration_days(" 2w "), Some(14));
    assert_eq!(parse_duration_days("30"), Some(30));
    assert_eq!(parse_duration_days("x"), None);
    assert_eq!(parse_duration_days("4294967295w"), None);
}

#[test]
fn cutoffs() {
    let now = at(10 * DAY);
    let back = |s: &str| parse_time_spec(s, &now).map(|m| (m.secs, m.nanos));
    assert_eq!(back("1h"), Some((10 * DAY - 3600, 0)));
    assert_eq!(back("30m"), Some((10 * DAY - 1800, 0)));
    assert_eq!(back("2d"), Some((8 * DAY, 0)));
    assert_eq!(back("1w"), Some((3 * DAY, 0)));
    assert_eq!(back("nonsense"), None);
    let d = parse_time_spec("2026-03-20", &now).unwrap();
    assert_eq!(d.format("%Y-%m-%d %H:%M:%S"), "2026-03-20 00:00:00");
    let d = parse_time_spec("2026-03-20T14:00", &now).unwrap();
    assert_eq!(d.format("%Y-%m-%d %H:%M:%S"), "2026-03-20 14:00:00");
    let d = parse_time_spec(" 2026-03-20T14:00:30", &now).unwrap();
    assert_eq!(d.format("%Y-%m-%d %H:%M:%S"), "2026-03-20 14:00:30");
    assert!(within(&at(5), Some(at(5)), Some(at(5))));
    assert!(!within(&at(4), Some(at(5)), None));
    assert!(!within(&at(6), None, Some(at(5))));
}

#[test]
fn cutoffs_have_the_offset_of_their_own_time() {
    let now = at(1_784_000_000);
    let m = parse_time_spec("200d", &now).unwrap();
    let then = chrono::DateTime::from_timestamp(m.secs, 0).unwrap().with_timezone(&chrono::Local);
    assert_eq!(m.offset, then.offset().local_minus_utc());
    assert_eq!(
        cutoff_from("200d", &now, LocalTime::Gap, 3600),
        Some(Moment { secs: 1_784_000_000 - 200 * DAY, nanos: 0, offset: 3600 })
    );
    assert_eq!(cutoff_from("9999999999d", &now, LocalTime::Gap, 0), None);
    assert_eq!(cutoff_from("2026-03-20", &now, LocalTime::Single(at(7)), 0), Some(at(7)));
    assert_eq!(cutoff_from("2026-03-20", &now, LocalTime::Ambiguous(at(7), at(8)), 0), None);
}

#[test]
fn cutoffs_from_a_leap_second() {
    let now = Moment { secs: 119, nanos: 1_500_000_000, offset: 0 };
    let back = |s: &str| instant_back(s, &now);
    assert_eq!(back("1m"), Some((60, 500_000_000)));
    assert_eq!(back("-1m"), Some((179, 500_000_000)));
    assert_eq!(back("0m"), Some((119, 1_500_000_000)));
    assert_eq!(back("nonsense"), None);
}

fn filled(gone: &[(String, Vec<u8>)]) -> Vec<DirContents> {
    let dir = |trash: &[u8], items: &[(&str, i64)], orphans: &[&str]| {
        let stays = |id: &str| !gone.contains(&(id.to_string(), trash.to_vec()));
        let kept: Vec<(&str, i64)> = items.iter().copied().filter(|(id, _)| stays(id)).collect();
        let mut files: Vec<String> = kept.iter().map(|(id, _)| id.to_string()).collect();
        files.extend(orphans.iter().filter(|id| stays(id)).map(|id| id.to_string()));
        let infos = kept
            .iter()
            .map(|(id, secs)| InfoFile {
                name: format!("{id}.trashinfo"),
                info: Some(TrashInfo::at(id.as_bytes().to_vec(), at(*secs))),
            })
            .collect();
        DirContents { trash: trash.to_vec(), infos, files }
    };
    vec![
        dir(HOME, &[("old", 0), ("new", 9 * DAY), ("both", 0)], &["lost"]),
        dir(b"/mnt/.Trash-1", &[("both", 9 * DAY), ("same", 9 * DAY)], &[]),
    ]
}

#[test]
fn emptying_leaves_what_does_not_go() {
    let now = at(10 * DAY);
    let key = |v: &[TrashEntry]| -> Vec<(String, Vec<u8>)> {
        v.iter().map(|e| (e.id.clone(), e.trash_root.clone())).collect()
    };
    for days in [Some(7), Some(0), Some(1), Some(100), None] {
        let all = list(filled(&[]), None, now);
        let chosen = empty_selection(&all, &now, days);
        let gone: Vec<(String, Vec<u8>)> = chosen.iter().map(|&i| key(&all)[i].clone()).collect();
        let rest = list(filled(&gone), None, now);
        let expected: Vec<(String, Vec<u8>)> = key(&all).into_iter().filter(|k| !gone.contains(k)).collect();
        assert_eq!(key(&rest), expected);
        assert_eq!(all.len() - rest.len(), chosen.len());
    }
    let all = list(filled(&[]), None, now);
    assert_eq!(empty_selection(&all, &now, Some(7)).len(), 2);
    assert_eq!(empty_selection(&all, &now, Some(1)).len(), 5);
    assert_eq!(empty_selection(&all, &now, None).len(), 6);
}

#[test]
fn partitions_add_up() {
    let dirs = vec![(HOME.to_vec(), "home".to_string()), (b"/mnt/.Trash-1".to_vec(), "usb".to_string())];
    let mut v = entries(&[("a", "/w/a", 0, None), ("b", "/w/b", 60, None)]);
    v.extend(entries_in(b"/mnt/.Trash-1/", &[("c", "c", 0, None)]));
    let sizes = vec![5, 6, 70];
    let parts = status_per_partition(&dirs, &v, &sizes);
    let (size, count) = status(&sizes);
    assert_eq!(parts.iter().map(|p| p.total_size).sum::<u64>(), size);
    assert_eq!(parts.iter().map(|p| p.count).sum::<usize>(), count);
    assert_eq!(parts.iter().map(|p| p.total_size).collect::<Vec<_>>(), vec![70, 11]);
}

#[test]
fn long_paths_are_shortened() {
    assert_eq!(truncate_path("/short", 10), "/short");
    assert_eq!(truncate_path("/a/very/long/path", 10), ".../path".replace("/path", "ng/path"));
    assert_eq!(truncate_path("abc", 3), "abc");
    assert_eq!(truncate_path("ab", 2), "ab");
    assert_eq!(truncate_path("", 0), "");
}

#[test]
fn answers() {
    for y in ["y", "Y", "yes", "Yes", "YES", " y\n"] {
        assert!(is_yes(y));
    }
    for n in ["", "n", "yep", "yES"] {
        assert!(!is_yes(n));
    }
}

#[test]
fn kinds_are_shown() {
    assert_eq!(kind_text(Some(Kind::Dir)), "directory");
    assert_eq!(kind_text(Some(Kind::Symlink)), "symlink");
    assert_eq!(kind_text(Some(Kind::Fifo)), "file");
    assert_eq!(kind_text(None), "missing");
}

#[test]
fn rows_and_totals() {
    let v = entries(&[("a", "/w/a", 0, Some(10)), ("b", "/w/b", 60, Some(2048)), ("c", "/w/c", 120, None)]);
    assert_eq!(total_recorded(&v), 2058);
    assert_eq!(total_chosen(&v, &vec![1]), 2048);
    let w = largest_first(&v);
    assert_eq!(w.iter().map(|x| x.size).collect::<Vec<_>>(), vec![2048, 10, 0]);
    let row = list_row(&v[1], HOME, false);
    assert_eq!((row.date.as_str(), row.size.as_str(), row.path.as_str(), row.id.as_str()), (
        "1970-01-01 00:01",
        "2.0 KB",
        "/w/b",
        "b"
    ));
    assert!(row.disk.is_none());
    assert_eq!(list_row(&v[1], HOME, true).disk.as_deref(), Some("home"));
    assert!(!several_disks(&v, HOME));
    assert_eq!(disk_label(b"/mnt/usb/.Trash-5", HOME), "usb");
    assert!(entry_mentions(&v[0], "/w/"));
    assert!(!entry_mentions(&v[0], "zzz"));
    assert_eq!(info_choice("b", &v), Some(1));
    assert_eq!(info_choice("zzz", &v), None);
    assert_eq!(sort(w).len(), 3);
}

#[test]
fn renaming_finds_a_free_number() {
    assert_eq!(renamed_path(b"/w/a", 3), b"/w/a.3".to_vec());
    assert_eq!(renamed_path(b"/w/\xff", 12), b"/w/\xff.12".to_vec());
    assert_eq!(free_number(&vec![true, true, false]), Some(3));
    assert_eq!(free_number(&vec![true]), None);
}

#[test]
fn packing_marks_before_it_swaps() {
    assert_eq!(next_pack(PackStep::Write, true, true), PackStep::Mark);
    assert_eq!(next_pack(PackStep::Write, true, false), PackStep::Discard);
    assert_eq!(next_pack(PackStep::Mark, true, true), PackStep::Swap);
    assert_eq!(next_pack(PackStep::Swap, false, true), PackStep::Unmark);
    assert_eq!(next_pack(PackStep::Swap, true, true), PackStep::Packed);
}

#[test]
fn fix_preserves_data_on_corrupt_trashinfo() {
    let readable = TrashInfo::from_trashinfo("GARBAGE not a header\n");
    assert!(readable.is_none());
    let p = info_problem(true, true, readable.is_some());
    assert_eq!(p, InfoProblem::Corrupt);
    let r = repair_info(p, true);
    assert_eq!(r, Repair::Report);
    assert_ne!(r, Repair::RemoveData, "data file must be preserved when its metadata is corrupt");
}

#[test]
fn repairs_need_consent() {
    assert_eq!(repair_info(InfoProblem::NoData, true), Repair::RemoveInfo);
    assert_eq!(repair_info(InfoProblem::NoData, false), Repair::Nothing);
    assert_eq!(repair_data(false, true, true), Repair::RemoveData);
    assert_eq!(repair_data(false, true, false), Repair::Nothing);
    assert_eq!(repair_data(true, true, true), Repair::Nothing);
}
