use trashd::dates::{age_days, choose_moment, date_hour_later, local_time, resolve, LocalTime, Moment};
use trashd::directorysizes::{decode_name, dir_size_bytes, encode_name, read_cache, write_cache, DirSizeEntry};
use trashd::percent::{decode, encode, Alphabet};
use trashd::trashinfo::{decode_path, encode_path, parse, strip_control, TrashInfo};

#[test]
fn round_trip_simple_path() {
    let info = TrashInfo {
        original_path: b"/home/user/Documents/report.pdf".to_vec(),
        deletion_date: Moment::now(),
        command: Some("rm report.pdf".into()),
        pid: Some(1234),
        size: Some(4096),
        sha256: Some("abcdef1234567890".into()),
        compressed: None,
    };
    let serialized = info.to_trashinfo_string();
    let parsed = TrashInfo::from_trashinfo(&serialized).expect("should parse");
    assert_eq!(parsed.original_path, info.original_path);
    assert_eq!(parsed.command, info.command);
    assert_eq!(parsed.pid, info.pid);
    assert_eq!(parsed.size, info.size);
    assert_eq!(parsed.sha256, info.sha256);
}

#[test]
fn round_trip_path_with_spaces() {
    let info = TrashInfo::new(b"/home/user/My Documents/file name.txt".to_vec());
    let serialized = info.to_trashinfo_string();
    let parsed = TrashInfo::from_trashinfo(&serialized).unwrap();
    assert_eq!(parsed.original_path, info.original_path);
}

#[test]
fn round_trip_path_with_unicode() {
    let info = TrashInfo::new("/home/user/文档/日本語ファイル.txt".as_bytes().to_vec());
    let serialized = info.to_trashinfo_string();
    let parsed = TrashInfo::from_trashinfo(&serialized).unwrap();
    assert_eq!(parsed.original_path, info.original_path);
}

#[test]
fn round_trip_path_with_equals() {
    let info = TrashInfo::new(b"/home/user/key=value.conf".to_vec());
    let serialized = info.to_trashinfo_string();
    assert!(!serialized.contains("Path=/home/user/key=value"));
    assert!(serialized.contains("%3D"));
    let parsed = TrashInfo::from_trashinfo(&serialized).unwrap();
    assert_eq!(parsed.original_path, info.original_path);
}

#[test]
fn round_trip_path_with_percent() {
    let info = TrashInfo::new(b"/home/user/100%done.txt".to_vec());
    let serialized = info.to_trashinfo_string();
    let parsed = TrashInfo::from_trashinfo(&serialized).unwrap();
    assert_eq!(parsed.original_path, info.original_path);
}

#[test]
fn round_trip_path_that_is_no_text() {
    let info = TrashInfo::new(b"/home/user/caf\xe9 \xff.txt".to_vec());
    let serialized = info.to_trashinfo_string();
    assert!(serialized.contains("Path=/home/user/caf%E9%20%FF.txt\n"));
    let parsed = TrashInfo::from_trashinfo(&serialized).unwrap();
    assert_eq!(parsed.original_path, info.original_path);
}

#[test]
fn parse_minimal_trashinfo() {
    let content = "[Trash Info]\nPath=/tmp/test.txt\nDeletionDate=2026-03-20T14:30:00\n";
    let info = TrashInfo::from_trashinfo(content).unwrap();
    assert_eq!(info.original_path, b"/tmp/test.txt".to_vec());
    assert!(info.command.is_none());
    assert!(info.pid.is_none());
    assert!(info.size.is_none());
    assert!(info.sha256.is_none());
}

#[test]
fn parse_with_extensions() {
    let content = "\
[Trash Info]
Path=/home/user/file.txt
DeletionDate=2026-03-20T14:30:00
X-Trashd-Command=rm -rf file.txt
X-Trashd-PID=42
X-Trashd-Size=1024
X-Trashd-SHA256=deadbeef
";
    let info = TrashInfo::from_trashinfo(content).unwrap();
    assert_eq!(info.command.as_deref(), Some("rm -rf file.txt"));
    assert_eq!(info.pid, Some(42));
    assert_eq!(info.size, Some(1024));
    assert_eq!(info.sha256.as_deref(), Some("deadbeef"));
}

#[test]
fn parse_missing_path_returns_none() {
    let content = "[Trash Info]\nDeletionDate=2026-03-20T14:30:00\n";
    assert!(TrashInfo::from_trashinfo(content).is_none());
}

#[test]
fn parse_missing_date_returns_none() {
    let content = "[Trash Info]\nPath=/tmp/test.txt\n";
    assert!(TrashInfo::from_trashinfo(content).is_none());
}

#[test]
fn encode_decode_path_preserves_special_chars() {
    let original = b"/path/to/file with spaces & symbols=yes!.txt".to_vec();
    let encoded = encode_path(&original);
    let decoded = decode_path(&encoded);
    assert_eq!(decoded, original);
}

#[test]
fn trashinfo_format_matches_spec() {
    let info = TrashInfo::new(b"/home/user/test.txt".to_vec());
    let s = info.to_trashinfo_string();
    assert!(s.starts_with("[Trash Info]\n"));
    assert!(s.contains("Path="));
    assert!(s.contains("DeletionDate="));
    let date_line = s.lines().find(|l| l.starts_with("DeletionDate=")).unwrap();
    let date_val = date_line.strip_prefix("DeletionDate=").unwrap();
    assert_eq!(date_val.len(), 19);
}

#[test]
fn record_is_written_exactly() {
    let info = TrashInfo {
        original_path: b"/a b".to_vec(),
        deletion_date: Moment { secs: 1_000_000_000, nanos: 5, offset: 3600 },
        command: Some("rm\n'a b'".into()),
        pid: Some(7),
        size: Some(0),
        sha256: None,
        compressed: Some("zstd".into()),
    };
    assert_eq!(
        info.to_trashinfo_string(),
        "[Trash Info]\nPath=/a%20b\nDeletionDate=2001-09-09T02:46:40\nX-Trashd-Command=rm'a b'\n\
         X-Trashd-PID=7\nX-Trashd-Size=0\nX-Trashd-Compressed=zstd\n"
    );
}

#[test]
fn repeated_fields() {
    let content = "[Trash Info]\nPath=/one\nPath=/two\nDeletionDate=2026-03-20T14:30:00\n\
                   X-Trashd-PID=1\nX-Trashd-PID=2\n";
    let raw = parse(content).unwrap();
    assert_eq!(raw.original_path, b"/two".to_vec());
    assert_eq!(raw.pid, Some(1));
    assert_eq!(raw.wall, (1_774_017_000, 0));
}

#[test]
fn addresses_are_read_only_where_absolute() {
    assert_eq!(decode_path("localhost/x"), b"localhost/x".to_vec());
    assert_eq!(decode_path("a%20b"), b"a b".to_vec());
    assert_eq!(decode_path("x%2"), b"x ".to_vec());
}

#[test]
fn control_characters_are_stripped() {
    let c: Vec<char> = "a\tb\u{7f}c\u{85}d".chars().collect();
    assert_eq!(strip_control(&c), "abcd");
}

#[test]
fn percent_alphabets() {
    assert_eq!(encode(Alphabet::Path, b"/a~b%"), "/a~b%25");
    assert_eq!(decode("%2Fx%zz%"), b"/x\0".to_vec());
    let all: Vec<u8> = (0..=255u8).collect();
    assert_eq!(decode(&encode(Alphabet::Path, &all)), all);
    assert_eq!(decode(&encode(Alphabet::Name, &all)), all);
}

#[test]
fn directory_sizes_read_back() {
    let rows = vec![
        DirSizeEntry { size: 4096, mtime: 1_700_000_000, name: "my dir".into() },
        DirSizeEntry { size: 0, mtime: -5, name: "100%".into() },
    ];
    let text = write_cache(&rows);
    let back = read_cache(&text);
    assert_eq!(back.len(), 2);
    for r in &rows {
        assert!(back.iter().any(|b| b.size == r.size && b.mtime == r.mtime && b.name == r.name));
    }
    assert_eq!(write_cache(&vec![]), "\n");
    assert_eq!(read_cache("").len(), 0);
    assert_eq!(read_cache("12 notime name\n").len(), 0);
}

#[test]
fn directory_names_read_back() {
    assert_eq!(encode_name("a b%c"), "a%20b%25c");
    assert_eq!(decode_name(&encode_name("a b\n%c")), "a b\n%c");
}

#[test]
fn directory_size_counts_blocks() {
    assert_eq!(dir_size_bytes(&vec![]), 0);
    assert_eq!(dir_size_bytes(&vec![8, 1]), 9 * 512);
}

#[test]
fn moments_are_formatted() {
    let m = Moment { secs: 0, nanos: 0, offset: -3600 };
    assert_eq!(m.format("%Y-%m-%dT%H:%M:%S"), "1969-12-31T23:00:00");
    assert_eq!(m.format("%Y%m%d%H%M%S"), "19691231230000");
    assert_eq!(m.format("%Y-%m-%d %H:%M"), "1969-12-31 23:00");
}

#[test]
fn ages_are_whole_days() {
    let a = Moment { secs: 0, nanos: 0, offset: 0 };
    let b = Moment { secs: 86_400 * 3 - 1, nanos: 0, offset: 0 };
    assert_eq!(age_days(&a, &b), 2);
    assert_eq!(age_days(&b, &a), -2);
    assert!(a.before(&b) && !b.before(&a) && !a.before(&a));
}

#[test]
fn local_times_are_chosen() {
    let a = Moment { secs: 1, nanos: 0, offset: 0 };
    let b = Moment { secs: 2, nanos: 0, offset: 0 };
    assert_eq!(choose_moment(LocalTime::Single(a), LocalTime::Gap), Some(a));
    assert_eq!(choose_moment(LocalTime::Ambiguous(a, b), LocalTime::Gap), Some(b));
    assert_eq!(choose_moment(LocalTime::Gap, LocalTime::Gap), None);
}

#[test]
fn an_hour_later() {
    assert_eq!(date_hour_later(59, 5), Some((3659, 5)));
    assert_eq!(date_hour_later(59, 1_000_000_005), Some((3659, 5)));
    assert_eq!(date_hour_later(8_210_266_876_799 - 3600, 0), Some((8_210_266_876_799, 0)));
    assert_eq!(date_hour_later(8_210_266_876_799 - 3599, 0), None);
}

#[test]
fn the_clock_decides_on_a_date() {
    for wall in [0, 1_774_017_000, 1_774_751_400, 1_792_893_000] {
        let (w, n) = date_hour_later(wall, 0).unwrap();
        assert_eq!(resolve(wall, 0), choose_moment(local_time(wall, 0), local_time(w, n)));
    }
}

#[test]
fn local_dates_resolve_to_their_wall_time() {
    let m = resolve(1_774_017_000, 0).unwrap();
    assert_eq!(m.format("%Y-%m-%dT%H:%M:%S"), "2026-03-20T14:30:00");
}

#[test]
fn dates_of_every_year_are_read_back() {
    let dates = [
        (Moment { secs: 253_402_300_800, nanos: 0, offset: 0 }, "+10000-01-01T00:00:00", (253_402_300_800, 0)),
        (Moment { secs: -62_167_219_201, nanos: 9, offset: 0 }, "-0001-12-31T23:59:59", (-62_167_219_201, 0)),
        (Moment { secs: 59, nanos: 1_200_000_000, offset: 0 }, "1970-01-01T00:00:60", (59, 1_000_000_000)),
        (Moment { secs: 8_210_266_876_799, nanos: 0, offset: 0 }, "+262142-12-31T23:59:59", (8_210_266_876_799, 0)),
        (Moment { secs: -8_334_601_228_800, nanos: 0, offset: 0 }, "-262143-01-01T00:00:00", (-8_334_601_228_800, 0)),
    ];
    for (m, shown, wall) in dates {
        let text = TrashInfo::at(b"/w/a".to_vec(), m).to_trashinfo_string();
        assert!(text.contains(&format!("DeletionDate={shown}\n")), "{text}");
        assert_eq!(parse(&text).unwrap().wall, wall);
    }
}

#[test]
fn leap_seconds_resolve() {
    let m = resolve(1_483_228_799, 1_000_000_000).unwrap();
    assert_eq!(m.nanos, 1_000_000_000);
    assert_eq!(m.secs + m.offset as i64, 1_483_228_799);
}

#[test]
fn records_are_read_at_a_moment() {
    let text = "[Trash Info]\nPath=/home/u/a%20b\nDeletionDate=2026-03-29T02:30:00\nX-Trashd-PID=7\n";
    let m = Moment { secs: 1_774_747_800, nanos: 0, offset: 7200 };
    let info = TrashInfo::read_at(text, Some(m)).unwrap();
    assert_eq!(info.original_path, b"/home/u/a b".to_vec());
    assert_eq!(info.deletion_date, m);
    assert_eq!(info.pid, Some(7));
    assert!(info.command.is_none());
    assert!(TrashInfo::read_at(text, None).is_none());
    assert!(TrashInfo::read_at("[Trash Info]\nPath=/a\n", Some(m)).is_none());
    assert!(TrashInfo::read_at("[Trash Info]\nDeletionDate=2026-03-29T02:30:00\n", Some(m)).is_none());
}
