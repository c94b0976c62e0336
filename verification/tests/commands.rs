use trashd::job::Kind;
use trashd::rm::{
    after_trash, all_question, choose_real_rm, command_text, file_question, is_root_operand, is_shim, passed_code,
    real_arguments, removal, search_places, AfterTrash, FileStep, Lookup, Misuse, Order, RealRm, Removal, Rm,
};
use trashd::sha256::Sha256;
use trashd::supervise::Trial;
use trashd::update::{
    bundle, cached_check, compare_checksum, download_limit, download_whole, elevation, is_newer, next_update,
    plan_download, release_version, url_allowed, verify_sha256, Asset, Cached, Checksum, Elevation, Plan, UpdateStep,
};

fn argv(args: &[&str]) -> Vec<Vec<u8>> {
    args.iter().map(|a| a.as_bytes().to_vec()).collect()
}

#[test]
fn parses_gnu_compat_options() {
    for line in [
        &["rm", "--interactive", "f"][..],
        &["rm", "--interactive=once", "f"][..],
        &["rm", "--interactive=never", "f"][..],
        &["rm", "--one-file-system", "f"][..],
        &["rm", "--preserve-root", "f"][..],
        &["rm", "--preserve-root=all", "f"][..],
        &["rm", "--no-preserve-root", "f"][..],
        &["rm", "--version"][..],
    ] {
        assert!(
            Rm::try_parse_from(&argv(line)).is_ok(),
            "should parse (not bypass to permanent delete): {line:?}"
        );
    }
}

#[test]
fn bare_interactive_defaults_to_always_and_keeps_file() {
    let a = Rm::try_parse_from(&argv(&["rm", "--interactive", "f"])).unwrap();
    assert_eq!(a.interactive.as_deref(), Some("always"));
    assert_eq!(a.files, vec![b"f".to_vec()]);
}

#[test]
fn root_operand_detection() {
    assert!(is_root_operand(b"/"));
    assert!(is_root_operand(b"//"));
    assert!(!is_root_operand(b"/tmp"));
    assert!(!is_root_operand(b"/tmp/"));
    assert!(!is_root_operand(b"relative"));
    assert!(!is_root_operand(b"."));
}

fn misuse(args: &[&str]) -> Misuse {
    Rm::try_parse_from(&argv(args)).unwrap_err()
}

#[test]
fn letters_and_names() {
    let a = Rm::try_parse_from(&argv(&["rm", "-rfv", "-i", "-Id", "a", "-r", "--"])).unwrap();
    assert!(a.recursive && a.force && a.verbose && a.interactive_always && a.interactive_once && a.dir);
    assert_eq!(a.files, argv(&["a", "-r", "--"]));
    let b = Rm::try_parse_from(&argv(&["rm", "-R", "--", "-f", "--help"])).unwrap();
    assert!(b.recursive && !b.force && !b.help);
    assert_eq!(b.files, argv(&["-f", "--help"]));
    let c = Rm::try_parse_from(&argv(&["rm", "--no-trash", "-"])).unwrap();
    assert!(c.permanent);
    assert_eq!(c.files, argv(&["-"]));
    let d = Rm::try_parse_from(&argv(&["rm", "--preserve-root=all"])).unwrap();
    assert_eq!(d.preserve_root.as_deref(), Some("all"));
    assert!(Rm::try_parse_from(&argv(&[])).unwrap().files.is_empty());
    assert!(Rm::try_parse_from(&vec![b"rm".to_vec(), b"caf\xe9".to_vec()]).is_ok());
}

#[test]
fn misuses() {
    assert_eq!(misuse(&["rm", "-x"]), Misuse::Unknown);
    assert_eq!(misuse(&["rm", "--recurs", "a"]), Misuse::Unknown);
    assert_eq!(misuse(&["rm", "-rR", "a"]), Misuse::Repeated);
    assert_eq!(misuse(&["rm", "--force", "-f"]), Misuse::Repeated);
    assert_eq!(misuse(&["rm", "--interactive", "--interactive=once"]), Misuse::Repeated);
    assert_eq!(misuse(&["rm", "--force=yes"]), Misuse::NeedlessValue);
    assert_eq!(misuse(&["rm", "a", ""]), Misuse::EmptyFile);
    let bad = vec![b"rm".to_vec(), b"--interactive=\xff".to_vec()];
    assert_eq!(Rm::try_parse_from(&bad).unwrap_err(), Misuse::NotText);
}

fn order(args: &[&str]) -> Order {
    Rm::try_parse_from(&argv(args)).unwrap().order()
}

#[test]
fn orders() {
    assert!(matches!(order(&["rm", "--help", "--version"]), Order::Help));
    assert!(matches!(order(&["rm", "--version"]), Order::Version));
    assert!(matches!(order(&["rm", "-rf", "/"]), Order::RefuseRoot));
    assert!(matches!(order(&["rm", "-rf", "--permanent", "a", "//"]), Order::RefuseRoot));
    assert!(matches!(order(&["rm", "-rf", "--no-preserve-root", "/"]), Order::Proceed { .. }));
    assert!(matches!(order(&["rm", "/"]), Order::Proceed { .. }));
    assert!(matches!(order(&["rm", "--interactive=maybe", "a"]), Order::BadInteractive));
    assert!(matches!(order(&["rm", "--permanent", "a"]), Order::Permanent));
    assert!(matches!(order(&["rm", "-f"]), Order::Nothing));
    assert!(matches!(order(&["rm"]), Order::MissingOperand));
    assert!(matches!(order(&["rm", "--interactive", "a"]), Order::Proceed { always: true, once: false }));
    assert!(matches!(order(&["rm", "--interactive=once", "a"]), Order::Proceed { always: false, once: true }));
    assert!(matches!(order(&["rm", "-i", "--interactive=never", "a"]), Order::Proceed { always: true, once: false }));
}

#[test]
fn asking_once() {
    let many = Rm::try_parse_from(&argv(&["rm", "-I", "a", "b", "c", "d"])).unwrap();
    assert!(many.asks_once(true));
    let few = Rm::try_parse_from(&argv(&["rm", "-I", "a", "b", "c"])).unwrap();
    assert!(!few.asks_once(true));
    assert_eq!(all_question(4), "rm: remove 4 arguments? [y/N] ");
    assert_eq!(file_question(Kind::Dir, b"d"), "rm: remove directory 'd'? [y/N] ");
    assert_eq!(file_question(Kind::Symlink, b"l"), "rm: remove symbolic link 'l'? [y/N] ");
    assert_eq!(file_question(Kind::File, b"f"), "rm: remove regular file 'f'? [y/N] ");
}

#[test]
fn files_by_kind() {
    let plain = Rm::try_parse_from(&argv(&["rm", "a"])).unwrap();
    assert_eq!(plain.file_step(false, Lookup::NotFound, false), FileStep::ReportMissing);
    assert_eq!(plain.file_step(false, Lookup::Failed, false), FileStep::ReportFailed);
    assert_eq!(plain.file_step(false, Lookup::Found(Kind::Dir), false), FileStep::ReportDirectory);
    assert_eq!(plain.file_step(false, Lookup::Found(Kind::File), false), FileStep::Trash);
    assert_eq!(plain.file_step(true, Lookup::Found(Kind::File), false), FileStep::Ask);
    let dir = Rm::try_parse_from(&argv(&["rm", "-d", "a"])).unwrap();
    assert_eq!(dir.file_step(false, Lookup::Found(Kind::Dir), true), FileStep::ReportOccupied);
    assert_eq!(dir.file_step(false, Lookup::Found(Kind::Dir), false), FileStep::Trash);
    let forced = Rm::try_parse_from(&argv(&["rm", "-rf", "a"])).unwrap();
    assert_eq!(forced.file_step(true, Lookup::NotFound, false), FileStep::Skip);
    assert_eq!(forced.file_step(true, Lookup::Found(Kind::Dir), true), FileStep::Trash);
}

#[test]
fn refusals_leave_the_file() {
    assert_eq!(after_trash(Trial::Trashed), AfterTrash::Done);
    assert_eq!(after_trash(Trial::Excluded), AfterTrash::Remove);
    assert_eq!(after_trash(Trial::TooLarge), AfterTrash::Refuse);
    assert_eq!(after_trash(Trial::Refused), AfterTrash::Refuse);
    assert_eq!(after_trash(Trial::Failed), AfterTrash::FallBack);
    assert_eq!(removal(Kind::Dir, false), Removal::IsDirectory);
    assert_eq!(removal(Kind::Dir, true), Removal::Tree);
    assert_eq!(removal(Kind::Symlink, false), Removal::File);
}

#[test]
fn commands_are_recorded_with_quotes() {
    assert_eq!(command_text(&argv(&["-f", "a b", "it's", "c"])), "rm -f 'a b' 'it'\\''s' c");
    assert_eq!(command_text(&vec![]), "rm ");
    assert_eq!(real_arguments(&argv(&["-f", "--permanent", "a", "--no-trash"])), argv(&["-f", "a"]));
}

#[test]
fn the_real_command_is_found() {
    assert_eq!(
        search_places(b"/opt/trashd/bin:/usr/bin:/bin"),
        vec![b"/usr/bin/rm".to_vec(), b"/bin/rm".to_vec()]
    );
    assert_eq!(choose_real_rm(true, false, &vec![], true, true), RealRm::Stash);
    assert_eq!(choose_real_rm(true, true, &vec![false, true], true, true), RealRm::Place(1));
    assert_eq!(choose_real_rm(false, true, &vec![false], false, true), RealRm::Bin);
    assert_eq!(choose_real_rm(false, true, &vec![], false, false), RealRm::UsrBin);
    assert!(is_shim(Some("trashd rm shim 0.1.3\n")));
    assert!(!is_shim(Some("rm (GNU coreutils) 9.4\n")));
    assert!(is_shim(None));
    assert_eq!(passed_code(Some(3)), 3);
    assert_eq!(passed_code(Some(256)), 0);
    assert_eq!(passed_code(None), 1);
}

#[test]
fn digests() {
    let hash = |pieces: &[&[u8]]| {
        let mut h = Sha256::new();
        for p in pieces {
            h.update(p);
        }
        h.hexdigest()
    };
    assert_eq!(hash(&[]), "e3b0c44298fc1c149afbf4c8996fb92427ae41e4649b934ca495991b7852b855");
    assert_eq!(hash(&[b"abc"]), "ba7816bf8f01cfea414140de5dae2223b00361a396177a9cb410ff61f20015ad");
    assert_eq!(hash(&[b"a", b"", b"bc"]), hash(&[b"abc"]));
    assert_eq!(
        hash(&[b"abcdbcdecdefdefgefghfghighijhijkijkljklmklmnlmnomnopnopq"]),
        "248d6a61d20638b8e5c026930c3e6039a33ce45964ff2167f6ecedd419db06c1"
    );
    let long = vec![b'a'; 1000];
    assert_eq!(hash(&[&long]), "41edece42d63e8d9bf515a9ba6932e1c20cbc9f5a5d134645adb5db1b9737ea3");
    for n in [54, 55, 56, 63, 64, 65, 119, 120] {
        assert!(matches!(verify_sha256(&long[..n], &hash(&[&long[..n]])), Checksum::Good));
    }
}

#[test]
fn versions_are_numbers() {
    assert!(is_newer("0.2.0", "0.1.9"));
    assert!(is_newer("0.1.10", "0.1.9"));
    assert!(!is_newer("0.1.9", "0.1.10"));
    assert!(!is_newer("1.0", "1.0.0"));
    assert!(is_newer("1.0.0.1", "1.0"));
    assert!(!is_newer("x", "0"));
    assert_eq!(release_version("v1.2.3"), "1.2.3");
    assert_eq!(release_version("1.2.3"), "1.2.3");
}

#[test]
fn answers_are_kept_for_a_day() {
    assert_eq!(cached_check(None, 0, "1.0.0"), Cached::Ask);
    assert_eq!(cached_check(Some("1.0.1"), 86_400, "1.0.0"), Cached::Ask);
    assert_eq!(cached_check(Some("1.0.1"), 5, "1.0.0"), Cached::Available);
    assert_eq!(cached_check(Some("0.9.0"), 5, "1.0.0"), Cached::UpToDate);
}

#[test]
fn downloads_are_planned() {
    let asset = |name: &str| Asset { name: name.into(), url: "https://x".into(), size: 1 };
    assert_eq!(bundle("1.0.0", "x86_64"), "trashd-1.0.0-linux-x86_64");
    let full = vec![
        asset("other"),
        asset("trashd-1.0.0-linux-x86_64.tar.gz"),
        asset("trashd-1.0.0-linux-x86_64.tar.gz.sha256"),
    ];
    assert_eq!(plan_download(&full, "1.0.0", "x86_64"), Plan::Download { archive: 1, checksum: 2 });
    assert_eq!(plan_download(&full, "1.0.0", "aarch64"), Plan::NoArchive);
    assert_eq!(plan_download(&full, "1.0.0", "riscv64"), Plan::Unsupported);
    let part = vec![asset("trashd-1.0.0-linux-x86_64.tar.gz")];
    assert_eq!(plan_download(&part, "1.0.0", "x86_64"), Plan::NoChecksum);
    assert!(url_allowed("https://example.org/a"));
    assert!(!url_allowed("http://example.org/a"));
    assert_eq!(download_limit(10), 10 + 1_048_576);
    assert_eq!(download_limit(u64::MAX), u64::MAX);
    assert!(download_whole(9, 10));
    assert!(!download_whole(10, 10));
}

#[test]
fn checksums_are_compared() {
    let good = "BA7816BF8F01CFEA414140DE5DAE2223B00361A396177A9CB410FF61F20015AD  a.tar.gz\n";
    assert!(matches!(verify_sha256(b"abc", good), Checksum::Good));
    assert!(matches!(verify_sha256(b"abc", " \n"), Checksum::Empty));
    match verify_sha256(b"abd", good) {
        Checksum::Mismatch { expected, actual } => {
            assert_eq!(expected, "ba7816bf8f01cfea414140de5dae2223b00361a396177a9cb410ff61f20015ad");
            assert_ne!(expected, actual);
        }
        other => panic!("unexpected {other:?}"),
    }
    assert!(matches!(compare_checksum("00ff", &[0, 255]), Checksum::Good));
    assert!(matches!(compare_checksum("00FF  trashd.tar.gz", &[0, 255]), Checksum::Good));
    match compare_checksum("\u{c4}BC", &[0]) {
        Checksum::Mismatch { expected, actual } => {
            assert_eq!(expected, "\u{e4}bc");
            assert_eq!(actual, "00");
        }
        _ => panic!("not told"),
    }
}

#[test]
fn updates_are_verified_first() {
    let go = |o: &[bool], newer: bool, check: bool| {
        o.iter().fold(UpdateStep::Fetch, |s, ok| next_update(s, *ok, newer, check))
    };
    assert_eq!(go(&[true; 8], true, false), UpdateStep::Installed);
    assert_eq!(go(&[true; 5], true, false), UpdateStep::Verify);
    assert_eq!(go(&[true, true, true, true, true, false], true, false), UpdateStep::Abort);
    assert_eq!(go(&[true], false, false), UpdateStep::Stop);
    assert_eq!(go(&[true, false], true, false), UpdateStep::Stop);
    assert_eq!(go(&[true], true, true), UpdateStep::Stop);
    assert_eq!(elevation(0, true), Elevation::Direct);
    assert_eq!(elevation(5, true), Elevation::Blocked);
    assert_eq!(elevation(5, false), Elevation::Sudo);
}
