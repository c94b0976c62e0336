use trashd::config::{
    any_matches, config_get, config_list_add, config_list_remove, config_set_scalar, default_bypass_processes,
    default_never_trash, is_list_key, local_config_paths, pattern_matches, split_patterns, Config, Edit, LocalConfig,
    PartialConfig, PartialRetention, Setting,
};

fn partial() -> PartialConfig {
    PartialConfig {
        retention: None,
        never_trash: None,
        only_trash: None,
        bypass_processes: None,
        bypass_paths: None,
        max_file_size_mb: None,
        max_dir_size_mb: None,
        sha256_max_size_mb: None,
        auto_purge_interval_secs: None,
        hash_algorithm: None,
    }
}

fn matches_text(p: &str, s: &str) -> bool {
    let p: Vec<char> = p.chars().collect();
    let s: Vec<char> = s.chars().collect();
    pattern_matches(&p, &s)
}

#[test]
fn defaults() {
    let c = Config::default();
    assert_eq!(c.retention.max_age_days, 30);
    assert_eq!(c.max_file_size_mb, 1024);
    assert_eq!(c.hash_algorithm, "xxhash");
    assert_eq!(c.never_trash, default_never_trash());
    assert_eq!(c.never_trash.len(), 22);
    assert!(c.only_trash.is_empty());
    assert_eq!(c.bypass_processes, default_bypass_processes());
    assert!(!c.bypass_processes.contains(&"systemd".to_string()));
}

#[test]
fn layers_extend_lists_and_replace_scalars() {
    let mut global = partial();
    global.never_trash = Some(vec!["*.bak".into(), "*.o".into()]);
    global.only_trash = Some(vec!["*.c".into()]);
    global.max_file_size_mb = Some(5);
    let mut user = partial();
    user.only_trash = Some(vec!["*.h".into()]);
    user.retention = Some(PartialRetention {
        max_age_days: Some(3),
        max_size_bytes: None,
        disk_pressure_percent: None,
    });
    let c = Config::load(Some(global), Some(user));
    assert_eq!(c.never_trash.len(), 23);
    assert_eq!(c.never_trash[22], "*.bak");
    assert_eq!(c.only_trash, vec!["*.h".to_string()]);
    assert_eq!(c.max_file_size_mb, 5);
    assert_eq!(c.retention.max_age_days, 3);
    assert_eq!(c.retention.disk_pressure_percent, Config::default().retention.disk_pressure_percent);
}

#[test]
fn never_trash_pattern_excludes() {
    let c = Config::default();
    assert!(c.should_skip(b"/home/u/temp.tmp", None), "*.tmp should be excluded by never_trash");
    assert!(!c.should_skip(b"/home/u/notes.txt", None));
}

#[test]
fn never_wins_over_only() {
    let mut c = Config::default();
    c.only_trash = vec!["*.tmp".into(), "*.txt".into()];
    assert!(c.should_skip(b"/home/u/a.tmp", None));
    assert!(!c.should_skip(b"/home/u/a.txt", None));
    assert!(c.should_skip(b"/home/u/a.rs", None));
}

#[test]
fn local_settings_come_first() {
    let c = Config::default();
    let never = LocalConfig { never_trash: vec!["*.txt".into()], only_trash: vec![] };
    assert!(c.should_skip(b"/p/a.txt", Some(&never)));
    let only = LocalConfig { never_trash: vec![], only_trash: vec!["src/*".into()] };
    assert!(!c.should_skip(b"/p/src/a.rs", Some(&only)));
    assert!(c.should_skip(b"/p/lib/a.rs", Some(&only)));
    assert!(c.should_skip(b"/p/src/a.o", Some(&only)));
}

#[test]
fn pattern_forms() {
    assert!(matches_text("/tmp/*", "/tmp/x"));
    assert!(!matches_text("/tmp/*", "/home/tmp/x"));
    assert!(matches_text("node_modules/*", "/p/node_modules/x"));
    assert!(!matches_text("node_modules/*", "/p/my_node_modules/x"));
    assert!(matches_text("*/.git/*", "/p/.git/config"));
    assert!(matches_text("*~", "/p/a~"));
    assert!(matches_text("*.o", "/p/a.o"));
    assert!(!matches_text("*.o", "/p/a.oo"));
    assert!(matches_text("/exact", "/exact"));
    assert!(matches_text("*.[ch]", "/p/a.c"));
    assert!(!matches_text("*.[ch]", "/p/a.d"));
}

#[test]
fn lists_of_patterns() {
    let s: Vec<char> = "/p/a.o".chars().collect();
    assert!(any_matches(&vec!["x".into(), "*.o".into()], &s));
    assert!(!any_matches(&vec![], &s));
}

#[test]
fn brace_patterns_are_set_apart() {
    let (usable, bad) = split_patterns(vec!["*.o".into(), "*.{c,h}".into()]);
    assert_eq!(usable, vec!["*.o".to_string()]);
    assert_eq!(bad, vec!["*.{c,h}".to_string()]);
}

#[test]
fn local_settings_are_looked_for_up_to_the_root() {
    let p: Vec<String> =
        local_config_paths(b"/a/b/c.txt").into_iter().map(|v| String::from_utf8(v).unwrap()).collect();
    assert_eq!(p, vec!["/a/b/.trashd.toml", "/a/.trashd.toml", "/.trashd.toml"]);
}

#[test]
fn config_paths() {
    assert_eq!(Config::global_config_path(), b"/etc/trashd/config.toml".to_vec());
    assert_eq!(Config::user_config_path(Some(b"/home/u/.config")), b"/home/u/.config/trashd/config.toml".to_vec());
    assert_eq!(Config::config_path(Some(b"/x")), b"/x/trashd/config.toml".to_vec());
    assert_eq!(Config::config_path(None), b"~/.config/trashd/config.toml".to_vec());
}

#[test]
fn settings_are_shown() {
    let c = Config::default();
    match config_get(&c, "max_file_size_mb") {
        Some(Setting::Text(t)) => assert_eq!(t, "1024"),
        other => panic!("unexpected {other:?}"),
    }
    assert!(matches!(config_get(&c, "retention.max_size_gb"), Some(Setting::SizeLimit)));
    assert!(config_get(&c, "nonsense").is_none());
}

#[test]
fn scalars_are_checked() {
    assert_eq!(config_set_scalar("max_file_size_mb", "12"), Edit::Whole(12));
    assert_eq!(config_set_scalar("max_file_size_mb", "x"), Edit::NotWhole);
    assert_eq!(config_set_scalar("retention.max_age_days", "7"), Edit::Retention(7));
    assert_eq!(config_set_scalar("retention.max_size_gb", "1.5"), Edit::RetentionSize);
    assert_eq!(config_set_scalar("retention.disk_pressure_percent", "300"), Edit::NotPercent);
    assert_eq!(config_set_scalar("hash_algorithm", "sha256"), Edit::Literal);
    assert_eq!(config_set_scalar("hash_algorithm", "md5"), Edit::NotAlgorithm);
    assert_eq!(config_set_scalar("never_trash", "x"), Edit::NotScalar);
}

#[test]
fn lists_are_edited() {
    assert!(is_list_key("never_trash"));
    assert!(!is_list_key("hash_algorithm"));
    let mut l = vec!["a".to_string()];
    config_list_add(&mut l, "b");
    assert_eq!(l, vec!["a", "b"]);
    assert!(config_list_remove(&mut l, "a"));
    assert!(!config_list_remove(&mut l, "a"));
    assert_eq!(l, vec!["b"]);
}
