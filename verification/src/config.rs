//! Settings: their defaults, how layers are merged, and which paths skip the trash.

use crate::glob::{glob, glob_match, is_special, literal};
use crate::path;
use crate::path::joined;
use crate::seqs;
use crate::seqs::{lemma_push_contains, occurs, to_vec};
use crate::text::{
    chars_of, decimal, decimal_chars, interspersed, join_texts, listed, parse_unsigned, same_text,
    string_of, text_lossy, texts, unsigned_value, lossy, views,
};
use vstd::prelude::*;
use vstd::slice::slice_subrange;
use vstd::utf8::encode_utf8;

verus! {

/// What may stay in the trash. A limit of zero is no limit.
#[derive(Debug, Clone, Copy)]
pub struct RetentionConfig {
    pub max_age_days: u32,
    /// The size limit in bytes.
    pub max_size_bytes: u64,
    pub disk_pressure_percent: u8,
}

#[derive(Debug, Clone)]
pub struct Config {
    pub retention: RetentionConfig,
    /// Patterns of the paths that are deleted for real.
    pub never_trash: Vec<String>,
    /// Where it is not empty, only the paths that match are trashed.
    pub only_trash: Vec<String>,
    /// Names of the processes whose deletions are real.
    pub bypass_processes: Vec<String>,
    /// Starts of the paths of executables whose deletions are real.
    pub bypass_paths: Vec<String>,
    pub max_file_size_mb: u64,
    /// Zero is no limit.
    pub max_dir_size_mb: u64,
    /// The largest file that is hashed. Zero switches hashing off.
    pub sha256_max_size_mb: u64,
    /// The least time between two runs of the retention policy.
    pub auto_purge_interval_secs: u64,
    /// `xxhash` or `sha256`.
    pub hash_algorithm: String,
}

#[derive(Debug, Clone, Copy)]
pub struct PartialRetention {
    pub max_age_days: Option<u32>,
    pub max_size_bytes: Option<u64>,
    pub disk_pressure_percent: Option<u8>,
}

/// One layer of settings, in which anything may be left open.
#[derive(Debug, Clone)]
pub struct PartialConfig {
    pub retention: Option<PartialRetention>,
    pub never_trash: Option<Vec<String>>,
    pub only_trash: Option<Vec<String>>,
    pub bypass_processes: Option<Vec<String>>,
    pub bypass_paths: Option<Vec<String>>,
    pub max_file_size_mb: Option<u64>,
    pub max_dir_size_mb: Option<u64>,
    pub sha256_max_size_mb: Option<u64>,
    pub auto_purge_interval_secs: Option<u64>,
    pub hash_algorithm: Option<String>,
}

/// The settings of one directory.
#[derive(Debug, Clone)]
pub struct LocalConfig {
    pub never_trash: Vec<String>,
    pub only_trash: Vec<String>,
}

pub open spec fn default_never_trash_list() -> Seq<Seq<char>> {
    seq![
        "/tmp/*"@,
        "/var/tmp/*"@,
        "/var/cache/*"@,
        "/proc/*"@,
        "/sys/*"@,
        "/dev/*"@,
        "/run/*"@,
        "*.o"@,
        "*.pyc"@,
        "*.class"@,
        "*.lock"@,
        "*.pid"@,
        "*.sock"@,
        "*.socket"@,
        "*.tmp"@,
        "*.swp"@,
        "*~"@,
        "__pycache__/*"@,
        "node_modules/*"@,
        "target/debug/*"@,
        "target/release/*"@,
        "*/.git/*"@,
    ]
}

pub open spec fn default_bypass_list() -> Seq<Seq<char>> {
    seq![
        "apt"@,
        "apt-get"@,
        "dpkg"@,
        "yum"@,
        "dnf"@,
        "pacman"@,
        "rpm"@,
        "pip"@,
        "cargo"@,
        "npm"@,
        "make"@,
    ]
}

/// Patterns of what is never trashed, unless a setting says otherwise.
pub fn default_never_trash() -> (r: Vec<String>)
    ensures
        texts(r@) == default_never_trash_list(),
{
    let mut r: Vec<String> = Vec::new();
    r.push("/tmp/*".to_owned());
    r.push("/var/tmp/*".to_owned());
    r.push("/var/cache/*".to_owned());
    r.push("/proc/*".to_owned());
    r.push("/sys/*".to_owned());
    r.push("/dev/*".to_owned());
    r.push("/run/*".to_owned());
    r.push("*.o".to_owned());
    r.push("*.pyc".to_owned());
    r.push("*.class".to_owned());
    r.push("*.lock".to_owned());
    r.push("*.pid".to_owned());
    r.push("*.sock".to_owned());
    r.push("*.socket".to_owned());
    r.push("*.tmp".to_owned());
    r.push("*.swp".to_owned());
    r.push("*~".to_owned());
    r.push("__pycache__/*".to_owned());
    r.push("node_modules/*".to_owned());
    r.push("target/debug/*".to_owned());
    r.push("target/release/*".to_owned());
    r.push("*/.git/*".to_owned());
    assert(texts(r@) =~= default_never_trash_list());
    r
}

/// The processes whose deletions are real, unless a setting adds others.
pub fn default_bypass_processes() -> (r: Vec<String>)
    ensures
        texts(r@) == default_bypass_list(),
{
    let mut r: Vec<String> = Vec::new();
    r.push("apt".to_owned());
    r.push("apt-get".to_owned());
    r.push("dpkg".to_owned());
    r.push("yum".to_owned());
    r.push("dnf".to_owned());
    r.push("pacman".to_owned());
    r.push("rpm".to_owned());
    r.push("pip".to_owned());
    r.push("cargo".to_owned());
    r.push("npm".to_owned());
    r.push("make".to_owned());
    assert(texts(r@) =~= default_bypass_list());
    r
}

/// The settings as values.
#[verifier::ext_equal]
pub struct Settings {
    pub retention: RetentionConfig,
    pub never_trash: Seq<Seq<char>>,
    pub only_trash: Seq<Seq<char>>,
    pub bypass_processes: Seq<Seq<char>>,
    pub bypass_paths: Seq<Seq<char>>,
    pub max_file_size_mb: u64,
    pub max_dir_size_mb: u64,
    pub sha256_max_size_mb: u64,
    pub auto_purge_interval_secs: u64,
    pub hash_algorithm: Seq<char>,
}

impl View for Config {
    type V = Settings;

    open spec fn view(&self) -> Settings {
        Settings {
            retention: self.retention,
            never_trash: texts(self.never_trash@),
            only_trash: texts(self.only_trash@),
            bypass_processes: texts(self.bypass_processes@),
            bypass_paths: texts(self.bypass_paths@),
            max_file_size_mb: self.max_file_size_mb,
            max_dir_size_mb: self.max_dir_size_mb,
            sha256_max_size_mb: self.sha256_max_size_mb,
            auto_purge_interval_secs: self.auto_purge_interval_secs,
            hash_algorithm: self.hash_algorithm@,
        }
    }
}

/// The settings where no file says otherwise.
pub open spec fn default_settings() -> Settings {
    Settings {
        retention: RetentionConfig {
            max_age_days: 30,
            max_size_bytes: 0x2_8000_0000,
            disk_pressure_percent: 90,
        },
        never_trash: default_never_trash_list(),
        only_trash: seq![],
        bypass_processes: default_bypass_list(),
        bypass_paths: seq![],
        max_file_size_mb: 1024,
        max_dir_size_mb: 0,
        sha256_max_size_mb: 1,
        auto_purge_interval_secs: 60,
        hash_algorithm: "xxhash"@,
    }
}

/// The settings with a layer over them: single values replace, lists are extended, and
/// the list of what alone is trashed is replaced.
pub open spec fn merged(s: Settings, p: PartialConfig) -> Settings {
    Settings {
        retention: match p.retention {
            Some(r) => RetentionConfig {
                max_age_days: or(r.max_age_days, s.retention.max_age_days),
                max_size_bytes: or(r.max_size_bytes, s.retention.max_size_bytes),
                disk_pressure_percent: or(
                    r.disk_pressure_percent,
                    s.retention.disk_pressure_percent,
                ),
            },
            None => s.retention,
        },
        never_trash: extended_by(s.never_trash, p.never_trash),
        only_trash: match p.only_trash {
            Some(l) => texts(l@),
            None => s.only_trash,
        },
        bypass_processes: extended_by(s.bypass_processes, p.bypass_processes),
        bypass_paths: extended_by(s.bypass_paths, p.bypass_paths),
        max_file_size_mb: or(p.max_file_size_mb, s.max_file_size_mb),
        max_dir_size_mb: or(p.max_dir_size_mb, s.max_dir_size_mb),
        sha256_max_size_mb: or(p.sha256_max_size_mb, s.sha256_max_size_mb),
        auto_purge_interval_secs: or(p.auto_purge_interval_secs, s.auto_purge_interval_secs),
        hash_algorithm: match p.hash_algorithm {
            Some(h) => h@,
            None => s.hash_algorithm,
        },
    }
}

pub open spec fn merged_opt(s: Settings, p: Option<PartialConfig>) -> Settings {
    match p {
        Some(l) => merged(s, l),
        None => s,
    }
}

impl Default for Config {
    fn default() -> (r: Self)
        ensures
            r@ == default_settings(),
    {
        let r = Config {
            retention: RetentionConfig {
                max_age_days: 30,
                max_size_bytes: 0x2_8000_0000,
                disk_pressure_percent: 90,
            },
            never_trash: default_never_trash(),
            only_trash: Vec::new(),
            bypass_processes: default_bypass_processes(),
            bypass_paths: Vec::new(),
            max_file_size_mb: 1024,
            max_dir_size_mb: 0,
            sha256_max_size_mb: 1,
            auto_purge_interval_secs: 60,
            hash_algorithm: "xxhash".to_owned(),
        };
        assert(r@ =~= default_settings());
        r
    }
}

/// A list with what it lacks of a second one behind it, each item once.
pub open spec fn extended(base: Seq<Seq<char>>, extra: Seq<Seq<char>>) -> Seq<Seq<char>>
    decreases extra.len(),
{
    if extra.len() == 0 {
        base
    } else {
        let b = extended(base, extra.drop_last());
        if b.contains(extra.last()) {
            b
        } else {
            b.push(extra.last())
        }
    }
}

pub open spec fn or<T>(o: Option<T>, d: T) -> T {
    match o {
        Some(v) => v,
        None => d,
    }
}

/// What a list becomes when a layer is merged into it.
pub open spec fn extended_by(base: Seq<Seq<char>>, extra: Option<Vec<String>>) -> Seq<Seq<char>> {
    match extra {
        Some(e) => extended(base, texts(e@)),
        None => base,
    }
}

/// Appends to `base` what it lacks of `extra`.
pub fn extend_list(base: &mut Vec<String>, extra: Vec<String>)
    ensures
        texts(final(base)@) == extended(texts(old(base)@), texts(extra@)),
{
    let mut i: usize = 0;
    assert(texts(extra@).take(0) =~= seq![]);
    while i < extra.len()
        invariant
            i <= extra@.len(),
            texts(base@) == extended(texts(old(base)@), texts(extra@).take(i as int)),
        decreases extra@.len() - i,
    {
        proof {
            let t = texts(extra@).take(i + 1);
            assert(t.drop_last() =~= texts(extra@).take(i as int));
            assert(t.last() == extra@[i as int]@);
        }
        if !listed(base, extra[i].as_str()) {
            let ghost before = base@;
            base.push(extra[i].clone());
            assert(texts(base@) =~= texts(before).push(extra@[i as int]@));
        }
        i += 1;
    }
    assert(texts(extra@).take(i as int) =~= texts(extra@));
}

impl Config {
    /// The defaults with the general layer over them and the user's layer over both.
    pub fn load(global: Option<PartialConfig>, user: Option<PartialConfig>) -> (r: Self)
        ensures
            r@ == merged_opt(merged_opt(default_settings(), global), user),
    {
        let mut config = Config::default();
        if let Some(partial) = global {
            config.merge(partial);
        }
        if let Some(partial) = user {
            config.merge(partial);
        }
        config
    }

    /// Where the general settings stand.
    pub fn global_config_path() -> (r: Vec<u8>)
        ensures
            r@ == encode_utf8("/etc/trashd/config.toml"@),
    {
        to_vec("/etc/trashd/config.toml".as_bytes())
    }

    /// Where the user's settings stand, under the directory for settings.
    pub fn user_config_path(config_dir: Option<&[u8]>) -> (r: Vec<u8>)
        ensures
            r@ == joined(
                joined(
                    match config_dir {
                        Some(d) => d@,
                        None => encode_utf8("~/.config"@),
                    },
                    encode_utf8("trashd"@),
                ),
                encode_utf8("config.toml"@),
            ),
    {
        let dir: &[u8] = match config_dir {
            Some(d) => d,
            None => "~/.config".as_bytes(),
        };
        let app = path::join(dir, "trashd".as_bytes());
        path::join(app.as_slice(), "config.toml".as_bytes())
    }

    /// Where the settings stand that a user changes.
    pub fn config_path(config_dir: Option<&[u8]>) -> (r: Vec<u8>)
        ensures
            r@ == joined(
                joined(
                    match config_dir {
                        Some(d) => d@,
                        None => encode_utf8("~/.config"@),
                    },
                    encode_utf8("trashd"@),
                ),
                encode_utf8("config.toml"@),
            ),
    {
        Self::user_config_path(config_dir)
    }

    /// Puts a layer over the settings.
    pub fn merge(&mut self, partial: PartialConfig)
        ensures
            final(self)@ == merged(old(self)@, partial),
    {
        if let Some(r) = partial.retention {
            if let Some(v) = r.max_age_days {
                self.retention.max_age_days = v;
            }
            if let Some(v) = r.max_size_bytes {
                self.retention.max_size_bytes = v;
            }
            if let Some(v) = r.disk_pressure_percent {
                self.retention.disk_pressure_percent = v;
            }
        }
        if let Some(v) = partial.max_file_size_mb {
            self.max_file_size_mb = v;
        }
        if let Some(v) = partial.max_dir_size_mb {
            self.max_dir_size_mb = v;
        }
        if let Some(v) = partial.sha256_max_size_mb {
            self.sha256_max_size_mb = v;
        }
        if let Some(v) = partial.auto_purge_interval_secs {
            self.auto_purge_interval_secs = v;
        }
        if let Some(v) = partial.hash_algorithm {
            self.hash_algorithm = v;
        }
        if let Some(list) = partial.only_trash {
            self.only_trash = list;
        }
        if let Some(extra) = partial.never_trash {
            extend_list(&mut self.never_trash, extra);
        }
        if let Some(extra) = partial.bypass_processes {
            extend_list(&mut self.bypass_processes, extra);
        }
        if let Some(extra) = partial.bypass_paths {
            extend_list(&mut self.bypass_paths, extra);
        }
        assert(self@ =~= merged(old(self)@, partial));
    }

    /// Whether a path is deleted for real, under the settings and those of the
    /// directory it lies in.
    pub fn should_skip(&self, path: &[u8], local: Option<&LocalConfig>) -> (r: bool)
        ensures
            r == skips(self@.never_trash, self@.only_trash, local_lists(local), lossy(path@)),
    {
        skipped(&self.never_trash, &self.only_trash, local, path)
    }
}

/// Whether a path is deleted for real, under the two lists and those of the directory.
pub fn skipped(
    never: &Vec<String>,
    only: &Vec<String>,
    local: Option<&LocalConfig>,
    path: &[u8],
) -> (r: bool)
    ensures
        r == skips(texts(never@), texts(only@), local_lists(local), lossy(path@)),
{
    let text = text_lossy(path);
    let s = chars_of(text.as_str());
    if let Some(l) = local {
        if any_matches(&l.never_trash, s.as_slice()) {
            return true;
        }
        if l.only_trash.len() > 0 {
            return !any_matches(&l.only_trash, s.as_slice()) || any_matches(never, s.as_slice());
        }
    }
    any_matches(never, s.as_slice()) || (only.len() > 0 && !any_matches(only, s.as_slice()))
}

/// The lists of a directory's settings, as texts.
pub open spec fn local_lists(l: Option<&LocalConfig>) -> Option<(Seq<Seq<char>>, Seq<Seq<char>>)> {
    match l {
        Some(l) => Some((texts(l.never_trash@), texts(l.only_trash@))),
        None => None,
    }
}

/// A text without the separators at its end.
pub open spec fn trim_seps(s: Seq<char>) -> Seq<char>
    decreases s.len(),
{
    if s.len() > 0 && s.last() == '/' {
        trim_seps(s.drop_last())
    } else {
        s
    }
}

/// `*/name/*`: the name is a directory anywhere above.
pub open spec fn is_within(p: Seq<char>) -> bool {
    p.len() >= 3 && p[0] == '*' && p[1] == '/' && p[p.len() - 2] == '/' && p.last() == '*'
        && literal(p.subrange(1, p.len() - 1))
}

/// `start*`: what begins with a start.
pub open spec fn is_start(p: Seq<char>) -> bool {
    p.len() > 0 && p.last() == '*' && literal(p.drop_last())
}

/// `*/end`: what has an end below any directory.
pub open spec fn is_end(p: Seq<char>) -> bool {
    p.len() >= 2 && p[0] == '*' && p[1] == '/' && literal(p.skip(1))
}

/// A pattern of the settings matches a path. A start that is relative counts below
/// every directory; what is none of the short forms is a glob over the whole path.
pub open spec fn matches(p: Seq<char>, s: Seq<char>) -> bool {
    if is_within(p) {
        occurs(s, p.subrange(1, p.len() - 1))
    } else if is_start(p) {
        let a = p.drop_last();
        a.is_prefix_of(s) || (!(a.len() > 0 && a[0] == '/') && occurs(s, seq!['/'] + a))
    } else if is_end(p) {
        occurs(s, p.skip(1)) || (seq!['/'] + trim_seps(p.skip(2))).is_suffix_of(s)
    } else {
        glob(p, s)
    }
}

/// Some pattern of a list matches a path.
pub open spec fn some_matches(list: Seq<Seq<char>>, s: Seq<char>) -> bool {
    exists|i: int| 0 <= i < list.len() && matches(#[trigger] list[i], s)
}

/// A path is deleted for real. The directory's own list of what is never trashed comes
/// first, then its list of what alone is trashed, against which the general list of
/// what is never trashed still counts; without the latter the general lists decide.
pub open spec fn skips(
    never: Seq<Seq<char>>,
    only: Seq<Seq<char>>,
    local: Option<(Seq<Seq<char>>, Seq<Seq<char>>)>,
    s: Seq<char>,
) -> bool {
    match local {
        Some(l) => if some_matches(l.0, s) {
            true
        } else if l.1.len() > 0 {
            !some_matches(l.1, s) || some_matches(never, s)
        } else {
            some_matches(never, s) || (only.len() > 0 && !some_matches(only, s))
        },
        None => some_matches(never, s) || (only.len() > 0 && !some_matches(only, s)),
    }
}

/// What a general list says is never trashed is never trashed, whatever the settings of
/// the directory and the lists of what alone is trashed say.
pub proof fn law_never_trash_wins(
    never: Seq<Seq<char>>,
    only: Seq<Seq<char>>,
    local: Option<(Seq<Seq<char>>, Seq<Seq<char>>)>,
    s: Seq<char>,
)
    requires
        some_matches(never, s),
    ensures
        skips(never, only, local, s),
{
}

/// Merging a layer into a list keeps what the list held, in its order, adds nothing but
/// items of the layer, leaves none of them out and repeats none.
pub proof fn law_extended(base: Seq<Seq<char>>, extra: Seq<Seq<char>>)
    ensures
        base.is_prefix_of(extended(base, extra)),
        forall|x: Seq<char>|
            #[trigger] extended(base, extra).contains(x) <==> base.contains(x) || extra.contains(x),
        base.no_duplicates() ==> extended(base, extra).no_duplicates(),
    decreases extra.len(),
{
    if extra.len() > 0 {
        let rest = extra.drop_last();
        law_extended(base, rest);
        let b = extended(base, rest);
        let r = extended(base, extra);
        assert(extra =~= rest.push(extra.last()));
        assert forall|x: Seq<char>| #[trigger] r.contains(x) <==> base.contains(x)
            || extra.contains(x) by {
            lemma_push_contains(rest, extra.last(), x);
            lemma_push_contains(b, extra.last(), x);
            assert(b.contains(x) <==> base.contains(x) || rest.contains(x));
        }
        if !b.contains(extra.last()) {
            assert(r.take(base.len() as int) =~= b.take(base.len() as int));
        }
    } else {
        assert(base.take(base.len() as int) =~= base);
    }
}

/// Whether a run of characters stands for itself as a pattern.
fn is_literal(p: &[char]) -> (r: bool)
    ensures
        r == literal(p@),
{
    let mut i: usize = 0;
    while i < p.len()
        invariant
            i <= p@.len(),
            forall|k: int| 0 <= k < i ==> !is_special(#[trigger] p@[k]),
        decreases p@.len() - i,
    {
        if p[i] == '*' || p[i] == '?' || p[i] == '[' {
            assert(is_special(p@[i as int]));
            return false;
        }
        i += 1;
    }
    true
}

/// Whether a pattern of the settings matches a path.
pub fn pattern_matches(p: &[char], s: &[char]) -> (r: bool)
    ensures
        r == matches(p@, s@),
{
    let n: usize = p.len();
    if n >= 3 && p[0] == '*' && p[1] == '/' && p[n - 2] == '/' && p[n - 1] == '*' {
        let infix = slice_subrange(p, 1, n - 1);
        if is_literal(infix) {
            return seqs::contains(s, infix);
        }
    }
    if n > 0 && p[n - 1] == '*' {
        let start = slice_subrange(p, 0, n - 1);
        assert(start@ =~= p@.drop_last());
        if is_literal(start) {
            if seqs::starts_with(s, start) {
                return true;
            }
            if start.len() > 0 && start[0] == '/' {
                return false;
            }
            let mut below: Vec<char> = vec!['/'];
            seqs::push_all(&mut below, start);
            assert(below@ =~= seq!['/'] + start@);
            return seqs::contains(s, below.as_slice());
        }
    }
    if n >= 2 && p[0] == '*' && p[1] == '/' {
        let end = slice_subrange(p, 1, n);
        assert(end@ =~= p@.skip(1));
        if is_literal(end) {
            if seqs::contains(s, end) {
                return true;
            }
            let mut e: usize = n;
            assert(p@.subrange(2, n as int) =~= p@.skip(2));
            while e > 2 && p[e - 1] == '/'
                invariant
                    n == p@.len(),
                    2 <= e <= n,
                    trim_seps(p@.skip(2)) == trim_seps(p@.subrange(2, e as int)),
                decreases e,
            {
                assert(p@.subrange(2, e as int).drop_last() =~= p@.subrange(2, e - 1));
                e -= 1;
            }
            let mut tail: Vec<char> = vec!['/'];
            seqs::push_all(&mut tail, slice_subrange(p, 2, e));
            assert(tail@ =~= seq!['/'] + trim_seps(p@.skip(2)));
            return seqs::ends_with(s, tail.as_slice());
        }
    }
    glob_match(p, s)
}

/// Whether some pattern of a list matches a path.
pub fn any_matches(list: &Vec<String>, s: &[char]) -> (r: bool)
    ensures
        r == some_matches(texts(list@), s@),
{
    let mut i: usize = 0;
    while i < list.len()
        invariant
            i <= list@.len(),
            forall|k: int| 0 <= k < i ==> !matches(#[trigger] texts(list@)[k], s@),
        decreases list@.len() - i,
    {
        let p = chars_of(list[i].as_str());
        assert(texts(list@)[i as int] == p@);
        if pattern_matches(p.as_slice(), s) {
            return true;
        }
        i += 1;
    }
    false
}

/// A pattern with an opening brace and a closing one behind it.
pub open spec fn has_braces(p: Seq<char>) -> bool {
    exists|i: int, j: int| 0 <= i < j < p.len() && #[trigger] p[i] == '{' && #[trigger] p[j] == '}'
}

fn braces(p: &[char]) -> (r: bool)
    ensures
        r == has_braces(p@),
{
    let a: usize = seqs::position(p, '{', 0);
    if a == p.len() {
        return false;
    }
    let b: usize = seqs::position(p, '}', a);
    proof {
        if has_braces(p@) && b == p@.len() {
            let (i, j) = choose|i: int, j: int|
                0 <= i < j < p@.len() && #[trigger] p@[i] == '{' && #[trigger] p@[j] == '}';
            assert(a <= i);
            assert(p@[j] != '}');
        }
    }
    b < p.len()
}

/// The patterns of a list that can be used, and those that cannot: a pattern with braces
/// would match nothing that its writer meant.
pub open spec fn usable(list: Seq<Seq<char>>) -> Seq<Seq<char>> {
    list.filter(|p: Seq<char>| !has_braces(p))
}

pub open spec fn unusable(list: Seq<Seq<char>>) -> Seq<Seq<char>> {
    list.filter(|p: Seq<char>| has_braces(p))
}

/// Splits a list of patterns into those that can be used and those that are refused.
pub fn split_patterns(list: Vec<String>) -> (r: (Vec<String>, Vec<String>))
    ensures
        texts(r.0@) == usable(texts(list@)),
        texts(r.1@) == unusable(texts(list@)),
{
    let mut kept: Vec<String> = Vec::new();
    let mut refused: Vec<String> = Vec::new();
    let mut i: usize = 0;
    reveal(Seq::filter);
    assert(texts(list@).take(0) =~= seq![]);
    assert(texts(kept@) =~= usable(texts(list@).take(0)));
    assert(texts(refused@) =~= unusable(texts(list@).take(0)));
    while i < list.len()
        invariant
            i <= list@.len(),
            texts(kept@) == usable(texts(list@).take(i as int)),
            texts(refused@) == unusable(texts(list@).take(i as int)),
        decreases list@.len() - i,
    {
        proof {
            let t = texts(list@).take(i + 1);
            assert(t.drop_last() =~= texts(list@).take(i as int));
            assert(t.last() == list@[i as int]@);
            reveal(Seq::filter);
        }
        let ghost k0 = kept@;
        let ghost r0 = refused@;
        let p = chars_of(list[i].as_str());
        if braces(p.as_slice()) {
            refused.push(list[i].clone());
            assert(texts(refused@) =~= texts(r0).push(p@));
        } else {
            kept.push(list[i].clone());
            assert(texts(kept@) =~= texts(k0).push(p@));
        }
        i += 1;
    }
    assert(texts(list@).take(i as int) =~= texts(list@));
    (kept, refused)
}

/// The directories above a path, nearest first, up to the root.
pub open spec fn ancestors(p: Seq<u8>) -> Seq<Seq<u8>>
    decreases p.len(),
{
    match path::parent_of(p) {
        Some(q) => if q.len() < p.len() {
            seq![q] + ancestors(q)
        } else {
            seq![]
        },
        None => seq![],
    }
}

/// Where the settings of a path's directory are looked for: in every directory above it,
/// nearest first.
pub open spec fn local_candidates(p: Seq<u8>) -> Seq<Seq<u8>> {
    ancestors(p).map_values(|d: Seq<u8>| joined(d, encode_utf8(".trashd.toml"@)))
}

/// The files that may hold the settings of a path's directory, the nearest first.
pub fn local_config_paths(p: &[u8]) -> (r: Vec<Vec<u8>>)
    ensures
        views(r@) == local_candidates(p@),
{
    let mut r: Vec<Vec<u8>> = Vec::new();
    let mut cur: &[u8] = p;
    assert(views(r@) + local_candidates(p@) =~= local_candidates(p@));
    loop
        invariant
            views(r@) + local_candidates(cur@) == local_candidates(p@),
        decreases cur@.len(),
    {
        match path::parent(cur) {
            Some(q) => {
                let ghost before = r@;
                proof {
                    path::lemma_parent_shorter(cur@);
                }
                let name = ".trashd.toml";
                let f = path::join(q, name.as_bytes());
                r.push(f);
                proof {
                    assert(views(r@) =~= views(before).push(f@));
                    assert(local_candidates(cur@) =~= seq![f@] + local_candidates(q@));
                    assert(views(r@) + local_candidates(q@) =~= views(before) + local_candidates(
                        cur@,
                    ));
                }
                cur = q;
            },
            None => {
                assert(local_candidates(cur@) =~= seq![]);
                assert(views(r@) + local_candidates(cur@) =~= views(r@));
                return r;
            },
        }
    }
}

/// What a setting holds.
#[derive(Debug, Clone)]
pub enum Setting {
    /// A value as it is written out.
    Text(String),
    /// The size limit, which is written in gigabytes.
    SizeLimit,
}

/// What a setting of this name holds, as it is written out.
pub open spec fn setting_text(c: Config, key: Seq<char>) -> Option<Seq<char>> {
    if key == "retention.max_age_days"@ {
        Some(decimal(c.retention.max_age_days as nat))
    } else if key == "retention.disk_pressure_percent"@ {
        Some(decimal(c.retention.disk_pressure_percent as nat))
    } else if key == "max_file_size_mb"@ {
        Some(decimal(c.max_file_size_mb as nat))
    } else if key == "max_dir_size_mb"@ {
        Some(decimal(c.max_dir_size_mb as nat))
    } else if key == "sha256_max_size_mb"@ {
        Some(decimal(c.sha256_max_size_mb as nat))
    } else if key == "auto_purge_interval_secs"@ {
        Some(decimal(c.auto_purge_interval_secs as nat))
    } else if key == "hash_algorithm"@ {
        Some(c.hash_algorithm@)
    } else if key == "never_trash"@ {
        Some(interspersed(texts(c.never_trash@), ", "@))
    } else if key == "only_trash"@ {
        Some(interspersed(texts(c.only_trash@), ", "@))
    } else if key == "bypass_processes"@ {
        Some(interspersed(texts(c.bypass_processes@), ", "@))
    } else if key == "bypass_paths"@ {
        Some(interspersed(texts(c.bypass_paths@), ", "@))
    } else {
        None
    }
}

fn number(n: u64) -> (r: Option<Setting>)
    ensures
        r matches Some(Setting::Text(t)) && t@ == decimal(n as nat),
{
    let c = decimal_chars(n);
    Some(Setting::Text(string_of(c.as_slice())))
}

/// The setting of a name.
pub fn config_get(config: &Config, key: &str) -> (r: Option<Setting>)
    ensures
        key@ == "retention.max_size_gb"@ ==> r == Some(Setting::SizeLimit),
        key@ != "retention.max_size_gb"@ ==> match setting_text(*config, key@) {
            Some(t) => r matches Some(Setting::Text(x)) && x@ == t,
            None => r is None,
        },
{
    if same_text(key, "retention.max_size_gb") {
        Some(Setting::SizeLimit)
    } else if same_text(key, "retention.max_age_days") {
        number(config.retention.max_age_days as u64)
    } else if same_text(key, "retention.disk_pressure_percent") {
        number(config.retention.disk_pressure_percent as u64)
    } else if same_text(key, "max_file_size_mb") {
        number(config.max_file_size_mb)
    } else if same_text(key, "max_dir_size_mb") {
        number(config.max_dir_size_mb)
    } else if same_text(key, "sha256_max_size_mb") {
        number(config.sha256_max_size_mb)
    } else if same_text(key, "auto_purge_interval_secs") {
        number(config.auto_purge_interval_secs)
    } else if same_text(key, "hash_algorithm") {
        Some(Setting::Text(config.hash_algorithm.clone()))
    } else if same_text(key, "never_trash") {
        Some(Setting::Text(join_texts(&config.never_trash, ", ")))
    } else if same_text(key, "only_trash") {
        Some(Setting::Text(join_texts(&config.only_trash, ", ")))
    } else if same_text(key, "bypass_processes") {
        Some(Setting::Text(join_texts(&config.bypass_processes, ", ")))
    } else if same_text(key, "bypass_paths") {
        Some(Setting::Text(join_texts(&config.bypass_paths, ", ")))
    } else {
        None
    }
}

/// What a change of a single setting writes.
#[derive(Debug, Clone, Copy, PartialEq, Eq, Structural)]
pub enum Edit {
    /// A whole number, under the key's own name.
    Whole(u64),
    /// A whole number in the table `retention`.
    Retention(u64),
    /// The size limit in gigabytes, in the table `retention`.
    RetentionSize,
    /// The value itself.
    Literal,
    /// The value is no whole number that fits.
    NotWhole,
    /// The value is no whole number up to 255.
    NotPercent,
    /// The value is no hash algorithm.
    NotAlgorithm,
    /// There is no single setting of that name.
    NotScalar,
}

pub open spec fn edit_of(key: Seq<char>, value: Seq<char>) -> Edit {
    if key == "retention.max_age_days"@ {
        match unsigned_value(value, u32::MAX as nat) {
            Some(v) => Edit::Retention(v as u64),
            None => Edit::NotWhole,
        }
    } else if key == "retention.max_size_gb"@ {
        Edit::RetentionSize
    } else if key == "retention.disk_pressure_percent"@ {
        match unsigned_value(value, u8::MAX as nat) {
            Some(v) => Edit::Retention(v as u64),
            None => Edit::NotPercent,
        }
    } else if key == "max_file_size_mb"@ || key == "max_dir_size_mb"@ || key
        == "sha256_max_size_mb"@ || key == "auto_purge_interval_secs"@ {
        match unsigned_value(value, u64::MAX as nat) {
            Some(v) => Edit::Whole(v as u64),
            None => Edit::NotWhole,
        }
    } else if key == "hash_algorithm"@ {
        if value == "xxhash"@ || value == "sha256"@ {
            Edit::Literal
        } else {
            Edit::NotAlgorithm
        }
    } else {
        Edit::NotScalar
    }
}

/// What a change of a single setting writes, or why it is refused.
pub fn config_set_scalar(key: &str, value: &str) -> (r: Edit)
    ensures
        r == edit_of(key@, value@),
{
    let v = chars_of(value);
    if same_text(key, "retention.max_age_days") {
        match parse_unsigned(v.as_slice(), u32::MAX as u64) {
            Some(x) => Edit::Retention(x),
            None => Edit::NotWhole,
        }
    } else if same_text(key, "retention.max_size_gb") {
        Edit::RetentionSize
    } else if same_text(key, "retention.disk_pressure_percent") {
        match parse_unsigned(v.as_slice(), u8::MAX as u64) {
            Some(x) => Edit::Retention(x),
            None => Edit::NotPercent,
        }
    } else if same_text(key, "max_file_size_mb") || same_text(key, "max_dir_size_mb") || same_text(
        key,
        "sha256_max_size_mb",
    ) || same_text(key, "auto_purge_interval_secs") {
        match parse_unsigned(v.as_slice(), u64::MAX) {
            Some(x) => Edit::Whole(x),
            None => Edit::NotWhole,
        }
    } else if same_text(key, "hash_algorithm") {
        if same_text(value, "xxhash") || same_text(value, "sha256") {
            Edit::Literal
        } else {
            Edit::NotAlgorithm
        }
    } else {
        Edit::NotScalar
    }
}

pub open spec fn list_key(key: Seq<char>) -> bool {
    key == "never_trash"@ || key == "only_trash"@ || key == "bypass_processes"@ || key
        == "bypass_paths"@
}

/// Whether a setting is a list.
pub fn is_list_key(key: &str) -> (r: bool)
    ensures
        r == list_key(key@),
{
    same_text(key, "never_trash") || same_text(key, "only_trash") || same_text(
        key,
        "bypass_processes",
    ) || same_text(key, "bypass_paths")
}

/// Adds a value to a list that lacks it.
pub fn config_list_add(list: &mut Vec<String>, value: &str)
    ensures
        texts(final(list)@) == extended(texts(old(list)@), seq![value@]),
{
    proof {
        assert(seq![value@].drop_last() =~= seq![]);
        assert(extended(texts(list@), seq![value@].drop_last()) == texts(list@));
    }
    if !listed(list, value) {
        let ghost before = list@;
        list.push(value.to_owned());
        assert(texts(list@) =~= texts(before).push(value@));
    }
}

/// Takes every copy of a value out of a list, and says whether there was one.
pub fn config_list_remove(list: &mut Vec<String>, value: &str) -> (r: bool)
    ensures
        texts(final(list)@) == texts(old(list)@).filter(|x: Seq<char>| x != value@),
        r == texts(old(list)@).contains(value@),
{
    let r: bool = listed(list, value);
    let mut kept: Vec<String> = Vec::new();
    let mut i: usize = 0;
    let ghost keep = |x: Seq<char>| x != value@;
    proof {
        reveal(Seq::filter);
        assert(texts(list@).take(0) =~= seq![]);
        assert(texts(kept@) =~= texts(list@).take(0).filter(keep));
    }
    while i < list.len()
        invariant
            i <= list@.len(),
            keep == (|x: Seq<char>| x != value@),
            texts(kept@) == texts(list@).take(i as int).filter(keep),
        decreases list@.len() - i,
    {
        proof {
            let t = texts(list@).take(i + 1);
            assert(t.drop_last() =~= texts(list@).take(i as int));
            assert(t.last() == list@[i as int]@);
            reveal(Seq::filter);
        }
        let ghost k0 = kept@;
        if !same_text(list[i].as_str(), value) {
            kept.push(list[i].clone());
            assert(texts(kept@) =~= texts(k0).push(list@[i as int]@));
        }
        i += 1;
    }
    assert(texts(list@).take(i as int) =~= texts(list@));
    *list = kept;
    r
}

} // verus!
