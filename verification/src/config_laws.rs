//! What follows for callers from how settings are merged and what patterns match.

use crate::config::{ancestors, config_get, config_list_add, config_list_remove, config_set_scalar, default_settings, extended, extended_by, has_braces, is_list_key, law_extended, local_candidates, local_config_paths, merged, pattern_matches, skipped, some_matches, split_patterns, unusable, usable, Config, Edit, LocalConfig, PartialConfig, Setting, Settings};
use crate::glob::{law_literal, law_suffix};
use crate::intercept_laws::asks;
use crate::path::{components, joined, law_parent, lemma_parent_absolute, lemma_parent_shorter, parent_of};
use crate::seqs::{lemma_push_contains, occurs, occurs_at};
use crate::text::{decimal, interspersed, law_decimal_read_back, lossy, texts, views};
use vstd::prelude::*;
use vstd::utf8::encode_utf8;

verus! {

/// The settings of a machine that no file says anything about.
pub proof fn law_default_settings()
    ensures
        default_settings().retention.max_age_days == 30,
        default_settings().retention.max_size_bytes == 10 * 1024 * 1024 * 1024,
        default_settings().retention.disk_pressure_percent == 90,
        default_settings().only_trash.len() == 0,
        default_settings().bypass_paths.len() == 0,
        default_settings().max_file_size_mb == 1024,
        default_settings().max_dir_size_mb == 0,
        default_settings().sha256_max_size_mb == 1,
        default_settings().auto_purge_interval_secs == 60,
        default_settings().hash_algorithm == "xxhash"@,
        default_settings().bypass_processes == seq![
            "apt"@,
            "apt-get"@,
            "dpkg"@,
            "yum"@,
            "dnf"@,
            "pacman"@,
            "rpm"@,
            "pip"@,
            "cargo"@,
            "npm"@,
            "make"@,
        ],
{
}

/// The system's own directories, what programs make for themselves for a while, and what
/// can be built again are never trashed, where no file says otherwise.
pub proof fn law_default_never_trash()
    ensures
        default_settings().never_trash.len() == 22,
        default_settings().never_trash.take(7) == seq![
            "/tmp/*"@,
            "/var/tmp/*"@,
            "/var/cache/*"@,
            "/proc/*"@,
            "/sys/*"@,
            "/dev/*"@,
            "/run/*"@,
        ],
        default_settings().never_trash.subrange(7, 17) == seq![
            "*.o"@,
            "*.pyc"@,
            "*.class"@,
            "*.lock"@,
            "*.pid"@,
            "*.sock"@,
            "*.socket"@,
            "*.tmp"@,
            "*.swp"@,
            "*~"@,
        ],
        default_settings().never_trash.skip(17) == seq![
            "__pycache__/*"@,
            "node_modules/*"@,
            "target/debug/*"@,
            "target/release/*"@,
            "*/.git/*"@,
        ],
{
}

/// A value that a layer gives counts, and one that it leaves open stays what it was.
pub open spec fn layered<T>(before: T, said: Option<T>, after: T) -> bool {
    &&& said matches Some(v) ==> after == v
    &&& said is None ==> after == before
}

/// Each setting by itself: a single value is that of the layer where the layer has one; an
/// item is in a list that was there before or that the layer names; the list of what alone
/// is trashed is the layer's own where it has one.
pub proof fn law_merged(s: Settings, p: PartialConfig, x: Seq<char>)
    ensures
        p.retention is None ==> merged(s, p).retention == s.retention,
        p.retention matches Some(q) ==> {
            &&& layered(s.retention.max_age_days, q.max_age_days, merged(s, p).retention.max_age_days)
            &&& layered(
                s.retention.max_size_bytes,
                q.max_size_bytes,
                merged(s, p).retention.max_size_bytes,
            )
            &&& layered(
                s.retention.disk_pressure_percent,
                q.disk_pressure_percent,
                merged(s, p).retention.disk_pressure_percent,
            )
        },
        layered(s.max_file_size_mb, p.max_file_size_mb, merged(s, p).max_file_size_mb),
        layered(s.max_dir_size_mb, p.max_dir_size_mb, merged(s, p).max_dir_size_mb),
        layered(s.sha256_max_size_mb, p.sha256_max_size_mb, merged(s, p).sha256_max_size_mb),
        layered(
            s.auto_purge_interval_secs,
            p.auto_purge_interval_secs,
            merged(s, p).auto_purge_interval_secs,
        ),
        p.hash_algorithm matches Some(h) ==> merged(s, p).hash_algorithm == h@,
        p.hash_algorithm is None ==> merged(s, p).hash_algorithm == s.hash_algorithm,
        merged(s, p).never_trash.contains(x) <==> s.never_trash.contains(x) || asks(p.never_trash, x),
        merged(s, p).bypass_processes.contains(x) <==> s.bypass_processes.contains(x) || asks(
            p.bypass_processes,
            x,
        ),
        merged(s, p).bypass_paths.contains(x) <==> s.bypass_paths.contains(x) || asks(
            p.bypass_paths,
            x,
        ),
        s.never_trash.is_prefix_of(merged(s, p).never_trash),
        s.bypass_processes.is_prefix_of(merged(s, p).bypass_processes),
        s.bypass_paths.is_prefix_of(merged(s, p).bypass_paths),
        p.only_trash matches Some(o) ==> merged(s, p).only_trash == texts(o@),
        p.only_trash is None ==> merged(s, p).only_trash == s.only_trash,
{
    lemma_layer(s.never_trash, p.never_trash, x);
    lemma_layer(s.bypass_processes, p.bypass_processes, x);
    lemma_layer(s.bypass_paths, p.bypass_paths, x);
}

proof fn lemma_layer(base: Seq<Seq<char>>, extra: Option<Vec<String>>, x: Seq<char>)
    ensures
        extended_by(base, extra).contains(x) <==> base.contains(x) || asks(extra, x),
        base.is_prefix_of(extended_by(base, extra)),
{
    match extra {
        Some(l) => law_extended(base, texts(l@)),
        None => {
            assert(base.take(base.len() as int) =~= base);
        },
    }
}

/// What the user's file says comes before what the file for all says, and that before what
/// holds without either.
pub proof fn law_loaded_values(global: Option<PartialConfig>, user: Option<PartialConfig>, r: Config)
    requires
        call_ensures(Config::load, (global, user), r),
    ensures
        r@.max_file_size_mb == (match user {
            Some(PartialConfig { max_file_size_mb: Some(v), .. }) => v,
            _ => match global {
                Some(PartialConfig { max_file_size_mb: Some(v), .. }) => v,
                _ => 1024,
            },
        }),
        r@.only_trash == (match user {
            Some(PartialConfig { only_trash: Some(o), .. }) => texts(o@),
            _ => match global {
                Some(PartialConfig { only_trash: Some(o), .. }) => texts(o@),
                _ => seq![],
            },
        }),
        global is None && user is None ==> r@ == default_settings(),
        global is None ==> (user matches Some(u) ==> r@ == merged(default_settings(), u)),
        user is None ==> (global matches Some(g) ==> r@ == merged(default_settings(), g)),
{
}

/// Characters that stand for themselves in a pattern.
pub open spec fn plain(s: Seq<char>) -> bool {
    forall|k: int|
        0 <= k < s.len() ==> #[trigger] s[k] != '*' && s[k] != '?' && s[k] != '['
}

/// A text has a piece somewhere.
pub open spec fn has_piece(t: Seq<char>, x: Seq<char>) -> bool {
    exists|a: Seq<char>, b: Seq<char>| #[trigger] ((a + x) + b) == t
}

proof fn lemma_has_piece(t: Seq<char>, x: Seq<char>)
    ensures
        occurs(t, x) <==> has_piece(t, x),
{
    if occurs(t, x) {
        let i = choose|i: int| occurs_at(t, x, i);
        let a = t.take(i);
        let b = t.skip(i + x.len());
        assert((a + x) + b =~= t);
    }
    if has_piece(t, x) {
        let (a, b) = choose|a: Seq<char>, b: Seq<char>| #[trigger] ((a + x) + b) == t;
        assert(t.subrange(a.len() as int, (a.len() + x.len()) as int) =~= x);
        assert(occurs_at(t, x, a.len() as int));
    }
}

/// A pattern without special characters is one path.
pub proof fn law_exact(p: Seq<char>, s: Seq<char>)
    requires
        plain(p),
    ensures
        crate::config::matches(p, s) <==> s == p,
{
    law_literal(p, s);
    if p.len() > 0 {
        assert(p[0] != '*');
        assert(p[p.len() - 1] != '*');
    }
}

/// A start with `*` behind it is every path that begins with it. Where the start is not
/// from the root, it is also every path with that start below some directory.
pub proof fn law_starts(a: Seq<char>, s: Seq<char>)
    requires
        plain(a),
    ensures
        a.len() > 0 && a[0] == '/' ==> (crate::config::matches(a.push('*'), s) <==> a.is_prefix_of(s)),
        a.len() == 0 || a[0] != '/' ==> (crate::config::matches(a.push('*'), s) <==> a.is_prefix_of(s)
            || has_piece(s, seq!['/'] + a)),
{
    let p = a.push('*');
    assert(p.drop_last() =~= a);
    if p.len() >= 3 {
        assert(p[0] == a[0] && a[0] != '*');
    }
    lemma_has_piece(s, seq!['/'] + a);
}

/// `*` before an ending that holds no separator at its start is every path that ends so.
pub proof fn law_ends(e: Seq<char>, s: Seq<char>)
    requires
        plain(e),
        e.len() > 0,
        e[0] != '/',
    ensures
        crate::config::matches(seq!['*'] + e, s) <==> e.is_suffix_of(s),
{
    let p = seq!['*'] + e;
    assert(p[1] == e[0]);
    assert(p.last() == e.last());
    assert(e[e.len() - 1] != '*');
    law_suffix(e, s);
}

/// A name between `*/` and `/*` is every path with such a directory in it.
pub proof fn law_within(n: Seq<char>, s: Seq<char>)
    requires
        plain(n),
    ensures
        crate::config::matches(seq!['*', '/'] + n + seq!['/', '*'], s) <==> has_piece(s, seq!['/'] + n + seq!['/']),
{
    let p = seq!['*', '/'] + n + seq!['/', '*'];
    let x = seq!['/'] + n + seq!['/'];
    assert(p.subrange(1, p.len() - 1) =~= x);
    assert forall|k: int| 0 <= k < x.len() implies !crate::glob::is_special(#[trigger] x[k]) by {
        if 0 < k < x.len() - 1 {
            assert(x[k] == n[k - 1]);
        }
    }
    lemma_has_piece(s, x);
}

/// `*/` before a name is every path with an entry of that name or one that begins with it.
pub proof fn law_below(n: Seq<char>, s: Seq<char>)
    requires
        plain(n),
        n.len() > 0,
        n.last() != '/',
    ensures
        crate::config::matches(seq!['*', '/'] + n, s) <==> has_piece(s, seq!['/'] + n),
{
    let p = seq!['*', '/'] + n;
    let x = seq!['/'] + n;
    assert(p.skip(1) =~= x);
    assert(p.skip(2) =~= n);
    assert(p.last() == n.last());
    assert(n[n.len() - 1] != '*');
    assert forall|k: int| 0 <= k < x.len() implies !crate::glob::is_special(#[trigger] x[k]) by {
        if k > 0 {
            assert(x[k] == n[k - 1]);
        }
    }
    lemma_has_piece(s, x);
    if x.is_suffix_of(s) {
        let i = s.len() - x.len();
        assert(s.subrange(i, i + x.len()) =~= x);
        assert(occurs_at(s, x, i));
    }
}

/// Which paths are deleted for real. What either list of never trashed names always is.
/// What neither names is, where the list of what alone is trashed does not name it: that of
/// the directory where it has one, else the general one. All else is trashed.
pub proof fn law_skip(
    never: &Vec<String>,
    only: &Vec<String>,
    local: Option<&LocalConfig>,
    path: &[u8],
    r: bool,
)
    requires
        call_ensures(skipped, (never, only, local, path), r),
    ensures
        some_matches(texts(never@), lossy(path@)) ==> r,
        (local matches Some(l) && some_matches(texts(l.never_trash@), lossy(path@))) ==> r,
        !some_matches(texts(never@), lossy(path@)) ==> match local {
            Some(l) => !some_matches(texts(l.never_trash@), lossy(path@)) ==> if l.only_trash@.len()
                > 0 {
                r <==> !some_matches(texts(l.only_trash@), lossy(path@))
            } else {
                r <==> only@.len() > 0 && !some_matches(texts(only@), lossy(path@))
            },
            None => r <==> only@.len() > 0 && !some_matches(texts(only@), lossy(path@)),
        },
{
}

/// A list matches a path where one of its patterns does, wherever in the list it stands.
pub proof fn law_some_matches(a: Seq<Seq<char>>, p: Seq<char>, b: Seq<Seq<char>>, s: Seq<char>)
    ensures
        !some_matches(seq![], s),
        some_matches(seq![p], s) <==> crate::config::matches(p, s),
        some_matches(a + b, s) <==> some_matches(a, s) || some_matches(b, s),
{
    assert(seq![p][0] == p);
    assert(some_matches(seq![p], s) == crate::config::matches(p, s)) by {
        if crate::config::matches(p, s) {
            assert(crate::config::matches(seq![p][0], s));
        }
    }
    let c = a + b;
    if some_matches(a, s) {
        let i = choose|i: int| 0 <= i < a.len() && crate::config::matches(#[trigger] a[i], s);
        assert(c[i] == a[i]);
    }
    if some_matches(b, s) {
        let i = choose|i: int| 0 <= i < b.len() && crate::config::matches(#[trigger] b[i], s);
        assert(c[a.len() + i] == b[i]);
    }
    if some_matches(c, s) {
        let i = choose|i: int| 0 <= i < c.len() && crate::config::matches(#[trigger] c[i], s);
        if i < a.len() {
            assert(a[i] == c[i]);
        } else {
            assert(b[i - a.len()] == c[i]);
        }
    }
}

/// A pattern is refused for an opening brace with a closing one behind it, and for nothing
/// else; every pattern of a list is either kept or refused, and is counted once.
pub proof fn law_patterns_split(list: Seq<Seq<char>>, p: Seq<char>)
    ensures
        usable(list).contains(p) <==> list.contains(p) && !has_braces(p),
        unusable(list).contains(p) <==> list.contains(p) && has_braces(p),
        usable(list).len() + unusable(list).len() == list.len(),
    decreases list.len(),
{
    reveal(Seq::filter);
    if list.len() > 0 {
        let rest = list.drop_last();
        law_patterns_split(rest, p);
        assert(list =~= rest.push(list.last()));
        crate::seqs::lemma_push_contains(rest, list.last(), p);
        crate::seqs::lemma_push_contains(usable(rest), list.last(), p);
        crate::seqs::lemma_push_contains(unusable(rest), list.last(), p);
    }
}

/// Braces around anything are seen, and one alone or the wrong way round is not.
pub proof fn law_braces(a: Seq<char>, b: Seq<char>, c: Seq<char>)
    ensures
        has_braces(a.push('{') + b.push('}') + c),
        !a.contains('{') && !b.contains('{') && !b.contains('}') ==> !has_braces(a.push('{') + b),
        !a.contains('{') && !b.contains('{') ==> !has_braces(a.push('}') + b),
{
    let p = a.push('{') + b.push('}') + c;
    assert(p[a.len() as int] == '{');
    assert(p[a.len() as int + 1 + b.len()] == '}');
    let q = a.push('{') + b;
    if !a.contains('{') && !b.contains('{') && !b.contains('}') && has_braces(q) {
        let (i, j) = choose|i: int, j: int|
            0 <= i < j < q.len() && #[trigger] q[i] == '{' && #[trigger] q[j] == '}';
        if i < a.len() {
            assert(a.contains(a[i]));
        }
        if j > a.len() {
            assert(b[j - a.len() - 1] == '}');
            assert(b.contains('}'));
        }
    }
    let r = a.push('}') + b;
    if !a.contains('{') && !b.contains('{') && has_braces(r) {
        let (i, j) = choose|i: int, j: int|
            0 <= i < j < r.len() && #[trigger] r[i] == '{' && #[trigger] r[j] == '}';
        if i < a.len() {
            assert(a.contains(a[i]));
        }
        if i > a.len() {
            assert(b[i - a.len() - 1] == '{');
            assert(b.contains('{'));
        }
    }
}

/// The settings of directories are looked for in every directory above a path and nowhere
/// else, the nearest first: each candidate lies one component higher than the one before it.
pub proof fn law_local_candidates(p: Seq<u8>)
    requires
        p.len() > 0,
        p[0] == 47,
    ensures
        local_candidates(p).len() == ancestors(p).len(),
        ancestors(p).len() + 1 == components(p).len(),
        forall|k: int|
            0 <= k < ancestors(p).len() ==> local_candidates(p)[k] == joined(
                #[trigger] ancestors(p)[k],
                encode_utf8(".trashd.toml"@),
            ) && components(ancestors(p)[k]) == components(p).take(components(p).len() - 1 - k),
    decreases p.len(),
{
    law_parent(p);
    lemma_parent_shorter(p);
    lemma_parent_absolute(p);
    match parent_of(p) {
        Some(q) => {
            law_local_candidates(q);
            let c = components(p);
            let d = components(q);
            assert forall|k: int| 0 <= k < ancestors(p).len() implies local_candidates(p)[k]
                == joined(#[trigger] ancestors(p)[k], encode_utf8(".trashd.toml"@)) && components(
                ancestors(p)[k],
            ) == c.take(c.len() - 1 - k) by {
                if k == 0 {
                    assert(ancestors(p)[0] == q);
                    assert(c.drop_last() =~= c.take(c.len() - 1));
                } else {
                    assert(ancestors(p)[k] == ancestors(q)[k - 1]);
                    assert(d.take(d.len() - 1 - (k - 1)) =~= c.take(c.len() - 1 - k));
                }
            }
        },
        None => {},
    }
}

/// A setting is told under its own name: each number as the numeral of what it is set to.
pub proof fn law_setting_told(config: &Config, key: &str, r: Option<Setting>)
    requires
        call_ensures(config_get, (config, key), r),
    ensures
        key@ == "retention.max_size_gb"@ <==> r == Some(Setting::SizeLimit),
        key@ == "retention.max_age_days"@ ==> (r matches Some(Setting::Text(t)) && t@ == decimal(
            config@.retention.max_age_days as nat,
        )),
        key@ == "retention.disk_pressure_percent"@ ==> (r matches Some(Setting::Text(t)) && t@
            == decimal(config@.retention.disk_pressure_percent as nat)),
        key@ == "max_file_size_mb"@ ==> (r matches Some(Setting::Text(t)) && t@ == decimal(
            config@.max_file_size_mb as nat,
        )),
        key@ == "max_dir_size_mb"@ ==> (r matches Some(Setting::Text(t)) && t@ == decimal(
            config@.max_dir_size_mb as nat,
        )),
        key@ == "sha256_max_size_mb"@ ==> (r matches Some(Setting::Text(t)) && t@ == decimal(
            config@.sha256_max_size_mb as nat,
        )),
        key@ == "auto_purge_interval_secs"@ ==> (r matches Some(Setting::Text(t)) && t@ == decimal(
            config@.auto_purge_interval_secs as nat,
        )),
        key@ == "hash_algorithm"@ ==> (r matches Some(Setting::Text(t)) && t@
            == config@.hash_algorithm),
        key@ == "never_trash"@ ==> (r matches Some(Setting::Text(t)) && t@ == interspersed(
            config@.never_trash,
            ", "@,
        )),
        key@ == "only_trash"@ ==> (r matches Some(Setting::Text(t)) && t@ == interspersed(
            config@.only_trash,
            ", "@,
        )),
        key@ == "bypass_processes"@ ==> (r matches Some(Setting::Text(t)) && t@ == interspersed(
            config@.bypass_processes,
            ", "@,
        )),
        key@ == "bypass_paths"@ ==> (r matches Some(Setting::Text(t)) && t@ == interspersed(
            config@.bypass_paths,
            ", "@,
        )),
{
    lemma_keys_apart();
}

proof fn lemma_keys_apart()
    ensures
        "retention.max_size_gb"@.len() == 21,
        "retention.max_age_days"@.len() == 22,
        "retention.disk_pressure_percent"@.len() == 31,
        "max_file_size_mb"@.len() == 16,
        "max_dir_size_mb"@.len() == 15,
        "sha256_max_size_mb"@.len() == 18,
        "auto_purge_interval_secs"@.len() == 24,
        "hash_algorithm"@.len() == 14,
        "never_trash"@.len() == 11,
        "only_trash"@.len() == 10,
        "bypass_processes"@.len() == 16,
        "bypass_paths"@.len() == 12,
        "max_file_size_mb"@ != "bypass_processes"@,
{
    reveal_strlit("retention.max_size_gb");
    reveal_strlit("retention.max_age_days");
    reveal_strlit("retention.disk_pressure_percent");
    reveal_strlit("max_file_size_mb");
    reveal_strlit("max_dir_size_mb");
    reveal_strlit("sha256_max_size_mb");
    reveal_strlit("auto_purge_interval_secs");
    reveal_strlit("hash_algorithm");
    reveal_strlit("never_trash");
    reveal_strlit("only_trash");
    reveal_strlit("bypass_processes");
    reveal_strlit("bypass_paths");
    assert("max_file_size_mb"@[0] != "bypass_processes"@[0]);
}

/// A number that is set is written as it is read, in its own table and up to what its
/// setting can hold. A text that is no number is refused, and so is a key of no single
/// setting.
pub proof fn law_number_set(key: &str, value: &str, n: u64, r: Edit)
    requires
        call_ensures(config_set_scalar, (key, value), r),
        value@ == decimal(n as nat),
    ensures
        key@ == "retention.max_age_days"@ ==> r == (if n <= 4294967295 {
            Edit::Retention(n)
        } else {
            Edit::NotWhole
        }),
        key@ == "retention.disk_pressure_percent"@ ==> r == (if n <= 255 {
            Edit::Retention(n)
        } else {
            Edit::NotPercent
        }),
        key@ == "max_file_size_mb"@ || key@ == "max_dir_size_mb"@ || key@ == "sha256_max_size_mb"@
            || key@ == "auto_purge_interval_secs"@ ==> r == Edit::Whole(n),
        key@ == "hash_algorithm"@ ==> r == Edit::NotAlgorithm,
{
    lemma_keys_apart();
    crate::text::lemma_decimal(n as nat);
    law_decimal_read_back(n as nat, u64::MAX as nat);
    let d = decimal(n as nat);
    assert(crate::text::is_digit(d[0]));
    reveal_strlit("xxhash");
    reveal_strlit("sha256");
    assert("xxhash"@[0] == 'x');
    assert("sha256"@[0] == 's');
}

/// What is set that is no number: the size limit is left to its own table, the hash
/// algorithm is one of two, and a setting of numbers takes nothing that holds another
/// character than digits.
pub proof fn law_text_set(key: &str, value: &str, r: Edit)
    requires
        call_ensures(config_set_scalar, (key, value), r),
    ensures
        key@ == "retention.max_size_gb"@ <==> r is RetentionSize,
        key@ == "hash_algorithm"@ && (value@ == "xxhash"@ || value@ == "sha256"@) <==> r is Literal,
        key@ == "hash_algorithm"@ && value@ != "xxhash"@ && value@ != "sha256"@
            <==> r is NotAlgorithm,
        r is Whole ==> key@ == "max_file_size_mb"@ || key@ == "max_dir_size_mb"@ || key@
            == "sha256_max_size_mb"@ || key@ == "auto_purge_interval_secs"@,
        r is Retention ==> key@ == "retention.max_age_days"@ || key@
            == "retention.disk_pressure_percent"@,
        r is NotPercent ==> key@ == "retention.disk_pressure_percent"@,
        r is NotScalar <==> key@ != "retention.max_age_days"@ && key@ != "retention.max_size_gb"@
            && key@ != "retention.disk_pressure_percent"@ && key@ != "max_file_size_mb"@ && key@
            != "max_dir_size_mb"@ && key@ != "sha256_max_size_mb"@ && key@
            != "auto_purge_interval_secs"@ && key@ != "hash_algorithm"@,
        (exists|k: int|
            0 < k < value@.len() && !('0' <= #[trigger] value@[k] <= '9')) || value@.len() == 0
            ==> !(r is Whole) && !(r is Retention),
{
    lemma_keys_apart();
    if exists|k: int| 0 < k < value@.len() && !('0' <= #[trigger] value@[k] <= '9') {
        let k = choose|k: int| 0 < k < value@.len() && !('0' <= #[trigger] value@[k] <= '9');
        assert(value@.drop_first()[k - 1] == value@[k]);
        assert(!crate::text::is_digit(value@[k]));
        assert(!crate::text::is_digit(value@.drop_first()[k - 1]));
    }
}

/// The four settings that are lists.
pub proof fn law_list_keys(key: &str, r: bool)
    requires
        call_ensures(is_list_key, (key,), r),
    ensures
        r <==> key@ == "never_trash"@ || key@ == "only_trash"@ || key@ == "bypass_processes"@ || key@
            == "bypass_paths"@,
{
}

/// A value that is added to a list is in it once, behind what was there, and stays where it
/// stood if it was there.
pub proof fn law_added(list: Seq<Seq<char>>, v: Seq<char>)
    ensures
        list.contains(v) ==> extended(list, seq![v]) == list,
        !list.contains(v) ==> extended(list, seq![v]) == list.push(v),
{
    reveal_with_fuel(extended, 2);
    assert(seq![v].drop_last() =~= seq![]);
}

/// A value that is taken out of a list is gone, and what else was there stays; taken out
/// after it was added to a list that lacked it, it leaves the list as it was.
pub proof fn law_removed(list: Seq<Seq<char>>, v: Seq<char>, x: Seq<char>)
    ensures
        list.filter(|y: Seq<char>| y != v).contains(x) <==> list.contains(x) && x != v,
        !list.contains(v) ==> list.push(v).filter(|y: Seq<char>| y != v) == list,
    decreases list.len(),
{
    let keep = |y: Seq<char>| y != v;
    reveal(Seq::filter);
    if list.len() > 0 {
        let rest = list.drop_last();
        law_removed(rest, v, x);
        assert(list =~= rest.push(list.last()));
        crate::seqs::lemma_push_contains(rest, list.last(), x);
        crate::seqs::lemma_push_contains(rest.filter(keep), list.last(), x);
        if !list.contains(v) {
            crate::seqs::lemma_push_contains(rest, list.last(), v);
            assert(rest.push(v).drop_last() =~= rest);
            assert(rest.push(v).filter(keep) == rest.filter(keep));
            assert(list.filter(keep) =~= list);
        }
    }
    assert(list.push(v).drop_last() =~= list);
}

/// Where the files of settings lie: the one for all at one place, and the user's in a
/// directory of its own below that for settings.
pub proof fn law_config_paths(config_dir: Option<&[u8]>, global: Vec<u8>, user: Vec<u8>, shown: Vec<u8>)
    requires
        call_ensures(Config::global_config_path, (), global),
        call_ensures(Config::user_config_path, (config_dir,), user),
        call_ensures(Config::config_path, (config_dir,), shown),
    ensures
        global@ == encode_utf8("/etc/trashd/config.toml"@),
        config_dir matches Some(d) ==> user@ == joined(
            joined(d@, encode_utf8("trashd"@)),
            encode_utf8("config.toml"@),
        ),
        config_dir is None ==> user@ == joined(
            joined(encode_utf8("~/.config"@), encode_utf8("trashd"@)),
            encode_utf8("config.toml"@),
        ),
        shown@ == user@,
{
}

/// What is skipped under the settings is what is skipped under their two lists.
pub proof fn law_should_skip(c: &Config, path: &[u8], local: Option<&LocalConfig>, r: bool, s: bool)
    requires
        call_ensures(Config::should_skip, (c, path, local), r),
        call_ensures(skipped, (&c.never_trash, &c.only_trash, local, path), s),
    ensures
        r == s,
{
}

/// A pattern with `?` or a class in it is a glob over the whole path.
pub proof fn law_globs(p: Seq<char>, s: Seq<char>, k: int)
    requires
        0 <= k < p.len(),
        p[k] == '?' || p[k] == '[',
    ensures
        crate::config::matches(p, s) <==> crate::glob::glob(p, s),
{
    let n = p.len() as int;
    if n >= 3 && 0 < k < n - 1 {
        assert(p.subrange(1, n - 1)[k - 1] == p[k]);
        assert(crate::glob::is_special(p.subrange(1, n - 1)[k - 1]));
    }
    if k < n - 1 {
        assert(p.drop_last()[k] == p[k]);
        assert(crate::glob::is_special(p.drop_last()[k]));
    }
    if k > 0 {
        assert(p.skip(1)[k - 1] == p[k]);
        assert(crate::glob::is_special(p.skip(1)[k - 1]));
    }
}

/// A name with a separator behind it means the directory and what is in it.
pub proof fn law_below_dir(n: Seq<char>, s: Seq<char>)
    requires
        plain(n),
        n.len() > 0,
        n.last() != '/',
    ensures
        crate::config::matches(seq!['*', '/'] + n + seq!['/'], s) <==> has_piece(
            s,
            seq!['/'] + n + seq!['/'],
        ) || (seq!['/'] + n).is_suffix_of(s),
{
    let p = seq!['*', '/'] + n + seq!['/'];
    let x = seq!['/'] + n + seq!['/'];
    assert(p.skip(1) =~= x);
    assert(p.skip(2) =~= n.push('/'));
    assert(n.push('/').drop_last() =~= n);
    reveal_with_fuel(crate::config::trim_seps, 3);
    assert(crate::config::trim_seps(p.skip(2)) == n);
    assert(p.last() == '/');
    assert forall|k: int| 0 <= k < x.len() implies !crate::glob::is_special(#[trigger] x[k]) by {
        if 0 < k < x.len() - 1 {
            assert(x[k] == n[k - 1]);
        }
    }
    lemma_has_piece(s, x);
}

/// A value that was taken out of a list is nowhere in it, and every other value is there that
/// was.
pub proof fn law_taken_out(list: &mut Vec<String>, value: &str, x: Seq<char>, r: bool)
    requires
        call_ensures(config_list_remove, (list, value), r),
    ensures
        r <==> texts(old(list)@).contains(value@),
        texts(final(list)@).contains(x) <==> texts(old(list)@).contains(x) && x != value@,
{
    let before = texts(old(list)@);
    let after = texts(final(list)@);
    let keep = |y: Seq<char>| y != value@;
    assert(after == before.filter(keep));
    lemma_filtered(before, keep, x);
}

proof fn lemma_filtered(s: Seq<Seq<char>>, keep: spec_fn(Seq<char>) -> bool, x: Seq<char>)
    ensures
        s.filter(keep).contains(x) <==> s.contains(x) && keep(x),
    decreases s.len(),
{
    reveal(Seq::filter);
    if s.len() > 0 {
        let rest = s.drop_last();
        lemma_filtered(rest, keep, x);
        assert(s =~= rest.push(s.last()));
        lemma_push_contains(rest, s.last(), x);
        lemma_push_contains(rest.filter(keep), s.last(), x);
    }
}

/// A value that was put into a list is in it, at its end where it is new, and the list is the
/// same where it is not.
pub proof fn law_put_in(list: &mut Vec<String>, value: &str)
    requires
        call_ensures(config_list_add, (list, value), ()),
    ensures
        texts(final(list)@).contains(value@),
        texts(old(list)@).contains(value@) ==> texts(final(list)@) == texts(old(list)@),
        !texts(old(list)@).contains(value@) ==> texts(final(list)@) == texts(old(list)@).push(value@),
{
    law_added(texts(old(list)@), value@);
    lemma_push_contains(texts(old(list)@), value@, value@);
}

/// A layer that is put over the settings changes them as each setting by itself says.
pub proof fn law_layer_put(c: &mut Config, p: PartialConfig)
    requires
        call_ensures(Config::merge, (c, p), ()),
    ensures
        final(c)@ == merged(old(c)@, p),
{
}

/// The lists of patterns that are kept and refused, the files of a directory's settings, and
/// whether a pattern matches.
pub proof fn law_patterns_read(
    list: Vec<String>,
    split: (Vec<String>, Vec<String>),
    p: &[u8],
    files: Vec<Vec<u8>>,
    pattern: &[char],
    text: &[char],
    matched: bool,
)
    requires
        call_ensures(split_patterns, (list,), split),
        call_ensures(local_config_paths, (p,), files),
        call_ensures(pattern_matches, (pattern, text), matched),
    ensures
        texts(split.0@) == usable(texts(list@)),
        texts(split.1@) == unusable(texts(list@)),
        views(files@) == local_candidates(p@),
        matched == crate::config::matches(pattern@, text@),
{
}

} // verus!
