//! Updating: which release is newer, what is downloaded, and whether it may be installed.

use crate::contents::{hex, sha256_digest, sha256_of, to_hex};
use crate::seqs;
use crate::seqs::{find_from, lemma_find_from, position};
use crate::text::{chars_of, parse_unsigned, push_text, same_text, string_of, trim, trimmed, unsigned_value, words, words_of, views};
use vstd::prelude::*;
use vstd::slice::slice_subrange;

verus! {

/// The version of a release, from its tag.
pub open spec fn version_of(tag: Seq<char>) -> Seq<char> {
    if tag.len() > 0 && tag[0] == 'v' {
        tag.drop_first()
    } else {
        tag
    }
}

/// The version of a release, from its tag.
pub fn release_version(tag: &str) -> (r: String)
    ensures
        r@ == version_of(tag@),
{
    let c = chars_of(tag);
    if c.len() > 0 && c[0] == 'v' {
        let rest = slice_subrange(c.as_slice(), 1, c.len());
        assert(rest@ =~= tag@.drop_first());
        string_of(rest)
    } else {
        string_of(c.as_slice())
    }
}

/// The number of a part of a version; zero where it is none.
pub open spec fn part_value(p: Seq<char>) -> nat {
    match unsigned_value(trim(p), u64::MAX as nat) {
        Some(n) => n,
        None => 0,
    }
}

/// The numbers of a version, between its points, from position `i` on.
pub open spec fn parts_from(v: Seq<char>, i: int) -> Seq<nat>
    decreases v.len() - i,
{
    let e = find_from(v, '.', i);
    if i < 0 || i > v.len() || e < i || e > v.len() {
        seq![]
    } else if e == v.len() {
        seq![part_value(v.subrange(i, e))]
    } else {
        seq![part_value(v.subrange(i, e))] + parts_from(v, e + 1)
    }
}

/// A number of a version; zero behind the last.
pub open spec fn part(v: Seq<char>, i: int) -> nat {
    let p = parts_from(v, 0);
    if 0 <= i < p.len() {
        p[i]
    } else {
        0
    }
}

/// A version is newer than another: the first of their numbers that differs is larger.
pub open spec fn newer(candidate: Seq<char>, current: Seq<char>) -> bool {
    exists|i: int|
        0 <= i && #[trigger] part(candidate, i) > part(current, i) && forall|j: int|
            0 <= j < i ==> #[trigger] part(candidate, j) == part(current, j)
}

fn part_number(p: &[char]) -> (r: u64)
    ensures
        r == part_value(p@),
{
    match parse_unsigned(trimmed(p), u64::MAX) {
        Some(n) => n,
        None => 0,
    }
}

pub open spec fn nats(v: Seq<u64>) -> Seq<nat> {
    v.map_values(|n: u64| n as nat)
}

fn parts_of(v: &[char]) -> (r: Vec<u64>)
    ensures
        nats(r@) == parts_from(v@, 0),
{
    let n: usize = v.len();
    let mut r: Vec<u64> = Vec::new();
    let mut i: usize = 0;
    assert(nats(r@) + parts_from(v@, 0) =~= parts_from(v@, 0));
    loop
        invariant
            n == v@.len(),
            i <= n,
            nats(r@) + parts_from(v@, i as int) == parts_from(v@, 0),
        decreases n - i,
    {
        proof {
            lemma_find_from(v@, '.', i as int);
        }
        let e: usize = position(v, '.', i);
        let ghost before = r@;
        r.push(part_number(slice_subrange(v, i, e)));
        assert(nats(r@) =~= nats(before).push(part_value(v@.subrange(i as int, e as int))));
        if e == n {
            assert(nats(before) + parts_from(v@, i as int) =~= nats(r@));
            return r;
        }
        assert(nats(r@) + parts_from(v@, e + 1) =~= nats(before) + (seq![
            part_value(v@.subrange(i as int, e as int)),
        ] + parts_from(v@, e + 1)));
        i = e + 1;
    }
}

/// Whether a version is newer than another, number by number.
pub fn is_newer(candidate: &str, current: &str) -> (r: bool)
    ensures
        r == newer(candidate@, current@),
{
    let a = chars_of(candidate);
    let b = chars_of(current);
    let c = parts_of(a.as_slice());
    let u = parts_of(b.as_slice());
    assert(nats(c@).len() == c@.len());
    assert(nats(u@).len() == u@.len());
    let n: usize = if c.len() > u.len() {
        c.len()
    } else {
        u.len()
    };
    let mut i: usize = 0;
    while i < n
        invariant
            i <= n,
            n >= c@.len(),
            n >= u@.len(),
            nats(c@) == parts_from(candidate@, 0),
            nats(u@) == parts_from(current@, 0),
            forall|j: int| 0 <= j < i ==> #[trigger] part(candidate@, j) == part(current@, j),
        decreases n - i,
    {
        let x: u64 = if i < c.len() {
            c[i]
        } else {
            0
        };
        let y: u64 = if i < u.len() {
            u[i]
        } else {
            0
        };
        proof {
            assert(nats(c@).len() == c@.len());
            assert(nats(u@).len() == u@.len());
            if i < c@.len() {
                assert(nats(c@)[i as int] == c@[i as int] as nat);
            }
            if i < u@.len() {
                assert(nats(u@)[i as int] == u@[i as int] as nat);
            }
            assert(part(candidate@, i as int) == x as nat);
            assert(part(current@, i as int) == y as nat);
        }
        if x != y {
            proof {
                if x < y && newer(candidate@, current@) {
                    let k = choose|k: int|
                        0 <= k && #[trigger] part(candidate@, k) > part(current@, k) && forall|
                            j: int,
                        |
                            0 <= j < k ==> #[trigger] part(candidate@, j) == part(current@, j);
                    assert(k >= i);
                    assert(part(candidate@, i as int) == part(current@, i as int));
                }
            }
            return x > y;
        }
        i += 1;
    }
    proof {
        assert forall|k: int| 0 <= k implies !(#[trigger] part(candidate@, k) > part(current@, k)) by {
            if k >= n {
                assert(part(candidate@, k) == 0);
            }
        }
    }
    false
}

/// No version is newer than itself, and of two versions at most one is newer.
pub proof fn law_newer_is_strict(a: Seq<char>, b: Seq<char>)
    ensures
        !newer(a, a),
        newer(a, b) ==> !newer(b, a),
{
    if newer(a, b) && newer(b, a) {
        let i = choose|i: int|
            0 <= i && #[trigger] part(a, i) > part(b, i) && forall|j: int|
                0 <= j < i ==> #[trigger] part(a, j) == part(b, j);
        let k = choose|k: int|
            0 <= k && #[trigger] part(b, k) > part(a, k) && forall|j: int|
                0 <= j < k ==> #[trigger] part(b, j) == part(a, j);
        if i < k {
            assert(part(b, i) == part(a, i));
        } else if k < i {
            assert(part(a, k) == part(b, k));
        }
    }
}

pub const CACHE_SECONDS: u64 = 86_400;

/// What a check for updates can say without asking.
#[derive(Debug, Clone, Copy, PartialEq, Eq, Structural)]
pub enum Cached {
    /// Nothing: the answer is too old, or there is none.
    Ask,
    UpToDate,
    Available,
}

/// What a check for updates can say from an answer of some age.
pub fn cached_check(answer: Option<&str>, age_secs: u64, current: &str) -> (r: Cached)
    ensures
        r == (match answer {
            Some(v) => if age_secs >= CACHE_SECONDS {
                Cached::Ask
            } else if newer(v@, current@) {
                Cached::Available
            } else {
                Cached::UpToDate
            },
            None => Cached::Ask,
        }),
{
    match answer {
        Some(v) => {
            if age_secs >= CACHE_SECONDS {
                Cached::Ask
            } else if is_newer(v, current) {
                Cached::Available
            } else {
                Cached::UpToDate
            }
        },
        None => Cached::Ask,
    }
}

/// A file of a release.
#[derive(Debug)]
pub struct Asset {
    pub name: String,
    pub url: String,
    pub size: u64,
}

pub open spec fn asset_names(v: Seq<Asset>) -> Seq<Seq<char>> {
    v.map_values(|a: Asset| a.name@)
}

/// The directory that a release unpacks to.
pub open spec fn bundle_name(version: Seq<char>, arch: Seq<char>) -> Seq<char> {
    "trashd-"@ + version + "-linux-"@ + arch
}

/// The directory that a release unpacks to.
pub fn bundle(version: &str, arch: &str) -> (r: String)
    ensures
        r@ == bundle_name(version@, arch@),
{
    let mut r: String = "trashd-".to_owned();
    push_text(&mut r, version);
    push_text(&mut r, "-linux-");
    push_text(&mut r, arch);
    r
}

pub open spec fn supported(arch: Seq<char>) -> bool {
    arch == "x86_64"@ || arch == "aarch64"@
}

/// Where a name first stands in a list, or the length.
pub open spec fn index_in(names: Seq<Seq<char>>, name: Seq<char>, i: int) -> int
    decreases names.len() - i,
{
    if i >= names.len() || names[i] == name {
        i
    } else {
        index_in(names, name, i + 1)
    }
}

fn find_asset(v: &Vec<Asset>, name: &str) -> (r: usize)
    ensures
        r == index_in(asset_names(v@), name@, 0),
        r <= v@.len(),
        r < v@.len() ==> v@[r as int].name@ == name@,
{
    let mut i: usize = 0;
    while i < v.len()
        invariant
            i <= v@.len(),
            index_in(asset_names(v@), name@, 0) == index_in(asset_names(v@), name@, i as int),
        decreases v@.len() - i,
    {
        assert(asset_names(v@)[i as int] == v@[i as int].name@);
        if same_text(v[i].name.as_str(), name) {
            return i;
        }
        i += 1;
    }
    i
}

/// What is downloaded of a release, by position, or why nothing is.
#[derive(Debug, Clone, Copy, PartialEq, Eq, Structural)]
pub enum Plan {
    /// There are no releases for this machine.
    Unsupported,
    /// The release has no archive for this machine.
    NoArchive,
    /// The release has no checksum for the archive, without which it is not installed.
    NoChecksum,
    Download { archive: usize, checksum: usize },
}

pub open spec fn plan_of(names: Seq<Seq<char>>, version: Seq<char>, arch: Seq<char>) -> Plan {
    let archive = bundle_name(version, arch) + ".tar.gz"@;
    let a = index_in(names, archive, 0);
    let c = index_in(names, archive + ".sha256"@, 0);
    if !supported(arch) {
        Plan::Unsupported
    } else if a >= names.len() {
        Plan::NoArchive
    } else if c >= names.len() {
        Plan::NoChecksum
    } else {
        Plan::Download { archive: a as usize, checksum: c as usize }
    }
}

/// What is downloaded of a release.
pub fn plan_download(assets: &Vec<Asset>, version: &str, arch: &str) -> (r: Plan)
    ensures
        r == plan_of(asset_names(assets@), version@, arch@),
        r matches Plan::Download { archive, checksum } ==> archive < assets@.len() && checksum
            < assets@.len(),
{
    if !(same_text(arch, "x86_64") || same_text(arch, "aarch64")) {
        return Plan::Unsupported;
    }
    assert(asset_names(assets@).len() == assets@.len());
    let mut name = bundle(version, arch);
    push_text(&mut name, ".tar.gz");
    let a: usize = find_asset(assets, name.as_str());
    push_text(&mut name, ".sha256");
    let c: usize = find_asset(assets, name.as_str());
    if a >= assets.len() {
        Plan::NoArchive
    } else if c >= assets.len() {
        Plan::NoChecksum
    } else {
        Plan::Download { archive: a, checksum: c }
    }
}

/// Whether an address may be downloaded from: only over TLS.
pub fn url_allowed(url: &str) -> (r: bool)
    ensures
        r == "https://"@.is_prefix_of(url@),
{
    let u = chars_of(url);
    let p = chars_of("https://");
    seqs::starts_with(u.as_slice(), p.as_slice())
}

pub const SLACK: u64 = 1_048_576;

/// The bytes at which a download of an advertised size is stopped.
pub fn download_limit(size: u64) -> (r: u64)
    ensures
        r == (if size + SLACK <= u64::MAX {
            (size + SLACK) as u64
        } else {
            u64::MAX
        }),
{
    size.saturating_add(SLACK)
}

/// Whether a download that was stopped at a limit is whole.
pub fn download_whole(written: u64, limit: u64) -> (r: bool)
    ensures
        r == (written < limit),
{
    written < limit
}

pub open spec fn low(c: char) -> char {
    if 'A' <= c <= 'Z' {
        (c as u32 + 32) as char
    } else {
        c
    }
}

/// A text that is not all ASCII, in small letters.
pub uninterp spec fn small_letters(s: Seq<char>) -> Seq<char>;

/// A text in small letters.
pub open spec fn lowered(s: Seq<char>) -> Seq<char> {
    if forall|i: int| 0 <= i < s.len() ==> #[trigger] s[i] <= '\u{7f}' {
        s.map_values(|c: char| low(c))
    } else {
        small_letters(s)
    }
}

/// `str::to_lowercase` puts a text in small letters. In ASCII these are the letters `a` to
/// `z`; what becomes of other texts is left to the name `small_letters`.
#[verifier::external_body]
fn lower(s: &str) -> (r: String)
    ensures
        r@ == (if forall|i: int| 0 <= i < s@.len() ==> #[trigger] s@[i] <= '\u{7f}' {
            s@.map_values(|c: char| low(c))
        } else {
            small_letters(s@)
        }),
{
    s.to_lowercase()
}

/// How a checksum compares.
#[derive(Debug)]
pub enum Checksum {
    Good,
    /// The file of the checksum holds none.
    Empty,
    Mismatch { expected: String, actual: String },
}

/// The file of a checksum vouches for a digest: its first word is the digest in
/// hexadecimal, in letters of either case.
pub open spec fn vouches(content: Seq<char>, digest: Seq<u8>) -> bool {
    words(content).len() > 0 && lowered(words(content)[0]) == hex(digest)
}

/// Holds a digest against the file of its checksum.
pub fn compare_checksum(content: &str, digest: &[u8]) -> (r: Checksum)
    ensures
        match r {
            Checksum::Good => vouches(content@, digest@),
            Checksum::Empty => words(content@).len() == 0,
            Checksum::Mismatch { expected, actual } => words(content@).len() > 0 && !vouches(
                content@,
                digest@,
            ) && expected@ == lowered(words(content@)[0]) && actual@ == hex(digest@),
        },
{
    let c = chars_of(content);
    let w = words_of(c.as_slice());
    assert(views(w@).len() == w@.len());
    if w.len() == 0 {
        return Checksum::Empty;
    }
    assert(views(w@)[0] == w@[0]@);
    let first = string_of(w[0].as_slice());
    let expected = lower(first.as_str());
    let actual = to_hex(digest);
    if same_text(expected.as_str(), actual.as_str()) {
        Checksum::Good
    } else {
        Checksum::Mismatch { expected, actual }
    }
}

/// Holds an archive against the file of its checksum.
pub fn verify_sha256(archive: &[u8], content: &str) -> (r: Checksum)
    ensures
        match r {
            Checksum::Good => vouches(content@, sha256_of(archive@)),
            Checksum::Empty => words(content@).len() == 0,
            Checksum::Mismatch { expected, actual } => words(content@).len() > 0 && !vouches(
                content@,
                sha256_of(archive@),
            ) && expected@ == lowered(words(content@)[0]) && actual@ == hex(sha256_of(archive@)),
        },
{
    let d = sha256_digest(archive);
    compare_checksum(content, d.as_slice())
}

/// How the installer is run.
#[derive(Debug, Clone, Copy, PartialEq, Eq, Structural)]
pub enum Elevation {
    /// As it is.
    Direct,
    /// It cannot be run: the process may not gain privileges.
    Blocked,
    /// Through `sudo`.
    Sudo,
}

/// How the installer is run, by the user and by whether privileges can be gained.
pub fn elevation(euid: u32, no_new_privs: bool) -> (r: Elevation)
    ensures
        r == (if euid == 0 {
            Elevation::Direct
        } else if no_new_privs {
            Elevation::Blocked
        } else {
            Elevation::Sudo
        }),
{
    if euid == 0 {
        Elevation::Direct
    } else if no_new_privs {
        Elevation::Blocked
    } else {
        Elevation::Sudo
    }
}

/// A step of an update.
#[derive(Debug, Clone, Copy, PartialEq, Eq, Structural)]
pub enum UpdateStep {
    /// Ask which release is the latest.
    Fetch,
    /// Ask whether to install it.
    Confirm,
    /// Make a directory that only this user can read.
    MakeDir,
    /// Download the archive.
    FetchArchive,
    /// Download its checksum.
    FetchChecksum,
    /// Hold the archive against the checksum.
    Verify,
    Unpack,
    /// Run the installer and remove the directory.
    Install,
    /// Remove the directory and report the failure.
    Abort,
    /// Nothing is installed.
    Stop,
    Installed,
}

/// The step after one that went well or not. `latest_newer` says whether the latest
/// release is newer, and `check_only` whether no more is asked.
pub open spec fn update_after(
    s: UpdateStep,
    ok: bool,
    latest_newer: bool,
    check_only: bool,
) -> UpdateStep {
    match s {
        UpdateStep::Fetch => if ok && latest_newer && !check_only {
            UpdateStep::Confirm
        } else {
            UpdateStep::Stop
        },
        UpdateStep::Confirm => if ok {
            UpdateStep::MakeDir
        } else {
            UpdateStep::Stop
        },
        UpdateStep::MakeDir => if ok {
            UpdateStep::FetchArchive
        } else {
            UpdateStep::Stop
        },
        UpdateStep::FetchArchive => if ok {
            UpdateStep::FetchChecksum
        } else {
            UpdateStep::Abort
        },
        UpdateStep::FetchChecksum => if ok {
            UpdateStep::Verify
        } else {
            UpdateStep::Abort
        },
        UpdateStep::Verify => if ok {
            UpdateStep::Unpack
        } else {
            UpdateStep::Abort
        },
        UpdateStep::Unpack => if ok {
            UpdateStep::Install
        } else {
            UpdateStep::Abort
        },
        UpdateStep::Install => if ok {
            UpdateStep::Installed
        } else {
            UpdateStep::Stop
        },
        UpdateStep::Abort => UpdateStep::Stop,
        UpdateStep::Stop => UpdateStep::Stop,
        UpdateStep::Installed => UpdateStep::Installed,
    }
}

/// The step after one that went well or not.
pub fn next_update(s: UpdateStep, ok: bool, latest_newer: bool, check_only: bool) -> (r: UpdateStep)
    ensures
        r == update_after(s, ok, latest_newer, check_only),
{
    let (good, bad): (UpdateStep, UpdateStep) = match s {
        UpdateStep::Fetch => {
            if latest_newer && !check_only {
                (UpdateStep::Confirm, UpdateStep::Stop)
            } else {
                (UpdateStep::Stop, UpdateStep::Stop)
            }
        },
        UpdateStep::Confirm => (UpdateStep::MakeDir, UpdateStep::Stop),
        UpdateStep::MakeDir => (UpdateStep::FetchArchive, UpdateStep::Stop),
        UpdateStep::FetchArchive => (UpdateStep::FetchChecksum, UpdateStep::Abort),
        UpdateStep::FetchChecksum => (UpdateStep::Verify, UpdateStep::Abort),
        UpdateStep::Verify => (UpdateStep::Unpack, UpdateStep::Abort),
        UpdateStep::Unpack => (UpdateStep::Install, UpdateStep::Abort),
        UpdateStep::Install => (UpdateStep::Installed, UpdateStep::Stop),
        UpdateStep::Abort => (UpdateStep::Stop, UpdateStep::Stop),
        UpdateStep::Stop => (UpdateStep::Stop, UpdateStep::Stop),
        UpdateStep::Installed => (UpdateStep::Installed, UpdateStep::Installed),
    };
    if ok {
        good
    } else {
        bad
    }
}

/// The steps of an update, from the outcomes of those before.
pub open spec fn update_run(outcomes: Seq<bool>, latest_newer: bool, check_only: bool) -> UpdateStep
    decreases outcomes.len(),
{
    if outcomes.len() == 0 {
        UpdateStep::Fetch
    } else {
        update_after(
            update_run(outcomes.drop_last(), latest_newer, check_only),
            outcomes.last(),
            latest_newer,
            check_only,
        )
    }
}

/// A step was come to, and went well.
pub open spec fn went_well(
    s: UpdateStep,
    outcomes: Seq<bool>,
    latest_newer: bool,
    check_only: bool,
) -> bool {
    exists|n: int|
        0 <= n < outcomes.len() && outcomes[n] && #[trigger] update_run(
            outcomes.take(n),
            latest_newer,
            check_only,
        ) == s
}

/// The installer is run only for a newer release, when more than a check was asked for,
/// after the user agreed, and after the archive was held against its checksum and found
/// good.
pub proof fn law_installed_only_verified(outcomes: Seq<bool>, latest_newer: bool, check_only: bool)
    requires
        update_run(outcomes, latest_newer, check_only) == UpdateStep::Install || update_run(
            outcomes,
            latest_newer,
            check_only,
        ) == UpdateStep::Installed,
    ensures
        latest_newer,
        !check_only,
        went_well(UpdateStep::Confirm, outcomes, latest_newer, check_only),
        went_well(UpdateStep::Verify, outcomes, latest_newer, check_only),
{
    lemma_update_past(outcomes, latest_newer, check_only);
}

/// What went well before the last step went well.
proof fn lemma_went_well(s: UpdateStep, outcomes: Seq<bool>, latest_newer: bool, check_only: bool)
    requires
        outcomes.len() > 0,
        went_well(s, outcomes.drop_last(), latest_newer, check_only) || (outcomes.last()
            && update_run(outcomes.drop_last(), latest_newer, check_only) == s),
    ensures
        went_well(s, outcomes, latest_newer, check_only),
{
    let before = outcomes.drop_last();
    let n: int = if outcomes.last() && update_run(before, latest_newer, check_only) == s {
        before.len() as int
    } else {
        choose|n: int|
            0 <= n < before.len() && before[n] && #[trigger] update_run(
                before.take(n),
                latest_newer,
                check_only,
            ) == s
    };
    assert(outcomes.take(n) =~= before.take(n));
    assert(before.take(before.len() as int) =~= before);
    assert(outcomes[n] && update_run(outcomes.take(n), latest_newer, check_only) == s);
}

/// A step behind the question has an agreement before it, and one behind the checksum a
/// good one.
proof fn lemma_update_past(outcomes: Seq<bool>, latest_newer: bool, check_only: bool)
    ensures
        ({
            let s = update_run(outcomes, latest_newer, check_only);
            &&& s == UpdateStep::Unpack || s == UpdateStep::Install || s == UpdateStep::Installed
                ==> went_well(UpdateStep::Verify, outcomes, latest_newer, check_only)
            &&& s != UpdateStep::Fetch && s != UpdateStep::Confirm && s != UpdateStep::Stop
                ==> went_well(UpdateStep::Confirm, outcomes, latest_newer, check_only)
            &&& s != UpdateStep::Fetch && s != UpdateStep::Stop ==> latest_newer && !check_only
        }),
    decreases outcomes.len(),
{
    if outcomes.len() > 0 {
        lemma_update_past(outcomes.drop_last(), latest_newer, check_only);
        let s = update_run(outcomes, latest_newer, check_only);
        if s == UpdateStep::Unpack || s == UpdateStep::Install || s == UpdateStep::Installed {
            lemma_went_well(UpdateStep::Verify, outcomes, latest_newer, check_only);
        }
        if s != UpdateStep::Fetch && s != UpdateStep::Confirm && s != UpdateStep::Stop {
            lemma_went_well(UpdateStep::Confirm, outcomes, latest_newer, check_only);
        }
    }
}

} // verus!
