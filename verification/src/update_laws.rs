//! What follows for callers from how releases are compared, downloaded and installed.

use crate::contents::{hex, sha256_of};
use crate::seqs::{find_from, lemma_find_from, lemma_find_from_is};
use crate::text::{
    decimal, is_digit, is_whitespace, law_decimal_read_back, lemma_decimal, trim, trim_end, trim_start, unsigned_value,
    words,
};
use crate::text_laws::{blank, law_trim};
use crate::update::{asset_names, bundle_name, cached_check, download_limit, download_whole, elevation, index_in, is_newer, lowered, newer, part, part_value, parts_from, plan_download, update_after, url_allowed, verify_sha256, version_of, Asset, Cached, Checksum, Elevation, Plan, UpdateStep};
use vstd::prelude::*;

verus! {

/// The version of a release is its tag without a `v` before it.
pub proof fn law_version(v: Seq<char>)
    ensures
        version_of(seq!['v'] + v) == v,
        v.len() == 0 || v[0] != 'v' ==> version_of(v) == v,
{
    assert((seq!['v'] + v).drop_first() =~= v);
}

proof fn lemma_parts_shift(x: Seq<char>, y: Seq<char>, j: int)
    requires
        0 <= j <= y.len(),
    ensures
        parts_from(x + y, x.len() + j) == parts_from(y, j),
    decreases y.len() - j,
{
    let v = x + y;
    lemma_find_from(y, '.', j);
    let e = find_from(y, '.', j);
    assert forall|k: int| x.len() + j <= k < x.len() + e implies v[k] != '.' by {
        assert(v[k] == y[k - x.len()]);
    }
    if e < y.len() {
        assert(v[x.len() + e] == y[e]);
    }
    lemma_find_from_is(v, '.', x.len() + j, x.len() + e);
    assert(v.subrange(x.len() + j, x.len() + e) =~= y.subrange(j, e));
    if e < y.len() {
        lemma_parts_shift(x, y, e + 1);
    }
}

proof fn lemma_first_part(n: u64, rest: Seq<char>)
    ensures
        parts_from(decimal(n as nat), 0) == seq![n as nat],
        parts_from(decimal(n as nat).push('.') + rest, 0) == seq![n as nat] + parts_from(rest, 0),
{
    let d = decimal(n as nat);
    let v = d.push('.') + rest;
    lemma_decimal(n as nat);
    law_decimal_read_back(n as nat, u64::MAX as nat);
    assert(is_digit(d[0]) && is_digit(d[d.len() - 1]));
    law_trim(seq![], d, seq![]);
    assert forall|k: int| 0 <= k < d.len() implies d[k] != '.' && v[k] != '.' by {
        assert(is_digit(d[k]));
        assert(v[k] == d[k]);
    }
    lemma_find_from_is(d, '.', 0, d.len() as int);
    assert(d.subrange(0, d.len() as int) =~= d);
    lemma_find_from_is(v, '.', 0, d.len() as int);
    assert(v.subrange(0, d.len() as int) =~= d);
    lemma_parts_shift(d.push('.'), rest, 0);
}

/// Of two versions the one with the larger first number is newer; where the first numbers
/// are the same, the one whose rest is.
pub proof fn law_newer(a: u64, more: Seq<char>, b: u64, less: Seq<char>)
    ensures
        newer(decimal(a as nat), decimal(b as nat)) <==> a > b,
        newer(decimal(a as nat).push('.') + more, decimal(b as nat).push('.') + less) <==> a > b || (a
            == b && newer(more, less)),
{
    let p = decimal(a as nat);
    let q = decimal(b as nat);
    lemma_first_part(a, more);
    lemma_first_part(b, less);
    assert(part(p, 0) == a && part(q, 0) == b);
    if newer(p, q) {
        let i = choose|i: int|
            0 <= i && #[trigger] part(p, i) > part(q, i) && forall|j: int|
                0 <= j < i ==> #[trigger] part(p, j) == part(q, j);
        assert(i == 0);
    }
    let v = p.push('.') + more;
    let w = q.push('.') + less;
    assert(part(v, 0) == a && part(w, 0) == b);
    assert forall|i: int| 0 <= i implies #[trigger] part(more, i) == part(v, i + 1) && part(less, i)
        == part(w, i + 1) by {
        if i < parts_from(more, 0).len() {
            assert(parts_from(v, 0)[i + 1] == parts_from(more, 0)[i]);
        }
        if i < parts_from(less, 0).len() {
            assert(parts_from(w, 0)[i + 1] == parts_from(less, 0)[i]);
        }
    }
    if newer(v, w) && a <= b {
        let i = choose|i: int|
            0 <= i && #[trigger] part(v, i) > part(w, i) && forall|j: int|
                0 <= j < i ==> #[trigger] part(v, j) == part(w, j);
        assert(i > 0);
        assert(part(v, 0) == part(w, 0));
        assert(part(more, i - 1) > part(less, i - 1));
        assert forall|j: int| 0 <= j < i - 1 implies #[trigger] part(more, j) == part(less, j) by {
            assert(part(v, j + 1) == part(w, j + 1));
        }
    }
    if a == b && newer(more, less) {
        let i = choose|i: int|
            0 <= i && #[trigger] part(more, i) > part(less, i) && forall|j: int|
                0 <= j < i ==> #[trigger] part(more, j) == part(less, j);
        assert(part(v, i + 1) > part(w, i + 1));
        assert forall|j: int| 0 <= j < i + 1 implies #[trigger] part(v, j) == part(w, j) by {
            if j > 0 {
                assert(part(more, j - 1) == part(less, j - 1));
            }
        }
    }
}

/// What is compared as a version.
pub proof fn law_compared(candidate: &str, current: &str, r: bool)
    requires
        call_ensures(is_newer, (candidate, current), r),
    ensures
        r == newer(candidate@, current@),
        candidate@ == current@ ==> !r,
{
    crate::update::law_newer_is_strict(candidate@, current@);
}

/// An answer of less than a day ago is enough, and is compared with what is installed; an
/// older one is asked for again.
pub proof fn law_cached(answer: Option<&str>, age_secs: u64, current: &str, r: Cached)
    requires
        call_ensures(cached_check, (answer, age_secs, current), r),
    ensures
        r is Ask <==> answer is None || age_secs >= 24 * 60 * 60,
        answer matches Some(v) ==> age_secs < 24 * 60 * 60 ==> (r is Available <==> newer(
            v@,
            current@,
        )) && (r is UpToDate <==> !newer(v@, current@)),
{
}

proof fn lemma_index(names: Seq<Seq<char>>, name: Seq<char>, i: int)
    requires
        0 <= i <= names.len(),
    ensures
        i <= index_in(names, name, i) <= names.len(),
        index_in(names, name, i) < names.len() ==> names[index_in(names, name, i)] == name,
        forall|k: int| i <= k < index_in(names, name, i) ==> #[trigger] names[k] != name,
    decreases names.len() - i,
{
    if i < names.len() && names[i] != name {
        lemma_index(names, name, i + 1);
    }
}

/// The archive of a release for a machine.
pub open spec fn archive_name(version: Seq<char>, arch: Seq<char>) -> Seq<char> {
    "trashd-"@ + version + "-linux-"@ + arch + ".tar.gz"@
}

/// What is downloaded is the archive of the version for this machine and the file of its
/// checksum: of a release that lacks either nothing is, nor for a machine of another kind.
pub proof fn law_plan(assets: &Vec<Asset>, version: &str, arch: &str, r: Plan)
    requires
        call_ensures(plan_download, (assets, version, arch), r),
        assets@.len() <= usize::MAX,
    ensures
        r is Unsupported <==> arch@ != "x86_64"@ && arch@ != "aarch64"@,
        r is NoArchive ==> forall|k: int|
            0 <= k < assets@.len() ==> (#[trigger] assets@[k]).name@ != archive_name(version@, arch@),
        r is NoChecksum ==> forall|k: int|
            0 <= k < assets@.len() ==> (#[trigger] assets@[k]).name@ != archive_name(version@, arch@)
                + ".sha256"@,
        r matches Plan::Download { archive, checksum } ==> archive < assets@.len() && checksum
            < assets@.len() && assets@[archive as int].name@ == archive_name(version@, arch@)
            && assets@[checksum as int].name@ == archive_name(version@, arch@) + ".sha256"@,
        r is NoChecksum ==> exists|k: int|
            0 <= k < assets@.len() && (#[trigger] assets@[k]).name@ == archive_name(version@, arch@),
{
    let names = asset_names(assets@);
    let a = archive_name(version@, arch@);
    assert(bundle_name(version@, arch@) + ".tar.gz"@ =~= a);
    lemma_index(names, a, 0);
    lemma_index(names, a + ".sha256"@, 0);
    assert(names.len() == assets@.len());
    assert forall|k: int| 0 <= k < assets@.len() implies (#[trigger] assets@[k]).name@ == names[k] by {}
    if r is NoChecksum {
        let k = index_in(names, a, 0);
        assert(assets@[k].name@ == a);
    }
    if let Plan::Download { archive, checksum } = r {
        assert(archive as int == index_in(names, a, 0));
        assert(checksum as int == index_in(names, a + ".sha256"@, 0));
    }
}

/// Nothing is downloaded but over TLS: the address begins with `https://`, in small letters.
pub proof fn law_url(url: &str, r: bool)
    requires
        call_ensures(url_allowed, (url,), r),
    ensures
        r <==> url@.len() >= 8 && url@.take(8) == seq!['h', 't', 't', 'p', 's', ':', '/', '/'],
{
    reveal_strlit("https://");
    assert("https://"@ =~= seq!['h', 't', 't', 'p', 's', ':', '/', '/']);
    if url@.len() >= 8 {
        assert(url@.subrange(0, 8) =~= url@.take(8));
    }
}

/// A download is stopped a mebibyte past what was advertised, and one that came so far is
/// not whole.
pub proof fn law_download(size: u64, written: u64, limit: u64, whole: bool)
    requires
        call_ensures(download_limit, (size,), limit),
        call_ensures(download_whole, (written, limit), whole),
    ensures
        size <= u64::MAX - 1024 * 1024 ==> limit == size + 1024 * 1024,
        size > u64::MAX - 1024 * 1024 ==> limit == u64::MAX,
        whole <==> written < limit,
        written <= size && size < u64::MAX ==> whole,
{
}

/// A checksum is compared whatever the case of its letters, and nothing else of it is
/// changed.
pub proof fn law_lowered(s: Seq<char>)
    requires
        forall|i: int| 0 <= i < s.len() ==> #[trigger] s[i] <= '\u{7f}',
    ensures
        lowered(s).len() == s.len(),
        forall|i: int|
            0 <= i < s.len() ==> #[trigger] lowered(s)[i] == (if 65 <= s[i] as u32 <= 90 {
                (s[i] as u32 + 32) as char
            } else {
                s[i]
            }),
{
}

/// An archive is good only where the first word of the file is its hash; a file without a
/// word vouches for nothing, and any other word is told beside the hash.
pub proof fn law_verified(archive: &[u8], content: &str, r: Checksum)
    requires
        call_ensures(verify_sha256, (archive, content), r),
    ensures
        r is Good <==> words(content@).len() > 0 && lowered(words(content@)[0]) == hex(
            sha256_of(archive@),
        ),
        r is Empty <==> words(content@).len() == 0,
        r matches Checksum::Mismatch { expected, actual } ==> expected@ == lowered(
            words(content@)[0],
        ) && actual@ == hex(sha256_of(archive@)) && expected@ != actual@,
{
}

/// The installer is run as it is by the superuser alone, and where nothing more can be
/// gained it is not run.
pub proof fn law_elevation(euid: u32, no_new_privs: bool, r: Elevation)
    requires
        call_ensures(elevation, (euid, no_new_privs), r),
    ensures
        r is Direct <==> euid == 0,
        r is Blocked <==> euid != 0 && no_new_privs,
        r is Sudo <==> euid != 0 && !no_new_privs,
{
}

/// The step that an update has come to after `n` steps.
pub open spec fn update_course(
    goes_well: spec_fn(UpdateStep) -> bool,
    latest_newer: bool,
    check_only: bool,
    n: nat,
) -> UpdateStep
    decreases n,
{
    if n == 0 {
        UpdateStep::Fetch
    } else {
        let s = update_course(goes_well, latest_newer, check_only, (n - 1) as nat);
        update_after(s, goes_well(s), latest_newer, check_only)
    }
}

/// Everything before the directory for an update is made goes well.
pub open spec fn begins(goes_well: spec_fn(UpdateStep) -> bool, newer: bool, check_only: bool) -> bool {
    newer && !check_only && goes_well(UpdateStep::Fetch) && goes_well(UpdateStep::Confirm)
        && goes_well(UpdateStep::MakeDir)
}

/// How an update ends: installed where a newer release was found and wanted, and every step
/// went well; in every other course nothing is installed. A directory that was made is
/// removed on the way unless the installer was come to.
pub proof fn law_update_end(
    goes_well: spec_fn(UpdateStep) -> bool,
    newer: bool,
    check_only: bool,
    n: nat,
)
    requires
        n >= 8,
    ensures
        update_course(goes_well, newer, check_only, n) is Installed <==> begins(
            goes_well,
            newer,
            check_only,
        ) && goes_well(UpdateStep::FetchArchive) && goes_well(UpdateStep::FetchChecksum)
            && goes_well(UpdateStep::Verify) && goes_well(UpdateStep::Unpack) && goes_well(
            UpdateStep::Install,
        ),
        update_course(goes_well, newer, check_only, n) is Installed || update_course(
            goes_well,
            newer,
            check_only,
            n,
        ) is Stop,
        update_course(goes_well, newer, check_only, 1) is Confirm <==> newer && !check_only
            && goes_well(UpdateStep::Fetch),
        begins(goes_well, newer, check_only) && !goes_well(UpdateStep::FetchArchive)
            ==> update_course(goes_well, newer, check_only, 4) is Abort,
        begins(goes_well, newer, check_only) && goes_well(UpdateStep::FetchArchive) && !goes_well(
            UpdateStep::FetchChecksum,
        ) ==> update_course(goes_well, newer, check_only, 5) is Abort,
        begins(goes_well, newer, check_only) && goes_well(UpdateStep::FetchArchive) && goes_well(
            UpdateStep::FetchChecksum,
        ) && !goes_well(UpdateStep::Verify) ==> update_course(goes_well, newer, check_only, 6)
            is Abort,
        begins(goes_well, newer, check_only) && goes_well(UpdateStep::FetchArchive) && goes_well(
            UpdateStep::FetchChecksum,
        ) && goes_well(UpdateStep::Verify) && !goes_well(UpdateStep::Unpack) ==> update_course(
            goes_well,
            newer,
            check_only,
            7,
        ) is Abort,
    decreases n,
{
    reveal_with_fuel(update_course, 9);
    if n > 8 {
        law_update_end(goes_well, newer, check_only, (n - 1) as nat);
    }
}

/// A part of a version is the number that it writes, whatever white space stands around it,
/// and zero where it writes none.
pub proof fn law_part_value(a: Seq<char>, n: u64, b: Seq<char>, p: Seq<char>)
    requires
        blank(a),
        blank(b),
    ensures
        part_value(a + decimal(n as nat) + b) == n,
        unsigned_value(trim(p), u64::MAX as nat) is None ==> part_value(p) == 0,
        p.len() > 0 && 'a' <= p[0] <= 'z' ==> part_value(p) == 0,
{
    let d = decimal(n as nat);
    lemma_decimal(n as nat);
    assert(is_digit(d[0]) && is_digit(d[d.len() - 1]));
    law_trim(a, d, b);
    law_decimal_read_back(n as nat, u64::MAX as nat);
    if p.len() > 0 && 'a' <= p[0] <= 'z' {
        assert(trim_start(p) == p);
        let t = trim(p);
        lemma_trim_keeps_first(p);
        assert(!is_digit(t[0]));
    }
}

proof fn lemma_trim_keeps_first(p: Seq<char>)
    requires
        p.len() > 0,
        !is_whitespace(p[0]),
    ensures
        trim_end(p).len() > 0,
        trim_end(p)[0] == p[0],
    decreases p.len(),
{
    if is_whitespace(p.last()) {
        assert(p.len() > 1);
        assert(p.drop_last()[0] == p[0]);
        lemma_trim_keeps_first(p.drop_last());
    }
}

} // verus!
