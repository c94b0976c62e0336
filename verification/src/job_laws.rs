//! What follows for callers from how paths are taken and how ids are claimed.

use crate::dates::{date_text, Moment};
use crate::errors::{Failure, TrashError};
use crate::job::{
    absolute_path, base_of, candidate_of, fit, fitting, meant_path, topdir_of, walked, Claim, ClaimOutcome, ClaimStep, Met, SizeWalk,
};
use crate::path::{joined, law_entry, law_parent, name_of, parent_of, same_path, components};
use crate::text::{decimal, lossy};
use vstd::prelude::*;
use vstd::utf8::encode_utf8;

verus! {

/// A path from the root is taken as it is, even where the current directory cannot be told;
/// any other is seen from the current directory, and fails where that cannot be told.
pub proof fn law_absolute_path(p: &[u8], cwd: Result<Vec<u8>, String>, r: Result<Vec<u8>, TrashError>)
    requires
        call_ensures(absolute_path, (p, cwd), r),
    ensures
        p@.len() > 0 && p@[0] == 47 ==> (r matches Ok(a) && a@ == p@),
        p@.len() == 0 || p@[0] != 47 ==> match cwd {
            Ok(c) => r matches Ok(a) && a@ == joined(c@, p@),
            Err(t) => r matches Err(e) && e@ == Failure::Io(t@),
        },
{
}

/// A text is cut to the longest start that fits: it is a start, it fits, and one character
/// more would not.
pub proof fn law_fit(s: &str, max: usize, r: String)
    requires
        call_ensures(fit, (s, max), r),
    ensures
        r@.is_prefix_of(s@),
        encode_utf8(s@).len() <= max ==> r@ == s@,
        r@.len() > 0 ==> encode_utf8(r@).len() <= max,
        r@.len() < s@.len() ==> encode_utf8(s@.take(r@.len() as int + 1)).len() > max,
{
    lemma_fitting(s@, max as nat);
}

proof fn lemma_fitting(s: Seq<char>, max: nat)
    ensures
        fitting(s, max).is_prefix_of(s),
        encode_utf8(s).len() <= max ==> fitting(s, max) == s,
        fitting(s, max).len() > 0 ==> encode_utf8(fitting(s, max)).len() <= max,
        fitting(s, max).len() < s.len() ==> encode_utf8(
            s.take(fitting(s, max).len() as int + 1),
        ).len() > max,
    decreases s.len(),
{
    if s.len() == 0 || encode_utf8(s).len() <= max {
        assert(s.take(s.len() as int) =~= s);
    } else {
        let d = s.drop_last();
        lemma_fitting(d, max);
        let f = fitting(d, max);
        assert(d.take(f.len() as int) =~= s.take(f.len() as int));
        if f.len() < d.len() {
            assert(d.take(f.len() as int + 1) =~= s.take(f.len() as int + 1));
        } else {
            assert(s.take(f.len() as int + 1) =~= s);
        }
    }
}

/// A trash directory belongs to the directory that it lies in, and one in a shared `.Trash`
/// to the directory that that lies in.
pub proof fn law_top_of_trash(top: Seq<u8>, shared: Seq<u8>, trash: Seq<u8>)
    requires
        top.len() > 0,
        top[0] == 47,
        shared.len() > 0,
        !shared.contains(47),
        shared != seq![46u8],
        shared != seq![46u8, 46],
        trash.len() > 0,
        !trash.contains(47),
        trash != seq![46u8],
        trash != seq![46u8, 46],
        lossy(shared) == ".Trash"@,
    ensures
        (name_of(top) matches Some(n) ==> lossy(n) != ".Trash"@) ==> same_path(
            topdir_of(joined(top, trash)),
            top,
        ),
        same_path(topdir_of(joined(joined(top, shared), trash)), top),
{
    law_entry(top, trash, trash);
    let q = parent_of(joined(top, trash))->0;
    assert(name_of(q) == name_of(top));
    let d = joined(top, shared);
    law_entry(top, shared, shared);
    assert(d.len() > 0 && d[0] == 47);
    law_entry(d, trash, trash);
    let p = parent_of(joined(d, trash))->0;
    assert(name_of(p) == name_of(d));
    law_parent(joined(d, trash));
    assert(components(joined(d, trash)).len() > 0);
    crate::path::lemma_parent_absolute(joined(d, trash));
    law_parent(p);
    law_parent(d);
    assert(components(p) == components(d));
    let g = parent_of(d)->0;
    let h = parent_of(p)->0;
    assert(components(g) == components(h));
}

/// A recorded path that is from the root means itself, and any other is seen from the top of
/// the filesystem of its trash.
pub proof fn law_recorded_meaning(trash: Seq<u8>, p: Seq<u8>)
    ensures
        p.len() > 0 && p[0] == 47 ==> meant_path(trash, p) == p,
        p.len() == 0 || p[0] != 47 ==> meant_path(trash, p) == joined(topdir_of(trash), p),
{
}

/// A claim begins with the name of the item alone and has the time of the deletion, to the
/// second, in store.
pub proof fn law_claim_begins(p: &[u8], now: &Moment, limit: u32, r: Claim)
    requires
        now.valid(),
        call_ensures(Claim::start, (p, now, limit), r),
    ensures
        candidate_of(r.base@, r.stamp@, r.tried as nat) == base_of(p@),
        r.stamp@ == date_text("%Y%m%d%H%M%S"@, now.secs + now.offset, now.nanos as int),
        r.limit == limit,
{
}

/// A claim that has tried all that it may gives up and says how many that were.
pub proof fn law_claim_exhausted(c: Claim, o: ClaimOutcome, r: ClaimStep)
    requires
        call_ensures(Claim::next, (c, o), r),
        o is DataThere || o is InfoThere,
        c.tried >= c.limit,
    ensures
        r matches ClaimStep::Stop(e) && e@ == Failure::Io(
            "failed to generate unique trash ID after "@ + decimal(c.limit as nat) + " attempts"@,
        ),
{
}

/// What is met on the way through a tree is counted, and a directory is gone down into.
pub proof fn law_met(w: &mut SizeWalk, m: Met, r: bool)
    requires
        old(w).count < 10_000,
        call_ensures(SizeWalk::meet, (w, m), r),
    ensures
        *final(w) == walked(*old(w), m),
        r <==> (m matches Met::Item(x) && x.kind is Dir),
{
}

} // verus!
