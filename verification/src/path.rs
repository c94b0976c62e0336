//! Paths as runs of bytes, with the components that a Unix system sees in them.

use crate::seqs::{find_from, lemma_find_from, position, push_all, same_run, to_vec};
use crate::text::views;
use vstd::prelude::*;
use vstd::slice::slice_subrange;

verus! {

pub const SEP: u8 = 47;

pub const DOT: u8 = 46;

/// The path of the filesystem's root.
pub open spec fn root() -> Seq<u8> {
    seq![SEP]
}

pub open spec fn dot() -> Seq<u8> {
    seq![DOT]
}

pub open spec fn dotdot() -> Seq<u8> {
    seq![DOT, DOT]
}

pub open spec fn absolute(p: Seq<u8>) -> bool {
    p.len() > 0 && p[0] == SEP
}

/// Where the components that stand from position `i` on begin and end: the runs
/// between separators, without the empty ones and without `.`.
pub open spec fn body_spans(p: Seq<u8>, i: int) -> Seq<(int, int)>
    decreases p.len() - i,
{
    if i < 0 || i >= p.len() {
        seq![]
    } else {
        let e = find_from(p, SEP, i);
        if e <= i || e > p.len() {
            body_spans(p, i + 1)
        } else if p.subrange(i, e) == dot() {
            body_spans(p, e)
        } else {
            seq![(i, e)] + body_spans(p, e)
        }
    }
}

/// A relative path that starts with the component `.`.
pub open spec fn starts_here(p: Seq<u8>) -> bool {
    p.len() > 0 && p[0] == DOT && (p.len() == 1 || p[1] == SEP)
}

/// Where the components of a path begin and end. The root is a component of an
/// absolute path; `.` is one only where a relative path starts with it.
pub open spec fn spans(p: Seq<u8>) -> Seq<(int, int)> {
    if absolute(p) || starts_here(p) {
        seq![(0int, 1int)] + body_spans(p, 1)
    } else {
        body_spans(p, 0)
    }
}

/// The components of a path, by name: `/` for the root, `.` and `..` for what they
/// stand for, and the name itself for every other.
pub open spec fn components(p: Seq<u8>) -> Seq<Seq<u8>> {
    spans(p).map_values(|s: (int, int)| p.subrange(s.0, s.1))
}

/// Two paths with the same components.
pub open spec fn same_path(p: Seq<u8>, q: Seq<u8>) -> bool {
    components(p) == components(q)
}

/// `p` lies under `q`, or is `q`: component by component.
pub open spec fn under(p: Seq<u8>, q: Seq<u8>) -> bool {
    components(q).is_prefix_of(components(p))
}

/// A component that names a directory entry.
pub open spec fn is_name(c: Seq<u8>) -> bool {
    c != root() && c != dot() && c != dotdot()
}

/// A path with a component `..`.
pub open spec fn climbs(p: Seq<u8>) -> bool {
    components(p).contains(dotdot())
}

/// The last component, where it is a name.
pub open spec fn name_of(p: Seq<u8>) -> Option<Seq<u8>> {
    let c = components(p);
    if c.len() > 0 && is_name(c.last()) {
        Some(c.last())
    } else {
        None
    }
}

/// The path without its last component; the root and the empty path have none.
pub open spec fn parent_of(p: Seq<u8>) -> Option<Seq<u8>> {
    let s = spans(p);
    if s.len() == 0 || components(p).last() == root() {
        None
    } else if s.len() == 1 {
        Some(seq![])
    } else {
        Some(p.take(s[s.len() - 2].1))
    }
}

/// `q` seen from `p`: `q` itself where it is absolute, else the two with one
/// separator between them.
pub open spec fn joined(p: Seq<u8>, q: Seq<u8>) -> Seq<u8> {
    if absolute(q) {
        q
    } else if p.len() > 0 && p.last() != SEP {
        p.push(SEP) + q
    } else {
        p + q
    }
}

/// What is left of `p` behind the components of `q`.
pub open spec fn stripped(p: Seq<u8>, q: Seq<u8>) -> Option<Seq<u8>> {
    let s = spans(p);
    let n = components(q).len() as int;
    if !under(p, q) {
        None
    } else if n == s.len() {
        Some(seq![])
    } else {
        Some(p.subrange(s[n].0, s.last().1))
    }
}

/// The path that a list of components makes.
pub open spec fn assembled(c: Seq<Seq<u8>>) -> Seq<u8>
    decreases c.len(),
{
    if c.len() == 0 {
        seq![]
    } else {
        joined(assembled(c.drop_last()), c.last())
    }
}

/// The components with each `..` resolved against what stands before it.
pub open spec fn resolved(c: Seq<Seq<u8>>) -> Seq<Seq<u8>>
    decreases c.len(),
{
    if c.len() == 0 {
        seq![]
    } else {
        let r = resolved(c.drop_last());
        if c.last() == dotdot() {
            if r.len() > 0 {
                r.drop_last()
            } else {
                r
            }
        } else if c.last() == dot() {
            r
        } else {
            r.push(c.last())
        }
    }
}

/// A path without `.` and `..`, resolved by its text alone.
pub open spec fn lexical(p: Seq<u8>) -> Seq<u8> {
    assembled(resolved(components(p)))
}

pub open spec fn int_pairs(v: Seq<(usize, usize)>) -> Seq<(int, int)> {
    v.map_values(|s: (usize, usize)| (s.0 as int, s.1 as int))
}

/// A span inside `p`, from `i` on, that holds neither a separator at its start nor `.`.
spec fn proper_span(p: Seq<u8>, i: int, s: (int, int)) -> bool {
    i <= s.0 < s.1 <= p.len() && p[s.0] != SEP && p.subrange(s.0, s.1) != dot()
}

proof fn lemma_body_spans(p: Seq<u8>, i: int)
    requires
        0 <= i <= p.len(),
    ensures
        forall|k: int|
            0 <= k < body_spans(p, i).len() ==> proper_span(p, i, #[trigger] body_spans(p, i)[k]),
    decreases p.len() - i,
{
    if i < p.len() {
        lemma_find_from(p, SEP, i);
        let e = find_from(p, SEP, i);
        let all = body_spans(p, i);
        let next = if e <= i {
            i + 1
        } else {
            e
        };
        let rest = body_spans(p, next);
        lemma_body_spans(p, next);
        assert forall|k: int| 0 <= k < all.len() implies proper_span(p, i, #[trigger] all[k]) by {
            if e > i && p.subrange(i, e) != dot() {
                assert(all == seq![(i, e)] + rest);
                assert(p[i] != SEP);
                if k > 0 {
                    assert(all[k] == rest[k - 1]);
                }
            } else {
                assert(all == rest);
                assert(all[k] == rest[k]);
            }
        }
    }
}

/// The spans of a path lie inside it.
pub proof fn lemma_spans(p: Seq<u8>)
    ensures
        components(p).len() == spans(p).len(),
        forall|k: int|
            #![trigger spans(p)[k]]
            0 <= k < spans(p).len() ==> 0 <= spans(p)[k].0 < spans(p)[k].1 <= p.len(),
        forall|k: int|
            #![trigger components(p)[k]]
            0 < k < components(p).len() ==> components(p)[k] != root() && components(p)[k] != dot(),
        components(p).len() > 0 ==> (components(p)[0] == root()) == absolute(p),
{
    if absolute(p) || starts_here(p) {
        lemma_body_spans(p, 1);
        let b = body_spans(p, 1);
        let s = spans(p);
        assert forall|k: int| #![trigger s[k]] 0 <= k < s.len() implies 0 <= s[k].0 < s[k].1
            <= p.len() by {
            if k > 0 {
                assert(s[k] == b[k - 1]);
            }
        }
        assert forall|k: int| #![trigger components(p)[k]] 0 < k < components(p).len() implies
            components(p)[k] != root() && components(p)[k] != dot() by {
            assert(s[k] == b[k - 1]);
            assert(components(p)[k][0] == p[s[k].0]);
        }
        assert(components(p)[0] == p.subrange(0, 1));
        assert(components(p)[0][0] == p[0]);
        if absolute(p) {
            assert(p.subrange(0, 1) =~= root());
        }
    } else {
        lemma_body_spans(p, 0);
        let s = spans(p);
        assert forall|k: int| #![trigger components(p)[k]] 0 <= k < components(p).len() implies
            components(p)[k] != root() && components(p)[k] != dot() by {
            assert(s[k] == body_spans(p, 0)[k]);
            assert(components(p)[k][0] == p[s[k].0]);
        }
    }
}

pub fn is_absolute(p: &[u8]) -> (r: bool)
    ensures
        r == absolute(p@),
{
    p.len() > 0 && p[0] == SEP
}

fn body_spans_of(p: &[u8], start: usize) -> (res: Vec<(usize, usize)>)
    requires
        start <= p@.len(),
    ensures
        int_pairs(res@) == body_spans(p@, start as int),
{
    let n: usize = p.len();
    let mut res: Vec<(usize, usize)> = Vec::new();
    let mut i: usize = start;
    assert(int_pairs(res@) + body_spans(p@, start as int) =~= body_spans(p@, start as int));
    while i < n
        invariant
            n == p@.len(),
            i <= n,
            int_pairs(res@) + body_spans(p@, i as int) == body_spans(p@, start as int),
        decreases n - i,
    {
        let ghost before = res@;
        let e: usize = position(p, SEP, i);
        if e == i {
            i += 1;
        } else {
            let here: bool = e == i + 1 && p[i] == DOT;
            assert(here == (p@.subrange(i as int, e as int) == dot())) by {
                let seg = p@.subrange(i as int, e as int);
                assert(dot().len() == 1 && dot()[0] == DOT);
                if here {
                    assert(seg =~= dot());
                } else {
                    assert(seg.len() == e - i && seg[0] == p@[i as int]);
                }
            }
            if !here {
                res.push((i, e));
                assert(int_pairs(res@) =~= int_pairs(before).push((i as int, e as int)));
                assert(int_pairs(res@) + body_spans(p@, e as int) =~= int_pairs(before) + (seq![
                    (i as int, e as int),
                ] + body_spans(p@, e as int)));
            }
            i = e;
        }
    }
    assert(int_pairs(res@) + body_spans(p@, n as int) =~= int_pairs(res@));
    res
}

/// Where the components of a path begin and end.
pub fn spans_of(p: &[u8]) -> (res: Vec<(usize, usize)>)
    ensures
        int_pairs(res@) == spans(p@),
        res@.len() == spans(p@).len(),
        forall|k: int|
            #![trigger res@[k]]
            0 <= k < res@.len() ==> spans(p@)[k] == (res@[k].0 as int, res@[k].1 as int)
                && res@[k].0 < res@[k].1 <= p@.len(),
{
    let first: bool = p.len() > 0 && (p[0] == SEP || (p[0] == DOT && (p.len() == 1 || p[1]
        == SEP)));
    let mut res: Vec<(usize, usize)> = Vec::new();
    if first {
        let mut rest = body_spans_of(p, 1);
        res.push((0, 1));
        let ghost tail = rest@;
        res.append(&mut rest);
        assert(int_pairs(res@) =~= seq![(0int, 1int)] + int_pairs(tail));
    } else {
        res = body_spans_of(p, 0);
    }
    proof {
        lemma_spans(p@);
        assert(int_pairs(res@) == spans(p@));
        assert forall|k: int| #![trigger res@[k]] 0 <= k < res@.len() implies spans(p@)[k] == (
            res@[k].0 as int,
            res@[k].1 as int,
        ) && res@[k].0 < res@[k].1 <= p@.len() by {
            assert(int_pairs(res@)[k] == spans(p@)[k]);
        }
    }
    res
}

/// The components of a path.
pub fn components_of(p: &[u8]) -> (res: Vec<Vec<u8>>)
    ensures
        views(res@) == components(p@),
{
    let s = spans_of(p);
    let mut res: Vec<Vec<u8>> = Vec::new();
    let mut i: usize = 0;
    while i < s.len()
        invariant
            i <= s@.len(),
            s@.len() == spans(p@).len(),
            forall|k: int|
                #![trigger s@[k]]
                0 <= k < s@.len() ==> spans(p@)[k] == (s@[k].0 as int, s@[k].1 as int) && s@[k].0
                    < s@[k].1 <= p@.len(),
            views(res@) == components(p@).take(i as int),
        decreases s@.len() - i,
    {
        let ghost before = res@;
        res.push(to_vec(slice_subrange(p, s[i].0, s[i].1)));
        i += 1;
        assert(views(res@) =~= views(before).push(components(p@)[i - 1]));
        assert(components(p@).take(i as int) =~= components(p@).take(i - 1).push(
            components(p@)[i - 1],
        ));
    }
    assert(components(p@).take(i as int) =~= components(p@));
    res
}

fn is_dotdot(c: &[u8]) -> (r: bool)
    ensures
        r == (c@ == dotdot()),
{
    let r: bool = c.len() == 2 && c[0] == DOT && c[1] == DOT;
    assert(r ==> c@ =~= dotdot());
    r
}

fn is_one(c: &[u8], b: u8) -> (r: bool)
    ensures
        r == (c@ == seq![b]),
{
    let r: bool = c.len() == 1 && c[0] == b;
    assert(r ==> c@ =~= seq![b]);
    r
}

/// Whether a path has a component `..`.
pub fn has_parent_component(p: &[u8]) -> (r: bool)
    ensures
        r == climbs(p@),
{
    let c = components_of(p);
    let mut i: usize = 0;
    while i < c.len()
        invariant
            i <= c@.len(),
            views(c@) == components(p@),
            forall|k: int| 0 <= k < i ==> components(p@)[k] != dotdot(),
        decreases c@.len() - i,
    {
        assert(views(c@)[i as int] == c@[i as int]@);
        if is_dotdot(c[i].as_slice()) {
            assert(components(p@)[i as int] == dotdot());
            return true;
        }
        i += 1;
    }
    assert(components(p@).len() == c@.len());
    false
}

pub fn path_eq(p: &[u8], q: &[u8]) -> (r: bool)
    ensures
        r == same_path(p@, q@),
{
    let a = components_of(p);
    let b = components_of(q);
    let r: bool = a.len() == b.len() && path_starts_with(p, q);
    proof {
        assert(components(p@).len() == a@.len());
        assert(components(q@).len() == b@.len());
        if r {
            assert(components(p@).take(components(q@).len() as int) =~= components(p@));
            assert(components(p@) =~= components(q@));
        }
    }
    r
}

/// Whether `p` lies under `q` or is `q`.
pub fn path_starts_with(p: &[u8], q: &[u8]) -> (r: bool)
    ensures
        r == under(p@, q@),
{
    let a = components_of(p);
    let b = components_of(q);
    assert(components(p@).len() == a@.len());
    assert(components(q@).len() == b@.len());
    if b.len() > a.len() {
        return false;
    }
    let mut i: usize = 0;
    while i < b.len()
        invariant
            i <= b@.len() <= a@.len(),
            views(a@) == components(p@),
            views(b@) == components(q@),
            forall|k: int| 0 <= k < i ==> components(p@)[k] == components(q@)[k],
        decreases b@.len() - i,
    {
        assert(views(a@)[i as int] == a@[i as int]@);
        assert(views(b@)[i as int] == b@[i as int]@);
        if !same_run(a[i].as_slice(), b[i].as_slice()) {
            return false;
        }
        i += 1;
    }
    assert(components(q@).is_prefix_of(components(p@)));
    true
}

/// The last component of a path, where it is a name.
pub fn file_name(p: &[u8]) -> (r: Option<&[u8]>)
    ensures
        match r {
            Some(n) => name_of(p@) == Some(n@),
            None => name_of(p@) is None,
        },
{
    let s = spans_of(p);
    proof {
        lemma_spans(p@);
    }
    if s.len() == 0 {
        return None;
    }
    let (a, b) = s[s.len() - 1];
    let c = slice_subrange(p, a, b);
    assert(components(p@).last() == c@);
    if is_one(c, SEP) || is_one(c, DOT) || is_dotdot(c) {
        None
    } else {
        Some(c)
    }
}

/// The path without its last component.
pub fn parent(p: &[u8]) -> (r: Option<&[u8]>)
    ensures
        match r {
            Some(q) => parent_of(p@) == Some(q@),
            None => parent_of(p@) is None,
        },
{
    let s = spans_of(p);
    proof {
        lemma_spans(p@);
    }
    if s.len() == 0 {
        return None;
    }
    let (a, b) = s[s.len() - 1];
    let c = slice_subrange(p, a, b);
    assert(components(p@).last() == c@);
    if is_one(c, SEP) {
        None
    } else if s.len() == 1 {
        let r = slice_subrange(p, 0, 0);
        assert(r@ =~= seq![]);
        Some(r)
    } else {
        let e: usize = s[s.len() - 2].1;
        let r = slice_subrange(p, 0, e);
        assert(r@ =~= p@.take(e as int));
        Some(r)
    }
}

/// `q` seen from `p`.
pub fn join(p: &[u8], q: &[u8]) -> (r: Vec<u8>)
    ensures
        r@ == joined(p@, q@),
{
    if is_absolute(q) {
        return to_vec(q);
    }
    let mut r = to_vec(p);
    if p.len() > 0 && p[p.len() - 1] != SEP {
        r.push(SEP);
    }
    push_all(&mut r, q);
    r
}

/// What is left of `p` behind the components of `q`, where `p` lies under `q`.
pub fn strip_prefix(p: &[u8], q: &[u8]) -> (r: Option<Vec<u8>>)
    ensures
        match r {
            Some(x) => stripped(p@, q@) == Some(x@),
            None => stripped(p@, q@) is None,
        },
{
    if !path_starts_with(p, q) {
        return None;
    }
    let s = spans_of(p);
    let n: usize = spans_of(q).len();
    proof {
        lemma_spans(p@);
        lemma_spans(q@);
    }
    if n == s.len() {
        return Some(Vec::new());
    }
    let a: usize = s[n].0;
    let b: usize = s[s.len() - 1].1;
    proof {
        assert(s@[n as int].0 < s@[n as int].1);
        if n < s@.len() - 1 {
            lemma_spans_ordered(p@, n as int, s@.len() - 1);
            assert(s@[s@.len() - 1].0 < s@[s@.len() - 1].1);
        }
    }
    Some(to_vec(slice_subrange(p, a, b)))
}

proof fn lemma_body_ordered(p: Seq<u8>, i: int, j: int, k: int)
    requires
        0 <= i <= p.len(),
        0 <= j < k < body_spans(p, i).len(),
    ensures
        body_spans(p, i)[j].1 <= body_spans(p, i)[k].0,
    decreases p.len() - i,
{
    if i < p.len() {
        lemma_find_from(p, SEP, i);
        let e = find_from(p, SEP, i);
        if e <= i {
            lemma_body_ordered(p, i + 1, j, k);
        } else if p.subrange(i, e) == dot() {
            lemma_body_ordered(p, e, j, k);
        } else {
            let rest = body_spans(p, e);
            assert(body_spans(p, i) == seq![(i, e)] + rest);
            lemma_body_spans(p, e);
            if j > 0 {
                lemma_body_ordered(p, e, j - 1, k - 1);
            } else {
                assert(body_spans(p, i)[k] == rest[k - 1]);
                assert(proper_span(p, e, rest[k - 1]));
            }
        }
    }
}

/// A component ends before the next one begins.
pub proof fn lemma_spans_ordered(p: Seq<u8>, j: int, k: int)
    requires
        0 <= j < k < spans(p).len(),
    ensures
        spans(p)[j].1 <= spans(p)[k].0,
{
    if absolute(p) || starts_here(p) {
        if j > 0 {
            lemma_body_ordered(p, 1, j - 1, k - 1);
        } else {
            lemma_body_spans(p, 1);
            assert(proper_span(p, 1, body_spans(p, 1)[k - 1]));
        }
    } else {
        lemma_body_ordered(p, 0, j, k);
    }
}

/// A path's parent is shorter than the path.
pub proof fn lemma_parent_shorter(p: Seq<u8>)
    ensures
        parent_of(p) matches Some(q) ==> q.len() < p.len(),
{
    lemma_spans(p);
    let s = spans(p);
    if s.len() > 1 {
        lemma_spans_ordered(p, s.len() - 2, s.len() - 1);
        assert(s[s.len() - 1].0 < s[s.len() - 1].1 <= p.len());
        assert(0 <= s[s.len() - 2].0 < s[s.len() - 2].1);
    } else if s.len() == 1 {
        assert(s[0].0 < s[0].1 <= p.len());
    }
}

/// A path without `.` and `..`, resolved by its text alone.
pub fn normalize_lexically(p: &[u8]) -> (r: Vec<u8>)
    ensures
        r@ == lexical(p@),
{
    let c = components_of(p);
    let mut kept: Vec<Vec<u8>> = Vec::new();
    let mut i: usize = 0;
    assert(views(kept@) =~= resolved(components(p@).take(0)));
    while i < c.len()
        invariant
            i <= c@.len(),
            views(c@) == components(p@),
            views(kept@) == resolved(components(p@).take(i as int)),
        decreases c@.len() - i,
    {
        let ghost before = kept@;
        proof {
            assert(views(c@)[i as int] == c@[i as int]@);
            let t = components(p@).take(i + 1);
            assert(t.drop_last() =~= components(p@).take(i as int));
            assert(t.last() == c@[i as int]@);
            assert(views(before).len() == before.len());
        }
        if is_dotdot(c[i].as_slice()) {
            let gone = kept.pop();
            assert(gone is Some ==> views(kept@) =~= views(before).drop_last());
        } else if !is_one(c[i].as_slice(), DOT) {
            kept.push(to_vec(c[i].as_slice()));
            assert(views(kept@) =~= views(before).push(c@[i as int]@));
        }
        i += 1;
    }
    assert(components(p@).take(i as int) =~= components(p@));
    let mut r: Vec<u8> = Vec::new();
    let mut j: usize = 0;
    assert(views(kept@).take(0) =~= seq![]);
    while j < kept.len()
        invariant
            j <= kept@.len(),
            r@ == assembled(views(kept@).take(j as int)),
        decreases kept@.len() - j,
    {
        proof {
            let t = views(kept@).take(j + 1);
            assert(t.drop_last() =~= views(kept@).take(j as int));
            assert(t.last() == kept@[j as int]@);
        }
        r = join(r.as_slice(), kept[j].as_slice());
        j += 1;
    }
    assert(views(kept@).take(j as int) =~= views(kept@));
    r
}

/// The names of the components that stand from position `i` on.
spec fn body_names(p: Seq<u8>, i: int) -> Seq<Seq<u8>> {
    body_spans(p, i).map_values(|s: (int, int)| p.subrange(s.0, s.1))
}

proof fn lemma_body_names_step(p: Seq<u8>, i: int)
    requires
        0 <= i < p.len(),
    ensures
        i <= find_from(p, SEP, i) <= p.len(),
        body_names(p, i) == ({
            let e = find_from(p, SEP, i);
            if e <= i {
                body_names(p, i + 1)
            } else if p.subrange(i, e) == dot() {
                body_names(p, e)
            } else {
                seq![p.subrange(i, e)] + body_names(p, e)
            }
        }),
{
    lemma_find_from(p, SEP, i);
    let e = find_from(p, SEP, i);
    if e > i && p.subrange(i, e) != dot() {
        assert(body_names(p, i) =~= seq![p.subrange(i, e)] + body_names(p, e));
    } else if e > i {
        assert(body_names(p, i) =~= body_names(p, e));
    } else {
        assert(body_names(p, i) =~= body_names(p, i + 1));
    }
}

/// Components before a separator do not depend on what stands behind it.
proof fn lemma_body_names_concat(a: Seq<u8>, tail: Seq<u8>, i: int)
    requires
        0 <= i <= a.len(),
        tail.len() == 0 || tail[0] == SEP,
    ensures
        body_names(a + tail, i) == body_names(a, i) + body_names(a + tail, a.len() as int),
    decreases a.len() - i,
{
    let p = a + tail;
    if i == a.len() {
        assert(body_names(a, i) =~= seq![]);
        assert(body_names(a, i) + body_names(p, a.len() as int) =~= body_names(p, i));
    } else {
        lemma_find_from(a, SEP, i);
        let e = find_from(a, SEP, i);
        assert forall|k: int| i <= k < e implies p[k] != SEP by {
            assert(p[k] == a[k]);
        }
        if e < a.len() {
            assert(p[e] == a[e]);
        } else if tail.len() > 0 {
            assert(p[e] == tail[0]);
        }
        crate::seqs::lemma_find_from_is(p, SEP, i, e);
        assert(p.subrange(i, e) =~= a.subrange(i, e));
        lemma_body_names_step(a, i);
        lemma_body_names_step(p, i);
        if e <= i {
            lemma_body_names_concat(a, tail, i + 1);
        } else {
            lemma_body_names_concat(a, tail, e);
            assert(body_names(p, i) =~= body_names(a, i) + body_names(p, a.len() as int));
        }
    }
}

/// Components do not depend on what stands before the position they are counted from.
proof fn lemma_body_names_shift(x: Seq<u8>, y: Seq<u8>, j: int)
    requires
        0 <= j <= y.len(),
    ensures
        body_names(x + y, x.len() + j) == body_names(y, j),
    decreases y.len() - j,
{
    let p = x + y;
    let i = x.len() + j;
    if j == y.len() {
        assert(body_names(p, i) =~= body_names(y, j));
    } else {
        lemma_find_from(y, SEP, j);
        let e = find_from(y, SEP, j);
        assert forall|k: int| i <= k < x.len() + e implies p[k] != SEP by {
            assert(p[k] == y[k - x.len()]);
        }
        if e < y.len() {
            assert(p[x.len() + e] == y[e]);
        }
        crate::seqs::lemma_find_from_is(p, SEP, i, x.len() + e);
        assert(p.subrange(i, x.len() + e) =~= y.subrange(j, e));
        lemma_body_names_step(y, j);
        lemma_body_names_step(p, i);
        if e <= j {
            lemma_body_names_shift(x, y, j + 1);
        } else {
            lemma_body_names_shift(x, y, e);
        }
    }
}

proof fn lemma_components(p: Seq<u8>)
    ensures
        components(p) == (if absolute(p) || starts_here(p) {
            seq![p.take(1)] + body_names(p, 1)
        } else {
            body_names(p, 0)
        }),
{
    if absolute(p) || starts_here(p) {
        assert(p.subrange(0, 1) =~= p.take(1));
        assert(components(p) =~= seq![p.take(1)] + body_names(p, 1));
    } else {
        assert(components(p) =~= body_names(p, 0));
    }
}

/// The components of a relative path seen from an absolute one.
proof fn lemma_joined_components(top: Seq<u8>, b: Seq<u8>)
    requires
        absolute(top),
        !absolute(b),
    ensures
        components(joined(top, b)) == components(top) + body_names(b, 0),
{
    let p = joined(top, b);
    lemma_components(p);
    lemma_components(top);
    assert(absolute(p));
    assert(p.take(1) =~= top.take(1));
    let tail = seq![SEP] + b;
    lemma_body_names_step(tail, 0);
    crate::seqs::lemma_find_from_is(tail, SEP, 0, 0);
    lemma_body_names_shift(seq![SEP], b, 0);
    assert(body_names(tail, 0) == body_names(b, 0));
    if top.last() != SEP {
        assert(p =~= top + tail);
        lemma_body_names_concat(top, tail, 1);
        lemma_body_names_shift(top, tail, 0);
        assert(components(p) =~= components(top) + body_names(b, 0));
    } else if top.len() == 1 {
        assert(top =~= seq![SEP]);
        assert(p =~= tail);
        assert(body_names(top, 1) =~= seq![]);
        lemma_body_names_step(tail, 0);
        assert(components(p) =~= components(top) + body_names(b, 0));
    } else {
        let a = top.drop_last();
        let one = seq![SEP];
        assert(p =~= a + tail);
        assert(top =~= a + one);
        lemma_body_names_concat(a, tail, 1);
        lemma_body_names_concat(a, one, 1);
        lemma_body_names_shift(a, tail, 0);
        lemma_body_names_shift(a, one, 0);
        lemma_body_names_step(one, 0);
        crate::seqs::lemma_find_from_is(one, SEP, 0, 0);
        assert(body_names(one, 1) =~= seq![]);
        assert(components(p) =~= components(top) + body_names(b, 0));
    }
}

/// What follows a component are the components behind it, and a component ends at a
/// separator or at the end.
proof fn lemma_body_rest(p: Seq<u8>, i: int, k: int)
    requires
        0 <= i <= p.len(),
        0 <= k < body_spans(p, i).len(),
    ensures
        body_spans(p, body_spans(p, i)[k].0) == body_spans(p, i).skip(k),
        body_spans(p, body_spans(p, i)[k].1) == body_spans(p, i).skip(k + 1),
        body_spans(p, i)[k].1 == p.len() || p[body_spans(p, i)[k].1] == SEP,
    decreases p.len() - i,
{
    if i < p.len() {
        lemma_find_from(p, SEP, i);
        let e = find_from(p, SEP, i);
        let all = body_spans(p, i);
        if e <= i {
            lemma_body_rest(p, i + 1, k);
        } else if p.subrange(i, e) == dot() {
            lemma_body_rest(p, e, k);
        } else {
            let rest = body_spans(p, e);
            assert(all == seq![(i, e)] + rest);
            if k == 0 {
                assert(all.skip(0) =~= all);
                assert(all.skip(1) =~= rest);
            } else {
                lemma_body_rest(p, e, k - 1);
                assert(all[k] == rest[k - 1]);
                assert(all.skip(k) =~= rest.skip(k - 1));
                assert(all.skip(k + 1) =~= rest.skip(k));
            }
        }
    }
}

/// What is left of a path behind another names the components behind it.
proof fn lemma_stripped_names(p: Seq<u8>, n: int)
    requires
        absolute(p),
        1 <= n < spans(p).len(),
    ensures
        body_names(p.subrange(spans(p)[n].0, spans(p).last().1), 0) == components(p).skip(n),
        spans(p)[n].0 < spans(p).last().1 <= p.len(),
        p[spans(p)[n].0] != SEP,
{
    let s = spans(p);
    let b = body_spans(p, 1);
    assert(s == seq![(0int, 1int)] + b);
    lemma_spans(p);
    lemma_body_spans(p, 1);
    let last = s.len() - 1;
    assert(s[n] == b[n - 1]);
    assert(s[last] == b[last - 1]);
    assert(proper_span(p, 1, b[n - 1]));
    assert(proper_span(p, 1, b[last - 1]));
    if n < last {
        lemma_spans_ordered(p, n, last);
    }
    let from = s[n].0;
    let to = s[last].1;
    lemma_body_rest(p, 1, n - 1);
    lemma_body_rest(p, 1, last - 1);
    let x = p.take(from);
    let y = p.skip(from);
    let r = p.subrange(from, to);
    let tail = p.skip(to);
    assert(x + y =~= p);
    assert(r + tail =~= y);
    lemma_body_names_shift(x, y, 0);
    assert(body_names(p, from) =~= components(p).skip(n)) by {
        assert(components(p) =~= s.map_values(|s: (int, int)| p.subrange(s.0, s.1)));
        assert(b.skip(n - 1) =~= s.skip(n));
    }
    if tail.len() > 0 {
        assert(tail[0] == p[to]);
    }
    lemma_body_names_concat(r, tail, 0);
    lemma_body_names_shift(r, tail, 0);
    lemma_body_names_shift(p.take(to), tail, 0);
    assert(p.take(to) + tail =~= p);
    assert(b.skip(last) =~= seq![]);
    assert(body_names(p, to) =~= seq![]);
    assert(body_names(r, 0) + body_names(y, r.len() as int) =~= body_names(r, 0));
}

/// What is left of a path behind another, seen from that other, is the path again.
pub proof fn law_strip_join(p: Seq<u8>, top: Seq<u8>)
    requires
        absolute(top),
        under(p, top),
    ensures
        stripped(p, top) matches Some(rest) && !absolute(rest) && same_path(joined(top, rest), p),
{
    lemma_spans(p);
    lemma_spans(top);
    lemma_components(top);
    let n = components(top).len() as int;
    assert(components(p)[0] == components(top)[0]);
    assert(components(top)[0] == root());
    assert(absolute(p));
    if n == spans(p).len() {
        let e: Seq<u8> = seq![];
        lemma_joined_components(top, e);
        assert(body_names(e, 0) =~= seq![]);
        assert(components(p) =~= components(top));
        assert(components(joined(top, e)) =~= components(p));
    } else {
        let s = spans(p);
        let rest = p.subrange(s[n].0, s.last().1);
        lemma_stripped_names(p, n);
        assert(rest[0] == p[s[n].0]);
        lemma_joined_components(top, rest);
        assert(components(top) + components(p).skip(n) =~= components(p));
    }
}

/// The parent of an absolute path is absolute.
pub proof fn lemma_parent_absolute(p: Seq<u8>)
    requires
        absolute(p),
    ensures
        parent_of(p) matches Some(q) ==> absolute(q),
{
    lemma_spans(p);
    let s = spans(p);
    if parent_of(p) is Some {
        if s.len() == 1 {
            assert(components(p)[0] == root());
        } else {
            assert(0 <= s[s.len() - 2].0 < s[s.len() - 2].1);
        }
    }
}

/// The components of a relative path behind a directory: all but a leading `.`.
proof fn lemma_body_names_relative(p: Seq<u8>)
    requires
        !absolute(p),
    ensures
        starts_here(p) == (components(p).len() > 0 && components(p)[0] == dot()),
        body_names(p, 0) == (if starts_here(p) {
            components(p).skip(1)
        } else {
            components(p)
        }),
{
    lemma_components(p);
    if starts_here(p) {
        lemma_body_names_step(p, 0);
        crate::seqs::lemma_find_from_is(p, SEP, 0, 1);
        assert(p.subrange(0, 1) =~= dot());
        assert(p.take(1) =~= dot());
        assert(components(p).skip(1) =~= body_names(p, 1));
    } else {
        lemma_body_spans(p, 0);
        if components(p).len() > 0 {
            assert(proper_span(p, 0, body_spans(p, 0)[0]));
        }
    }
}

/// Paths with the same components are the same path seen from a directory.
pub proof fn lemma_joined_same(top: Seq<u8>, x: Seq<u8>, y: Seq<u8>)
    requires
        absolute(top),
        same_path(x, y),
    ensures
        absolute(x) == absolute(y),
        same_path(joined(top, x), joined(top, y)),
{
    lemma_spans(x);
    lemma_spans(y);
    if !absolute(x) {
        lemma_joined_components(top, x);
        lemma_joined_components(top, y);
        lemma_body_names_relative(x);
        lemma_body_names_relative(y);
    }
}

/// What can be the name of a directory entry.
pub open spec fn entry_name(n: Seq<u8>) -> bool {
    n.len() > 0 && !n.contains(SEP) && is_name(n)
}

/// A name in a directory is one more component.
pub proof fn lemma_joined_name(top: Seq<u8>, n: Seq<u8>)
    requires
        absolute(top),
        entry_name(n),
    ensures
        components(joined(top, n)) == components(top).push(n),
        absolute(joined(top, n)),
{
    assert(!absolute(n)) by {
        if absolute(n) {
            assert(n.contains(n[0]));
        }
    }
    assert forall|k: int| 0 <= k < n.len() implies n[k] != SEP by {
        assert(n.contains(n[k]));
    }
    lemma_joined_components(top, n);
    lemma_body_names_step(n, 0);
    crate::seqs::lemma_find_from_is(n, SEP, 0, n.len() as int);
    assert(n.subrange(0, n.len() as int) =~= n);
    assert(body_names(n, n.len() as int) =~= seq![]);
    assert(components(joined(top, n)) =~= components(top).push(n));
}

/// A run of bytes between two separators, or between one and an end of the path.
pub open spec fn piece(p: Seq<u8>, i: int, j: int) -> bool {
    0 <= i < j <= p.len() && (i == 0 || p[i - 1] == 47) && (j == p.len() || p[j] == 47) && forall|
        k: int,
    |
        i <= k < j ==> #[trigger] p[k] != 47
}

proof fn lemma_piece_found(p: Seq<u8>, from: int, i: int, j: int)
    requires
        0 <= from <= i,
        piece(p, i, j),
        p.subrange(i, j) != dot(),
    ensures
        body_spans(p, from).contains((i, j)),
    decreases p.len() - from,
{
    lemma_find_from(p, SEP, from);
    let e = find_from(p, SEP, from);
    let all = body_spans(p, from);
    if e <= from {
        assert(p[from] == SEP);
        lemma_piece_found(p, from + 1, i, j);
    } else if e <= i {
        lemma_piece_found(p, e, i, j);
        let rest = body_spans(p, e);
        if p.subrange(from, e) != dot() {
            let k = choose|k: int| 0 <= k < rest.len() && rest[k] == (i, j);
            assert(all[k + 1] == (i, j));
        }
    } else {
        if from < i {
            assert(p[i - 1] != SEP);
        }
        assert(from == i);
        if j < e {
            assert(p[j] != SEP);
        }
        if e < j {
            assert(p[e] != 47);
        }
        assert(all[0] == (i, j));
    }
}

proof fn lemma_span_piece(p: Seq<u8>, from: int, k: int)
    requires
        0 <= from <= p.len(),
        from == 0 || from == p.len() || p[from - 1] == SEP || p[from] == SEP,
        0 <= k < body_spans(p, from).len(),
    ensures
        piece(p, body_spans(p, from)[k].0, body_spans(p, from)[k].1),
    decreases p.len() - from,
{
    lemma_find_from(p, SEP, from);
    let e = find_from(p, SEP, from);
    if e <= from {
        lemma_span_piece(p, from + 1, k);
    } else {
        let rest = body_spans(p, e);
        if p.subrange(from, e) == dot() {
            lemma_span_piece(p, e, k);
        } else if k > 0 {
            lemma_span_piece(p, e, k - 1);
            assert(body_spans(p, from)[k] == rest[k - 1]);
        } else {
            assert(p[from] != SEP);
        }
    }
}

/// The components of a path are what stands between its separators: nothing else is one
/// but the root and a leading `.`, and nothing of it is left out but `.`.
pub proof fn law_components(p: Seq<u8>)
    ensures
        forall|i: int, j: int|
            #![trigger piece(p, i, j)]
            piece(p, i, j) && !(j == i + 1 && p[i] == 46) ==> spans(p).contains((i, j))
                && components(p).contains(p.subrange(i, j)),
        forall|k: int|
            0 <= k < spans(p).len() ==> {
                let s = #[trigger] spans(p)[k];
                &&& components(p)[k] == p.subrange(s.0, s.1)
                &&& piece(p, s.0, s.1) || (k == 0 && s == (0int, 1int) && p[0] == 47)
            },
        components(p).len() == spans(p).len(),
        forall|j: int, k: int|
            0 <= j < k < spans(p).len() ==> #[trigger] spans(p)[j].1 <= #[trigger] spans(p)[k].0,
        (components(p).len() > 0 && components(p)[0] == seq![47u8]) <==> (p.len() > 0 && p[0]
            == 47),
        (components(p).len() > 0 && components(p)[0] == seq![46u8]) <==> (p.len() > 0 && p[0]
            == 46 && (p.len() == 1 || p[1] == 47)),
{
    let s = spans(p);
    let leads = absolute(p) || starts_here(p);
    let from = if leads {
        1int
    } else {
        0
    };
    let b = body_spans(p, from);
    lemma_spans(p);
    assert(seq![46u8] =~= dot());
    if !absolute(p) {
        lemma_body_names_relative(p);
    }
    assert forall|i: int, j: int|
        #![trigger piece(p, i, j)]
        piece(p, i, j) && !(j == i + 1 && p[i] == 46) implies s.contains((i, j)) && components(
        p,
    ).contains(p.subrange(i, j)) by {
        assert(p[i] != 47);
        if starts_here(p) && i == 0 {
            if j > 1 {
                assert(p[1] != 47);
            }
        }
        if p.subrange(i, j) == dot() {
            assert(p.subrange(i, j).len() == 1);
            assert(p.subrange(i, j)[0] == p[i]);
        }
        lemma_piece_found(p, from, i, j);
        let k = choose|k: int| 0 <= k < b.len() && b[k] == (i, j);
        let at = if leads {
            k + 1
        } else {
            k
        };
        assert(s[at] == (i, j));
        assert(components(p)[at] == p.subrange(i, j));
    }
    assert forall|k: int| 0 <= k < s.len() implies {
        let t = #[trigger] s[k];
        &&& components(p)[k] == p.subrange(t.0, t.1)
        &&& piece(p, t.0, t.1) || (k == 0 && t == (0int, 1int) && p[0] == 47)
    } by {
        if leads && k > 0 {
            lemma_span_piece(p, 1, k - 1);
        } else if !leads {
            lemma_span_piece(p, 0, k);
        }
    }
    assert forall|j: int, k: int| 0 <= j < k < s.len() implies #[trigger] s[j].1 <= #[trigger] s[k].0 by {
        lemma_spans_ordered(p, j, k);
    }
    if absolute(p) {
        assert(components(p)[0] =~= seq![47u8]);
        assert(components(p)[0][0] != seq![46u8][0]);
    } else if components(p).len() > 0 {
        let t = s[0];
        assert(piece(p, t.0, t.1));
        assert(components(p)[0][0] == p[t.0]);
    }
}

/// The parent of an absolute path other than the root has all its components but the last,
/// and the root has none.
pub proof fn law_parent(p: Seq<u8>)
    requires
        p.len() > 0,
        p[0] == 47,
    ensures
        parent_of(p) is None <==> components(p).len() == 1,
        parent_of(p) matches Some(q) ==> q.is_prefix_of(p) && components(q) == components(
            p,
        ).drop_last(),
{
    let s = spans(p);
    let b = body_spans(p, 1);
    lemma_spans(p);
    lemma_components(p);
    assert(s == seq![(0int, 1int)] + b);
    assert(p.take(1) =~= root());
    if s.len() > 1 {
        let last = s.len() - 1;
        lemma_body_spans(p, 1);
        assert(s[last] == b[last - 1]);
        assert(proper_span(p, 1, b[last - 1]));
        assert(components(p).last() == p.subrange(s[last].0, s[last].1));
        assert(components(p).last()[0] == p[s[last].0]);
        assert(components(p).last() != root());
        let e = s[last - 1].1;
        lemma_spans_ordered(p, last - 1, last);
        let q = p.take(e);
        let tail = p.skip(e);
        assert(q + tail =~= p);
        lemma_components(q);
        assert(q.take(1) =~= p.take(1));
        if last > 1 {
            assert(s[last - 1] == b[last - 2]);
            lemma_body_rest(p, 1, last - 2);
            assert(tail[0] == p[e]);
            lemma_body_names_concat(q, tail, 1);
            assert(b.skip(last - 1) =~= seq![b[last - 1]]);
            assert(body_names(p, e) =~= seq![components(p).last()]);
            assert(components(q) =~= components(p).drop_last());
        } else {
            assert(body_names(q, 1) =~= seq![]);
            assert(components(q) =~= components(p).drop_last());
        }
    }
}

/// An entry of a directory: its name is the last component, the directory is its parent and
/// holds it, and no other name of the directory holds it.
pub proof fn law_entry(top: Seq<u8>, n: Seq<u8>, other: Seq<u8>)
    requires
        top.len() > 0,
        top[0] == 47,
        n.len() > 0,
        !n.contains(47),
        n != seq![46u8],
        n != seq![46u8, 46],
        other.len() > 0,
        !other.contains(47),
        other != seq![46u8],
        other != seq![46u8, 46],
    ensures
        top.last() != 47 ==> joined(top, n) == top + seq![47u8] + n,
        top.last() == 47 ==> joined(top, n) == top + n,
        name_of(joined(top, n)) == Some(n),
        parent_of(joined(top, n)) matches Some(q) && same_path(q, top),
        under(joined(top, n), top),
        !under(top, joined(top, n)),
        under(joined(top, n), joined(top, other)) <==> n == other,
        joined(n, top) == top,
        stripped(joined(top, n), top) == Some(n),
{
    if n == root() {
        assert(n[0] == 47);
        assert(n.contains(n[0]));
    }
    if other == root() {
        assert(other[0] == 47);
        assert(other.contains(other[0]));
    }
    assert(n != root() && other != root());
    assert(entry_name(n) && entry_name(other));
    let p = joined(top, n);
    let c = components(top);
    lemma_joined_name(top, n);
    lemma_joined_name(top, other);
    assert(!absolute(n)) by {
        if absolute(n) {
            assert(n.contains(n[0]));
        }
    }
    law_parent(p);
    assert(c.push(n).drop_last() =~= c);
    assert(c.is_prefix_of(c.push(n)));
    lemma_components(top);
    assert(c.len() > 0);
    if c.push(other).is_prefix_of(c.push(n)) {
        assert(c.push(other)[c.len() as int] == c.push(n)[c.len() as int]);
    }
    lemma_spans(p);
    let s = spans(p);
    let l = s.last();
    assert(components(p)[c.len() as int] == p.subrange(l.0, l.1));
    assert(p.subrange(l.0, l.1) =~= n);
}

/// Resolving by text takes nothing from components that are names, and takes a name and a
/// `..` behind it out together.
pub proof fn law_resolved(c: Seq<Seq<u8>>, n: Seq<u8>)
    requires
        n != seq![46u8],
        n != seq![46u8, 46],
    ensures
        (forall|k: int|
            0 <= k < c.len() ==> #[trigger] c[k] != seq![46u8] && c[k] != seq![46u8, 46])
            ==> resolved(c) == c,
        resolved(c.push(n)) == resolved(c).push(n),
        resolved(c.push(n).push(seq![46u8, 46])) == resolved(c),
        resolved(c.push(seq![46u8])) == resolved(c),
        resolved(c).len() == 0 ==> resolved(c.push(seq![46u8, 46])).len() == 0,
        forall|k: int|
            0 <= k < resolved(c).len() ==> #[trigger] resolved(c)[k] != seq![46u8] && resolved(
                c,
            )[k] != seq![46u8, 46] && c.contains(resolved(c)[k]),
    decreases c.len(),
{
    assert(c.push(n).drop_last() =~= c);
    assert(c.push(n).push(seq![46u8, 46]).drop_last() =~= c.push(n));
    assert(c.push(seq![46u8]).drop_last() =~= c);
    assert(c.push(seq![46u8, 46]).drop_last() =~= c);
    assert(seq![46u8] =~= dot());
    assert(seq![46u8, 46] =~= dotdot());
    assert(dot().len() == 1 && dotdot().len() == 2);
    assert(c.push(n).last() == n);
    assert(resolved(c.push(n)) == resolved(c).push(n));
    assert(c.push(n).push(seq![46u8, 46]).last() == dotdot());
    assert(resolved(c).push(n).drop_last() =~= resolved(c));
    if c.len() > 0 {
        let d = c.drop_last();
        law_resolved(d, n);
        assert forall|k: int| 0 <= k < resolved(c).len() implies #[trigger] resolved(c)[k]
            != seq![46u8] && resolved(c)[k] != seq![46u8, 46] && c.contains(resolved(c)[k]) by {
            if k < resolved(d).len() {
                assert(resolved(c)[k] == resolved(d)[k]);
                let m = choose|m: int| 0 <= m < d.len() && d[m] == resolved(d)[k];
                assert(c[m] == resolved(c)[k]);
            } else {
                assert(resolved(c)[k] == c.last());
                assert(c[c.len() - 1] == c.last());
            }
        }
        if forall|k: int|
            0 <= k < c.len() ==> #[trigger] c[k] != seq![46u8] && c[k] != seq![46u8, 46] {
            assert forall|k: int| 0 <= k < d.len() implies #[trigger] d[k] != seq![46u8] && d[k]
                != seq![46u8, 46] by {
                assert(d[k] == c[k]);
            }
            assert(c[c.len() - 1] != dot() && c[c.len() - 1] != dotdot());
            assert(resolved(c) =~= c);
        }
    } else {
        assert(resolved(c) =~= c);
    }
}

proof fn lemma_assembled(c: Seq<Seq<u8>>)
    requires
        c.len() > 0,
        c[0] == root(),
        forall|k: int| 1 <= k < c.len() ==> entry_name(#[trigger] c[k]),
    ensures
        components(assembled(c)) == c,
        absolute(assembled(c)),
    decreases c.len(),
{
    let d = c.drop_last();
    if d.len() == 0 {
        assert(assembled(d) =~= seq![]);
        assert(assembled(c) == root());
        lemma_components(root());
        assert(root().take(1) =~= root());
        assert(body_names(root(), 1) =~= seq![]);
        assert(components(root()) =~= c);
    } else {
        assert forall|k: int| 1 <= k < d.len() implies entry_name(#[trigger] d[k]) by {
            assert(d[k] == c[k]);
        }
        lemma_assembled(d);
        assert(entry_name(c[c.len() - 1]));
        lemma_joined_name(assembled(d), c.last());
        assert(d.push(c.last()) =~= c);
    }
}

proof fn lemma_root_first(c: Seq<Seq<u8>>)
    requires
        forall|k: int| 1 <= k < c.len() ==> #[trigger] c[k] != root(),
    ensures
        forall|k: int| 1 <= k < resolved(c).len() ==> #[trigger] resolved(c)[k] != root(),
        resolved(c).len() <= c.len(),
    decreases c.len(),
{
    if c.len() > 0 {
        let d = c.drop_last();
        assert forall|k: int| 1 <= k < d.len() implies #[trigger] d[k] != root() by {
            assert(d[k] == c[k]);
        }
        lemma_root_first(d);
        assert forall|k: int| 1 <= k < resolved(c).len() implies #[trigger] resolved(c)[k]
            != root() by {
            if k < resolved(d).len() {
                assert(resolved(c)[k] == resolved(d)[k]);
            } else {
                assert(resolved(c)[k] == c[c.len() - 1]);
            }
        }
    }
}

/// A path from the root whose text climbs nowhere above it is resolved to a path from the
/// root with the components that are left; one without `..` stays the path it is.
pub proof fn law_lexical(p: Seq<u8>)
    requires
        p.len() > 0,
        p[0] == 47,
        resolved(components(p)).len() > 0,
        resolved(components(p))[0] == seq![47u8],
    ensures
        components(lexical(p)) == resolved(components(p)),
        !components(p).contains(seq![46u8, 46]) ==> same_path(lexical(p), p),
{
    let c = components(p);
    let r = resolved(c);
    law_components(p);
    law_resolved(c, root());
    assert(root() =~= seq![47u8]);
    assert(c[0] == root());
    assert forall|k: int| 1 <= k < c.len() implies #[trigger] c[k] != root() by {
        let s = spans(p)[k];
        assert(piece(p, s.0, s.1));
        assert(c[k][0] == p[s.0]);
    }
    lemma_root_first(c);
    assert forall|k: int| 1 <= k < r.len() implies entry_name(#[trigger] r[k]) by {
        let m = choose|m: int| 0 <= m < c.len() && c[m] == r[k];
        assert(r[k] != root());
        let s = spans(p)[m];
        assert(piece(p, s.0, s.1));
        assert(c[m].len() > 0);
        if r[k].contains(47) {
            let x = choose|x: int| 0 <= x < r[k].len() && r[k][x] == 47;
            assert(p[s.0 + x] != 47);
        }
    }
    lemma_assembled(r);
    if !c.contains(seq![46u8, 46]) {
        assert forall|k: int| 0 <= k < c.len() implies #[trigger] c[k] != seq![46u8] && c[k]
            != seq![46u8, 46] by {
            assert(c.contains(c[k]));
            lemma_spans(p);
            if k > 0 {
                lemma_body_spans(p, 1);
                assert(proper_span(p, 1, body_spans(p, 1)[k - 1]));
                assert(spans(p)[k] == body_spans(p, 1)[k - 1]);
            }
        }
    }
}

/// No component of a path but the first is `.`.
pub proof fn lemma_plain_components(p: Seq<u8>, k: int)
    requires
        1 <= k < components(p).len(),
    ensures
        components(p)[k] != seq![46u8],
{
    lemma_spans(p);
    assert(seq![46u8] =~= dot());
    let lead = absolute(p) || starts_here(p);
    let b = if lead {
        body_spans(p, 1)
    } else {
        body_spans(p, 0)
    };
    lemma_body_spans(p, if lead {
        1
    } else {
        0
    });
    if lead {
        assert(spans(p)[k] == b[k - 1]);
    }
}

/// What is seen from a directory lies under it, unless it is from the root itself.
pub proof fn law_joined_under(top: Seq<u8>, q: Seq<u8>)
    requires
        top.len() > 0,
        top[0] == 47,
    ensures
        q.len() > 0 && q[0] == 47 ==> joined(top, q) == q,
        q.len() == 0 || q[0] != 47 ==> under(joined(top, q), top) && joined(top, q).len() > 0
            && joined(top, q)[0] == 47,
{
    if !absolute(q) {
        lemma_joined_components(top, q);
        let c = components(top);
        assert((c + body_names(q, 0)).take(c.len() as int) =~= c);
    }
}

/// A path climbs where one of its components is `..`, which stands between separators or
/// at an end.
pub proof fn law_climbs(p: Seq<u8>)
    ensures
        climbs(p) <==> exists|i: int|
            #[trigger] piece(p, i, i + 2) && p[i] == 46 && p[i + 1] == 46,
{
    let c = components(p);
    law_components(p);
    if climbs(p) {
        let k = choose|k: int| 0 <= k < c.len() && c[k] == dotdot();
        let s = spans(p)[k];
        assert(c[k] == p.subrange(s.0, s.1));
        assert(s.1 == s.0 + 2);
        assert(c[k][0] == p[s.0] && c[k][1] == p[s.0 + 1]);
        assert(piece(p, s.0, s.0 + 2));
    }
    if exists|i: int| #[trigger] piece(p, i, i + 2) && p[i] == 46 && p[i + 1] == 46 {
        let i = choose|i: int| #[trigger] piece(p, i, i + 2) && p[i] == 46 && p[i + 1] == 46;
        assert(p.subrange(i, i + 2) =~= dotdot());
        assert(c.contains(p.subrange(i, i + 2)));
    }
}

} // verus!
