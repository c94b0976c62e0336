//! Searching and comparing runs of characters or bytes.

use vstd::prelude::*;
use vstd::slice::slice_subrange;

verus! {

/// A symbol that runs are made of: equality of values is equality of symbols.
pub trait Unit: Copy {
    fn same(a: Self, b: Self) -> (r: bool)
        ensures
            r == (a == b),
    ;
}

impl Unit for u8 {
    fn same(a: Self, b: Self) -> (r: bool) {
        a == b
    }
}

impl Unit for char {
    fn same(a: Self, b: Self) -> (r: bool) {
        a == b
    }
}

/// `p` stands in `s` at position `i`.
pub open spec fn occurs_at<T>(s: Seq<T>, p: Seq<T>, i: int) -> bool {
    0 <= i && i + p.len() <= s.len() && s.subrange(i, i + p.len()) == p
}

/// `p` stands somewhere in `s`.
pub open spec fn occurs<T>(s: Seq<T>, p: Seq<T>) -> bool {
    exists|i: int| occurs_at(s, p, i)
}

/// The first position from `i` on that holds `c`, or the length of `s`.
pub open spec fn find_from<T>(s: Seq<T>, c: T, i: int) -> int
    decreases s.len() - i,
{
    if i >= s.len() || s[i] == c {
        i
    } else {
        find_from(s, c, i + 1)
    }
}

/// What a run with one more item holds.
pub proof fn lemma_push_contains<T>(s: Seq<T>, a: T, x: T)
    ensures
        s.push(a).contains(x) <==> s.contains(x) || x == a,
{
    if s.contains(x) {
        let i = choose|i: int| 0 <= i < s.len() && s[i] == x;
        assert(s.push(a)[i] == x);
    }
    if x == a {
        assert(s.push(a)[s.len() as int] == x);
    }
}

pub proof fn lemma_find_from<T>(s: Seq<T>, c: T, i: int)
    requires
        0 <= i <= s.len(),
    ensures
        i <= find_from(s, c, i) <= s.len(),
        forall|k: int| i <= k < find_from(s, c, i) ==> s[k] != c,
        find_from(s, c, i) < s.len() ==> s[find_from(s, c, i)] == c,
    decreases s.len() - i,
{
    if i < s.len() && s[i] != c {
        lemma_find_from(s, c, i + 1);
    }
}

/// The first position is the only one that holds `c` with nothing before it.
pub proof fn lemma_find_from_is<T>(s: Seq<T>, c: T, i: int, r: int)
    requires
        0 <= i <= r <= s.len(),
        forall|k: int| i <= k < r ==> s[k] != c,
        r < s.len() ==> s[r] == c,
    ensures
        find_from(s, c, i) == r,
    decreases s.len() - i,
{
    if i < r {
        lemma_find_from_is(s, c, i + 1, r);
    }
}

pub fn same_run<T: Unit>(a: &[T], b: &[T]) -> (r: bool)
    ensures
        r == (a@ == b@),
{
    if a.len() != b.len() {
        return false;
    }
    let mut i: usize = 0;
    while i < a.len()
        invariant
            a@.len() == b@.len(),
            i <= a@.len(),
            forall|k: int| 0 <= k < i ==> a@[k] == b@[k],
        decreases a@.len() - i,
    {
        if !T::same(a[i], b[i]) {
            return false;
        }
        i += 1;
    }
    assert(a@ =~= b@);
    true
}

pub fn starts_with<T: Unit>(s: &[T], p: &[T]) -> (r: bool)
    ensures
        r == p@.is_prefix_of(s@),
{
    if p.len() > s.len() {
        return false;
    }
    same_run(slice_subrange(s, 0, p.len()), p)
}

pub fn ends_with<T: Unit>(s: &[T], p: &[T]) -> (r: bool)
    ensures
        r == p@.is_suffix_of(s@),
{
    if p.len() > s.len() {
        return false;
    }
    same_run(slice_subrange(s, s.len() - p.len(), s.len()), p)
}

pub fn contains<T: Unit>(s: &[T], p: &[T]) -> (r: bool)
    ensures
        r == occurs(s@, p@),
{
    let n: usize = s.len();
    if p.len() > n {
        return false;
    }
    let last: usize = n - p.len();
    let mut i: usize = 0;
    while i <= last
        invariant
            n == s@.len(),
            last == n - p@.len(),
            i <= last + 1,
            forall|k: int| 0 <= k < i ==> !occurs_at(s@, p@, k),
        decreases last + 1 - i,
    {
        if same_run(slice_subrange(s, i, i + p.len()), p) {
            assert(occurs_at(s@, p@, i as int));
            return true;
        }
        if i == last {
            assert forall|k: int| !occurs_at(s@, p@, k) by {
                if 0 <= k && k + p@.len() <= s@.len() && k < i {
                }
            }
            return false;
        }
        i += 1;
    }
    false
}

/// The first position from `i` on that holds `c`, or the length of `s`.
pub fn position<T: Unit>(s: &[T], c: T, i: usize) -> (r: usize)
    requires
        i <= s@.len(),
    ensures
        r == find_from(s@, c, i as int),
        i <= r <= s@.len(),
        r < s@.len() ==> s@[r as int] == c,
        forall|k: int| i <= k < r ==> s@[k] != c,
{
    let mut j: usize = i;
    while j < s.len() && !T::same(s[j], c)
        invariant
            i <= j <= s@.len(),
            forall|k: int| i <= k < j ==> s@[k] != c,
            find_from(s@, c, i as int) == find_from(s@, c, j as int),
        decreases s@.len() - j,
    {
        j += 1;
    }
    j
}

pub fn to_vec<T: Copy>(s: &[T]) -> (r: Vec<T>)
    ensures
        r@ == s@,
{
    let mut r: Vec<T> = Vec::new();
    push_all(&mut r, s);
    assert(r@ =~= s@);
    r
}

/// Appends a copy of `s`.
pub fn push_all<T: Copy>(out: &mut Vec<T>, s: &[T])
    ensures
        final(out)@ == old(out)@ + s@,
{
    let mut i: usize = 0;
    while i < s.len()
        invariant
            i <= s@.len(),
            out@ == old(out)@ + s@.take(i as int),
        decreases s@.len() - i,
    {
        out.push(s[i]);
        i += 1;
        assert(s@.take(i as int) =~= s@.take(i - 1).push(s@[i - 1]));
    }
    assert(s@.take(i as int) =~= s@);
}

} // verus!
