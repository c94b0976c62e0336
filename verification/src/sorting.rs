//! Sorting that keeps the order of items of one rank.

use vstd::prelude::*;

verus! {

/// Something that is sorted by a number.
pub trait Ranked: Sized {
    spec fn rank(&self) -> int;

    /// Whether this goes strictly before another.
    fn precedes(&self, other: &Self) -> (r: bool)
        ensures
            r == (self.rank() < other.rank()),
    ;
}

/// The items of one key, in their order.
pub open spec fn of_key<T>(s: Seq<T>, key: spec_fn(T) -> int, k: int) -> Seq<T> {
    s.filter(|x: T| key(x) == k)
}

/// No item stands before one of a lower key.
pub open spec fn ordered<T>(s: Seq<T>, key: spec_fn(T) -> int) -> bool {
    forall|i: int, j: int| 0 <= i <= j < s.len() ==> key(#[trigger] s[i]) <= key(#[trigger] s[j])
}

/// `r` holds the items of `s` by ascending key, those of one key in the order of `s`.
pub open spec fn ordered_from<T>(r: Seq<T>, s: Seq<T>, key: spec_fn(T) -> int) -> bool {
    ordered(r, key) && forall|k: int| #[trigger] of_key(r, key, k) == of_key(s, key, k)
}

pub open spec fn by_rank<T: Ranked>() -> spec_fn(T) -> int {
    |x: T| x.rank()
}

/// The items of one rank, in their order.
pub open spec fn of_rank<T: Ranked>(s: Seq<T>, k: int) -> Seq<T> {
    of_key(s, by_rank(), k)
}

/// No item stands before one of a lower rank.
pub open spec fn ascending<T: Ranked>(s: Seq<T>) -> bool {
    forall|i: int, j: int| 0 <= i <= j < s.len() ==> (#[trigger] s[i]).rank() <= (#[trigger] s[j]).rank()
}

/// `r` holds the items of `s` in ascending rank, those of one rank in the order of `s`.
pub open spec fn sorted_from<T: Ranked>(r: Seq<T>, s: Seq<T>) -> bool {
    ascending(r) && forall|k: int| #[trigger] of_rank(r, k) == of_rank(s, k)
}

/// A list that is sorted by rank is ordered by it.
proof fn lemma_sorted_ordered<T: Ranked>(r: Seq<T>, s: Seq<T>)
    requires
        sorted_from(r, s),
    ensures
        ordered_from(r, s, by_rank()),
{
    assert forall|k: int| #[trigger] of_key(r, by_rank(), k) == of_key(s, by_rank(), k) by {
        assert(of_rank(r, k) == of_rank(s, k));
    }
}

proof fn lemma_of_key_push<T>(s: Seq<T>, x: T, key: spec_fn(T) -> int, k: int)
    ensures
        of_key(s.push(x), key, k) == (if key(x) == k {
            of_key(s, key, k).push(x)
        } else {
            of_key(s, key, k)
        }),
{
    reveal(Seq::filter);
    assert(s.push(x).drop_last() =~= s);
}

proof fn lemma_of_key_add<T>(a: Seq<T>, b: Seq<T>, key: spec_fn(T) -> int, k: int)
    ensures
        of_key(a + b, key, k) == of_key(a, key, k) + of_key(b, key, k),
{
    Seq::filter_distributes_over_add(a, b, |x: T| key(x) == k);
}

proof fn lemma_of_key_none<T>(s: Seq<T>, key: spec_fn(T) -> int, k: int)
    requires
        forall|i: int| 0 <= i < s.len() ==> key(#[trigger] s[i]) != k,
    ensures
        of_key(s, key, k) == Seq::<T>::empty(),
    decreases s.len(),
{
    reveal(Seq::filter);
    if s.len() > 0 {
        let t = s.drop_last();
        assert forall|i: int| 0 <= i < t.len() implies key(#[trigger] t[i]) != k by {
            assert(t[i] == s[i]);
        }
        lemma_of_key_none(t, key, k);
    }
}

/// The last position of a key.
proof fn lemma_last_of_key<T>(s: Seq<T>, key: spec_fn(T) -> int, k: int) -> (i: int)
    requires
        of_key(s, key, k).len() > 0,
    ensures
        0 <= i < s.len(),
        s[i] == of_key(s, key, k).last(),
        key(s[i]) == k,
        forall|j: int| i < j < s.len() ==> key(#[trigger] s[j]) != k,
    decreases s.len(),
{
    if s.len() == 0 {
        lemma_of_key_none(s, key, k);
        0
    } else {
        let x = s.last();
        let t = s.drop_last();
        assert(t.push(x) =~= s);
        lemma_of_key_push(t, x, key, k);
        if key(x) == k {
            s.len() - 1
        } else {
            let i = lemma_last_of_key(t, key, k);
            assert forall|j: int| i < j < s.len() implies key(#[trigger] s[j]) != k by {
                if j < t.len() {
                    assert(s[j] == t[j]);
                }
            }
            i
        }
    }
}

/// Lists with the same items of every key have the same items.
proof fn lemma_same_items<T>(r: Seq<T>, s: Seq<T>, key: spec_fn(T) -> int)
    requires
        forall|k: int| #[trigger] of_key(r, key, k) == of_key(s, key, k),
    ensures
        r.to_multiset() == s.to_multiset(),
        r.len() == s.len(),
    decreases r.len() + s.len(),
{
    broadcast use vstd::seq_lib::group_to_multiset_ensures;

    if r.len() == 0 && s.len() == 0 {
        assert(r =~= s);
    } else if r.len() == 0 {
        let x = s.last();
        lemma_of_key_push(s.drop_last(), x, key, key(x));
        assert(s.drop_last().push(x) =~= s);
        lemma_of_key_none(r, key, key(x));
        assert(of_key(r, key, key(x)) == of_key(s, key, key(x)));
    } else {
        let x = r.last();
        let k = key(x);
        let r0 = r.drop_last();
        assert(r0.push(x) =~= r);
        lemma_of_key_push(r0, x, key, k);
        assert(of_key(s, key, k).last() == x);
        let i = lemma_last_of_key(s, key, k);
        let s0 = s.remove(i);
        assert forall|j: int| #[trigger] of_key(r0, key, j) == of_key(s0, key, j) by {
            lemma_of_key_push(r0, x, key, j);
            assert(of_key(r, key, j) == of_key(s, key, j));
            let a = s.take(i);
            let b = s.skip(i + 1);
            assert(s =~= a.push(x) + b);
            assert(s0 =~= a + b);
            lemma_of_key_add(a.push(x), b, key, j);
            lemma_of_key_add(a, b, key, j);
            lemma_of_key_push(a, x, key, j);
            if j == k {
                assert forall|m: int| 0 <= m < b.len() implies key(#[trigger] b[m]) != k by {
                    assert(b[m] == s[m + i + 1]);
                }
                lemma_of_key_none(b, key, k);
                assert(of_key(a, key, k).push(x) + of_key(b, key, k) =~= of_key(a, key, k).push(x));
                assert(of_key(a, key, k) + of_key(b, key, k) =~= of_key(a, key, k));
                assert(of_key(r0, key, k) =~= of_key(r, key, k).drop_last());
                assert(of_key(a, key, k) =~= of_key(s, key, k).drop_last());
            }
        }
        lemma_same_items(r0, s0, key);
        vstd::seq_lib::to_multiset_insert(s0, i, x);
        assert(s0.insert(i, x) =~= s);
        vstd::seq_lib::to_multiset_build(r0, x);
    }
}

/// Ordering loses nothing and adds nothing.
pub proof fn law_ordered_permutation<T>(r: Seq<T>, s: Seq<T>, key: spec_fn(T) -> int)
    requires
        ordered_from(r, s, key),
    ensures
        r.to_multiset() == s.to_multiset(),
        r.len() == s.len(),
{
    lemma_same_items(r, s, key);
}

/// Sorting loses nothing and adds nothing.
pub proof fn law_sorted_permutation<T: Ranked>(r: Seq<T>, s: Seq<T>)
    requires
        sorted_from(r, s),
    ensures
        r.to_multiset() == s.to_multiset(),
        r.len() == s.len(),
{
    lemma_sorted_ordered(r, s);
    lemma_same_items(r, s, by_rank());
}

/// There is one order of a list by a key that keeps the order of items of one key.
pub proof fn law_one_order<T>(a: Seq<T>, b: Seq<T>, key: spec_fn(T) -> int)
    requires
        ordered(a, key),
        ordered(b, key),
        forall|k: int| #[trigger] of_key(a, key, k) == of_key(b, key, k),
    ensures
        a == b,
    decreases a.len(),
{
    lemma_same_items(a, b, key);
    if a.len() > 0 {
        let x = a.last();
        let y = b.last();
        let a0 = a.drop_last();
        let b0 = b.drop_last();
        assert(a0.push(x) =~= a);
        assert(b0.push(y) =~= b);
        lemma_of_key_push(a0, x, key, key(x));
        lemma_of_key_push(b0, y, key, key(y));
        assert(of_key(a, key, key(x)) == of_key(b, key, key(x)));
        assert(of_key(a, key, key(y)) == of_key(b, key, key(y)));
        let i = lemma_last_of_key(b, key, key(x));
        let j = lemma_last_of_key(a, key, key(y));
        assert(key(b[i]) <= key(b[b.len() - 1]));
        assert(key(a[j]) <= key(a[a.len() - 1]));
        assert(key(x) == key(y));
        assert(of_key(b, key, key(y)).last() == y);
        assert(x == y);
        assert forall|k: int| #[trigger] of_key(a0, key, k) == of_key(b0, key, k) by {
            lemma_of_key_push(a0, x, key, k);
            lemma_of_key_push(b0, y, key, k);
            assert(of_key(a, key, k) == of_key(b, key, k));
            if key(x) == k {
                assert(of_key(a0, key, k) =~= of_key(a, key, k).drop_last());
                assert(of_key(b0, key, k) =~= of_key(b, key, k).drop_last());
            }
        }
        assert forall|i: int, j: int| 0 <= i <= j < a0.len() implies key(#[trigger] a0[i]) <= key(
            #[trigger] a0[j],
        ) by {
            assert(a0[i] == a[i] && a0[j] == a[j]);
        }
        assert forall|i: int, j: int| 0 <= i <= j < b0.len() implies key(#[trigger] b0[i]) <= key(
            #[trigger] b0[j],
        ) by {
            assert(b0[i] == b[i] && b0[j] == b[j]);
        }
        law_one_order(a0, b0, key);
    } else {
        assert(a =~= b);
    }
}

/// What is kept of an ordered list is ordered.
proof fn lemma_kept_ordered<T>(s: Seq<T>, key: spec_fn(T) -> int, keep: spec_fn(T) -> bool)
    requires
        ordered(s, key),
    ensures
        ordered(s.filter(keep), key),
        forall|i: int|
            0 <= i < s.filter(keep).len() ==> s.len() > 0 && key(#[trigger] s.filter(keep)[i]) <= key(
                s.last(),
            ),
    decreases s.len(),
{
    reveal(Seq::filter);
    if s.len() > 0 {
        let t = s.drop_last();
        assert forall|i: int, j: int| 0 <= i <= j < t.len() implies key(#[trigger] t[i]) <= key(
            #[trigger] t[j],
        ) by {
            assert(t[i] == s[i] && t[j] == s[j]);
        }
        lemma_kept_ordered(t, key, keep);
        assert forall|i: int| 0 <= i < t.filter(keep).len() implies key(
            #[trigger] t.filter(keep)[i],
        ) <= key(s.last()) by {
            assert(key(s[t.len() - 1]) <= key(s[s.len() - 1]));
            assert(t.last() == s[t.len() - 1]);
        }
    }
}

proof fn lemma_filters_commute<T>(s: Seq<T>, p: spec_fn(T) -> bool, q: spec_fn(T) -> bool)
    ensures
        s.filter(p).filter(q) == s.filter(q).filter(p),
    decreases s.len(),
{
    reveal(Seq::filter);
    if s.len() > 0 {
        let t = s.drop_last();
        let x = s.last();
        lemma_filters_commute(t, p, q);
        assert(t.filter(p).push(x).drop_last() =~= t.filter(p));
        assert(t.filter(q).push(x).drop_last() =~= t.filter(q));
    }
}

/// What is kept of an ordered list is the ordered list of what is kept.
pub proof fn law_order_keeps<T>(
    all: Seq<T>,
    some: Seq<T>,
    s: Seq<T>,
    key: spec_fn(T) -> int,
    keep: spec_fn(T) -> bool,
)
    requires
        ordered_from(all, s, key),
        ordered_from(some, s.filter(keep), key),
    ensures
        some == all.filter(keep),
{
    lemma_kept_ordered(all, key, keep);
    assert forall|k: int| #[trigger] of_key(some, key, k) == of_key(all.filter(keep), key, k) by {
        let p = |x: T| key(x) == k;
        assert(of_key(some, key, k) == of_key(s.filter(keep), key, k));
        assert(of_key(all, key, k) == of_key(s, key, k));
        lemma_filters_commute(s, keep, p);
        lemma_filters_commute(all, keep, p);
    }
    law_one_order(some, all.filter(keep), key);
}

/// Merges two sorted lists; of items of one rank those of the first come first.
fn merge<T: Ranked>(a0: Vec<T>, b0: Vec<T>) -> (r: Vec<T>)
    requires
        ascending(a0@),
        ascending(b0@),
    ensures
        sorted_from(r@, a0@ + b0@),
{
    let mut a = a0;
    let mut b = b0;
    let mut back: Vec<T> = Vec::new();
    let ghost mut t: Seq<T> = seq![];
    proof {
        assert(back@ =~= t.reverse());
        assert forall|k: int| #[trigger] of_rank(a@ + b@ + t, k) == of_rank(a0@ + b0@, k) by {
            assert(a@ + b@ + t =~= a0@ + b0@);
        }
    }
    while a.len() > 0 || b.len() > 0
        invariant
            ascending(a@),
            ascending(b@),
            ascending(t),
            back@ == t.reverse(),
            forall|i: int, j: int|
                0 <= i < a@.len() && 0 <= j < t.len() ==> (#[trigger] a@[i]).rank() <= (#[trigger] t[j]).rank(),
            forall|i: int, j: int|
                0 <= i < b@.len() && 0 <= j < t.len() ==> (#[trigger] b@[i]).rank() <= (#[trigger] t[j]).rank(),
            forall|k: int| #[trigger] of_rank(a@ + b@ + t, k) == of_rank(a0@ + b0@, k),
        decreases a@.len() + b@.len(),
    {
        let ghost a1 = a@;
        let ghost b1 = b@;
        let ghost t1 = t;
        let from_a: bool = if a.len() == 0 {
            false
        } else if b.len() == 0 {
            true
        } else {
            b[b.len() - 1].precedes(&a[a.len() - 1])
        };
        if from_a {
            if let Some(x) = a.pop() {
                proof {
                    t = seq![x] + t;
                    assert(a1 =~= a@.push(x));
                    assert forall|k: int| #[trigger] of_rank(a@ + b@ + t, k) == of_rank(a0@ + b0@, k) by {
                        assert(of_rank(a1 + b1 + t1, k) == of_rank(a0@ + b0@, k));
                        lemma_merge_step(a@, x, b1, t1, k);
                        assert(a@ + b@ + t =~= a@ + b1 + (seq![x] + t1));
                    }
                    assert(t.reverse() =~= back@.push(x));
                }
                back.push(x);
            }
        } else {
            if let Some(x) = b.pop() {
                proof {
                    t = seq![x] + t;
                    assert(b1 =~= b@.push(x));
                    assert forall|k: int| #[trigger] of_rank(a@ + b@ + t, k) == of_rank(a0@ + b0@, k) by {
                        assert(of_rank(a1 + b1 + t1, k) == of_rank(a0@ + b0@, k));
                        assert(a1 + b1 + t1 =~= a@ + b@ + t);
                    }
                    assert(t.reverse() =~= back@.push(x));
                }
                back.push(x);
            }
        }
    }
    let mut r: Vec<T> = Vec::new();
    let ghost all = back@;
    while back.len() > 0
        invariant
            all == t.reverse(),
            back@ == all.take(all.len() - r@.len()),
            r@.len() <= all.len(),
            r@ == t.take(r@.len() as int),
        decreases back@.len(),
    {
        let ghost r0 = r@;
        if let Some(x) = back.pop() {
            r.push(x);
            assert(r@ =~= t.take(r@.len() as int));
        }
    }
    proof {
        assert(r@ =~= t);
        assert forall|k: int| #[trigger] of_rank(r@, k) == of_rank(a0@ + b0@, k) by {
            assert(a@ + b@ + t =~= t);
            assert(of_rank(a@ + b@ + t, k) == of_rank(a0@ + b0@, k));
        }
    }
    r
}

proof fn lemma_merge_step<T: Ranked>(a: Seq<T>, x: T, b: Seq<T>, t: Seq<T>, k: int)
    requires
        forall|i: int| 0 <= i < b.len() ==> (#[trigger] b[i]).rank() < x.rank(),
    ensures
        of_rank(a.push(x) + b + t, k) == of_rank(a + b + (seq![x] + t), k),
{
    lemma_of_key_add(a.push(x) + b, t, by_rank(), k);
    lemma_of_key_add(a.push(x), b, by_rank(), k);
    lemma_of_key_push(a, x, by_rank(), k);
    lemma_of_key_add(a + b, seq![x] + t, by_rank(), k);
    lemma_of_key_add(a, b, by_rank(), k);
    lemma_of_key_add(seq![x], t, by_rank(), k);
    let e: Seq<T> = seq![];
    lemma_of_key_push(e, x, by_rank(), k);
    assert(e.push(x) =~= seq![x]);
    lemma_of_key_none(e, by_rank(), k);
    if x.rank() == k {
        lemma_of_key_none(b, by_rank(), k);
        assert(of_rank(a, k).push(x) + of_rank(b, k) + of_rank(t, k) =~= of_rank(a, k) + of_rank(
            b,
            k,
        ) + (seq![x] + of_rank(t, k)));
    } else {
        assert(of_rank(seq![x], k) + of_rank(t, k) =~= of_rank(t, k));
    }
}

/// Sorts a list in ascending rank and keeps the order of items of one rank.
pub fn sort<T: Ranked>(v: Vec<T>) -> (r: Vec<T>)
    ensures
        sorted_from(r@, v@),
        r@.to_multiset() == v@.to_multiset(),
        r@.len() == v@.len(),
    decreases v@.len(),
{
    let ghost orig = v@;
    if v.len() <= 1 {
        return v;
    }
    let mut left = v;
    let mid: usize = left.len() / 2;
    let right = left.split_off(mid);
    let ghost l0 = left@;
    let ghost r0 = right@;
    let a = sort(left);
    let b = sort(right);
    let r = merge(a, b);
    proof {
        assert(orig =~= l0 + r0);
        assert forall|k: int| #[trigger] of_rank(r@, k) == of_rank(orig, k) by {
            lemma_of_key_add(a@, b@, by_rank(), k);
            lemma_of_key_add(l0, r0, by_rank(), k);
            assert(of_rank(r@, k) == of_rank(a@ + b@, k));
            assert(of_rank(a@, k) == of_rank(l0, k));
            assert(of_rank(b@, k) == of_rank(r0, k));
        }
        law_sorted_permutation(r@, orig);
    }
    r
}

} // verus!
