//! Glob patterns: `*` stands for any run of characters (separators too, so `**` means
//! the same), `?` for one character, `[a-z]` for one of a class and `[!a-z]` or
//! `[^a-z]` for one outside it. A `[` that no `]` closes stands for itself.

use crate::seqs::{find_from, lemma_find_from, position};
use crate::text::chars_of;
use vstd::prelude::*;

verus! {

pub open spec fn negated(p: Seq<char>, i: int) -> bool {
    i + 1 < p.len() && (p[i + 1] == '!' || p[i + 1] == '^')
}

/// Where the members of a class that opens at `i` begin.
pub open spec fn class_first(p: Seq<char>, i: int) -> int {
    if negated(p, i) {
        i + 2
    } else {
        i + 1
    }
}

/// Where a class that opens at `i` closes. A `]` in the first place is a member.
pub open spec fn class_close(p: Seq<char>, i: int) -> int {
    if class_first(p, i) < p.len() {
        find_from(p, ']', class_first(p, i) + 1)
    } else {
        p.len() as int
    }
}

pub open spec fn is_class(p: Seq<char>, i: int) -> bool {
    0 <= i < p.len() && p[i] == '[' && class_first(p, i) < class_close(p, i) < p.len()
}

/// `c` is one of the members that stand from `j` up to `close`: single characters
/// and ranges.
pub open spec fn among(p: Seq<char>, j: int, close: int, c: char) -> bool
    decreases close - j,
{
    if j >= close {
        false
    } else if j + 2 < close && p[j + 1] == '-' {
        p[j] <= c <= p[j + 2] || among(p, j + 3, close, c)
    } else {
        c == p[j] || among(p, j + 1, close, c)
    }
}

/// Where the element that starts at `i` ends.
pub open spec fn unit_end(p: Seq<char>, i: int) -> int {
    if is_class(p, i) {
        class_close(p, i) + 1
    } else {
        i + 1
    }
}

/// The element at `i`, which is no `*`, stands for the character `c`.
pub open spec fn accepts(p: Seq<char>, i: int, c: char) -> bool {
    if is_class(p, i) {
        among(p, class_first(p, i), class_close(p, i), c) != negated(p, i)
    } else {
        p[i] == '?' || p[i] == c
    }
}

/// The pattern from `i` on stands for the text from `j` on.
pub open spec fn glob_at(p: Seq<char>, i: int, t: Seq<char>, j: int) -> bool
    decreases p.len() - i, t.len() - j,
{
    if i >= p.len() {
        j == t.len()
    } else if p[i] == '*' {
        glob_at(p, i + 1, t, j) || (j < t.len() && glob_at(p, i, t, j + 1))
    } else {
        j < t.len() && accepts(p, i, t[j]) && glob_at(p, unit_end(p, i), t, j + 1)
    }
}

/// The pattern `p` stands for the text `t`.
pub open spec fn glob(p: Seq<char>, t: Seq<char>) -> bool {
    glob_at(p, 0, t, 0)
}

/// A character that means more than itself in a pattern.
pub open spec fn is_special(c: char) -> bool {
    c == '*' || c == '?' || c == '['
}

/// A run of characters that stand for themselves.
pub open spec fn literal(p: Seq<char>) -> bool {
    forall|i: int| 0 <= i < p.len() ==> !is_special(#[trigger] p[i])
}

/// `m` elements, none of them `*`, lead from `a` to `b`.
spec fn leads(p: Seq<char>, a: int, b: int, m: nat) -> bool
    decreases m,
{
    if m == 0 {
        a == b
    } else {
        0 <= a < p.len() && p[a] != '*' && leads(p, unit_end(p, a), b, (m - 1) as nat)
    }
}

proof fn lemma_leads_on(p: Seq<char>, a: int, b: int, m: nat)
    requires
        leads(p, a, b, m),
        0 <= b < p.len(),
        p[b] != '*',
    ensures
        leads(p, a, unit_end(p, b), m + 1),
    decreases m,
{
    if m == 0 {
        assert(leads(p, unit_end(p, b), unit_end(p, b), 0));
    } else {
        lemma_leads_on(p, unit_end(p, a), b, (m - 1) as nat);
    }
}

proof fn lemma_leads_matches(p: Seq<char>, a: int, b: int, m: nat, t: Seq<char>, j: int)
    requires
        leads(p, a, b, m),
        glob_at(p, a, t, j),
        j <= t.len(),
    ensures
        j + m <= t.len(),
        glob_at(p, b, t, j + m),
    decreases m,
{
    if m > 0 {
        lemma_leads_matches(p, unit_end(p, a), b, (m - 1) as nat, t, j + 1);
    }
}

/// A `*` takes any run of characters.
proof fn lemma_star(p: Seq<char>, i: int, t: Seq<char>, j: int)
    requires
        0 <= i < p.len(),
        p[i] == '*',
        j <= t.len(),
    ensures
        glob_at(p, i, t, j) == exists|k: int| j <= k <= t.len() && #[trigger] glob_at(p, i + 1, t, k),
    decreases t.len() - j,
{
    if j < t.len() {
        lemma_star(p, i, t, j + 1);
        if exists|k: int| j <= k <= t.len() && #[trigger] glob_at(p, i + 1, t, k) {
            let k = choose|k: int| j <= k <= t.len() && #[trigger] glob_at(p, i + 1, t, k);
            if k > j {
                assert(j + 1 <= k <= t.len() && glob_at(p, i + 1, t, k));
            }
        }
    } else {
        if exists|k: int| j <= k <= t.len() && #[trigger] glob_at(p, i + 1, t, k) {
            let k = choose|k: int| j <= k <= t.len() && #[trigger] glob_at(p, i + 1, t, k);
            assert(k == j);
        }
    }
    if glob_at(p, i + 1, t, j) {
        assert(j <= j <= t.len() && glob_at(p, i + 1, t, j));
    }
}

/// What a `*` matches from a later position it matches from an earlier one.
proof fn lemma_star_earlier(p: Seq<char>, i: int, t: Seq<char>, j: int, l: int)
    requires
        0 <= i < p.len(),
        p[i] == '*',
        j <= l <= t.len(),
        glob_at(p, i, t, l),
    ensures
        glob_at(p, i, t, j),
    decreases l - j,
{
    if j < l {
        lemma_star_earlier(p, i, t, j + 1, l);
    }
}

proof fn lemma_unit_end(p: Seq<char>, i: int)
    requires
        0 <= i < p.len(),
    ensures
        i < unit_end(p, i) <= p.len(),
{
}

/// Where the element that starts at `i` ends, and whether it is a class.
fn class_end(p: &[char], i: usize) -> (r: Option<usize>)
    requires
        i < p@.len(),
    ensures
        match r {
            Some(e) => is_class(p@, i as int) && e == class_close(p@, i as int),
            None => !is_class(p@, i as int),
        },
{
    let n: usize = p.len();
    if p[i] != '[' || i + 1 >= n {
        return None;
    }
    let first: usize = if p[i + 1] == '!' || p[i + 1] == '^' {
        i + 2
    } else {
        i + 1
    };
    if first >= n {
        return None;
    }
    proof {
        lemma_find_from(p@, ']', first + 1);
    }
    let e: usize = position(p, ']', first + 1);
    if e < n {
        Some(e)
    } else {
        None
    }
}

fn class_holds(p: &[char], first: usize, close: usize, c: char) -> (r: bool)
    requires
        first <= close <= p@.len(),
    ensures
        r == among(p@, first as int, close as int, c),
{
    let mut j: usize = first;
    while j < close
        invariant
            j <= close <= p@.len(),
            among(p@, first as int, close as int, c) == among(p@, j as int, close as int, c),
        decreases close - j,
    {
        if close - j > 2 && p[j + 1] == '-' {
            if p[j] <= c && c <= p[j + 2] {
                return true;
            }
            j += 3;
        } else {
            if c == p[j] {
                return true;
            }
            j += 1;
        }
    }
    false
}

/// The end of the element at `i`, if that element stands for `c`.
fn accept(p: &[char], i: usize, c: char) -> (r: Option<usize>)
    requires
        i < p@.len(),
    ensures
        match r {
            Some(e) => accepts(p@, i as int, c) && e == unit_end(p@, i as int) && i < e <= p@.len(),
            None => !accepts(p@, i as int, c),
        },
{
    proof {
        lemma_unit_end(p@, i as int);
    }
    match class_end(p, i) {
        Some(e) => {
            let neg: bool = p[i + 1] == '!' || p[i + 1] == '^';
            let first: usize = if neg {
                i + 2
            } else {
                i + 1
            };
            if class_holds(p, first, e, c) != neg {
                Some(e + 1)
            } else {
                None
            }
        },
        None => {
            if p[i] == '?' || p[i] == c {
                Some(i + 1)
            } else {
                None
            }
        },
    }
}

/// Whether the pattern stands for the text. After a mismatch the last `*` takes one
/// character more; no earlier `*` has to be tried again.
pub fn glob_match(p: &[char], t: &[char]) -> (r: bool)
    ensures
        r == glob(p@, t@),
{
    let n: usize = p.len();
    let len: usize = t.len();
    let mut i: usize = 0;
    let mut j: usize = 0;
    // The last `*` met, and where the text behind what it takes begins.
    let mut star: Option<(usize, usize)> = None;
    let ghost mut m: nat = 0;
    loop
        invariant
            n == p@.len(),
            len == t@.len(),
            i <= n,
            j <= len,
            match star {
                Some((s, b)) => {
                    &&& s < n
                    &&& p@[s as int] == '*'
                    &&& s < i
                    &&& b <= j
                    &&& m == j - b
                    &&& leads(p@, s + 1, i as int, m)
                    &&& glob(p@, t@) == glob_at(p@, s as int, t@, b as int)
                    &&& glob_at(p@, s + 1, t@, b as int) == glob_at(p@, i as int, t@, j as int)
                },
                None => glob(p@, t@) == glob_at(p@, i as int, t@, j as int),
            },
        decreases
                n - (match star {
                    Some((s, b)) => s as int,
                    None => -1,
                }),
                len - (match star {
                    Some((s, b)) => b as int,
                    None => -1,
                }),
                n - i,
    {
        if i < n && p[i] == '*' {
            proof {
                if let Some((s, b)) = star {
                    if glob_at(p@, s as int, t@, b as int) {
                        lemma_star(p@, s as int, t@, b as int);
                        let k = choose|k: int|
                            b <= k <= t@.len() && #[trigger] glob_at(p@, s + 1, t@, k);
                        lemma_leads_matches(p@, s + 1, i as int, m, t@, k);
                        lemma_star_earlier(p@, i as int, t@, j as int, k + m);
                    }
                }
                m = 0;
            }
            star = Some((i, j));
            i += 1;
            assert(leads(p@, i as int, i as int, 0));
            continue;
        }
        if i < n && j < len {
            if let Some(e) = accept(p, i, t[j]) {
                proof {
                    if let Some((s, b)) = star {
                        lemma_leads_on(p@, s + 1, i as int, m);
                        m = m + 1;
                    }
                }
                i = e;
                j += 1;
                continue;
            }
        }
        if i == n && j == len {
            return true;
        }
        assert(!glob_at(p@, i as int, t@, j as int));
        match star {
            None => {
                return false;
            },
            Some((s, b)) => {
                if b == len {
                    return false;
                }
                proof {
                    m = 0;
                }
                star = Some((s, b + 1));
                i = s + 1;
                j = b + 1;
                assert(leads(p@, s + 1, i as int, 0));
            },
        }
    }
}

/// Whether the pattern stands for the text.
pub fn simple_glob_match(pattern: &str, text: &str) -> (r: bool)
    ensures
        r == glob(pattern@, text@),
{
    let p = chars_of(pattern);
    let t = chars_of(text);
    glob_match(p.as_slice(), t.as_slice())
}

/// A pattern of characters that stand for themselves, from `i` on.
proof fn lemma_literal_at(p: Seq<char>, i: int, t: Seq<char>, j: int)
    requires
        0 <= i <= p.len(),
        0 <= j <= t.len(),
        literal(p),
    ensures
        glob_at(p, i, t, j) == (p.skip(i) == t.skip(j)),
    decreases p.len() - i,
{
    if i < p.len() {
        assert(!is_special(p[i]));
        if j < t.len() {
            lemma_literal_at(p, i + 1, t, j + 1);
            assert(p.skip(i).drop_first() =~= p.skip(i + 1));
            assert(t.skip(j).drop_first() =~= t.skip(j + 1));
            if p[i] == t[j] && p.skip(i + 1) == t.skip(j + 1) {
                assert(p.skip(i) =~= seq![p[i]] + p.skip(i + 1));
                assert(t.skip(j) =~= seq![t[j]] + t.skip(j + 1));
            }
            if p.skip(i) == t.skip(j) {
                assert(p.skip(i)[0] == t.skip(j)[0]);
            }
        } else {
            assert(p.skip(i).len() != t.skip(j).len());
        }
    } else {
        assert(p.skip(i) =~= seq![]);
        if j == t.len() {
            assert(t.skip(j) =~= seq![]);
        } else {
            assert(t.skip(j).len() > 0);
        }
    }
}

/// A pattern without special characters matches only itself.
pub proof fn law_literal(p: Seq<char>, t: Seq<char>)
    requires
        literal(p),
    ensures
        glob(p, t) == (p == t),
{
    lemma_literal_at(p, 0, t, 0);
    assert(p.skip(0) =~= p);
    assert(t.skip(0) =~= t);
}

/// Matching depends only on what stands from the two positions on.
proof fn lemma_glob_shift(p: Seq<char>, q: Seq<char>, d: int, i: int, t: Seq<char>, j: int)
    requires
        0 <= d,
        0 <= i <= q.len(),
        p.len() == q.len() + d,
        forall|k: int| 0 <= k < q.len() ==> #[trigger] p[k + d] == q[k],
    ensures
        glob_at(p, i + d, t, j) == glob_at(q, i, t, j),
    decreases q.len() - i, t.len() - j,
{
    if i < q.len() {
        assert(p[i + d] == q[i]);
        lemma_class_shift(p, q, d, i);
        if q[i] == '*' {
            lemma_glob_shift(p, q, d, i + 1, t, j);
            if j < t.len() {
                lemma_glob_shift(p, q, d, i, t, j + 1);
            }
            assert(i + 1 + d == i + d + 1);
        } else {
            lemma_unit_end(q, i);
            lemma_glob_shift(p, q, d, unit_end(q, i), t, j + 1);
            if j < t.len() && is_class(q, i) {
                lemma_among_shift(p, q, d, class_first(q, i), class_close(q, i), t[j]);
            }
        }
    }
}

proof fn lemma_among_shift(p: Seq<char>, q: Seq<char>, d: int, j: int, close: int, c: char)
    requires
        0 <= j,
        close <= q.len(),
        0 <= d,
        p.len() == q.len() + d,
        forall|k: int| 0 <= k < q.len() ==> #[trigger] p[k + d] == q[k],
    ensures
        among(p, j + d, close + d, c) == among(q, j, close, c),
    decreases close - j,
{
    if j < close {
        assert(p[j + d] == q[j]);
        if j + 2 < close {
            assert(p[(j + 1) + d] == q[j + 1]);
            assert(p[(j + 2) + d] == q[j + 2]);
            lemma_among_shift(p, q, d, j + 3, close, c);
        }
        lemma_among_shift(p, q, d, j + 1, close, c);
    }
}

proof fn lemma_class_shift(p: Seq<char>, q: Seq<char>, d: int, i: int)
    requires
        0 <= i < q.len(),
        0 <= d,
        p.len() == q.len() + d,
        forall|k: int| 0 <= k < q.len() ==> #[trigger] p[k + d] == q[k],
    ensures
        negated(p, i + d) == negated(q, i),
        class_first(p, i + d) == class_first(q, i) + d,
        class_close(p, i + d) == class_close(q, i) + d,
        is_class(p, i + d) == is_class(q, i),
        unit_end(p, i + d) == unit_end(q, i) + d,
{
    assert(p[i + d] == q[i]);
    if i + 1 < q.len() {
        assert(p[(i + 1) + d] == q[i + 1]);
    }
    let f = class_first(q, i);
    if f < q.len() {
        lemma_find_from(q, ']', f + 1);
        let r = find_from(q, ']', f + 1);
        assert forall|k: int| f + 1 + d <= k < r + d implies p[k] != ']' by {
            assert(p[(k - d) + d] == q[k - d]);
        }
        if r < q.len() {
            assert(p[r + d] == q[r]);
        }
        crate::seqs::lemma_find_from_is(p, ']', f + 1 + d, r + d);
    }
}

/// A `*` before a pattern lets the text start with anything.
pub proof fn law_leading_star(p: Seq<char>, t: Seq<char>)
    ensures
        glob(seq!['*'] + p, t) == exists|k: int| 0 <= k <= t.len() && glob(p, #[trigger] t.skip(k)),
{
    let q = seq!['*'] + p;
    lemma_star(q, 0, t, 0);
    assert forall|k: int| 0 <= k <= t.len() implies glob_at(q, 1, t, k) == glob(p, #[trigger] t.skip(k)) by {
        lemma_glob_shift(q, p, 1, 0, t, k);
        lemma_text_shift(p, 0, t, k, 0);
    }
    if glob(q, t) {
        let k = choose|k: int| 0 <= k <= t.len() && #[trigger] glob_at(q, 0int + 1, t, k);
        assert(glob(p, t.skip(k)));
    }
    if exists|k: int| 0 <= k <= t.len() && glob(p, #[trigger] t.skip(k)) {
        let k = choose|k: int| 0 <= k <= t.len() && glob(p, #[trigger] t.skip(k));
        assert(glob_at(q, 1, t, k));
        assert(glob_at(q, 0int + 1, t, k));
    }
}

proof fn lemma_text_shift(p: Seq<char>, i: int, t: Seq<char>, d: int, j: int)
    requires
        0 <= i <= p.len(),
        0 <= d <= t.len(),
        0 <= j,
    ensures
        glob_at(p, i, t, j + d) == glob_at(p, i, t.skip(d), j),
    decreases p.len() - i, t.len() - d - j,
{
    let u = t.skip(d);
    if i < p.len() {
        if p[i] == '*' {
            lemma_text_shift(p, i + 1, t, d, j);
            if j < u.len() {
                lemma_text_shift(p, i, t, d, j + 1);
                assert(j + 1 + d == j + d + 1);
            }
        } else {
            lemma_unit_end(p, i);
            lemma_text_shift(p, unit_end(p, i), t, d, j + 1);
            if j < u.len() {
                assert(u[j] == t[j + d]);
            }
        }
    }
}

/// The pattern `*` matches every text.
pub proof fn law_star(t: Seq<char>)
    ensures
        glob(seq!['*'], t),
{
    let p = seq!['*'];
    lemma_star(p, 0, t, 0);
    assert(glob_at(p, 0int + 1, t, t.len() as int));
}

/// `*` and a literal match the texts that end with it.
pub proof fn law_suffix(s: Seq<char>, t: Seq<char>)
    requires
        literal(s),
    ensures
        glob(seq!['*'] + s, t) == s.is_suffix_of(t),
{
    law_leading_star(s, t);
    if s.is_suffix_of(t) {
        let k = t.len() - s.len();
        assert(t.skip(k) =~= s);
        law_literal(s, t.skip(k));
    }
    if glob(seq!['*'] + s, t) {
        let k = choose|k: int| 0 <= k <= t.len() && glob(s, #[trigger] t.skip(k));
        law_literal(s, t.skip(k));
        assert(t.subrange(t.len() - s.len(), t.len() as int) =~= s);
    }
}

/// A literal start, from `i` on, before the rest of a pattern.
proof fn lemma_literal_head(p: Seq<char>, n: int, i: int, t: Seq<char>, j: int)
    requires
        0 <= i <= n <= p.len(),
        0 <= j <= t.len(),
        forall|k: int| 0 <= k < n ==> !is_special(#[trigger] p[k]),
    ensures
        glob_at(p, i, t, j) == (j + n - i <= t.len() && p.subrange(i, n) == t.subrange(j, j + n - i)
            && glob_at(p, n, t, j + n - i)),
    decreases n - i,
{
    if i == n {
        assert(p.subrange(i, n) =~= t.subrange(j, j));
    } else {
        assert(!is_special(p[i]));
        if j < t.len() {
            lemma_literal_head(p, n, i + 1, t, j + 1);
            if j + n - i <= t.len() {
                let a = p.subrange(i, n);
                let b = t.subrange(j, j + n - i);
                assert(a =~= seq![p[i]] + p.subrange(i + 1, n));
                assert(b =~= seq![t[j]] + t.subrange(j + 1, j + n - i));
                if a == b {
                    assert(a[0] == b[0]);
                    assert(a.drop_first() =~= p.subrange(i + 1, n));
                    assert(b.drop_first() =~= t.subrange(j + 1, j + n - i));
                }
            }
        }
    }
}

/// A literal, `*` and a second literal match the texts that start with the first, end
/// with the second and are long enough for both.
pub proof fn law_infix(a: Seq<char>, b: Seq<char>, t: Seq<char>)
    requires
        literal(a),
        literal(b),
    ensures
        glob(a + seq!['*'] + b, t) == (a.is_prefix_of(t) && b.is_suffix_of(t) && a.len() + b.len()
            <= t.len()),
{
    let p = a + seq!['*'] + b;
    let n = a.len() as int;
    assert forall|k: int| 0 <= k < n implies !is_special(#[trigger] p[k]) by {
        assert(p[k] == a[k]);
    }
    lemma_literal_head(p, n, 0, t, 0);
    assert(p.subrange(0, n) =~= a);
    if n <= t.len() {
        assert(a.is_prefix_of(t) == (a == t.subrange(0, n)));
        let q = seq!['*'] + b;
        let u = t.skip(n);
        lemma_glob_shift(p, q, n, 0, t, n);
        lemma_text_shift(q, 0, t, n, 0);
        law_suffix(b, u);
        if b.len() <= u.len() {
            assert(u.subrange(u.len() - b.len(), u.len() as int) =~= t.subrange(
                t.len() - b.len(),
                t.len() as int,
            ));
        }
    }
}

/// A literal and `*` match the texts that start with it.
pub proof fn law_prefix(a: Seq<char>, t: Seq<char>)
    requires
        literal(a),
    ensures
        glob(a + seq!['*'], t) == a.is_prefix_of(t),
{
    law_infix(a, seq![], t);
    assert(a + seq!['*'] + Seq::<char>::empty() =~= a + seq!['*']);
    assert(t.subrange(t.len() as int, t.len() as int) =~= seq![]);
}

} // verus!
