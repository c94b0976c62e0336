//! What the elements of a glob pattern stand for.

use crate::glob::{among, class_close, class_first, glob, glob_at, is_class, negated, unit_end};
use crate::seqs::lemma_find_from_is;
use vstd::prelude::*;

verus! {

/// A `?` stands for one character, whichever it is, and needs one.
pub proof fn law_one_character(t: Seq<char>)
    ensures
        glob(seq!['?'], t) <==> t.len() == 1,
        glob(seq!['?', '?'], t) <==> t.len() == 2,
{
    reveal_with_fuel(glob_at, 4);
}

/// A class with a range stands for one character of the range, and with `!` or `^` before
/// it for one outside it.
pub proof fn law_range(a: char, b: char, t: Seq<char>)
    requires
        a != '!',
        a != '^',
        b != ']',
        a != ']',
    ensures
        glob(seq!['[', a, '-', b, ']'], t) <==> t.len() == 1 && a <= t[0] <= b,
        glob(seq!['[', '!', a, '-', b, ']'], t) <==> t.len() == 1 && !(a <= t[0] <= b),
        glob(seq!['[', '^', a, '-', b, ']'], t) <==> t.len() == 1 && !(a <= t[0] <= b),
{
    let p = seq!['[', a, '-', b, ']'];
    assert(!negated(p, 0));
    lemma_find_from_is(p, ']', 2, 4);
    assert(class_close(p, 0) == 4 && class_first(p, 0) == 1 && is_class(p, 0) && unit_end(p, 0) == 5);
    let q = seq!['[', '!', a, '-', b, ']'];
    assert(negated(q, 0));
    lemma_find_from_is(q, ']', 3, 5);
    assert(class_close(q, 0) == 5 && class_first(q, 0) == 2 && is_class(q, 0) && unit_end(q, 0) == 6);
    let r = seq!['[', '^', a, '-', b, ']'];
    assert(negated(r, 0));
    lemma_find_from_is(r, ']', 3, 5);
    assert(class_close(r, 0) == 5 && class_first(r, 0) == 2 && is_class(r, 0) && unit_end(r, 0) == 6);
    reveal_with_fuel(glob_at, 3);
    reveal_with_fuel(among, 3);
}

/// A class of single characters stands for one of them, and with `!` before it for one that
/// is none of them. A `]` in the first place is one of them.
pub proof fn law_members(a: char, b: char, t: Seq<char>)
    requires
        a != '!',
        a != '^',
        b != ']',
        b != '-',
    ensures
        glob(seq!['[', a, b, ']'], t) <==> t.len() == 1 && (t[0] == a || t[0] == b),
        glob(seq!['[', '!', a, b, ']'], t) <==> t.len() == 1 && t[0] != a && t[0] != b,
        glob(seq!['[', a, ']'], t) <==> t.len() == 1 && t[0] == a,
{
    let p = seq!['[', a, b, ']'];
    assert(!negated(p, 0));
    lemma_find_from_is(p, ']', 2, 3);
    assert(class_close(p, 0) == 3 && class_first(p, 0) == 1 && is_class(p, 0) && unit_end(p, 0) == 4);
    let q = seq!['[', '!', a, b, ']'];
    assert(negated(q, 0));
    lemma_find_from_is(q, ']', 3, 4);
    assert(class_close(q, 0) == 4 && class_first(q, 0) == 2 && is_class(q, 0) && unit_end(q, 0) == 5);
    let r = seq!['[', a, ']'];
    assert(!negated(r, 0));
    lemma_find_from_is(r, ']', 2, 2);
    assert(class_close(r, 0) == 2 && class_first(r, 0) == 1 && is_class(r, 0) && unit_end(r, 0) == 3);
    reveal_with_fuel(glob_at, 3);
    reveal_with_fuel(among, 4);
}

/// A `[` that nothing closes stands for itself.
pub proof fn law_unclosed(a: char, t: Seq<char>)
    requires
        a != ']',
        a != '*',
        a != '?',
        a != '[',
    ensures
        glob(seq!['[', a], t) <==> t.len() == 2 && t[0] == '[' && t[1] == a,
{
    let p = seq!['[', a];
    if a != '!' && a != '^' {
        assert(class_first(p, 0) == 1);
        lemma_find_from_is(p, ']', 2, 2);
    }
    assert(!is_class(p, 0));
    assert(!is_class(p, 1));
    reveal_with_fuel(glob_at, 4);
}

} // verus!
