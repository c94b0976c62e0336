//! Processes: their names, their ancestors, and those that the trash is not for.

use crate::mounts::opt_path;
use crate::path::{file_name, name_of};
use crate::text::{
    chars_of, decimal, listed, lossy, opt_text, parse_u32, push_decimal, push_text, string_of, text_lossy, texts, trim,
    trimmed, unsigned_value, views, words, words_of,
};
use vstd::prelude::*;
use vstd::slice::slice_subrange;

verus! {

/// How many ancestors of a process are looked at.
pub const MAX_ANCESTORS: usize = 10;

/// A parent process.
#[derive(Debug)]
pub struct Ancestor {
    pub pid: u32,
    /// Its name, where it could be found.
    pub name: Option<String>,
}

/// One of the ancestors from the first on is in the list. They are looked at up to the
/// first that is no ordinary process, and not further than the limit.
pub open spec fn bypassed_from(list: Seq<Seq<char>>, a: Seq<Ancestor>, i: int) -> bool
    decreases a.len() - i,
{
    if i < 0 || i >= a.len() || i >= MAX_ANCESTORS || a[i].pid <= 1 {
        false
    } else {
        (match opt_text(a[i].name) {
            Some(n) => list.contains(n),
            None => false,
        }) || bypassed_from(list, a, i + 1)
    }
}

/// Whether one of the ancestors of a process, the parent first, is in the list of those
/// that the trash is not for.
pub fn is_parent_bypassed(list: &Vec<String>, ancestors: &Vec<Ancestor>) -> (r: bool)
    ensures
        r == bypassed_from(texts(list@), ancestors@, 0),
{
    let mut i: usize = 0;
    while i < ancestors.len() && i < MAX_ANCESTORS
        invariant
            i <= ancestors@.len(),
            i <= MAX_ANCESTORS,
            bypassed_from(texts(list@), ancestors@, 0) == bypassed_from(
                texts(list@),
                ancestors@,
                i as int,
            ),
        decreases ancestors@.len() - i,
    {
        if ancestors[i].pid <= 1 {
            return false;
        }
        match &ancestors[i].name {
            Some(n) => {
                if listed(list, n.as_str()) {
                    return true;
                }
            },
            None => {},
        }
        i += 1;
    }
    false
}

/// Nothing is bypassed by an empty list.
pub proof fn law_empty_list_bypasses_nothing(a: Seq<Ancestor>, i: int)
    ensures
        !bypassed_from(seq![], a, i),
    decreases a.len() - i,
{
    if !(i < 0 || i >= a.len() || i >= MAX_ANCESTORS || a[i].pid <= 1) {
        law_empty_list_bypasses_nothing(a, i + 1);
    }
}

/// Where the last `)` of a text stands, or -1.
pub open spec fn last_bracket(s: Seq<char>) -> int
    decreases s.len(),
{
    if s.len() == 0 {
        -1
    } else if s.last() == ')' {
        s.len() - 1
    } else {
        last_bracket(s.drop_last())
    }
}

/// The parent that the status line of a process tells: the second word behind the name,
/// which stands in brackets and may hold brackets itself. A line that was cut off behind
/// the name tells none.
pub open spec fn parent_told(stat: Seq<char>) -> Option<nat> {
    let b = last_bracket(stat);
    if b < 0 || b + 2 > stat.len() || stat[b + 1] > '\u{7f}' {
        None
    } else {
        let fields = words(stat.skip(b + 2));
        if fields.len() < 2 {
            None
        } else {
            unsigned_value(fields[1], u32::MAX as nat)
        }
    }
}

proof fn lemma_last_bracket(s: Seq<char>, n: int)
    requires
        -1 <= n < s.len(),
        n >= 0 ==> s[n] == ')',
        forall|k: int| n < k < s.len() ==> s[k] != ')',
    ensures
        last_bracket(s) == n,
    decreases s.len(),
{
    if s.len() > 0 && n < s.len() - 1 {
        lemma_last_bracket(s.drop_last(), n);
    }
}

/// The parent that the status line of a process tells.
pub fn parent_pid(stat: &str) -> (r: Option<u32>)
    ensures
        match r {
            Some(p) => parent_told(stat@) == Some(p as nat),
            None => parent_told(stat@) is None,
        },
{
    let c = chars_of(stat);
    let n: usize = c.len();
    let mut b: usize = n;
    while b > 0 && c[b - 1] != ')'
        invariant
            n == c@.len(),
            b <= n,
            forall|k: int| b <= k < n ==> c@[k] != ')',
        decreases b,
    {
        b -= 1;
    }
    proof {
        lemma_last_bracket(c@, b - 1);
    }
    if b == 0 || n - b < 1 || c[b] > '\u{7f}' {
        return None;
    }
    let rest = slice_subrange(c.as_slice(), b + 1, n);
    assert(rest@ =~= stat@.skip(b + 1));
    let fields = words_of(rest);
    assert(views(fields@).len() == fields@.len());
    if fields.len() < 2 {
        return None;
    }
    assert(views(fields@)[1] == fields@[1]@);
    parse_u32(fields[1].as_slice())
}

/// The name of a process, from the file it runs, or from what it calls itself.
pub open spec fn told_name(exe: Option<Seq<u8>>, comm: Option<Seq<char>>) -> Option<Seq<char>> {
    let from_exe = match exe {
        Some(p) => name_of(p),
        None => None,
    };
    match from_exe {
        Some(n) => Some(lossy(n)),
        None => match comm {
            Some(c) => Some(trim(c)),
            None => None,
        },
    }
}

pub open spec fn opt_chars(o: Option<&str>) -> Option<Seq<char>> {
    match o {
        Some(s) => Some(s@),
        None => None,
    }
}

/// The name of a process, from the file it runs, or from what it calls itself.
pub fn process_name(exe: Option<&[u8]>, comm: Option<&str>) -> (r: Option<String>)
    ensures
        opt_text(r) == told_name(opt_path(exe), opt_chars(comm)),
{
    match exe {
        Some(p) => {
            match file_name(p) {
                Some(n) => {
                    return Some(text_lossy(n));
                },
                None => {},
            }
        },
        None => {},
    }
    match comm {
        Some(c) => {
            let v = chars_of(c);
            Some(string_of(trimmed(v.as_slice())))
        },
        None => None,
    }
}

/// The name under which a process is reported: a process always has one.
pub open spec fn shown_name(pid: u32, exe: Option<Seq<u8>>, comm: Option<Seq<char>>) -> Seq<char> {
    if pid == 0 {
        "(kernel)"@
    } else {
        match told_name(exe, comm) {
            Some(n) => n,
            None => "(pid "@ + decimal(pid as nat) + ")"@,
        }
    }
}

/// The name under which a process is reported.
pub fn display_name(pid: u32, exe: Option<&[u8]>, comm: Option<&str>) -> (r: String)
    ensures
        r@ == shown_name(pid, opt_path(exe), opt_chars(comm)),
{
    if pid == 0 {
        return "(kernel)".to_owned();
    }
    match process_name(exe, comm) {
        Some(n) => n,
        None => {
            let mut r: String = "(pid ".to_owned();
            push_decimal(&mut r, pid as u64);
            push_text(&mut r, ")");
            r
        },
    }
}

/// A process is bypassed exactly where one of its ten nearest ancestors has a name in the
/// list, and it and all between are ordinary processes.
pub proof fn law_bypassed_by_ancestor(list: Seq<Seq<char>>, a: Seq<Ancestor>)
    ensures
        bypassed_from(list, a, 0) <==> exists|i: int| #[trigger] bypasses_at(list, a, i),
{
    lemma_bypassed_from(list, a, 0);
    if bypassed_from(list, a, 0) {
        let i = choose|i: int| 0 <= i && #[trigger] bypasses_at(list, a, i);
        assert(bypasses_at(list, a, i));
    }
}

/// The ancestor at a place has a name in a list, is near enough, and neither it nor one
/// between is the first process or none.
pub open spec fn bypasses_at(list: Seq<Seq<char>>, a: Seq<Ancestor>, i: int) -> bool {
    &&& 0 <= i < a.len() && i < 10
    &&& forall|j: int| 0 <= j <= i ==> (#[trigger] a[j]).pid > 1
    &&& a[i].name matches Some(n) && list.contains(n@)
}

proof fn lemma_bypassed_from(list: Seq<Seq<char>>, a: Seq<Ancestor>, i: int)
    requires
        0 <= i,
        forall|j: int| 0 <= j < i && j < a.len() ==> (#[trigger] a[j]).pid > 1,
    ensures
        bypassed_from(list, a, i) <==> exists|k: int| i <= k && #[trigger] bypasses_at(list, a, k),
    decreases a.len() - i,
{
    if i < a.len() && i < 10 && a[i].pid > 1 {
        lemma_bypassed_from(list, a, i + 1);
        if bypassed_from(list, a, i) && !bypassed_from(list, a, i + 1) {
            assert(bypasses_at(list, a, i));
        }
        if exists|k: int| i <= k && #[trigger] bypasses_at(list, a, k) {
            let k = choose|k: int| i <= k && #[trigger] bypasses_at(list, a, k);
            if k > i {
                assert(i + 1 <= k && bypasses_at(list, a, k));
            }
        }
    } else if exists|k: int| i <= k && #[trigger] bypasses_at(list, a, k) {
        let k = choose|k: int| i <= k && #[trigger] bypasses_at(list, a, k);
        assert(a[i].pid > 1);
    }
}

/// The parent is read behind the last bracket, so that brackets in the name of a process
/// change nothing; the word that it is, is the second there.
pub proof fn law_parent_behind_name(head: Seq<char>, tail: Seq<char>)
    requires
        !tail.contains(')'),
    ensures
        parent_told(head + seq![')', ' '] + tail) == (if words(tail).len() < 2 {
            None
        } else {
            unsigned_value(words(tail)[1], 0xFFFF_FFFF)
        }),
{
    let s = head + seq![')', ' '] + tail;
    assert forall|k: int| head.len() < k < s.len() implies s[k] != ')' by {
        if k >= head.len() + 2 {
            assert(tail.contains(tail[k - head.len() - 2]));
        }
    }
    lemma_last_bracket(s, head.len() as int);
    assert(s.skip(head.len() as int + 2) =~= tail);
}

/// A process is named after the file that it runs, where that has a name, and else after
/// what it calls itself, without the white space around it.
pub proof fn law_process_named(exe: Option<Seq<u8>>, comm: Option<Seq<char>>)
    ensures
        exe matches Some(p) ==> (name_of(p) matches Some(n) ==> told_name(exe, comm) == Some(
            lossy(n),
        )),
        exe is None ==> (comm matches Some(c) ==> told_name(exe, comm) == Some(trim(c))),
        exe is None && comm is None ==> told_name(exe, comm) is None,
        forall|pid: u32|
            pid > 0 ==> #[trigger] shown_name(pid, exe, comm) == (match told_name(exe, comm) {
                Some(n) => n,
                None => "(pid "@ + decimal(pid as nat) + ")"@,
            }),
{
}

} // verus!
