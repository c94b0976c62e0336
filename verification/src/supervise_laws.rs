//! What follows for callers from how trapped calls are read and whose they are.

use crate::config::Config;
use crate::job::begins_with_one;
use crate::path::{joined, root};
use crate::process::{law_bypassed_by_ancestor, bypasses_at, Ancestor};
use crate::supervise::{asked, caller_bypassed, end_stripped, has_entry, has_target, law_environ_bypasses, law_target_is_path, law_target_named, resolve_syscall_path, split_target, target_name, target_prefix, Asked, Target};
use crate::text::{lossy, texts};
use vstd::prelude::*;

verus! {

/// A trapped path that is from the root is taken as it is, and any other is seen from the
/// directory of the call.
pub proof fn law_resolved_path(p: &[u8], dir: &[u8], r: Vec<u8>)
    requires
        call_ensures(resolve_syscall_path, (p, dir), r),
    ensures
        p@.len() > 0 && p@[0] == 47 ==> r@ == p@,
        p@.len() == 0 || p@[0] != 47 ==> r@ == joined(dir@, p@),
{
}

/// Whose calls are not taken over: who says so in the environment, whose executable lies
/// where the settings say, who has one of the names, and who runs below one that has.
/// Nobody else.
pub proof fn law_caller_bypassed(
    config: &Config,
    env: &[u8],
    exe: Option<&[u8]>,
    name: Option<&str>,
    ancestors: &Vec<Ancestor>,
    r: bool,
)
    requires
        call_ensures(caller_bypassed, (config, env, exe, name, ancestors), r),
    ensures
        has_entry(env@, seq![84u8, 82, 65, 83, 72, 95, 66, 89, 80, 65, 83, 83, 61, 49]) ==> r,
        (exe matches Some(e) && begins_with_one(texts(config.bypass_paths@), lossy(e@))) ==> r,
        (name matches Some(n) && texts(config.bypass_processes@).contains(n@)) ==> r,
        (exists|i: int|
            #[trigger] bypasses_at(texts(config.bypass_processes@), ancestors@, i)) ==> r,
        r ==> has_entry(env@, seq![84u8, 82, 65, 83, 72, 95, 66, 89, 80, 65, 83, 83, 61, 49]) || (
        exe matches Some(e) && begins_with_one(texts(config.bypass_paths@), lossy(e@))) || (
        name matches Some(n) && texts(config.bypass_processes@).contains(n@)) || exists|i: int|
            #[trigger] bypasses_at(texts(config.bypass_processes@), ancestors@, i),
{
    law_environ_bypasses(env@);
    law_bypassed_by_ancestor(texts(config.bypass_processes@), ancestors@);
}

/// What stands before the last name of a trapped path: the directories that lead to it,
/// from the root or from where the call is; and the path can mean only a directory where a
/// separator stands behind the name.
pub proof fn law_target_split(prefix: Seq<u8>, name: Seq<u8>, seps: nat)
    requires
        name.len() > 0,
        !name.contains(47u8),
        prefix.len() == 0 || prefix.last() == 47u8,
        name != seq![46u8],
        name != seq![46u8, 46u8],
    ensures
        ({
            let p = prefix + name + Seq::new(seps, |i: int| 47u8);
            &&& prefix.len() > 0 && prefix[0] == 47 ==> target_prefix(p) == prefix.skip(1)
            &&& prefix.len() == 0 || prefix[0] != 47 ==> target_prefix(p) == prefix
            &&& seps > 0 <==> p.last() == 47
        }),
{
    let p = prefix + name + Seq::new(seps, |i: int| 47u8);
    let t = target_prefix(p);
    law_target_named(prefix, name, seps);
    law_target_is_path(p);
    assert(name.last() != 47) by {
        assert(name.contains(name[name.len() - 1]));
    }
    lemma_stripped(prefix + name, seps);
    let s = end_stripped(p);
    assert(s == prefix + name);
    assert(name[0] != 47) by {
        assert(name.contains(name[0]));
    }
    if prefix.len() > 0 && prefix[0] == 47 {
        assert(p[0] == 47);
        assert(prefix + name =~= prefix.take(1) + prefix.skip(1) + name);
        assert((root() + t) + name == prefix + name);
        assert((root() + t).len() == prefix.len());
        assert((root() + t) =~= prefix) by {
            assert(((root() + t) + name).take(prefix.len() as int) =~= root() + t);
            assert((prefix + name).take(prefix.len() as int) =~= prefix);
        }
        assert(prefix.skip(1) =~= t) by {
            assert((root() + t).skip(1) =~= t);
        }
    } else {
        assert(p[0] != 47) by {
            if prefix.len() > 0 {
                assert(p[0] == prefix[0]);
            } else {
                assert(p[0] == name[0]);
            }
        }
        let none: Seq<u8> = seq![];
        assert((none + t) + name == prefix + name);
        assert(none + t =~= t);
        assert((t + name).take(t.len() as int) =~= t);
        assert((prefix + name).take(prefix.len() as int) =~= prefix);
    }
}

proof fn lemma_stripped(body: Seq<u8>, seps: nat)
    requires
        body.len() > 0,
        body.last() != 47,
    ensures
        end_stripped(body + Seq::new(seps, |i: int| 47u8)) == body,
    decreases seps,
{
    let p = body + Seq::new(seps, |i: int| 47u8);
    if seps == 0 {
        assert(p =~= body);
    } else {
        lemma_stripped(body, (seps - 1) as nat);
        assert(p.drop_last() =~= body + Seq::new((seps - 1) as nat, |i: int| 47u8));
    }
}

/// What a call asks for follows its path: whether there is anything to move, whether there
/// are directories to walk to it, and whether it can only be a directory.
pub proof fn law_asked(p: &[u8], remove_dir: bool, t: Option<Target>, r: Asked)
    requires
        call_ensures(split_target, (p,), t),
        call_ensures(asked, (&t, remove_dir), r),
    ensures
        r.remove_dir == remove_dir,
        r.named <==> has_target(p@),
        r.trailing <==> has_target(p@) && p@.last() == 47,
        r.walk <==> has_target(p@) && target_prefix(p@).len() > 0 && target_prefix(p@) != seq![47u8],
        t matches Some(x) ==> x.name@ == target_name(p@) && x.prefix@ == target_prefix(p@),
{
    assert(root() =~= seq![47u8]);
}

} // verus!
