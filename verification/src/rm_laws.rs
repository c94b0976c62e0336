//! What holds of the `rm` command: how its command line is read, and what it does with a
//! file.

use crate::job::Kind;
use crate::path::{components, joined, law_components, lemma_plain_components, piece, root, spans};
use crate::rm::{after, choose_real_rm, first_true, for_real, given_from, is_shim, kind_name, long_flag, names_root, passed_code, places_from, quoted, quotes_escaped, recorded_command, removal, short_flag, AfterTrash, FileStep, Flag, Given, Lookup, Misuse, Order, RealRm, Removal, Rm};
use crate::seqs::{find_from, lemma_find_from, lemma_find_from_is, occurs};
use crate::supervise::Trial;
use crate::text::{decimal, lossy, opt_text, views};
use crate::text_laws::law_interspersed;
use vstd::prelude::*;
use vstd::utf8::{decode_utf8, encode_utf8, encode_utf8_decode_utf8, valid_utf8};

verus! {

/// What is done with a file. Nothing that was found is moved without a question where each
/// removal is to be asked for and force is not given, whatever its kind; without that, or
/// with force, nothing is asked. A directory is moved, or asked for, only by a recursive
/// command, or by one for directories where nothing is in it. What is not found, or cannot
/// be looked at, is passed over in silence with force and reported without.
pub proof fn law_file_step(rm: Rm, always: bool, found: Lookup, occupied: bool)
    ensures
        ({
            let s = rm.step_for(always, found, occupied);
            let moved = found matches Lookup::Found(k) && (k != Kind::Dir || rm.recursive || (rm.dir
                && !occupied));
            &&& s == FileStep::Ask <==> moved && always && !rm.force
            &&& s == FileStep::Trash <==> moved && !(always && !rm.force)
            &&& s == FileStep::Skip <==> rm.force && !(found is Found)
            &&& s == FileStep::ReportMissing <==> !rm.force && found == Lookup::NotFound
            &&& s == FileStep::ReportFailed <==> !rm.force && found == Lookup::Failed
            &&& s == FileStep::ReportDirectory <==> found == Lookup::Found(Kind::Dir) && !rm.recursive
                && !rm.dir
            &&& s == FileStep::ReportOccupied <==> found == Lookup::Found(Kind::Dir) && !rm.recursive
                && rm.dir && occupied
        }),
{
}

/// Where each removal is to be asked for and force is not given, no file that was found is
/// moved without a question; and else none is asked for.
pub proof fn law_asked_before_moved(rm: Rm, always: bool, k: Kind, occupied: bool)
    ensures
        always && !rm.force ==> rm.step_for(always, Lookup::Found(k), occupied) != FileStep::Trash,
        !always || rm.force ==> rm.step_for(always, Lookup::Found(k), occupied) != FileStep::Ask,
{
}

/// A command was given a path that is the root.
pub open spec fn root_given(rm: Rm) -> bool {
    exists|k: int| 0 <= k < rm.files@.len() && components(#[trigger] rm.files@[k]@) == seq![seq![47u8]]
}

/// The value of `--interactive` is one of three.
pub open spec fn known_interactive(rm: Rm) -> bool {
    rm.interactive matches Some(w) ==> w@ == "always"@ || w@ == "once"@ || w@ == "never"@
}

/// What a command comes to before any file is looked at: help and version come first, then
/// the root is refused, then a value that is not known, then the real command is run, and
/// only then the files are looked at. Each is asked for where `-i`, or `--interactive` as
/// `always`, was given, and all at once where `-I`, or it as `once`, was.
pub proof fn law_ordered(rm: Rm)
    ensures
        ({
            let o = rm.ordered();
            let ends = rm.help || rm.version;
            let refused = rm.recursive && !rm.no_preserve_root && root_given(rm);
            let goes_on = !ends && !refused && known_interactive(rm);
            &&& o is Help <==> rm.help
            &&& o is Version <==> rm.version && !rm.help
            &&& o is RefuseRoot <==> !ends && refused
            &&& o is BadInteractive <==> !ends && !refused && !known_interactive(rm)
            &&& o is Permanent <==> goes_on && rm.permanent
            &&& o is Nothing <==> goes_on && !rm.permanent && rm.files@.len() == 0 && rm.force
            &&& o is MissingOperand <==> goes_on && !rm.permanent && rm.files@.len() == 0 && !rm.force
            &&& o is Proceed <==> goes_on && !rm.permanent && rm.files@.len() > 0
            &&& o matches Order::Proceed { always, once } ==> {
                &&& always <==> rm.interactive_always || (rm.interactive matches Some(w) && w@
                    == "always"@)
                &&& once <==> rm.interactive_once || (rm.interactive matches Some(w) && w@ == "once"@)
            }
        }),
{
    assert(root() =~= seq![47u8]);
    if rm.removes_root() {
        let k = choose|k: int| 0 <= k < rm.files@.len() && names_root(#[trigger] rm.files@[k]@);
        assert(components(rm.files@[k]@) == seq![seq![47u8]]);
    }
    if root_given(rm) {
        let k = choose|k: int|
            0 <= k < rm.files@.len() && components(#[trigger] rm.files@[k]@) == seq![seq![47u8]];
        assert(names_root(rm.files@[k]@));
    }
}

/// The question before all files is asked for more than three, and never with force.
pub proof fn law_asks_once(rm: Rm, once: bool, r: bool)
    requires
        call_ensures(Rm::asks_once, (&rm, once), r),
    ensures
        r <==> once && !rm.force && rm.files@.len() >= 4,
{
}

/// What is done after the trash was tried: a file is removed for real only where the
/// settings keep it out of the trash or moving it failed, and only a failure is reported
/// then; what the trash refuses, or is too large for it, stays.
pub proof fn law_after_trash(t: Trial)
    ensures
        after(t) == AfterTrash::Done <==> t == Trial::Trashed,
        after(t) == AfterTrash::Remove <==> t == Trial::Excluded,
        after(t) == AfterTrash::Refuse <==> t == Trial::Refused || t == Trial::TooLarge,
        after(t) == AfterTrash::FallBack <==> t == Trial::Failed,
{
}

/// A directory is removed for real only by a recursive command, and as a tree; a link to
/// one is removed as a link.
pub proof fn law_removal(k: Kind, recursive: bool, r: Removal)
    requires
        call_ensures(removal, (k, recursive), r),
    ensures
        r == Removal::Tree <==> k == Kind::Dir && recursive,
        r == Removal::IsDirectory <==> k == Kind::Dir && !recursive,
        r == Removal::File <==> k != Kind::Dir,
{
}

/// The letters of options, and no others.
pub proof fn law_letters(b: u8)
    ensures
        short_flag(b) == Some(Flag::Recursive) <==> b == 114u8 || b == 82u8,
        short_flag(b) == Some(Flag::Force) <==> b == 102u8,
        short_flag(b) == Some(Flag::Always) <==> b == 105u8,
        short_flag(b) == Some(Flag::Once) <==> b == 73u8,
        short_flag(b) == Some(Flag::Dir) <==> b == 100u8,
        short_flag(b) == Some(Flag::Verbose) <==> b == 118u8,
        short_flag(b) is Some ==> b == 114 || b == 82 || b == 102 || b == 105 || b == 73 || b == 100
            || b == 118,
{
}

proof fn lemma_names_differ()
    ensures
        decode_utf8(encode_utf8("recursive"@)) == "recursive"@,
        decode_utf8(encode_utf8("force"@)) == "force"@,
        decode_utf8(encode_utf8("interactive"@)) == "interactive"@,
        decode_utf8(encode_utf8("dir"@)) == "dir"@,
        decode_utf8(encode_utf8("verbose"@)) == "verbose"@,
        decode_utf8(encode_utf8("one-file-system"@)) == "one-file-system"@,
        decode_utf8(encode_utf8("preserve-root"@)) == "preserve-root"@,
        decode_utf8(encode_utf8("no-preserve-root"@)) == "no-preserve-root"@,
        decode_utf8(encode_utf8("permanent"@)) == "permanent"@,
        decode_utf8(encode_utf8("no-trash"@)) == "no-trash"@,
        decode_utf8(encode_utf8("version"@)) == "version"@,
        decode_utf8(encode_utf8("help"@)) == "help"@,
        "recursive"@.len() == 9,
        "force"@.len() == 5,
        "interactive"@.len() == 11,
        "dir"@.len() == 3,
        "verbose"@.len() == 7,
        "one-file-system"@.len() == 15,
        "preserve-root"@.len() == 13,
        "no-preserve-root"@.len() == 16,
        "permanent"@.len() == 9,
        "no-trash"@.len() == 8,
        "version"@.len() == 7,
        "help"@.len() == 4,
        "recursive"@ != "permanent"@,
        "verbose"@ != "version"@,
{
    encode_utf8_decode_utf8("recursive"@);
    encode_utf8_decode_utf8("force"@);
    encode_utf8_decode_utf8("interactive"@);
    encode_utf8_decode_utf8("dir"@);
    encode_utf8_decode_utf8("verbose"@);
    encode_utf8_decode_utf8("one-file-system"@);
    encode_utf8_decode_utf8("preserve-root"@);
    encode_utf8_decode_utf8("no-preserve-root"@);
    encode_utf8_decode_utf8("permanent"@);
    encode_utf8_decode_utf8("no-trash"@);
    encode_utf8_decode_utf8("version"@);
    encode_utf8_decode_utf8("help"@);
    reveal_strlit("recursive");
    reveal_strlit("force");
    reveal_strlit("interactive");
    reveal_strlit("dir");
    reveal_strlit("verbose");
    reveal_strlit("one-file-system");
    reveal_strlit("preserve-root");
    reveal_strlit("no-preserve-root");
    reveal_strlit("permanent");
    reveal_strlit("no-trash");
    reveal_strlit("version");
    reveal_strlit("help");
    assert("recursive"@[0] != "permanent"@[0]);
    assert("verbose"@[3] != "version"@[3]);
}

/// The names of options, and no others.
pub proof fn law_names(n: Seq<u8>)
    ensures
        long_flag(n) == Some(Flag::Recursive) <==> n == encode_utf8("recursive"@),
        long_flag(n) == Some(Flag::Force) <==> n == encode_utf8("force"@),
        long_flag(n) == Some(Flag::Interactive) <==> n == encode_utf8("interactive"@),
        long_flag(n) == Some(Flag::Dir) <==> n == encode_utf8("dir"@),
        long_flag(n) == Some(Flag::Verbose) <==> n == encode_utf8("verbose"@),
        long_flag(n) == Some(Flag::OneFileSystem) <==> n == encode_utf8("one-file-system"@),
        long_flag(n) == Some(Flag::PreserveRoot) <==> n == encode_utf8("preserve-root"@),
        long_flag(n) == Some(Flag::NoPreserveRoot) <==> n == encode_utf8("no-preserve-root"@),
        long_flag(n) == Some(Flag::Permanent) <==> n == encode_utf8("permanent"@) || n == encode_utf8(
            "no-trash"@,
        ),
        long_flag(n) == Some(Flag::Version) <==> n == encode_utf8("version"@),
        long_flag(n) == Some(Flag::Help) <==> n == encode_utf8("help"@),
        long_flag(n) != Some(Flag::Always) && long_flag(n) != Some(Flag::Once),
{
    lemma_names_differ();
}

/// The command holds what its command line says, each option in its own field.
pub proof fn law_says(rm: Rm, g: Given)
    requires
        rm.says(g),
    ensures
        rm.recursive <==> g.flags.contains(Flag::Recursive),
        rm.force <==> g.flags.contains(Flag::Force),
        rm.interactive_always <==> g.flags.contains(Flag::Always),
        rm.interactive_once <==> g.flags.contains(Flag::Once),
        rm.dir <==> g.flags.contains(Flag::Dir),
        rm.verbose <==> g.flags.contains(Flag::Verbose),
        rm.one_file_system <==> g.flags.contains(Flag::OneFileSystem),
        rm.no_preserve_root <==> g.flags.contains(Flag::NoPreserveRoot),
        rm.permanent <==> g.flags.contains(Flag::Permanent),
        rm.version <==> g.flags.contains(Flag::Version),
        rm.help <==> g.flags.contains(Flag::Help),
        opt_text(rm.interactive) == g.interactive,
        opt_text(rm.preserve_root) == g.preserve,
        rm.files@.len() == g.files.len(),
        forall|i: int| 0 <= i < g.files.len() ==> (#[trigger] rm.files@[i])@ == g.files[i],
{
    assert forall|i: int| 0 <= i < g.files.len() implies (#[trigger] rm.files@[i])@ == g.files[i] by {
        assert(crate::text::views(rm.files@)[i] == rm.files@[i]@);
    }
}

/// An argument of one letter sets the option of the letter and nothing else, once; a letter
/// that is none, or was given before, is an error. What follows is read after it.
pub proof fn law_one_letter(g: Given, args: Seq<Seq<u8>>, i: int, b: u8)
    requires
        0 <= i < args.len(),
        args[i] == seq![45u8, b],
        b != 45,
    ensures
        given_from(g, args, i) == (match short_flag(b) {
            None => Err(Misuse::Unknown),
            Some(f) => if g.flags.contains(f) {
                Err(Misuse::Repeated)
            } else {
                given_from(Given { flags: g.flags.insert(f), ..g }, args, i + 1)
            },
        }),
{
    reveal_with_fuel(crate::rm::given_letters, 3);
    assert(args[i] != seq![45u8, 45u8]) by {
        assert(args[i][1] == b);
        assert(seq![45u8, 45u8][1] == 45);
    }
}

/// Letters in one argument say what each says in an argument of its own.
pub proof fn law_letters_apart(g: Given, args: Seq<Seq<u8>>, i: int, x: u8, y: u8)
    requires
        0 <= i < args.len(),
        args[i] == seq![45u8, x, y],
        x != 45,
        y != 45,
    ensures
        ({
            let apart = args.take(i) + seq![seq![45u8, x], seq![45u8, y]] + args.skip(i + 1);
            given_from(g, args, i) == given_from(g, apart, i)
        }),
{
    let apart = args.take(i) + seq![seq![45u8, x], seq![45u8, y]] + args.skip(i + 1);
    reveal_with_fuel(crate::rm::given_letters, 4);
    assert(args[i].len() == 3);
    assert(apart[i] == seq![45u8, x]);
    assert(apart[i + 1] == seq![45u8, y]);
    law_one_letter(g, apart, i, x);
    match short_flag(x) {
        Some(f) => {
            if !g.flags.contains(f) {
                let h = Given { flags: g.flags.insert(f), ..g };
                law_one_letter(h, apart, i + 1, y);
                match short_flag(y) {
                    Some(e) => {
                        if !h.flags.contains(e) {
                            let k = Given { flags: h.flags.insert(e), ..h };
                            assert(apart.skip(i + 2) =~= args.skip(i + 1));
                            lemma_given_shift(k, args, i + 1, apart, i + 2);
                        }
                    },
                    None => {},
                }
            }
        },
        None => {},
    }
}

/// What arguments say depends on nothing before them.
proof fn lemma_given_shift(g: Given, a: Seq<Seq<u8>>, i: int, b: Seq<Seq<u8>>, j: int)
    requires
        0 <= i <= a.len(),
        0 <= j <= b.len(),
        a.skip(i) == b.skip(j),
    ensures
        given_from(g, a, i) == given_from(g, b, j),
    decreases a.len() - i,
{
    assert(a.skip(i).len() == a.len() - i && b.skip(j).len() == b.len() - j);
    if i < a.len() {
        assert(a.skip(i)[0] == a[i]);
        assert(b.skip(j)[0] == b[j]);
        assert(a.skip(i).skip(1) =~= a.skip(i + 1));
        assert(b.skip(j).skip(1) =~= b.skip(j + 1));
        lemma_files_shift(g, a, i, b, j);
        lemma_files_shift(g, a, i + 1, b, j + 1);
        let x = a[i];
        if x.len() > 1 && x[0] == 45 {
            let h = if x[1] == 45 {
                crate::rm::given_name(g, x)
            } else {
                crate::rm::given_letters(g, x, 1)
            };
            if let Ok(h) = h {
                lemma_given_shift(h, a, i + 1, b, j + 1);
            }
        }
    }
}

proof fn lemma_files_shift(g: Given, a: Seq<Seq<u8>>, i: int, b: Seq<Seq<u8>>, j: int)
    requires
        0 <= i <= a.len(),
        0 <= j <= b.len(),
        a.skip(i) == b.skip(j),
    ensures
        crate::rm::given_files(g, a, i) == crate::rm::given_files(g, b, j),
{
    let s = a.skip(i);
    assert(forall|k: int| 0 <= k < s.len() ==> s[k] == a[i + k] && s[k] == b[j + k]);
    if forall|k: int| i <= k < a.len() ==> #[trigger] a[k].len() > 0 {
        assert forall|k: int| j <= k < b.len() implies #[trigger] b[k].len() > 0 by {
            assert(s[k - j] == a[i + k - j]);
            assert(a[i + k - j].len() > 0);
        }
    }
    if forall|k: int| j <= k < b.len() ==> #[trigger] b[k].len() > 0 {
        assert forall|k: int| i <= k < a.len() implies #[trigger] a[k].len() > 0 by {
            assert(s[k - i] == b[j + k - i]);
            assert(b[j + k - i].len() > 0);
        }
    }
}

/// Behind `--` everything is a file, and what is no option begins the files; a file without
/// a name is an error.
pub proof fn law_files(g: Given, args: Seq<Seq<u8>>, i: int)
    requires
        0 <= i < args.len(),
    ensures
        args[i] == seq![45u8, 45u8] && (forall|k: int| i < k < args.len() ==> #[trigger] args[k].len()
            > 0) ==> given_from(g, args, i) == Ok::<Given, Misuse>(
            Given { files: args.skip(i + 1), ..g },
        ),
        args[i].len() == 0 ==> given_from(g, args, i) == Err::<Given, Misuse>(Misuse::EmptyFile),
        given_from(g, args, args.len() as int) == Ok::<Given, Misuse>(g),
{
    if args[i].len() == 0 {
        assert(args[i] != seq![45u8, 45u8]);
        assert(!(forall|k: int| i <= k < args.len() ==> #[trigger] args[k].len() > 0)) by {
            if forall|k: int| i <= k < args.len() ==> #[trigger] args[k].len() > 0 {
                assert(args[i].len() > 0);
            }
        }
    }
}

/// A named option without a value sets the option, once; `--interactive` alone means
/// `always`, and no other option gets a value by its name.
pub proof fn law_one_name(g: Given, args: Seq<Seq<u8>>, i: int, name: Seq<u8>)
    requires
        0 <= i < args.len(),
        name.len() > 0,
        !name.contains(61u8),
        args[i] == seq![45u8, 45u8] + name,
    ensures
        given_from(g, args, i) == (match long_flag(name) {
            None => Err(Misuse::Unknown),
            Some(f) => if g.flags.contains(f) {
                Err(Misuse::Repeated)
            } else {
                given_from(
                    Given {
                        flags: g.flags.insert(f),
                        interactive: if f == Flag::Interactive {
                            Some("always"@)
                        } else {
                            g.interactive
                        },
                        ..g
                    },
                    args,
                    i + 1,
                )
            },
        }),
{
    let a = args[i];
    assert forall|k: int| 2 <= k < a.len() implies a[k] != 61u8 by {
        assert(name.contains(name[k - 2]));
    }
    lemma_find_from_is(a, 61u8, 2, a.len() as int);
    assert(a.subrange(2, a.len() as int) =~= name);
    assert(a.len() > 2);
    assert(a[0] == 45 && a[1] == 45);
}

/// A named option with a value: only `--interactive` and `--preserve-root` take one, which
/// has to be text, and each keeps its own.
pub proof fn law_one_value(g: Given, args: Seq<Seq<u8>>, i: int, name: Seq<u8>, value: Seq<u8>)
    requires
        0 <= i < args.len(),
        !name.contains(61u8),
        args[i] == seq![45u8, 45u8] + name + seq![61u8] + value,
    ensures
        given_from(g, args, i) == (match long_flag(name) {
            None => Err(Misuse::Unknown),
            Some(f) => if f != Flag::Interactive && f != Flag::PreserveRoot {
                Err(Misuse::NeedlessValue)
            } else if g.flags.contains(f) {
                Err(Misuse::Repeated)
            } else if !valid_utf8(value) {
                Err(Misuse::NotText)
            } else if f == Flag::Interactive {
                given_from(
                    Given { flags: g.flags.insert(f), interactive: Some(decode_utf8(value)), ..g },
                    args,
                    i + 1,
                )
            } else {
                given_from(
                    Given { flags: g.flags.insert(f), preserve: Some(decode_utf8(value)), ..g },
                    args,
                    i + 1,
                )
            },
        }),
{
    let a = args[i];
    let e = 2 + name.len() as int;
    assert forall|k: int| 2 <= k < e implies a[k] != 61u8 by {
        assert(name.contains(name[k - 2]));
    }
    assert(a[e] == 61u8);
    lemma_find_from_is(a, 61u8, 2, e);
    assert(a.subrange(2, e) =~= name);
    assert(a.skip(e + 1) =~= value);
    assert(a[0] == 45 && a[1] == 45);
    assert(a != seq![45u8, 45u8]);
}

/// The real command gets every argument but those that only this one knows, in their
/// order.
pub proof fn law_for_real(args: Seq<Seq<u8>>)
    ensures
        for_real(args) == args.filter(
            |a: Seq<u8>| a != encode_utf8("--permanent"@) && a != encode_utf8("--no-trash"@),
        ),
    decreases args.len(),
{
    reveal(Seq::filter);
    if args.len() > 0 {
        law_for_real(args.drop_last());
    }
}

/// An argument is recorded as it is where it has neither a blank nor a quote nor a
/// backslash, and else between quotes.
pub proof fn law_quoted(s: Seq<char>)
    ensures
        !s.contains(' ') && !s.contains('\'') && !s.contains('"') && !s.contains('\\') ==> quoted(s)
            == s,
        s.contains(' ') || s.contains('\'') || s.contains('"') || s.contains('\\') ==> quoted(s) == "'"@
            + quotes_escaped(s) + "'"@,
{
}

/// Within quotes a quote is written as one that closes them, one behind a backslash, and
/// one that opens them again; every other character stands for itself, in its place.
pub proof fn law_quotes_escaped(a: Seq<char>, c: char)
    ensures
        quotes_escaped(seq![]) == Seq::<char>::empty(),
        c != '\'' ==> quotes_escaped(a.push(c)) == quotes_escaped(a).push(c),
        quotes_escaped(a.push('\'')) == quotes_escaped(a) + seq!['\'', '\\', '\'', '\''],
{
    reveal_strlit("'\\''");
    assert(a.push(c).drop_last() =~= a);
    assert(a.push('\'').drop_last() =~= a);
    assert("'\\''"@ =~= seq!['\'', '\\', '\'', '\'']);
}

/// The words by which kinds are asked for.
pub proof fn law_kind_name(k: Kind)
    ensures
        kind_name(Kind::Symlink) == "symbolic link"@,
        kind_name(Kind::Dir) == "directory"@,
        k != Kind::Symlink && k != Kind::Dir ==> kind_name(k) == "regular file"@,
{
}

/// The questions name what is removed, and how many.
pub proof fn law_questions(k: Kind, p: &[u8], n: usize, one: String, all: String)
    requires
        call_ensures(crate::rm::file_question, (k, p), one),
        call_ensures(crate::rm::all_question, (n,), all),
    ensures
        one@ == "rm: remove "@ + kind_name(k) + " '"@ + lossy(p@) + "'? [y/N] "@,
        all@ == "rm: remove "@ + decimal(n as nat) + " arguments? [y/N] "@,
{
}

/// The code of the real command is passed on, and where it has none the failure.
pub proof fn law_passed_code(code: u8, r: u8, none: u8)
    requires
        call_ensures(passed_code, (Some(code as i32),), r),
        call_ensures(passed_code, (None,), none),
    ensures
        r == code,
        none == 1,
{
}

/// Where the real command is looked for: in each directory of the list that is not of this
/// command, in their order.
pub proof fn law_search_places(d: Seq<u8>, rest: Seq<u8>)
    requires
        !d.contains(58u8),
    ensures
        ({
            let here = if occurs(d, encode_utf8("trashd"@)) {
                Seq::<Seq<u8>>::empty()
            } else {
                seq![joined(d, encode_utf8("rm"@))]
            };
            &&& places_from(d, 0) == here
            &&& places_from(d + seq![58u8] + rest, 0) == here + places_from(rest, 0)
        }),
{
    assert forall|k: int| 0 <= k < d.len() implies d[k] != 58u8 by {
        assert(d.contains(d[k]));
    }
    lemma_find_from_is(d, 58u8, 0, d.len() as int);
    assert(d.subrange(0, d.len() as int) =~= d);
    let head = d + seq![58u8];
    let p = head + rest;
    assert forall|k: int| 0 <= k < d.len() implies p[k] != 58u8 by {
        assert(p[k] == d[k]);
    }
    assert(p[d.len() as int] == 58u8);
    lemma_find_from_is(p, 58u8, 0, d.len() as int);
    assert(p.subrange(0, d.len() as int) =~= d);
    lemma_places_shift(head, rest, 0);
    let here = if occurs(d, encode_utf8("trashd"@)) {
        Seq::<Seq<u8>>::empty()
    } else {
        seq![joined(d, encode_utf8("rm"@))]
    };
    assert(places_from(d, 0) =~= here);
    assert(places_from(p, 0) =~= here + places_from(rest, 0));
}

proof fn lemma_places_shift(x: Seq<u8>, y: Seq<u8>, j: int)
    requires
        0 <= j <= y.len(),
    ensures
        places_from(x + y, x.len() + j) == places_from(y, j),
    decreases y.len() - j,
{
    let p = x + y;
    let i = x.len() + j;
    lemma_find_from(y, 58u8, j);
    let e = find_from(y, 58u8, j);
    assert forall|k: int| i <= k < x.len() + e implies p[k] != 58u8 by {
        assert(p[k] == y[k - x.len()]);
    }
    if e < y.len() {
        assert(p[x.len() + e] == y[e]);
    }
    lemma_find_from_is(p, 58u8, i, x.len() + e);
    assert(p.subrange(i, x.len() + e) =~= y.subrange(j, e));
    if e < y.len() {
        lemma_places_shift(x, y, e + 1);
    }
}

/// The real command is the one put aside, unless that is this one; else the one at the first
/// place that can be used; else one of two usual places.
pub proof fn law_real_rm(stash: bool, shim: bool, usable: Vec<bool>, usr: bool, bin: bool, r: RealRm)
    requires
        call_ensures(choose_real_rm, (stash, shim, &usable, usr, bin), r),
        usable@.len() <= usize::MAX,
    ensures
        r == RealRm::Stash <==> stash && !shim,
        r is Place <==> !(stash && !shim) && usable@.contains(true),
        r matches RealRm::Place(i) ==> i < usable@.len() && usable@[i as int] && forall|k: int|
            0 <= k < i ==> !(#[trigger] usable@[k]),
        r == RealRm::Bin <==> !(stash && !shim) && !usable@.contains(true) && bin && !usr,
{
    lemma_first_true(usable@, 0);
    if usable@.contains(true) {
        let k = choose|k: int| 0 <= k < usable@.len() && usable@[k] == true;
        assert(first_true(usable@, 0) <= k);
    }
}

proof fn lemma_first_true(v: Seq<bool>, i: int)
    requires
        0 <= i <= v.len(),
    ensures
        i <= first_true(v, i) <= v.len(),
        first_true(v, i) < v.len() ==> v[first_true(v, i)],
        forall|k: int| i <= k < first_true(v, i) ==> !(#[trigger] v[k]),
    decreases v.len() - i,
{
    if i < v.len() && !v[i] {
        lemma_first_true(v, i + 1);
    }
}

/// The first argument is the name of the command and is not read; what is read of the rest is
/// what the command is told, beginning with nothing.
pub proof fn law_command_line(argv: &Vec<Vec<u8>>, r: Result<Rm, Misuse>)
    requires
        call_ensures(Rm::try_parse_from, (argv,), r),
    ensures
        ({
            let nothing = Given {
                flags: Set::<Flag>::empty(),
                interactive: None,
                preserve: None,
                files: seq![],
            };
            match given_from(nothing, views(argv@), 1) {
                Ok(g) => r matches Ok(rm) && rm.says(g),
                Err(m) => r == Err::<Rm, Misuse>(m),
            }
        }),
        argv@.len() <= 1 ==> (r matches Ok(rm) && !rm.recursive && !rm.force && !rm.dir && !rm.permanent
            && !rm.no_preserve_root && rm.interactive is None && rm.files@.len() == 0),
{
    assert(views(argv@).len() == argv@.len());
    if argv@.len() <= 1 {
        let nothing = Given {
            flags: Set::<Flag>::empty(),
            interactive: None,
            preserve: None,
            files: seq![],
        };
        assert(given_from(nothing, views(argv@), 1) == Ok::<Given, Misuse>(nothing));
        if let Ok(rm) = r {
            law_says(rm, nothing);
        }
    }
}

/// A file among the arguments, and everything behind it, is a file; an empty name among them
/// is none, and the whole command is refused.
pub proof fn law_operands(g: Given, args: Seq<Seq<u8>>, i: int)
    requires
        0 <= i < args.len(),
        args[i].len() > 0,
        args[i][0] != 45 || args[i].len() == 1,
    ensures
        (forall|k: int| i <= k < args.len() ==> #[trigger] args[k].len() > 0) ==> given_from(
            g,
            args,
            i,
        ) == Ok::<Given, Misuse>(Given { files: args.skip(i), ..g }),
        (exists|k: int| i <= k < args.len() && #[trigger] args[k].len() == 0) ==> given_from(
            g,
            args,
            i,
        ) == Err::<Given, Misuse>(Misuse::EmptyFile),
{
    assert(args[i] != seq![45u8, 45u8]);
}

/// The root is named by separators alone, with nothing between them but `.`.
pub proof fn law_names_root(p: Seq<u8>)
    ensures
        names_root(p) <==> p.len() > 0 && p[0] == 47 && forall|i: int, j: int|
            #[trigger] piece(p, i, j) ==> j == i + 1 && p[i] == 46,
{
    let c = components(p);
    law_components(p);
    assert(root() =~= seq![47u8]);
    if names_root(p) {
        assert(c[0] == seq![47u8]);
        assert forall|i: int, j: int| #[trigger] piece(p, i, j) implies j == i + 1 && p[i] == 46 by {
            if !(j == i + 1 && p[i] == 46) {
                assert(c.contains(p.subrange(i, j)));
                let k = choose|k: int| 0 <= k < c.len() && c[k] == p.subrange(i, j);
                assert(p.subrange(i, j) == seq![47u8]);
                assert(p.subrange(i, j)[0] == p[i]);
            }
        }
    } else if p.len() > 0 && p[0] == 47 && forall|i: int, j: int|
        #[trigger] piece(p, i, j) ==> j == i + 1 && p[i] == 46 {
        if c.len() > 1 {
            let s = spans(p)[1];
            assert(piece(p, s.0, s.1));
            lemma_plain_components(p, 1);
            assert(p.subrange(s.0, s.1) =~= seq![46u8]);
        }
        assert(c.len() == 1);
        assert(c =~= seq![root()]);
    }
}

/// The command is recorded with its name, and with each argument in quotes where it needs
/// them, one space before each.
pub proof fn law_recorded_command(args: Seq<Seq<u8>>, a: Seq<u8>)
    ensures
        recorded_command(seq![a]) == "rm "@ + quoted(lossy(a)),
        args.len() > 0 ==> recorded_command(args.push(a)) == recorded_command(args) + " "@ + quoted(
            lossy(a),
        ),
{
    let q = |x: Seq<u8>| quoted(lossy(x));
    assert(seq![a].map_values(q) =~= seq![quoted(lossy(a))]);
    law_interspersed(args.map_values(q), quoted(lossy(a)), " "@);
    assert(args.push(a).map_values(q) =~= args.map_values(q).push(quoted(lossy(a))));
    if args.len() > 0 {
        assert(recorded_command(args.push(a)) =~= recorded_command(args) + " "@ + quoted(lossy(a)));
    }
}

/// A command is taken for this one where it says so, and where it says nothing.
pub proof fn law_shim(told: Option<&str>, r: bool)
    requires
        call_ensures(is_shim, (told,), r),
    ensures
        told is None ==> r,
        told matches Some(t) ==> (r <==> occurs(t@, "trashd"@)),
{
}

} // verus!
