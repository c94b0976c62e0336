//! The `rm` command: its command line, and what it does with each file.

use crate::job::Kind;
use crate::path::{components, components_of, join, joined, root};
use crate::seqs;
use crate::seqs::{find_from, lemma_find_from, lemma_push_contains, position, to_vec};
use crate::supervise::Trial;
use crate::text::{
    chars_of, interspersed, join_texts, lossy, opt_text, push_decimal, push_text, same_text, text_lossy,
    text_of_utf8, texts, views,
};
use vstd::prelude::*;
use vstd::slice::slice_subrange;
use vstd::utf8::{decode_utf8, encode_utf8, valid_utf8};

verus! {

/// An option of the command.
#[derive(Debug, Clone, Copy, PartialEq, Eq, Structural)]
pub enum Flag {
    Recursive,
    Force,
    /// `-i`
    Always,
    /// `-I`
    Once,
    /// `--interactive`
    Interactive,
    Dir,
    Verbose,
    OneFileSystem,
    PreserveRoot,
    NoPreserveRoot,
    Permanent,
    Version,
    Help,
}

/// Why a command line is not understood.
#[derive(Debug, Clone, Copy, PartialEq, Eq, Structural)]
pub enum Misuse {
    /// There is no such option.
    Unknown,
    /// An option was given twice.
    Repeated,
    /// A value was given to an option that takes none.
    NeedlessValue,
    /// The value of an option is no text.
    NotText,
    /// The name of a file is empty.
    EmptyFile,
}

/// What a command line says.
#[verifier::ext_equal]
pub struct Given {
    pub flags: Set<Flag>,
    /// When to ask, where `--interactive` was given.
    pub interactive: Option<Seq<char>>,
    /// The value of `--preserve-root`, where it has one.
    pub preserve: Option<Seq<char>>,
    pub files: Seq<Seq<u8>>,
}

pub open spec fn nothing_given() -> Given {
    Given { flags: Set::empty(), interactive: None, preserve: None, files: seq![] }
}

/// The option of a letter.
pub open spec fn short_flag(b: u8) -> Option<Flag> {
    if b == 114 || b == 82 {
        Some(Flag::Recursive)
    } else if b == 102 {
        Some(Flag::Force)
    } else if b == 105 {
        Some(Flag::Always)
    } else if b == 73 {
        Some(Flag::Once)
    } else if b == 100 {
        Some(Flag::Dir)
    } else if b == 118 {
        Some(Flag::Verbose)
    } else {
        None
    }
}

/// The option of a name.
pub open spec fn long_flag(n: Seq<u8>) -> Option<Flag> {
    if n == encode_utf8("recursive"@) {
        Some(Flag::Recursive)
    } else if n == encode_utf8("force"@) {
        Some(Flag::Force)
    } else if n == encode_utf8("interactive"@) {
        Some(Flag::Interactive)
    } else if n == encode_utf8("dir"@) {
        Some(Flag::Dir)
    } else if n == encode_utf8("verbose"@) {
        Some(Flag::Verbose)
    } else if n == encode_utf8("one-file-system"@) {
        Some(Flag::OneFileSystem)
    } else if n == encode_utf8("preserve-root"@) {
        Some(Flag::PreserveRoot)
    } else if n == encode_utf8("no-preserve-root"@) {
        Some(Flag::NoPreserveRoot)
    } else if n == encode_utf8("permanent"@) || n == encode_utf8("no-trash"@) {
        Some(Flag::Permanent)
    } else if n == encode_utf8("version"@) {
        Some(Flag::Version)
    } else if n == encode_utf8("help"@) {
        Some(Flag::Help)
    } else {
        None
    }
}

pub open spec fn with_flag(g: Given, f: Flag) -> Given {
    Given { flags: g.flags.insert(f), ..g }
}

/// What is said with an option of a letter.
pub open spec fn given_flag(g: Given, f: Flag) -> Result<Given, Misuse> {
    if g.flags.contains(f) {
        Err(Misuse::Repeated)
    } else {
        Ok(with_flag(g, f))
    }
}

/// What is said with the letters of an argument from one on.
pub open spec fn given_letters(g: Given, a: Seq<u8>, i: int) -> Result<Given, Misuse>
    decreases a.len() - i,
{
    if i < 0 || i >= a.len() {
        Ok(g)
    } else {
        match short_flag(a[i]) {
            None => Err(Misuse::Unknown),
            Some(f) => match given_flag(g, f) {
                Err(m) => Err(m),
                Ok(h) => given_letters(h, a, i + 1),
            },
        }
    }
}

/// What is said with a named option. Only two of them take a value, behind `=`, and can
/// do without one.
pub open spec fn given_name(g: Given, a: Seq<u8>) -> Result<Given, Misuse> {
    let e = find_from(a, 61u8, 2);
    let valued = e < a.len();
    let value = a.skip(e + 1);
    match long_flag(a.subrange(2, e)) {
        None => Err(Misuse::Unknown),
        Some(f) => if valued && f != Flag::Interactive && f != Flag::PreserveRoot {
            Err(Misuse::NeedlessValue)
        } else if g.flags.contains(f) {
            Err(Misuse::Repeated)
        } else if valued && !valid_utf8(value) {
            Err(Misuse::NotText)
        } else if f == Flag::Interactive {
            Ok(
                Given {
                    interactive: Some(
                        if valued {
                            decode_utf8(value)
                        } else {
                            "always"@
                        },
                    ),
                    ..with_flag(g, f)
                },
            )
        } else if f == Flag::PreserveRoot && valued {
            Ok(Given { preserve: Some(decode_utf8(value)), ..with_flag(g, f) })
        } else {
            Ok(with_flag(g, f))
        },
    }
}

/// What is said with files: all arguments from one on.
pub open spec fn given_files(g: Given, args: Seq<Seq<u8>>, i: int) -> Result<Given, Misuse> {
    if forall|k: int| i <= k < args.len() ==> #[trigger] args[k].len() > 0 {
        Ok(Given { files: args.skip(i), ..g })
    } else {
        Err(Misuse::EmptyFile)
    }
}

/// What the arguments from one on say: options, up to `--` or the first file; all that
/// follows is a file, whatever it looks like.
pub open spec fn given_from(g: Given, args: Seq<Seq<u8>>, i: int) -> Result<Given, Misuse>
    decreases args.len() - i,
{
    if i < 0 || i >= args.len() {
        Ok(g)
    } else {
        let a = args[i];
        if a == seq![45u8, 45u8] {
            given_files(g, args, i + 1)
        } else if a.len() > 1 && a[0] == 45 {
            let h = if a[1] == 45 {
                given_name(g, a)
            } else {
                given_letters(g, a, 1)
            };
            match h {
                Err(m) => Err(m),
                Ok(h) => given_from(h, args, i + 1),
            }
        } else {
            given_files(g, args, i)
        }
    }
}

/// What a whole command line says; its first part is the name of the command.
pub open spec fn command_line(argv: Seq<Seq<u8>>) -> Result<Given, Misuse> {
    given_from(nothing_given(), argv, 1)
}

/// The command, as it was given.
#[derive(Debug)]
pub struct Rm {
    pub recursive: bool,
    pub force: bool,
    pub interactive_always: bool,
    pub interactive_once: bool,
    pub interactive: Option<String>,
    pub dir: bool,
    pub verbose: bool,
    pub one_file_system: bool,
    pub preserve_root: Option<String>,
    pub no_preserve_root: bool,
    pub permanent: bool,
    pub version: bool,
    pub help: bool,
    pub files: Vec<Vec<u8>>,
}

impl Rm {
    /// The command holds what a command line says.
    pub open spec fn says(&self, g: Given) -> bool {
        &&& self.recursive == g.flags.contains(Flag::Recursive)
        &&& self.force == g.flags.contains(Flag::Force)
        &&& self.interactive_always == g.flags.contains(Flag::Always)
        &&& self.interactive_once == g.flags.contains(Flag::Once)
        &&& self.interactive is Some == g.flags.contains(Flag::Interactive)
        &&& self.dir == g.flags.contains(Flag::Dir)
        &&& self.verbose == g.flags.contains(Flag::Verbose)
        &&& self.one_file_system == g.flags.contains(Flag::OneFileSystem)
        &&& self.no_preserve_root == g.flags.contains(Flag::NoPreserveRoot)
        &&& self.permanent == g.flags.contains(Flag::Permanent)
        &&& self.version == g.flags.contains(Flag::Version)
        &&& self.help == g.flags.contains(Flag::Help)
        &&& opt_text(self.interactive) == g.interactive
        &&& opt_text(self.preserve_root) == g.preserve
        &&& views(self.files@) == g.files
    }
}

/// A command line that is being read.
struct Reading {
    flags: Vec<Flag>,
    interactive: Option<String>,
    preserve: Option<String>,
}

impl Reading {
    spec fn says(&self, g: Given) -> bool {
        &&& forall|f: Flag| #[trigger] self.flags@.contains(f) == g.flags.contains(f)
        &&& opt_text(self.interactive) == g.interactive
        &&& opt_text(self.preserve) == g.preserve
        &&& self.interactive is Some == g.flags.contains(Flag::Interactive)
        &&& g.files == Seq::<Seq<u8>>::empty()
    }

    fn start() -> (r: Self)
        ensures
            r.says(nothing_given()),
    {
        Reading { flags: Vec::new(), interactive: None, preserve: None }
    }

    fn has(&self, f: Flag) -> (r: bool)
        ensures
            r == self.flags@.contains(f),
    {
        let mut i: usize = 0;
        while i < self.flags.len()
            invariant
                i <= self.flags@.len(),
                forall|k: int| 0 <= k < i ==> self.flags@[k] != f,
            decreases self.flags@.len() - i,
        {
            if self.flags[i] == f {
                return true;
            }
            i += 1;
        }
        false
    }

    /// Takes in an option that has no value.
    fn set(&mut self, f: Flag, g: Ghost<Given>)
        requires
            old(self).says(g@),
            f != Flag::Interactive,
        ensures
            final(self).says(with_flag(g@, f)),
    {
        let ghost before = self.flags@;
        self.flags.push(f);
        proof {
            assert forall|x: Flag| #[trigger] self.flags@.contains(x) == (before.contains(x) || x == f) by {
                lemma_push_contains(before, f, x);
            }
        }
    }

    /// The command that was read, with its files.
    fn finish(self, files: Vec<Vec<u8>>, g: Ghost<Given>) -> (r: Rm)
        requires
            self.says(g@),
        ensures
            r.says(Given { files: views(files@), ..g@ }),
    {
        Rm {
            recursive: self.has(Flag::Recursive),
            force: self.has(Flag::Force),
            interactive_always: self.has(Flag::Always),
            interactive_once: self.has(Flag::Once),
            dir: self.has(Flag::Dir),
            verbose: self.has(Flag::Verbose),
            one_file_system: self.has(Flag::OneFileSystem),
            no_preserve_root: self.has(Flag::NoPreserveRoot),
            permanent: self.has(Flag::Permanent),
            version: self.has(Flag::Version),
            help: self.has(Flag::Help),
            interactive: self.interactive,
            preserve_root: self.preserve,
            files,
        }
    }

    fn letters(&mut self, a: &[u8], g: Ghost<Given>) -> (r: Result<Ghost<Given>, Misuse>)
        requires
            old(self).says(g@),
            a@.len() > 1,
        ensures
            match r {
                Ok(h) => given_letters(g@, a@, 1) == Ok::<Given, Misuse>(h@) && final(self).says(h@),
                Err(m) => given_letters(g@, a@, 1) == Err::<Given, Misuse>(m),
            },
    {
        let mut i: usize = 1;
        let ghost mut h = g@;
        while i < a.len()
            invariant
                1 <= i <= a@.len(),
                self.says(h),
                given_letters(g@, a@, 1) == given_letters(h, a@, i as int),
            decreases a@.len() - i,
        {
            match letter(a[i]) {
                None => {
                    return Err(Misuse::Unknown);
                },
                Some(f) => {
                    if self.has(f) {
                        return Err(Misuse::Repeated);
                    }
                    self.set(f, Ghost(h));
                    proof {
                        h = with_flag(h, f);
                    }
                },
            }
            i += 1;
        }
        Ok(Ghost(h))
    }

    fn name(&mut self, a: &[u8], g: Ghost<Given>) -> (r: Result<Ghost<Given>, Misuse>)
        requires
            old(self).says(g@),
            a@.len() > 2,
        ensures
            match r {
                Ok(h) => given_name(g@, a@) == Ok::<Given, Misuse>(h@) && final(self).says(h@),
                Err(m) => given_name(g@, a@) == Err::<Given, Misuse>(m),
            },
    {
        proof {
            lemma_find_from(a@, 61u8, 2);
        }
        let n: usize = a.len();
        let e: usize = position(a, 61u8, 2);
        let f = match named(slice_subrange(a, 2, e)) {
            None => {
                return Err(Misuse::Unknown);
            },
            Some(f) => f,
        };
        let takes: bool = matches!(f, Flag::Interactive | Flag::PreserveRoot);
        if e < n && !takes {
            return Err(Misuse::NeedlessValue);
        }
        if self.has(f) {
            return Err(Misuse::Repeated);
        }
        let mut value: Option<String> = None;
        if e < n {
            let v = slice_subrange(a, e + 1, n);
            assert(v@ =~= a@.skip(e + 1));
            match text_of_utf8(v) {
                None => {
                    return Err(Misuse::NotText);
                },
                Some(t) => {
                    value = Some(t);
                },
            }
        }
        if matches!(f, Flag::Interactive) {
            let when: String = match value {
                Some(t) => t,
                None => "always".to_owned(),
            };
            let ghost before = self.flags@;
            self.flags.push(f);
            self.interactive = Some(when);
            proof {
                assert forall|x: Flag| #[trigger]
                    self.flags@.contains(x) == (before.contains(x) || x == f) by {
                    lemma_push_contains(before, f, x);
                }
            }
            Ok(
                Ghost(
                    Given {
                        interactive: Some(
                            if e < n {
                                decode_utf8(a@.skip(e + 1))
                            } else {
                                "always"@
                            },
                        ),
                        ..with_flag(g@, f)
                    },
                ),
            )
        } else {
            self.set(f, g);
            match value {
                Some(t) => {
                    self.preserve = Some(t);
                    Ok(Ghost(Given { preserve: Some(decode_utf8(a@.skip(e + 1))), ..with_flag(g@, f) }))
                },
                None => Ok(Ghost(with_flag(g@, f))),
            }
        }
    }
}

fn letter(b: u8) -> (r: Option<Flag>)
    ensures
        r == short_flag(b),
{
    if b == 114 || b == 82 {
        Some(Flag::Recursive)
    } else if b == 102 {
        Some(Flag::Force)
    } else if b == 105 {
        Some(Flag::Always)
    } else if b == 73 {
        Some(Flag::Once)
    } else if b == 100 {
        Some(Flag::Dir)
    } else if b == 118 {
        Some(Flag::Verbose)
    } else {
        None
    }
}

fn named(n: &[u8]) -> (r: Option<Flag>)
    ensures
        r == long_flag(n@),
{
    if seqs::same_run(n, "recursive".as_bytes()) {
        Some(Flag::Recursive)
    } else if seqs::same_run(n, "force".as_bytes()) {
        Some(Flag::Force)
    } else if seqs::same_run(n, "interactive".as_bytes()) {
        Some(Flag::Interactive)
    } else if seqs::same_run(n, "dir".as_bytes()) {
        Some(Flag::Dir)
    } else if seqs::same_run(n, "verbose".as_bytes()) {
        Some(Flag::Verbose)
    } else if seqs::same_run(n, "one-file-system".as_bytes()) {
        Some(Flag::OneFileSystem)
    } else if seqs::same_run(n, "preserve-root".as_bytes()) {
        Some(Flag::PreserveRoot)
    } else if seqs::same_run(n, "no-preserve-root".as_bytes()) {
        Some(Flag::NoPreserveRoot)
    } else if seqs::same_run(n, "permanent".as_bytes()) || seqs::same_run(n, "no-trash".as_bytes()) {
        Some(Flag::Permanent)
    } else if seqs::same_run(n, "version".as_bytes()) {
        Some(Flag::Version)
    } else if seqs::same_run(n, "help".as_bytes()) {
        Some(Flag::Help)
    } else {
        None
    }
}

/// The files of a command line: its arguments from one on; none may be empty.
fn files_from(argv: &Vec<Vec<u8>>, from: usize) -> (r: Option<Vec<Vec<u8>>>)
    requires
        from <= argv@.len(),
    ensures
        match r {
            Some(v) => views(v@) == views(argv@).skip(from as int) && forall|k: int|
                from <= k < argv@.len() ==> #[trigger] views(argv@)[k].len() > 0,
            None => exists|k: int| from <= k < argv@.len() && #[trigger] views(argv@)[k].len() == 0,
        },
{
    let mut out: Vec<Vec<u8>> = Vec::new();
    let mut i: usize = from;
    while i < argv.len()
        invariant
            from <= i <= argv@.len(),
            views(out@) == views(argv@).subrange(from as int, i as int),
            forall|k: int| from <= k < i ==> #[trigger] views(argv@)[k].len() > 0,
        decreases argv@.len() - i,
    {
        let ghost before = out@;
        assert(views(argv@)[i as int] == argv@[i as int]@);
        if argv[i].len() == 0 {
            return None;
        }
        out.push(to_vec(argv[i].as_slice()));
        assert(views(out@) =~= views(before).push(argv@[i as int]@));
        i += 1;
        assert(views(out@) =~= views(argv@).subrange(from as int, i as int));
    }
    assert(views(argv@).subrange(from as int, i as int) =~= views(argv@).skip(from as int));
    Some(out)
}

impl Rm {
    /// Reads a command line; its first part is the name of the command.
    pub fn try_parse_from(argv: &Vec<Vec<u8>>) -> (r: Result<Rm, Misuse>)
        ensures
            match r {
                Ok(rm) => command_line(views(argv@)) matches Ok(g) && rm.says(g),
                Err(m) => command_line(views(argv@)) == Err::<Given, Misuse>(m),
            },
    {
        let ghost args = views(argv@);
        assert(args.len() == argv@.len());
        let mut reading = Reading::start();
        let ghost mut g = nothing_given();
        let n: usize = argv.len();
        let mut i: usize = 1;
        while i < n
            invariant
                n == argv@.len(),
                args == views(argv@),
                args.len() == argv@.len(),
                1 <= i,
                reading.says(g),
                command_line(args) == given_from(g, args, i as int),
            decreases n - i,
        {
            assert(args[i as int] == argv@[i as int]@);
            let a = argv[i].as_slice();
            let dashes: bool = a.len() == 2 && a[0] == 45 && a[1] == 45;
            proof {
                if dashes {
                    assert(a@ =~= seq![45u8, 45u8]);
                }
            }
            if dashes || a.len() < 2 || a[0] != 45 {
                let from: usize = if dashes {
                    i + 1
                } else {
                    i
                };
                match files_from(argv, from) {
                    Some(v) => {
                        return Ok(reading.finish(v, Ghost(g)));
                    },
                    None => {
                        return Err(Misuse::EmptyFile);
                    },
                }
            }
            let h = if a[1] == 45 {
                reading.name(a, Ghost(g))
            } else {
                reading.letters(a, Ghost(g))
            };
            match h {
                Err(m) => {
                    return Err(m);
                },
                Ok(said) => {
                    proof {
                        g = said@;
                    }
                },
            }
            i += 1;
        }
        let none: Vec<Vec<u8>> = Vec::new();
        assert(views(none@) =~= seq![]);
        Ok(reading.finish(none, Ghost(g)))
    }
}

/// What stands behind the first file of a command line is never read as an option.
pub proof fn law_files_are_not_options(g: Given, args: Seq<Seq<u8>>, i: int)
    requires
        0 <= i < args.len(),
        args[i].len() > 0,
        args[i][0] != 45 || args[i].len() == 1,
        forall|k: int| i <= k < args.len() ==> #[trigger] args[k].len() > 0,
    ensures
        given_from(g, args, i) == Ok::<Given, Misuse>(Given { files: args.skip(i), ..g }),
{
    assert(args[i] != seq![45u8, 45u8]);
}

/// A path is the root itself, however many separators it has.
pub open spec fn names_root(p: Seq<u8>) -> bool {
    components(p) == seq![root()]
}

/// Whether a path is the root itself.
pub fn is_root_operand(p: &[u8]) -> (r: bool)
    ensures
        r == names_root(p@),
{
    let c = components_of(p);
    assert(views(c@).len() == c@.len());
    if c.len() != 1 {
        assert(seq![root()].len() == 1);
        return false;
    }
    assert(views(c@)[0] == c@[0]@);
    let sep: Vec<u8> = vec![47];
    assert(sep@ =~= root());
    let same: bool = seqs::same_run(c[0].as_slice(), sep.as_slice());
    proof {
        if same {
            assert(components(p@) =~= seq![root()]);
        } else {
            assert(seq![root()][0] == root());
        }
    }
    same
}

fn any_root(files: &Vec<Vec<u8>>) -> (r: bool)
    ensures
        r == exists|k: int| 0 <= k < files@.len() && names_root(#[trigger] files@[k]@),
{
    let mut i: usize = 0;
    while i < files.len()
        invariant
            i <= files@.len(),
            forall|k: int| 0 <= k < i ==> !names_root(#[trigger] files@[k]@),
        decreases files@.len() - i,
    {
        if is_root_operand(files[i].as_slice()) {
            return true;
        }
        i += 1;
    }
    false
}

/// What a command comes to before any file is looked at.
#[derive(Debug)]
pub enum Order {
    Help,
    Version,
    /// It would remove the root.
    RefuseRoot,
    /// `--interactive` has a value that it does not know.
    BadInteractive,
    /// The real command is run.
    Permanent,
    /// There are no files, and that is as it should be.
    Nothing,
    /// There are no files.
    MissingOperand,
    /// The files are moved to the trash; `always` asks before each, `once` before all.
    Proceed { always: bool, once: bool },
}

impl Rm {
    pub open spec fn removes_root(&self) -> bool {
        self.recursive && !self.no_preserve_root && exists|k: int|
            0 <= k < self.files@.len() && names_root(#[trigger] self.files@[k]@)
    }

    pub open spec fn asks(&self, when: Seq<char>) -> bool {
        opt_text(self.interactive) == Some(when)
    }

    pub open spec fn ordered(&self) -> Order {
        if self.help {
            Order::Help
        } else if self.version {
            Order::Version
        } else if self.removes_root() {
            Order::RefuseRoot
        } else if self.interactive is Some && !self.asks("always"@) && !self.asks("once"@)
            && !self.asks("never"@) {
            Order::BadInteractive
        } else if self.permanent {
            Order::Permanent
        } else if self.files@.len() == 0 {
            if self.force {
                Order::Nothing
            } else {
                Order::MissingOperand
            }
        } else {
            Order::Proceed {
                always: self.interactive_always || self.asks("always"@),
                once: self.interactive_once || self.asks("once"@),
            }
        }
    }

    /// What the command comes to before any file is looked at.
    pub fn order(&self) -> (r: Order)
        ensures
            r == self.ordered(),
    {
        if self.help {
            return Order::Help;
        }
        if self.version {
            return Order::Version;
        }
        if self.recursive && !self.no_preserve_root && any_root(&self.files) {
            return Order::RefuseRoot;
        }
        let mut always: bool = self.interactive_always;
        let mut once: bool = self.interactive_once;
        proof {
            reveal_strlit("always");
            reveal_strlit("once");
            reveal_strlit("never");
        }
        match &self.interactive {
            Some(w) => {
                let w = w.as_str();
                if same_text(w, "always") {
                    assert("always"@.len() != "once"@.len());
                    always = true;
                } else if same_text(w, "once") {
                    assert("always"@.len() != "once"@.len());
                    once = true;
                } else if !same_text(w, "never") {
                    return Order::BadInteractive;
                }
            },
            None => {},
        }
        if self.permanent {
            return Order::Permanent;
        }
        if self.files.len() == 0 {
            return if self.force {
                Order::Nothing
            } else {
                Order::MissingOperand
            };
        }
        Order::Proceed { always, once }
    }

    /// Whether the user is asked once before all files.
    pub fn asks_once(&self, once: bool) -> (r: bool)
        ensures
            r == (once && !self.force && self.files@.len() > 3),
    {
        once && !self.force && self.files.len() > 3
    }
}

/// The root is never removed unless it was asked for expressly: neither moved to the
/// trash nor left to the real command.
pub proof fn law_root_is_preserved(rm: Rm, k: int)
    requires
        rm.recursive,
        !rm.no_preserve_root,
        0 <= k < rm.files@.len(),
        names_root(rm.files@[k]@),
    ensures
        !(rm.ordered() is Permanent),
        !(rm.ordered() is Proceed),
{
    assert(names_root(rm.files@[k]@));
}

/// An argument that only this command knows.
pub open spec fn own_argument(a: Seq<u8>) -> bool {
    a == encode_utf8("--permanent"@) || a == encode_utf8("--no-trash"@)
}

pub open spec fn for_real(args: Seq<Seq<u8>>) -> Seq<Seq<u8>>
    decreases args.len(),
{
    if args.len() == 0 {
        seq![]
    } else if own_argument(args.last()) {
        for_real(args.drop_last())
    } else {
        for_real(args.drop_last()).push(args.last())
    }
}

/// The arguments for the real command: those that it knows.
pub fn real_arguments(args: &Vec<Vec<u8>>) -> (r: Vec<Vec<u8>>)
    ensures
        views(r@) == for_real(views(args@)),
{
    let ghost all = views(args@);
    let mut out: Vec<Vec<u8>> = Vec::new();
    let mut i: usize = 0;
    assert(all.take(0) =~= seq![]);
    assert(views(out@) =~= seq![]);
    while i < args.len()
        invariant
            i <= args@.len(),
            all == views(args@),
            all.len() == args@.len(),
            views(out@) == for_real(all.take(i as int)),
        decreases args@.len() - i,
    {
        let a = args[i].as_slice();
        let ghost before = out@;
        assert(all.take(i + 1).drop_last() =~= all.take(i as int));
        assert(all.take(i + 1).last() == a@);
        if !(seqs::same_run(a, "--permanent".as_bytes()) || seqs::same_run(a, "--no-trash".as_bytes())) {
            out.push(to_vec(a));
            assert(views(out@) =~= views(before).push(a@));
        }
        i += 1;
    }
    assert(all.take(i as int) =~= all);
    out
}

/// A character for which an argument is put between quotes.
pub open spec fn needs_quotes(s: Seq<char>) -> bool {
    s.contains(' ') || s.contains('\'') || s.contains('"') || s.contains('\\')
}

/// A text with each quote in it closed, escaped, and opened again.
pub open spec fn quotes_escaped(s: Seq<char>) -> Seq<char>
    decreases s.len(),
{
    if s.len() == 0 {
        seq![]
    } else if s.last() == '\'' {
        quotes_escaped(s.drop_last()) + "'\\''"@
    } else {
        quotes_escaped(s.drop_last()).push(s.last())
    }
}

/// An argument as it is recorded.
pub open spec fn quoted(s: Seq<char>) -> Seq<char> {
    if needs_quotes(s) {
        "'"@ + quotes_escaped(s) + "'"@
    } else {
        s
    }
}

fn quote(s: &str) -> (r: String)
    ensures
        r@ == quoted(s@),
{
    let c = chars_of(s);
    let mut special: bool = false;
    let mut escaped: String = String::new();
    let mut i: usize = 0;
    assert(s@.take(0) =~= seq![]);
    assert(escaped@ =~= seq![]);
    while i < c.len()
        invariant
            i <= c@.len(),
            c@ == s@,
            special == needs_quotes(s@.take(i as int)),
            escaped@ == quotes_escaped(s@.take(i as int)),
        decreases c@.len() - i,
    {
        let x: char = c[i];
        let ghost t = s@.take(i + 1);
        proof {
            assert(t.drop_last() =~= s@.take(i as int));
            lemma_contains_step(t, ' ');
            lemma_contains_step(t, '\'');
            lemma_contains_step(t, '"');
            lemma_contains_step(t, '\\');
        }
        if x == ' ' || x == '\'' || x == '"' || x == '\\' {
            special = true;
        }
        if x == '\'' {
            push_text(&mut escaped, "'\\''");
        } else {
            escaped.push(x);
        }
        i += 1;
    }
    assert(s@.take(i as int) =~= s@);
    if special {
        let mut r: String = "'".to_owned();
        push_text(&mut r, escaped.as_str());
        push_text(&mut r, "'");
        r
    } else {
        s.to_owned()
    }
}

proof fn lemma_contains_step(t: Seq<char>, x: char)
    requires
        t.len() > 0,
    ensures
        t.contains(x) == (t.drop_last().contains(x) || t.last() == x),
{
    if t.drop_last().contains(x) {
        let k = choose|k: int| 0 <= k < t.drop_last().len() && t.drop_last()[k] == x;
        assert(t[k] == x);
    }
    if t.last() == x {
        assert(t[t.len() - 1] == x);
    }
    if t.contains(x) && t.last() != x {
        let k = choose|k: int| 0 <= k < t.len() && t[k] == x;
        assert(t.drop_last()[k] == x);
    }
}

pub open spec fn quoted_all(args: Seq<Seq<u8>>) -> Seq<Seq<char>> {
    args.map_values(|a: Seq<u8>| quoted(lossy(a)))
}

/// The command as it is recorded with each file.
pub open spec fn recorded_command(args: Seq<Seq<u8>>) -> Seq<char> {
    "rm "@ + interspersed(quoted_all(args), " "@)
}

/// The command as it is recorded with each file, from its arguments.
pub fn command_text(args: &Vec<Vec<u8>>) -> (r: String)
    ensures
        r@ == recorded_command(views(args@)),
{
    let mut parts: Vec<String> = Vec::new();
    let mut i: usize = 0;
    while i < args.len()
        invariant
            i <= args@.len(),
            parts@.len() == i,
            forall|k: int| 0 <= k < i ==> #[trigger] parts@[k]@ == quoted(lossy(args@[k]@)),
        decreases args@.len() - i,
    {
        let t = text_lossy(args[i].as_slice());
        parts.push(quote(t.as_str()));
        i += 1;
    }
    assert(texts(parts@) =~= quoted_all(views(args@)));
    let mut r: String = "rm ".to_owned();
    let joined_parts = join_texts(&parts, " ");
    push_text(&mut r, joined_parts.as_str());
    r
}

/// What a file was found to be.
#[derive(Debug, Clone, Copy, PartialEq, Eq, Structural)]
pub enum Lookup {
    Found(Kind),
    NotFound,
    /// It could not be looked at.
    Failed,
}

/// What is done with a file.
#[derive(Debug, Clone, Copy, PartialEq, Eq, Structural)]
pub enum FileStep {
    /// Nothing, and nothing is said.
    Skip,
    /// It is reported that there is no such file.
    ReportMissing,
    /// It is reported that the file cannot be looked at.
    ReportFailed,
    /// It is reported that the file is a directory.
    ReportDirectory,
    /// It is reported that the directory is not empty.
    ReportOccupied,
    /// The user is asked, and only on a yes it is moved to the trash.
    Ask,
    /// It is moved to the trash.
    Trash,
}

impl Rm {
    pub open spec fn step_for(&self, always: bool, found: Lookup, occupied: bool) -> FileStep {
        match found {
            Lookup::NotFound => if self.force {
                FileStep::Skip
            } else {
                FileStep::ReportMissing
            },
            Lookup::Failed => if self.force {
                FileStep::Skip
            } else {
                FileStep::ReportFailed
            },
            Lookup::Found(k) => if k is Dir && !self.recursive && !self.dir {
                FileStep::ReportDirectory
            } else if k is Dir && !self.recursive && occupied {
                FileStep::ReportOccupied
            } else if always && !self.force {
                FileStep::Ask
            } else {
                FileStep::Trash
            },
        }
    }

    /// What is done with a file, by what it was found to be and, for a directory, by
    /// whether something is in it.
    pub fn file_step(&self, always: bool, found: Lookup, occupied: bool) -> (r: FileStep)
        ensures
            r == self.step_for(always, found, occupied),
    {
        match found {
            Lookup::NotFound => {
                if self.force {
                    FileStep::Skip
                } else {
                    FileStep::ReportMissing
                }
            },
            Lookup::Failed => {
                if self.force {
                    FileStep::Skip
                } else {
                    FileStep::ReportFailed
                }
            },
            Lookup::Found(k) => {
                let dir: bool = matches!(k, Kind::Dir);
                if dir && !self.recursive && !self.dir {
                    FileStep::ReportDirectory
                } else if dir && !self.recursive && occupied {
                    FileStep::ReportOccupied
                } else if always && !self.force {
                    FileStep::Ask
                } else {
                    FileStep::Trash
                }
            },
        }
    }
}

/// A directory with something in it is touched only by a recursive command.
pub proof fn law_full_directories_need_recursive(rm: Rm, always: bool)
    requires
        !rm.recursive,
    ensures
        !(rm.step_for(always, Lookup::Found(Kind::Dir), true) is Trash),
        !(rm.step_for(always, Lookup::Found(Kind::Dir), true) is Ask),
{
}

/// How a kind of file is called in a question.
pub open spec fn kind_name(k: Kind) -> Seq<char> {
    match k {
        Kind::Symlink => "symbolic link"@,
        Kind::Dir => "directory"@,
        _ => "regular file"@,
    }
}

/// The question before a file.
pub fn file_question(k: Kind, p: &[u8]) -> (r: String)
    ensures
        r@ == "rm: remove "@ + kind_name(k) + " '"@ + lossy(p@) + "'? [y/N] "@,
{
    let mut r: String = "rm: remove ".to_owned();
    match k {
        Kind::Symlink => {
            push_text(&mut r, "symbolic link");
        },
        Kind::Dir => {
            push_text(&mut r, "directory");
        },
        _ => {
            push_text(&mut r, "regular file");
        },
    }
    push_text(&mut r, " '");
    let t = text_lossy(p);
    push_text(&mut r, t.as_str());
    push_text(&mut r, "'? [y/N] ");
    r
}

/// The question before all files.
pub fn all_question(n: usize) -> (r: String)
    ensures
        r@ == "rm: remove "@ + crate::text::decimal(n as nat) + " arguments? [y/N] "@,
{
    let mut r: String = "rm: remove ".to_owned();
    push_decimal(&mut r, n as u64);
    push_text(&mut r, " arguments? [y/N] ");
    r
}

/// What is done after the trash was tried.
#[derive(Debug, Clone, Copy, PartialEq, Eq, Structural)]
pub enum AfterTrash {
    /// The file is in the trash.
    Done,
    /// The file is removed for real, as the settings say.
    Remove,
    /// The file is left where it is, and this is reported.
    Refuse,
    /// The failure is reported, and the file is removed for real.
    FallBack,
}

/// What is done after the trash was tried.
pub open spec fn after(t: Trial) -> AfterTrash {
    match t {
        Trial::Trashed => AfterTrash::Done,
        Trial::Excluded => AfterTrash::Remove,
        Trial::Refused => AfterTrash::Refuse,
        Trial::TooLarge => AfterTrash::Refuse,
        Trial::Failed => AfterTrash::FallBack,
    }
}

/// What is done after the trash was tried.
pub fn after_trash(t: Trial) -> (r: AfterTrash)
    ensures
        r == after(t),
{
    match t {
        Trial::Trashed => AfterTrash::Done,
        Trial::Excluded => AfterTrash::Remove,
        Trial::Refused => AfterTrash::Refuse,
        Trial::TooLarge => AfterTrash::Refuse,
        Trial::Failed => AfterTrash::FallBack,
    }
}

/// A file that is too large for the trash, or that is part of it, is never removed for
/// real in its place.
pub proof fn law_refusals_do_not_remove(t: Trial)
    requires
        t is Refused || t is TooLarge,
    ensures
        after(t) is Refuse,
{
}

/// How a file is removed for real.
#[derive(Debug, Clone, Copy, PartialEq, Eq, Structural)]
pub enum Removal {
    File,
    Tree,
    /// It is not: it is a directory.
    IsDirectory,
}

/// How a file is removed for real: a directory only by a recursive command.
pub fn removal(k: Kind, recursive: bool) -> (r: Removal)
    ensures
        r == (if k is Dir {
            if recursive {
                Removal::Tree
            } else {
                Removal::IsDirectory
            }
        } else {
            Removal::File
        }),
{
    match k {
        Kind::Dir => {
            if recursive {
                Removal::Tree
            } else {
                Removal::IsDirectory
            }
        },
        _ => Removal::File,
    }
}

/// The code with which the end of the real command is passed on.
pub fn passed_code(code: Option<i32>) -> (r: u8)
    ensures
        r == (match code {
            Some(c) => c as u8,
            None => 1,
        }),
{
    match code {
        Some(c) => c as u8,
        None => 1,
    }
}

/// The places of the real command that a list of directories gives, from a place in it
/// on. A directory of this command's own is passed over.
pub open spec fn places_from(list: Seq<u8>, i: int) -> Seq<Seq<u8>>
    decreases list.len() - i,
{
    let e = find_from(list, 58u8, i);
    if i < 0 || i > list.len() || e < i || e > list.len() {
        seq![]
    } else {
        let d = list.subrange(i, e);
        let here: Seq<Seq<u8>> = if seqs::occurs(d, encode_utf8("trashd"@)) {
            seq![]
        } else {
            seq![joined(d, encode_utf8("rm"@))]
        };
        if e == list.len() {
            here
        } else {
            here + places_from(list, e + 1)
        }
    }
}

/// The places where the real command may be, from a list of directories.
pub fn search_places(list: &[u8]) -> (r: Vec<Vec<u8>>)
    ensures
        views(r@) == places_from(list@, 0),
{
    let n: usize = list.len();
    let mut out: Vec<Vec<u8>> = Vec::new();
    let mut i: usize = 0;
    assert(views(out@) + places_from(list@, 0) =~= places_from(list@, 0));
    loop
        invariant
            n == list@.len(),
            i <= n,
            views(out@) + places_from(list@, i as int) == places_from(list@, 0),
        decreases n - i,
    {
        proof {
            lemma_find_from(list@, 58u8, i as int);
        }
        let e: usize = position(list, 58u8, i);
        let d = slice_subrange(list, i, e);
        let ghost before = views(out@);
        let ghost here: Seq<Seq<u8>> = if seqs::occurs(d@, encode_utf8("trashd"@)) {
            seq![]
        } else {
            seq![joined(d@, encode_utf8("rm"@))]
        };
        if !seqs::contains(d, "trashd".as_bytes()) {
            let ghost was = out@;
            out.push(join(d, "rm".as_bytes()));
            assert(views(out@) =~= views(was).push(joined(d@, encode_utf8("rm"@))));
        }
        assert(views(out@) =~= before + here);
        if e == n {
            assert(before + places_from(list@, i as int) =~= views(out@));
            return out;
        }
        assert(before + places_from(list@, i as int) =~= views(out@) + places_from(list@, e + 1));
        i = e + 1;
    }
}

/// Where the real command is.
#[derive(Debug, Clone, Copy, PartialEq, Eq, Structural)]
pub enum RealRm {
    /// Where it was put aside.
    Stash,
    /// At a place of the list of directories.
    Place(usize),
    UsrBin,
    Bin,
}

/// The position of the first `true`, or the length.
pub open spec fn first_true(v: Seq<bool>, i: int) -> int
    decreases v.len() - i,
{
    if i >= v.len() || v[i] {
        i
    } else {
        first_true(v, i + 1)
    }
}

/// Where the real command is: where it was put aside, unless that is this command again;
/// else the first place of the list that holds one; else one of the usual places.
pub fn choose_real_rm(
    stash_exists: bool,
    stash_is_shim: bool,
    usable: &Vec<bool>,
    usr_bin: bool,
    bin: bool,
) -> (r: RealRm)
    ensures
        r == ({
            let p = first_true(usable@, 0);
            if stash_exists && !stash_is_shim {
                RealRm::Stash
            } else if p < usable@.len() {
                RealRm::Place(p as usize)
            } else if bin && !usr_bin {
                RealRm::Bin
            } else {
                RealRm::UsrBin
            }
        }),
{
    if stash_exists && !stash_is_shim {
        return RealRm::Stash;
    }
    let mut i: usize = 0;
    while i < usable.len()
        invariant
            i <= usable@.len(),
            first_true(usable@, 0) == first_true(usable@, i as int),
            !(stash_exists && !stash_is_shim),
        decreases usable@.len() - i,
    {
        if usable[i] {
            return RealRm::Place(i);
        }
        i += 1;
    }
    if bin && !usr_bin {
        RealRm::Bin
    } else {
        RealRm::UsrBin
    }
}

/// Whether a command that told its version is this one. One that told none is not
/// trusted to be another.
pub fn is_shim(told: Option<&str>) -> (r: bool)
    ensures
        r == (match told {
            Some(t) => seqs::occurs(t@, "trashd"@),
            None => true,
        }),
{
    match told {
        Some(t) => {
            let c = chars_of(t);
            let w = chars_of("trashd");
            seqs::contains(c.as_slice(), w.as_slice())
        },
        None => true,
    }
}

} // verus!
