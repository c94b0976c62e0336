//! The filter program that traps the system calls that delete, and lets all others pass.

use vstd::prelude::*;

verus! {

/// Load a word of the call's data.
pub const LOAD: u16 = 0x20;

/// Jump where the loaded word equals a constant.
pub const JUMP_EQUAL: u16 = 0x15;

/// Return a constant.
pub const RETURN: u16 = 0x06;

/// Where the number of the call stands in its data.
pub const OFFSET_NR: u32 = 0;

/// Where the architecture stands in the call's data.
pub const OFFSET_ARCH: u32 = 4;

/// Let the call pass.
pub const RET_ALLOW: u32 = 0x7FFF_0000;

/// Hand the call to the supervisor.
pub const RET_USER_NOTIF: u32 = 0x7FC0_0000;

/// An architecture that calls can be trapped on.
#[derive(Debug, Clone, Copy, PartialEq, Eq, Structural)]
pub enum Arch {
    X86_64,
    Aarch64,
}

/// The word by which an architecture is named in a call's data.
pub open spec fn audit_word(a: Arch) -> u32 {
    match a {
        Arch::X86_64 => 0xC000_003E,
        Arch::Aarch64 => 0xC000_00B7,
    }
}

/// The number of `unlinkat`.
pub open spec fn nr_unlinkat(a: Arch) -> u32 {
    match a {
        Arch::X86_64 => 263,
        Arch::Aarch64 => 35,
    }
}

/// The number of `unlink`, where there is one.
pub open spec fn nr_unlink(a: Arch) -> Option<u32> {
    match a {
        Arch::X86_64 => Some(87),
        Arch::Aarch64 => None,
    }
}

/// The number of `rmdir`, where there is one.
pub open spec fn nr_rmdir(a: Arch) -> Option<u32> {
    match a {
        Arch::X86_64 => Some(84),
        Arch::Aarch64 => None,
    }
}

/// A call of this number deletes.
pub open spec fn deletes(a: Arch, nr: u32) -> bool {
    nr == nr_unlinkat(a) || nr_unlink(a) == Some(nr) || nr_rmdir(a) == Some(nr)
}

/// An instruction of a filter.
#[derive(Debug, Clone, Copy, PartialEq, Eq, Structural)]
pub struct SockFilter {
    pub code: u16,
    /// How many instructions are skipped where the test holds.
    pub jt: u8,
    /// How many are skipped where it does not.
    pub jf: u8,
    pub k: u32,
}

/// A filter, with its length as the kernel reads it.
#[derive(Debug)]
pub struct SockFprog {
    pub len: u16,
    pub filter: Vec<SockFilter>,
}

/// The word of a call's data at an offset, where a filter may read it.
pub open spec fn data_word(offset: u32, arch: u32, nr: u32) -> Option<u32> {
    if offset == OFFSET_NR {
        Some(nr)
    } else if offset == OFFSET_ARCH {
        Some(arch)
    } else {
        None
    }
}

/// What a filter returns on a call, from instruction `pc` on with a loaded word; nothing
/// where it runs off its end or holds an instruction of another form.
pub open spec fn filtered(
    p: Seq<SockFilter>,
    pc: int,
    loaded: u32,
    arch: u32,
    nr: u32,
) -> Option<u32>
    decreases p.len() - pc,
{
    if pc < 0 || pc >= p.len() {
        None
    } else if p[pc].code == LOAD {
        match data_word(p[pc].k, arch, nr) {
            Some(w) => filtered(p, pc + 1, w, arch, nr),
            None => None,
        }
    } else if p[pc].code == JUMP_EQUAL {
        let skipped: int = if loaded == p[pc].k {
            p[pc].jt as int
        } else {
            p[pc].jf as int
        };
        if pc + 1 + skipped <= p.len() {
            filtered(p, pc + 1 + skipped, loaded, arch, nr)
        } else {
            None
        }
    } else if p[pc].code == RETURN {
        Some(p[pc].k)
    } else {
        None
    }
}

/// A filter traps exactly the calls of an architecture that delete, and lets every
/// other call pass.
pub open spec fn traps_deletes(p: Seq<SockFilter>, a: Arch) -> bool {
    forall|arch: u32, nr: u32|
        #[trigger] filtered(p, 0, 0, arch, nr) == Some(
            if arch == audit_word(a) && deletes(a, nr) {
                RET_USER_NOTIF
            } else {
                RET_ALLOW
            },
        )
}

pub open spec fn statement(code: u16, k: u32) -> SockFilter {
    SockFilter { code, jt: 0, jf: 0, k }
}

pub open spec fn jump(k: u32, jt: u8, jf: u8) -> SockFilter {
    SockFilter { code: JUMP_EQUAL, jt, jf, k }
}

/// The instructions that trap the calls that delete.
pub open spec fn program(a: Arch) -> Seq<SockFilter> {
    match a {
        Arch::X86_64 => seq![
            statement(LOAD, OFFSET_ARCH),
            jump(audit_word(a), 1, 0),
            statement(RETURN, RET_ALLOW),
            statement(LOAD, OFFSET_NR),
            jump(87, 3, 0),
            jump(263, 2, 0),
            jump(84, 1, 0),
            statement(RETURN, RET_ALLOW),
            statement(RETURN, RET_USER_NOTIF),
        ],
        Arch::Aarch64 => seq![
            statement(LOAD, OFFSET_ARCH),
            jump(audit_word(a), 1, 0),
            statement(RETURN, RET_ALLOW),
            statement(LOAD, OFFSET_NR),
            jump(35, 0, 1),
            statement(RETURN, RET_USER_NOTIF),
            statement(RETURN, RET_ALLOW),
        ],
    }
}

fn bpf_stmt(code: u16, k: u32) -> (r: SockFilter)
    ensures
        r == statement(code, k),
{
    SockFilter { code, jt: 0, jf: 0, k }
}

fn bpf_jump(k: u32, jt: u8, jf: u8) -> (r: SockFilter)
    ensures
        r == jump(k, jt, jf),
{
    SockFilter { code: JUMP_EQUAL, jt, jf, k }
}

/// Builds the filter for an architecture: it traps exactly the calls that delete.
pub fn build_filter(a: Arch) -> (r: Vec<SockFilter>)
    ensures
        r@ == program(a),
        traps_deletes(r@, a),
{
    let r: Vec<SockFilter> = match a {
        Arch::X86_64 => vec![
            bpf_stmt(LOAD, OFFSET_ARCH),
            bpf_jump(0xC000_003E, 1, 0),
            bpf_stmt(RETURN, RET_ALLOW),
            bpf_stmt(LOAD, OFFSET_NR),
            bpf_jump(87, 3, 0),
            bpf_jump(263, 2, 0),
            bpf_jump(84, 1, 0),
            bpf_stmt(RETURN, RET_ALLOW),
            bpf_stmt(RETURN, RET_USER_NOTIF),
        ],
        Arch::Aarch64 => vec![
            bpf_stmt(LOAD, OFFSET_ARCH),
            bpf_jump(0xC000_00B7, 1, 0),
            bpf_stmt(RETURN, RET_ALLOW),
            bpf_stmt(LOAD, OFFSET_NR),
            bpf_jump(35, 0, 1),
            bpf_stmt(RETURN, RET_USER_NOTIF),
            bpf_stmt(RETURN, RET_ALLOW),
        ],
    };
    proof {
        assert(r@ =~= program(a));
        lemma_program_traps(a);
    }
    r
}

/// The filter as it is handed to the kernel.
pub fn build_program(a: Arch) -> (r: SockFprog)
    ensures
        r.filter@ == program(a),
        r.len == r.filter@.len(),
{
    let filter = build_filter(a);
    let len: u16 = filter.len() as u16;
    SockFprog { len, filter }
}

proof fn lemma_program_traps(a: Arch)
    ensures
        traps_deletes(program(a), a),
{
    let p = program(a);
    assert forall|arch: u32, nr: u32|
        #[trigger] filtered(p, 0, 0, arch, nr) == Some(
            if arch == audit_word(a) && deletes(a, nr) {
                RET_USER_NOTIF
            } else {
                RET_ALLOW
            },
        ) by {
        reveal_with_fuel(filtered, 9);
    }
}

/// The filter of one architecture lets every call of another pass, whatever its number.
pub proof fn law_other_arch_passes(a: Arch, arch: u32, nr: u32)
    requires
        arch != audit_word(a),
    ensures
        filtered(program(a), 0, 0, arch, nr) == Some(RET_ALLOW),
{
    lemma_program_traps(a);
}

/// On the one architecture the filter hands over exactly `rmdir`, `unlink` and `unlinkat`,
/// on the other exactly `unlinkat`, by the numbers that they have there, and it lets every
/// other call pass.
pub proof fn law_filter_numbers(nr: u32)
    ensures
        filtered(program(Arch::X86_64), 0, 0, 0xC000_003E, nr) == Some(
            if nr == 84 || nr == 87 || nr == 263 {
                0x7FC0_0000u32
            } else {
                0x7FFF_0000u32
            },
        ),
        filtered(program(Arch::Aarch64), 0, 0, 0xC000_00B7, nr) == Some(
            if nr == 35 {
                0x7FC0_0000u32
            } else {
                0x7FFF_0000u32
            },
        ),
{
    lemma_program_traps(Arch::X86_64);
    lemma_program_traps(Arch::Aarch64);
}

/// The architecture is looked at before the number, each where the kernel keeps it, and by
/// the codes that the kernel has for a load, a comparison and a return.
pub proof fn law_filter_reads(a: Arch)
    ensures
        program(a)[0] == (SockFilter { code: 0x20, jt: 0, jf: 0, k: 4 }),
        program(a)[3] == (SockFilter { code: 0x20, jt: 0, jf: 0, k: 0 }),
        forall|i: int|
            0 <= i < program(a).len() ==> (#[trigger] program(a)[i]).code == 0x20 || program(a)[i].code
                == 0x15 || program(a)[i].code == 0x06,
        forall|i: int|
            0 <= i < program(a).len() && (#[trigger] program(a)[i]).code == 0x06 ==> program(a)[i].k
                == 0x7FC0_0000 || program(a)[i].k == 0x7FFF_0000,
{
}

} // verus!
