//! Classic-BPF instructions, as the kernel reads them.

use vstd::prelude::*;

verus! {

/// Instruction class: load into the accumulator.
pub const BPF_LD: u16 = 0x00;

/// Instruction class: jump.
pub const BPF_JMP: u16 = 0x05;

/// Instruction class: return from the filter.
pub const BPF_RET: u16 = 0x06;

/// Load size: a 32-bit word.
pub const BPF_W: u16 = 0x00;

/// Load mode: from the input, at the offset in `k`.
pub const BPF_ABS: u16 = 0x20;

/// Jump always, by the 32-bit offset in `k`.
pub const BPF_JA: u16 = 0x00;

/// Jump if the accumulator equals the operand.
pub const BPF_JEQ: u16 = 0x10;

/// Jump if the accumulator is not below the operand.
pub const BPF_JGE: u16 = 0x30;

/// The operand is the constant in `k`.
pub const BPF_K: u16 = 0x00;

/// One classic-BPF instruction.
#[allow(non_camel_case_types)]
#[derive(Clone, Copy, Debug, PartialEq, Eq, Structural)]
pub struct sock_filter {
    /// Class, operation and mode.
    pub code: u16,
    /// Instructions to skip when a conditional jump is taken.
    pub jt: u8,
    /// Instructions to skip when a conditional jump is not taken.
    pub jf: u8,
    /// The constant operand.
    pub k: u32,
}

/// A finished filter.
pub type BpfProgram = Vec<sock_filter>;

/// The statement `code` with constant `k`.
pub open spec fn stmt(code: u16, k: u32) -> sock_filter {
    sock_filter { code, jt: 0, jf: 0, k }
}

/// The jump `code` on constant `k` with the two offsets.
pub open spec fn jump(code: u16, k: u32, jt: u8, jf: u8) -> sock_filter {
    sock_filter { code, jt, jf, k }
}

/// Builds a statement: an instruction that uses no jump offsets.
pub fn bpf_stmt(code: u16, k: u32) -> (ins: sock_filter)
    ensures
        ins == stmt(code, k),
        ins.code == code,
        ins.jt == 0,
        ins.jf == 0,
        ins.k == k,
{
    sock_filter { code, jt: 0, jf: 0, k }
}

/// Builds a conditional jump with its 8-bit offsets.
pub fn bpf_jump(code: u16, k: u32, jt: u8, jf: u8) -> (ins: sock_filter)
    ensures
        ins == jump(code, k, jt, jf),
        ins.code == code,
        ins.jt == jt,
        ins.jf == jf,
        ins.k == k,
{
    sock_filter { code, jt, jf, k }
}

} // verus!
