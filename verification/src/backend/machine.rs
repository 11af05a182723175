//! What a classic-BPF program does on one system call.
//!
//! A program reads the 64-byte image of `struct seccomp_data`, works on an
//! accumulator, an index register and sixteen words of scratch memory, and ends
//! by returning a 32-bit verdict. Jumps only go forward, so every run is finite.

use vstd::prelude::*;

use crate::backend::bpf::sock_filter;

verus! {

/// The registers and the scratch memory.
pub struct State {
    /// The accumulator.
    pub a: u32,
    /// The index register.
    pub x: u32,
    /// The scratch memory.
    pub mem: Seq<u32>,
}

/// What one instruction does.
pub enum Step {
    /// Go on with `state`, past `skip` further instructions.
    Next { state: State, skip: nat },
    /// End the run with a verdict.
    Return(u32),
    /// No meaning: an unknown operation or an operand out of range.
    Fault,
}

/// How a run ends.
pub struct Outcome {
    /// The verdict, or `None` for a run that faults or leaves the program.
    pub ret: Option<u32>,
    /// Instructions executed.
    pub steps: nat,
}

/// The state in which a filter starts.
pub open spec fn initial() -> State {
    State { a: 0, x: 0, mem: Seq::new(16, |i: int| 0u32) }
}

/// The little-endian word at `offset`, where there is one.
pub open spec fn word_at(data: Seq<u8>, offset: int) -> Option<u32> {
    if 0 <= offset && offset + 4 <= data.len() {
        Some(
            (data[offset] + 0x100 * data[offset + 1] + 0x1_0000 * data[offset + 2] + 0x100_0000
                * data[offset + 3]) as u32,
        )
    } else {
        None
    }
}

/// The value that a load instruction fetches.
pub open spec fn loaded(ins: sock_filter, state: State, data: Seq<u8>) -> Option<u32> {
    let mode = ins.code & 0xe0;
    if mode == 0x00 {
        Some(ins.k)
    } else if mode == 0x20 {
        word_at(data, ins.k as int)
    } else if mode == 0x60 && ins.k < state.mem.len() {
        Some(state.mem[ins.k as int])
    } else if mode == 0x80 {
        Some(data.len() as u32)
    } else {
        None
    }
}

/// The second operand: the index register or the constant.
pub open spec fn operand(code: u16, k: u32, state: State) -> u32 {
    if code & 0x08 != 0 {
        state.x
    } else {
        k
    }
}

/// The result of an arithmetic instruction.
pub open spec fn computed(ins: sock_filter, state: State) -> Option<u32> {
    let op = ins.code & 0xf0;
    let a = state.a;
    let b = operand(ins.code, ins.k, state);
    if op == 0x00 {
        Some(((a + b) % 0x1_0000_0000) as u32)
    } else if op == 0x10 {
        Some(((a - b) % 0x1_0000_0000) as u32)
    } else if op == 0x20 {
        Some(((a * b) % 0x1_0000_0000) as u32)
    } else if op == 0x30 && b != 0 {
        Some((a as int / b as int) as u32)
    } else if op == 0x40 {
        Some(a | b)
    } else if op == 0x50 {
        Some(a & b)
    } else if op == 0x60 && b < 32 {
        Some(a << b)
    } else if op == 0x70 && b < 32 {
        Some(a >> b)
    } else if op == 0x80 {
        Some(((-a) % 0x1_0000_0000) as u32)
    } else if op == 0xa0 {
        Some(a ^ b)
    } else {
        None
    }
}

/// Whether the conditional jump `code` on `k` is taken.
pub open spec fn taken(code: u16, k: u32, state: State) -> Option<bool> {
    let op = code & 0xf0;
    let b = operand(code, k, state);
    if op == 0x10 {
        Some(state.a == b)
    } else if op == 0x20 {
        Some(state.a > b)
    } else if op == 0x30 {
        Some(state.a >= b)
    } else if op == 0x40 {
        Some(state.a & b != 0)
    } else {
        None
    }
}

/// `state` with the accumulator set, where there is a value for it.
pub open spec fn with_a(state: State, value: Option<u32>) -> Step {
    match value {
        Some(a) => Step::Next { state: State { a, ..state }, skip: 0 },
        None => Step::Fault,
    }
}

/// `state` with the index register set, where there is a value for it.
pub open spec fn with_x(state: State, value: Option<u32>) -> Step {
    match value {
        Some(x) => Step::Next { state: State { x, ..state }, skip: 0 },
        None => Step::Fault,
    }
}

/// `state` with the word at `at` of the scratch memory set.
pub open spec fn stored(state: State, at: u32, value: u32) -> Step {
    if at < state.mem.len() {
        Step::Next { state: State { mem: state.mem.update(at as int, value), ..state }, skip: 0 }
    } else {
        Step::Fault
    }
}

/// A jump: unconditional by `k`, or by one of the 8-bit offsets.
pub open spec fn jumped(ins: sock_filter, state: State) -> Step {
    if ins.code & 0xf0 == 0x00 {
        Step::Next { state, skip: ins.k as nat }
    } else {
        match taken(ins.code, ins.k, state) {
            Some(true) => Step::Next { state, skip: ins.jt as nat },
            Some(false) => Step::Next { state, skip: ins.jf as nat },
            None => Step::Fault,
        }
    }
}

/// The effect of `ins` in `state`.
pub open spec fn step(ins: sock_filter, state: State, data: Seq<u8>) -> Step {
    let class = ins.code & 0x07;
    if class == 0x00 {
        with_a(state, loaded(ins, state, data))
    } else if class == 0x01 {
        with_x(state, loaded(ins, state, data))
    } else if class == 0x02 {
        stored(state, ins.k, state.a)
    } else if class == 0x03 {
        stored(state, ins.k, state.x)
    } else if class == 0x04 {
        with_a(state, computed(ins, state))
    } else if class == 0x05 {
        jumped(ins, state)
    } else if class == 0x06 {
        Step::Return(
            if ins.code & 0x18 == 0x10 {
                state.a
            } else {
                ins.k
            },
        )
    } else if ins.code & 0x80 == 0 {
        with_x(state, Some(state.a))
    } else {
        with_a(state, Some(state.x))
    }
}

/// Instructions from `pc` to the end of the program.
pub open spec fn ahead(prog: Seq<sock_filter>, pc: int) -> nat {
    if pc < prog.len() {
        (prog.len() - pc) as nat
    } else {
        0
    }
}

/// The run of `prog` from instruction `pc` on.
pub open spec fn run(prog: Seq<sock_filter>, pc: int, state: State, data: Seq<u8>) -> Outcome
    decreases ahead(prog, pc),
{
    if 0 <= pc < prog.len() {
        match step(prog[pc], state, data) {
            Step::Next { state: after, skip } => {
                let rest = run(prog, pc + 1 + skip, after, data);
                Outcome { ret: rest.ret, steps: rest.steps + 1 }
            },
            Step::Return(value) => Outcome { ret: Some(value), steps: 1 },
            Step::Fault => Outcome { ret: None, steps: 1 },
        }
    } else {
        Outcome { ret: None, steps: 0 }
    }
}

/// A run executes no more instructions than lie ahead of it.
pub proof fn run_is_bounded(prog: Seq<sock_filter>, pc: int, state: State, data: Seq<u8>)
    ensures
        run(prog, pc, state, data).steps <= ahead(prog, pc),
    decreases ahead(prog, pc),
{
    if 0 <= pc < prog.len() {
        if let Step::Next { state: after, skip } = step(prog[pc], state, data) {
            run_is_bounded(prog, pc + 1 + skip, after, data);
        }
    }
}

} // verus!
