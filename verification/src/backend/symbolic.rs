//! What a symbolic program does, before anything is known of its layout.

use vstd::prelude::*;

use crate::backend::bpf::{BPF_JA, BPF_JMP};
use crate::backend::layout;
use crate::backend::machine;
use crate::backend::machine::{State, Step};
use crate::backend::optimize::Item;

verus! {

/// How a symbolic run ends.
pub struct Trace {
    /// The verdict, or `None` for a run that faults or leaves the program.
    pub ret: Option<u32>,
    /// Embedded instructions executed.
    pub straight: nat,
    /// Conditionals executed.
    pub tests: nat,
}

/// Items from `i` to the end of the program.
pub open spec fn ahead(items: Seq<Item>, i: int) -> nat {
    if i < items.len() {
        (items.len() - i) as nat
    } else {
        0
    }
}

/// The item reached from item `i` past `skip` instructions, each conditional
/// counted as one.
pub open spec fn landing(items: Seq<Item>, i: int, skip: nat) -> int
    decreases ahead(items, i),
{
    if skip == 0 || i >= items.len() {
        i
    } else {
        match items[i] {
            Item::Mark(_) => landing(items, i + 1, skip),
            _ => landing(items, i + 1, (skip - 1) as nat),
        }
    }
}

/// A jump past some instructions goes forward.
pub proof fn lemma_landing_forward(items: Seq<Item>, i: int, skip: nat)
    requires
        i <= items.len(),
    ensures
        i <= landing(items, i, skip) <= items.len(),
    decreases ahead(items, i),
{
    if skip != 0 && i < items.len() {
        match items[i] {
            Item::Mark(_) => lemma_landing_forward(items, i + 1, skip),
            _ => lemma_landing_forward(items, i + 1, (skip - 1) as nat),
        }
    }
}

/// The run of `items` from item `i` on.
pub open spec fn trace(items: Seq<Item>, i: int, state: State, data: Seq<u8>) -> Trace
    decreases ahead(items, i),
{
    if 0 <= i < items.len() {
        match items[i] {
            Item::Mark(_) => trace(items, i + 1, state, data),
            Item::Ins(ins) => match machine::step(ins, state, data) {
                Step::Next { state: after, skip } => {
                    proof {
                        lemma_landing_forward(items, i + 1, skip);
                    }
                    let rest = trace(items, landing(items, i + 1, skip), after, data);
                    Trace { straight: rest.straight + 1, ..rest }
                },
                Step::Return(value) => Trace { ret: Some(value), straight: 1, tests: 0 },
                Step::Fault => Trace { ret: None, straight: 1, tests: 0 },
            },
            Item::Cond { code, k, jt, jf } => match machine::taken(code, k, state) {
                Some(holds) => {
                    let target = layout::label_index(items, if holds { jt } else { jf });
                    if i < target {
                        let rest = trace(items, target, state, data);
                        Trace { tests: rest.tests + 1, ..rest }
                    } else {
                        Trace { ret: None, straight: 0, tests: 1 }
                    }
                },
                None => Trace { ret: None, straight: 0, tests: 1 },
            },
        }
    } else {
        Trace { ret: None, straight: 0, tests: 0 }
    }
}

/// Every conditional item carries the code of a conditional jump.
pub open spec fn conditionals_jump(items: Seq<Item>) -> bool {
    forall|i: int|
        0 <= i < items.len() ==> match #[trigger] items[i] {
            Item::Cond { code, .. } => code & 0x07 == 0x05 && code & 0xf0 != 0,
            _ => true,
        }
}

/// No embedded instruction jumps past a conditional that relaxes, so that each
/// one's own offset is right in the finished program too.
pub open spec fn embedded_jumps_hold(items: Seq<Item>) -> bool {
    forall|i: int|
        0 <= i < items.len() ==> match #[trigger] items[i] {
            Item::Ins(ins) => forall|state: State, data: Seq<u8>|
                match #[trigger] machine::step(ins, state, data) {
                    Step::Next { skip, .. } => forall|j: int|
                        i < j < landing(items, i + 1, skip) ==> !(
                        #[trigger] layout::relaxation(items)[j]),
                    _ => true,
                },
            _ => true,
        }
}

/// Every unconditional jump of a relaxed conditional has an offset of 32 bits.
pub open spec fn trampolines_reach(items: Seq<Item>) -> bool {
    let relaxed = layout::relaxation(items);
    forall|i: int|
        0 <= i < items.len() && #[trigger] relaxed[i] ==> match items[i] {
            Item::Cond { jt, jf, .. } => {
                let at = layout::position(items, relaxed, i);
                &&& layout::label_position(items, relaxed, jt) - (at + 2) <= u32::MAX
                &&& layout::label_position(items, relaxed, jf) - (at + 3) <= u32::MAX
            },
            _ => true,
        }
}

/// In a program of less than 32 bits of length every unconditional jump reaches.
pub proof fn short_programs_reach(items: Seq<Item>)
    requires
        layout::assembled(items).len() <= u32::MAX,
    ensures
        trampolines_reach(items),
{
    let relaxed = layout::relaxation(items);
    layout::lemma_encode_len(items, relaxed, items.len() as int);
    assert forall|i: int| 0 <= i < items.len() && #[trigger] relaxed[i] implies match items[i] {
        Item::Cond { jt, jf, .. } => {
            let at = layout::position(items, relaxed, i);
            &&& layout::label_position(items, relaxed, jt) - (at + 2) <= u32::MAX
            &&& layout::label_position(items, relaxed, jf) - (at + 3) <= u32::MAX
        },
        _ => true,
    } by {
        if let Item::Cond { jt, jf, .. } = items[i] {
            let n = items.len() as int;
            layout::lemma_mark_index(items, jt, n);
            layout::lemma_mark_index(items, jf, n);
            layout::lemma_position_monotone(items, relaxed, layout::label_index(items, jt), n);
            layout::lemma_position_monotone(items, relaxed, layout::label_index(items, jf), n);
        }
    }
}

/// Past unrelaxed items, instructions and items are skipped in step.
proof fn lemma_landing_position(items: Seq<Item>, relaxed: Seq<bool>, i: int, skip: nat)
    requires
        0 <= i <= items.len(),
        relaxed.len() == items.len(),
        forall|j: int| i <= j < landing(items, i, skip) ==> !(#[trigger] relaxed[j]),
    ensures
        ({
            let j = landing(items, i, skip);
            let reached = layout::position(items, relaxed, i) + skip;
            ||| reached == layout::position(items, relaxed, j)
            ||| j == items.len() && layout::position(items, relaxed, j) <= reached
        }),
    decreases ahead(items, i),
{
    if skip != 0 && i < items.len() {
        let rest = match items[i] {
            Item::Mark(_) => skip,
            _ => (skip - 1) as nat,
        };
        lemma_landing_forward(items, i + 1, rest);
        assert(!relaxed[i]);
        lemma_landing_position(items, relaxed, i + 1, rest);
    }
}

/// The run of the assembled program from item `i` on is the symbolic run.
pub open spec fn runs_as_written(items: Seq<Item>, i: int, state: State, data: Seq<u8>) -> bool {
    let at = layout::position(items, layout::relaxation(items), i) as int;
    let outcome = machine::run(layout::assembled(items), at, state, data);
    let written = trace(items, i, state, data);
    &&& outcome.ret == written.ret
    &&& written.straight + written.tests <= outcome.steps
    &&& outcome.steps <= written.straight + 2 * written.tests
}

/// An embedded instruction at item `i` goes on at the item where it lands.
proof fn lemma_embedded_runs(items: Seq<Item>, i: int, state: State, data: Seq<u8>)
    requires
        embedded_jumps_hold(items),
        0 <= i < items.len(),
        items[i] is Ins,
        machine::step(items[i]->Ins_0, state, data) matches Step::Next {
            state: after,
            skip,
        } ==> runs_as_written(items, landing(items, i + 1, skip), after, data),
    ensures
        runs_as_written(items, i, state, data),
{
    let relaxed = layout::relaxation(items);
    let prog = layout::assembled(items);
    let at = layout::position(items, relaxed, i) as int;
    let ins = items[i]->Ins_0;
    layout::lemma_encode_len(items, relaxed, items.len() as int);
    layout::encoded_in_place(items, relaxed, i, items.len() as int);
    assert(prog[at] == ins);
    if let Step::Next { state: after, skip } = machine::step(ins, state, data) {
        let next = landing(items, i + 1, skip);
        let to = at + 1 + skip;
        lemma_landing_forward(items, i + 1, skip);
        lemma_landing_position(items, relaxed, i + 1, skip);
        assert(at + 1 == layout::position(items, relaxed, i + 1));
        assert(machine::run(prog, at, state, data).steps == machine::run(
            prog,
            to,
            after,
            data,
        ).steps + 1);
        if to != layout::position(items, relaxed, next) {
            assert(machine::run(prog, to, after, data).steps == 0);
            assert(trace(items, next, after, data).straight == 0);
        }
    }
}

/// The instructions of a conditional lead to the label that the comparison
/// picks, in one step or two.
pub proof fn lemma_conditional_reaches(
    items: Seq<Item>,
    n_labels: int,
    i: int,
    holds: bool,
    state: State,
    data: Seq<u8>,
)
    requires
        layout::resolvable(items, n_labels),
        conditionals_jump(items),
        trampolines_reach(items),
        0 <= i < items.len(),
        items[i] matches Item::Cond { code, k, .. } && machine::taken(code, k, state) == Some(
            holds,
        ),
    ensures
        ({
            let relaxed = layout::relaxation(items);
            let prog = layout::assembled(items);
            let label = if holds {
                items[i]->jt
            } else {
                items[i]->jf
            };
            let here = machine::run(
                prog,
                layout::position(items, relaxed, i) as int,
                state,
                data,
            );
            let there = machine::run(
                prog,
                layout::label_position(items, relaxed, label) as int,
                state,
                data,
            );
            &&& here.ret == there.ret
            &&& there.steps + 1 <= here.steps <= there.steps + 2
        }),
{
    let relaxed = layout::relaxation(items);
    let prog = layout::assembled(items);
    let at = layout::position(items, relaxed, i) as int;
    let end = layout::position(items, relaxed, i + 1) as int;
    let label = if holds {
        items[i]->jt
    } else {
        items[i]->jf
    };
    let target = layout::label_index(items, label);
    let to = layout::position(items, relaxed, target) as int;
    layout::lemma_encode_len(items, relaxed, items.len() as int);
    layout::encoded_in_place(items, relaxed, i, items.len() as int);
    layout::lemma_mark_index(items, label, items.len() as int);
    layout::lemma_position_monotone(items, relaxed, i + 1, target);
    layout::lemma_position_monotone(items, relaxed, target, items.len() as int);
    let here = prog.subrange(at, end);
    assert(prog[at] == here[0]);
    if relaxed[i] {
        let via = if holds {
            at + 1
        } else {
            at + 2
        };
        assert(prog[via] == here[via - at]);
        assert((BPF_JMP | BPF_JA) & 0x07 == 0x05 && (BPF_JMP | BPF_JA) & 0xf0 == 0)
            by (bit_vector);
        assert(machine::step(prog[at], state, data) == Step::Next {
            state,
            skip: (via - at - 1) as nat,
        });
        assert(machine::step(prog[via], state, data) == Step::Next {
            state,
            skip: (to - via - 1) as nat,
        });
        let after = machine::run(prog, via, state, data);
        assert(after.steps == machine::run(prog, to, state, data).steps + 1);
    } else {
        layout::relaxation_is_least(items, n_labels);
        assert(layout::short(items, relaxed, i));
        assert(machine::step(prog[at], state, data) == Step::Next {
            state,
            skip: (to - at - 1) as nat,
        });
    }
}

/// A conditional whose comparison has no meaning faults when assembled too.
proof fn lemma_conditional_faults(items: Seq<Item>, i: int, state: State, data: Seq<u8>)
    requires
        conditionals_jump(items),
        0 <= i < items.len(),
        items[i] matches Item::Cond { code, k, .. } && machine::taken(code, k, state) is None,
    ensures
        runs_as_written(items, i, state, data),
{
    let relaxed = layout::relaxation(items);
    let prog = layout::assembled(items);
    let at = layout::position(items, relaxed, i) as int;
    layout::encoded_in_place(items, relaxed, i, items.len() as int);
    assert(prog[at] == prog.subrange(at, layout::position(items, relaxed, i + 1) as int)[0]);
}

/// The assembled program does what the symbolic one says, from every item on:
/// it returns the same verdict, and a conditional costs one instruction, or two
/// where it is relaxed.
///
/// The jumps of embedded instructions must hold, and no target may be farther
/// than the 32-bit offset of an unconditional jump reaches.
pub proof fn assembled_runs_as_written(
    items: Seq<Item>,
    n_labels: int,
    i: int,
    state: State,
    data: Seq<u8>,
)
    requires
        layout::resolvable(items, n_labels),
        conditionals_jump(items),
        embedded_jumps_hold(items),
        trampolines_reach(items),
        0 <= i <= items.len(),
    ensures
        runs_as_written(items, i, state, data),
    decreases ahead(items, i),
{
    if i == items.len() {
        layout::lemma_encode_len(items, layout::relaxation(items), i);
    } else {
        match items[i] {
            Item::Mark(_) => {
                assembled_runs_as_written(items, n_labels, i + 1, state, data);
            },
            Item::Ins(ins) => {
                if let Step::Next { state: after, skip } = machine::step(ins, state, data) {
                    let next = landing(items, i + 1, skip);
                    lemma_landing_forward(items, i + 1, skip);
                    assembled_runs_as_written(items, n_labels, next, after, data);
                }
                lemma_embedded_runs(items, i, state, data);
            },
            Item::Cond { code, k, jt, jf } => {
                if let Some(holds) = machine::taken(code, k, state) {
                    let label = if holds {
                        jt
                    } else {
                        jf
                    };
                    layout::lemma_mark_index(items, label, items.len() as int);
                    let target = layout::label_index(items, label);
                    assembled_runs_as_written(items, n_labels, target, state, data);
                    lemma_conditional_reaches(items, n_labels, i, holds, state, data);
                } else {
                    lemma_conditional_faults(items, i, state, data);
                }
            },
        }
    }
}

} // verus!
