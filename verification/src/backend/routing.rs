//! Where the dispatch tree sends each system-call number.

use vstd::arithmetic::power2::pow2;
use vstd::prelude::*;

use crate::backend::bpf;
use crate::backend::bpf::{
    BPF_ABS, BPF_JEQ, BPF_JGE, BPF_JMP, BPF_K, BPF_LD, BPF_RET, BPF_W,
};
use crate::backend::finished;
use crate::backend::layout;
use crate::backend::machine;
use crate::backend::machine::{State, Step};
use crate::backend::optimize::{Item, Label};
use crate::backend::symbolic;
use crate::backend::tree;
use crate::backend::SeccompAction;

verus! {

/// More leaves never make for a lower tree.
pub proof fn lemma_height_monotone(m: int, n: int)
    requires
        m <= n,
    ensures
        tree::height(m) <= tree::height(n),
    decreases n,
{
    if 1 < m {
        lemma_height_monotone(m - m / 2, n - n / 2);
    }
}

/// The dispatch is logarithmic: the longest path makes one comparison more than
/// the least `h` with `n <= 2^h`.
pub proof fn height_is_logarithmic(n: int)
    requires
        0 < n,
    ensures
        0 < tree::height(n),
        n <= pow2((tree::height(n) - 1) as nat),
        1 < n ==> 1 < tree::height(n) && pow2((tree::height(n) - 2) as nat) < n,
    decreases n,
{
    if n == 1 {
        vstd::arithmetic::power2::lemma2_to64();
    } else {
        let half = n - n / 2;
        height_is_logarithmic(half);
        let h = tree::height(half);
        vstd::arithmetic::power2::lemma_pow2_unfold(h as nat);
        if half == 1 {
            vstd::arithmetic::power2::lemma2_to64();
        } else {
            vstd::arithmetic::power2::lemma_pow2_unfold((h - 1) as nat);
        }
    }
}

/// Item `j` of a tree in place: a conditional that jumps forward to a label of
/// the tree or to the default, an instruction that ends the run, or a mark of a
/// label of the tree.
pub open spec fn well_placed(
    items: Seq<Item>,
    j: int,
    next: int,
    free: int,
    default: Label,
) -> bool {
    match items[j] {
        Item::Cond { code, jt, jf, .. } => {
            &&& code & 0x07 == 0x05 && code & 0xf0 != 0
            &&& next <= jt < free
            &&& next <= jf < free || jf == default
            &&& j < layout::label_index(items, jt)
            &&& j < layout::label_index(items, jf)
        },
        Item::Ins(ins) => forall|state: State, data: Seq<u8>|
            #[trigger] machine::step(ins, state, data) is Return,
        Item::Mark(label) => next <= label < free,
    }
}

/// All jumps of a tree are forward, if the default label is behind it; they
/// stay among the tree's own labels and the default.
pub proof fn tree_jumps_forward(
    items: Seq<Item>,
    at: int,
    leaves: Seq<(i64, SeccompAction)>,
    next: int,
    default: Label,
)
    requires
        tree::holds_tree(items, at, leaves, next, default),
        at + tree::item_count(leaves.len() as int) <= layout::label_index(items, default),
    ensures
        forall|j: int|
            #![trigger items[j]]
            at <= j < at + tree::item_count(leaves.len() as int) ==> well_placed(
                items,
                j,
                next,
                next + tree::label_count(leaves.len() as int),
                default,
            ),
    decreases leaves.len(),
{
    let n = leaves.len() as int;
    let free = next + tree::label_count(n);
    assert((BPF_JMP | BPF_JEQ | BPF_K) & 0x07 == 0x05 && (BPF_JMP | BPF_JEQ | BPF_K) & 0xf0 != 0)
        by (bit_vector);
    assert((BPF_JMP | BPF_JGE | BPF_K) & 0x07 == 0x05 && (BPF_JMP | BPF_JGE | BPF_K) & 0xf0 != 0)
        by (bit_vector);
    assert((BPF_RET | BPF_K) & 0x07 == 0x06) by (bit_vector);
    if n == 1 {
        tree::lemma_leaf_in_place(items, at, leaves, next, default);
    } else {
        let mid = n / 2;
        let second = next + 2 + tree::label_count(mid);
        let split = at + 2 + tree::item_count(mid);
        tree::lemma_branch_in_place(items, at, leaves, next, default);
        tree_jumps_forward(items, at + 2, leaves.take(mid), next + 2, default);
        tree_jumps_forward(items, split + 1, leaves.skip(mid), second, default);
        assert forall|j: int|
            #![trigger items[j]]
            at <= j < at + tree::item_count(n) implies well_placed(
            items,
            j,
            next,
            free,
            default,
        ) by {
            if at + 2 <= j < split {
                assert(well_placed(items, j, next + 2, second, default));
            } else if split < j {
                assert(well_placed(items, j, second, free, default));
            }
        }
    }
}

/// The tree routes every number: a listed one returns its own action, one that
/// is absent goes on at the default label, after no more comparisons than the
/// height of the tree.
pub open spec fn routes(
    items: Seq<Item>,
    at: int,
    leaves: Seq<(i64, SeccompAction)>,
    default: Label,
    state: State,
    data: Seq<u8>,
) -> bool {
    let found = symbolic::trace(items, at, state, data);
    let missed = symbolic::trace(items, layout::label_index(items, default), state, data);
    let height = tree::height(leaves.len() as int);
    &&& forall|i: int|
        #![trigger leaves[i]]
        0 <= i < leaves.len() && leaves[i].0 == state.a ==> {
            &&& found.ret == Some(crate::backend::action_value(leaves[i].1))
            &&& found.straight == 1
            &&& 1 <= found.tests <= height
        }
    &&& (forall|i: int| 0 <= i < leaves.len() ==> (#[trigger] leaves[i]).0 != state.a) ==> {
        &&& found.ret == missed.ret
        &&& found.straight == missed.straight
        &&& missed.tests + 1 <= found.tests <= missed.tests + height
    }
}

/// A tree in place routes the number in the accumulator.
pub proof fn tree_routes(
    items: Seq<Item>,
    at: int,
    leaves: Seq<(i64, SeccompAction)>,
    next: int,
    default: Label,
    state: State,
    data: Seq<u8>,
)
    requires
        tree::holds_tree(items, at, leaves, next, default),
        at + tree::item_count(leaves.len() as int) <= layout::label_index(items, default),
        tree::ascending(leaves),
        tree::numbers_fit(leaves),
    ensures
        routes(items, at, leaves, default, state, data),
    decreases leaves.len(),
{
    let n = leaves.len() as int;
    if n == 1 {
        assert((BPF_JMP | BPF_JEQ | BPF_K) & 0xf0 == 0x10 && (BPF_JMP | BPF_JEQ | BPF_K) & 0x08
            == 0) by (bit_vector);
        assert((BPF_RET | BPF_K) & 0x07 == 0x06 && (BPF_RET | BPF_K) & 0x18 != 0x10)
            by (bit_vector);
        tree::lemma_leaf_in_place(items, at, leaves, next, default);
        let last = symbolic::trace(items, at + 2, state, data);
        assert(last.straight == 1);
        assert(symbolic::trace(items, at + 1, state, data) == last);
    } else {
        assert((BPF_JMP | BPF_JGE | BPF_K) & 0xf0 == 0x30 && (BPF_JMP | BPF_JGE | BPF_K) & 0x08
            == 0) by (bit_vector);
        let mid = n / 2;
        let lower = leaves.take(mid);
        let upper = leaves.skip(mid);
        let split = at + 2 + tree::item_count(mid);
        tree::lemma_branch_in_place(items, at, leaves, next, default);
        lemma_height_monotone(mid, n - mid);
        assert(tree::ascending(lower));
        assert(tree::ascending(upper));
        assert(tree::numbers_fit(lower));
        assert(tree::numbers_fit(upper));
        assert(0 <= leaves[mid].0 <= u32::MAX);
        if state.a >= leaves[mid].0 {
            tree_routes(
                items,
                split + 1,
                upper,
                next + 2 + tree::label_count(mid),
                default,
                state,
                data,
            );
            assert(symbolic::trace(items, split, state, data) == symbolic::trace(
                items,
                split + 1,
                state,
                data,
            ));
            assert forall|i: int| 0 <= i < n && (#[trigger] leaves[i]).0 == state.a implies mid <= i
                && upper[i - mid] == leaves[i] by {}
        } else {
            tree_routes(items, at + 2, lower, next + 2, default, state, data);
            assert(symbolic::trace(items, at + 1, state, data) == symbolic::trace(
                items,
                at + 2,
                state,
                data,
            ));
            assert forall|i: int| 0 <= i < n && (#[trigger] leaves[i]).0 == state.a implies i < mid
                && lower[i] == leaves[i] by {}
        }
    }
}

/// A number that is not listed takes one instruction or two for each comparison
/// on its way to the default label.
proof fn lemma_miss_cost(
    items: Seq<Item>,
    n_labels: int,
    at: int,
    leaves: Seq<(i64, SeccompAction)>,
    next: int,
    default: Label,
    state: State,
    data: Seq<u8>,
)
    requires
        tree::holds_tree(items, at, leaves, next, default),
        tree::numbers_fit(leaves),
        forall|i: int| 0 <= i < leaves.len() ==> (#[trigger] leaves[i]).0 != state.a,
        layout::resolvable(items, n_labels),
        symbolic::conditionals_jump(items),
        symbolic::trampolines_reach(items),
    ensures
        ({
            let relaxed = layout::relaxation(items);
            let prog = layout::assembled(items);
            let from_tree = layout::position(items, relaxed, at) as int;
            let from_default = layout::label_position(items, relaxed, default) as int;
            let found = machine::run(prog, from_tree, state, data);
            let missed = machine::run(prog, from_default, state, data);
            missed.steps < found.steps <= missed.steps + 2 * tree::height(leaves.len() as int)
        }),
    decreases leaves.len(),
{
    let n = leaves.len() as int;
    let relaxed = layout::relaxation(items);
    if n == 1 {
        assert((BPF_JMP | BPF_JEQ | BPF_K) & 0xf0 == 0x10 && (BPF_JMP | BPF_JEQ | BPF_K) & 0x08
            == 0) by (bit_vector);
        tree::lemma_leaf_in_place(items, at, leaves, next, default);
        assert(0 <= leaves[0].0 <= u32::MAX);
        symbolic::lemma_conditional_reaches(items, n_labels, at, false, state, data);
    } else {
        assert((BPF_JMP | BPF_JGE | BPF_K) & 0xf0 == 0x30 && (BPF_JMP | BPF_JGE | BPF_K) & 0x08
            == 0) by (bit_vector);
        let mid = n / 2;
        let lower = leaves.take(mid);
        let upper = leaves.skip(mid);
        let second = next + 2 + tree::label_count(mid);
        let split = at + 2 + tree::item_count(mid);
        tree::lemma_branch_in_place(items, at, leaves, next, default);
        lemma_height_monotone(mid, n - mid);
        assert(0 <= leaves[mid].0 <= u32::MAX);
        let holds = state.a >= leaves[mid].0;
        symbolic::lemma_conditional_reaches(items, n_labels, at, holds, state, data);
        if holds {
            lemma_miss_cost(items, n_labels, split + 1, upper, second, default, state, data);
            assert(layout::position(items, relaxed, split + 1) == layout::position(
                items,
                relaxed,
                split,
            ));
        } else {
            lemma_miss_cost(items, n_labels, at + 2, lower, next + 2, default, state, data);
            assert(layout::position(items, relaxed, at + 2) == layout::position(
                items,
                relaxed,
                at + 1,
            ));
        }
    }
}

/// The assembled dispatch routes every number: from the tree's position on, a
/// listed number returns its own action, and an absent one ends as a run from
/// the default label does. Either way the tree costs at most two instructions
/// for each comparison on its longest path.
pub proof fn assembled_tree_routes(
    items: Seq<Item>,
    n_labels: int,
    at: int,
    leaves: Seq<(i64, SeccompAction)>,
    next: int,
    default: Label,
    state: State,
    data: Seq<u8>,
)
    requires
        tree::holds_tree(items, at, leaves, next, default),
        at + tree::item_count(leaves.len() as int) <= layout::label_index(items, default),
        tree::ascending(leaves),
        tree::numbers_fit(leaves),
        layout::resolvable(items, n_labels),
        symbolic::conditionals_jump(items),
        symbolic::embedded_jumps_hold(items),
        symbolic::trampolines_reach(items),
    ensures
        ({
            let relaxed = layout::relaxation(items);
            let prog = layout::assembled(items);
            let from_tree = layout::position(items, relaxed, at) as int;
            let from_default = layout::label_position(items, relaxed, default) as int;
            let found = machine::run(prog, from_tree, state, data);
            let missed = machine::run(prog, from_default, state, data);
            let height = tree::height(leaves.len() as int);
            &&& forall|i: int|
                #![trigger leaves[i]]
                0 <= i < leaves.len() && leaves[i].0 == state.a ==> {
                    &&& found.ret == Some(crate::backend::action_value(leaves[i].1))
                    &&& found.steps <= 2 * height + 1
                }
            &&& (forall|i: int| 0 <= i < leaves.len() ==> (#[trigger] leaves[i]).0 != state.a)
                ==> {
                &&& found.ret == missed.ret
                &&& missed.steps < found.steps <= missed.steps + 2 * height
            }
        }),
{
    if forall|i: int| 0 <= i < leaves.len() ==> (#[trigger] leaves[i]).0 != state.a {
        lemma_miss_cost(items, n_labels, at, leaves, next, default, state, data);
    }
    tree_routes(items, at, leaves, next, default, state, data);
    symbolic::assembled_runs_as_written(items, n_labels, at, state, data);
    layout::lemma_mark_index(items, default, items.len() as int);
    let target = layout::label_index(items, default);
    symbolic::assembled_runs_as_written(items, n_labels, target, state, data);
}

/// An appended tree stands in place, whatever is appended after it without
/// marking its labels anew.
pub proof fn appended_tree_in_place(
    before: Seq<Item>,
    leaves: Seq<(i64, SeccompAction)>,
    next: int,
    default: Label,
    after: Seq<Item>,
)
    requires
        0 < leaves.len(),
        0 <= next,
        next + tree::label_count(leaves.len() as int) <= usize::MAX,
        forall|j: int|
            0 <= j < after.len() ==> match #[trigger] after[j] {
                Item::Mark(label) => label < next || next + tree::label_count(leaves.len() as int)
                    <= label,
                _ => true,
            },
    ensures
        tree::holds_tree(
            before + tree::tree_items(leaves, next, default) + after,
            before.len() as int,
            leaves,
            next,
            default,
        ),
{
    let part = tree::tree_items(leaves, next, default);
    let items = before + part + after;
    let at = before.len() as int;
    let end = at + tree::item_count(leaves.len() as int);
    tree::lemma_tree_len(leaves, next, default);
    assert(items.subrange(at, end) =~= part);
    assert forall|j: int| end <= j < items.len() implies match #[trigger] items[j] {
        Item::Mark(label) => !(next <= label < next + tree::label_count(leaves.len() as int)),
        _ => true,
    } by {
        assert(items[j] == after[j - end]);
    }
}

/// A tree over `n` leaves takes up two instructions for each leaf and one for
/// each branch, and two more for each conditional that relaxes.
pub proof fn tree_size(
    items: Seq<Item>,
    relaxed: Seq<bool>,
    at: int,
    leaves: Seq<(i64, SeccompAction)>,
    next: int,
    default: Label,
)
    requires
        tree::holds_tree(items, at, leaves, next, default),
    ensures
        ({
            let n = leaves.len() as int;
            let size = layout::position(items, relaxed, at + tree::item_count(n))
                - layout::position(items, relaxed, at);
            2 * n + (n - 1) <= size <= 4 * n + 3 * (n - 1)
        }),
    decreases leaves.len(),
{
    let n = leaves.len() as int;
    let start = layout::position(items, relaxed, at);
    if n == 1 {
        tree::lemma_leaf_in_place(items, at, leaves, next, default);
        assert(layout::position(items, relaxed, at + 1) <= start + 3);
        assert(layout::position(items, relaxed, at + 2) == layout::position(
            items,
            relaxed,
            at + 1,
        ));
    } else {
        let mid = n / 2;
        let split = at + 2 + tree::item_count(mid);
        let second = next + 2 + tree::label_count(mid);
        tree::lemma_branch_in_place(items, at, leaves, next, default);
        assert(layout::position(items, relaxed, at + 1) <= start + 3);
        assert(layout::position(items, relaxed, at + 2) == layout::position(
            items,
            relaxed,
            at + 1,
        ));
        tree_size(items, relaxed, at + 2, leaves.take(mid), next + 2, default);
        assert(layout::position(items, relaxed, split + 1) == layout::position(
            items,
            relaxed,
            split,
        ));
        tree_size(items, relaxed, split + 1, leaves.skip(mid), second, default);
    }
}

/// A whole filter on the number alone: load it, search for it, and return
/// `verdict` where it is absent.
pub open spec fn filter_items(leaves: Seq<(i64, SeccompAction)>, verdict: u32) -> Seq<Item> {
    seq![Item::Ins(bpf::stmt(BPF_LD | BPF_W | BPF_ABS, 0))] + tree::tree_items(leaves, 1, 0)
        + seq![Item::Mark(0), Item::Ins(bpf::stmt(BPF_RET | BPF_K, verdict))]
}

/// Such a filter assembles, and all that is asked of its items holds.
pub proof fn filter_is_sound(leaves: Seq<(i64, SeccompAction)>, verdict: u32)
    requires
        0 < leaves.len(),
        1 + tree::label_count(leaves.len() as int) <= usize::MAX,
    ensures
        ({
            let items = filter_items(leaves, verdict);
            let end = 1 + tree::item_count(leaves.len() as int);
            &&& items.len() == end + 2
            &&& items[end] == Item::Mark(0)
            &&& items[end + 1] == Item::Ins(bpf::stmt(BPF_RET | BPF_K, verdict))
            &&& tree::holds_tree(items, 1, leaves, 1, 0)
            &&& layout::label_index(items, 0) == end
            &&& layout::resolvable(items, 1 + tree::label_count(leaves.len() as int))
            &&& symbolic::conditionals_jump(items)
            &&& symbolic::embedded_jumps_hold(items)
        }),
{
    let n = leaves.len() as int;
    let free = 1 + tree::label_count(n);
    let load = Item::Ins(bpf::stmt(BPF_LD | BPF_W | BPF_ABS, 0));
    let give_up = Item::Ins(bpf::stmt(BPF_RET | BPF_K, verdict));
    let before = seq![load];
    let after = seq![Item::Mark(0), give_up];
    let items = filter_items(leaves, verdict);
    let end = 1 + tree::item_count(n);
    tree::lemma_tree_len(leaves, 1, 0);
    appended_tree_in_place(before, leaves, 1, 0, after);
    assert(items[0] == load);
    assert(items[end] == after[0]);
    assert(items[end + 1] == after[1]);
    layout::lemma_last_mark(items, 0, end);
    tree_jumps_forward(items, 1, leaves, 1, 0);
    assert((BPF_LD | BPF_W | BPF_ABS) & 0x07 == 0) by (bit_vector);
    assert((BPF_RET | BPF_K) & 0x07 == 0x06) by (bit_vector);
    assert forall|i: int| 0 <= i < items.len() implies match #[trigger] items[i] {
        Item::Ins(_) => true,
        Item::Cond { jt, jf, .. } => {
            &&& jt < free
            &&& jf < free
            &&& i < layout::label_index(items, jt)
            &&& i < layout::label_index(items, jf)
        },
        Item::Mark(label) => label < free,
    } by {
        if 1 <= i < end {
            assert(well_placed(items, i, 1, free, 0));
        }
    }
    assert forall|i: int| 0 <= i < items.len() implies match #[trigger] items[i] {
        Item::Cond { code, .. } => code & 0x07 == 0x05 && code & 0xf0 != 0,
        _ => true,
    } by {
        if 1 <= i < end {
            assert(well_placed(items, i, 1, free, 0));
        }
    }
    assert forall|i: int| 0 <= i < items.len() implies match #[trigger] items[i] {
        Item::Ins(ins) => forall|state: State, data: Seq<u8>|
            match #[trigger] machine::step(ins, state, data) {
                Step::Next { skip, .. } => skip == 0,
                _ => true,
            },
        _ => true,
    } by {
        if 1 <= i < end {
            assert(well_placed(items, i, 1, free, 0));
        }
    }
}

/// A filter over `n` numbers has at least `3n + 1` and at most `7n - 1`
/// instructions.
pub proof fn filter_size(leaves: Seq<(i64, SeccompAction)>, verdict: u32)
    requires
        0 < leaves.len(),
        1 + tree::label_count(leaves.len() as int) <= usize::MAX,
    ensures
        3 * leaves.len() + 1 <= layout::assembled(filter_items(leaves, verdict)).len() <= 7
            * leaves.len() - 1,
{
    let items = filter_items(leaves, verdict);
    let relaxed = layout::relaxation(items);
    let end = 1 + tree::item_count(leaves.len() as int);
    filter_is_sound(leaves, verdict);
    tree_size(items, relaxed, 1, leaves, 1, 0);
    layout::lemma_encode_len(items, relaxed, end + 2);
    assert(layout::position(items, relaxed, 0) == 0);
    assert(layout::position(items, relaxed, 1) == 1) by {
        assert(items[0] is Ins);
    }
    assert(layout::position(items, relaxed, end + 1) == layout::position(items, relaxed, end));
}

/// A filter consists of instructions that a kernel knows, on all bits of their
/// codes: a load of the number, comparisons with listed numbers, unconditional
/// jumps and returns. It ends with the default verdict, and no jump leaves it.
pub proof fn filter_loads(leaves: Seq<(i64, SeccompAction)>, verdict: u32)
    requires
        0 < leaves.len(),
        1 + tree::label_count(leaves.len() as int) <= usize::MAX,
        tree::numbers_fit(leaves),
        layout::assembled(filter_items(leaves, verdict)).len() <= u64::MAX,
    ensures
        ({
            let prog = layout::assembled(filter_items(leaves, verdict));
            &&& 0 < prog.len()
            &&& prog.last().code == 0x06 && prog.last().k == verdict
            &&& forall|pc: int|
                0 <= pc < prog.len() ==> {
                    let ins = #[trigger] prog[pc];
                    ||| ins.code == 0x20 && ins.jt == 0 && ins.jf == 0 && ins.k == 0
                    ||| ins.code == 0x06 && ins.jt == 0 && ins.jf == 0
                    ||| ins.code == 0x05 && ins.jt == 0 && ins.jf == 0 && pc + 1 + ins.k
                        < prog.len()
                    ||| {
                        &&& ins.code == 0x15 || ins.code == 0x35
                        &&& pc + 1 + ins.jt < prog.len()
                        &&& pc + 1 + ins.jf < prog.len()
                        &&& exists|i: int| 0 <= i < leaves.len() && ins.k == (#[trigger] leaves[i]).0
                    }
                }
        }),
{
    let n = leaves.len() as int;
    let items = filter_items(leaves, verdict);
    let prog = layout::assembled(items);
    let part = tree::tree_items(leaves, 1, 0);
    let end = 1 + tree::item_count(n);
    filter_is_sound(leaves, verdict);
    tree::tree_asks_for_all(leaves, 1, 0);
    finished::assembled_stays_inside(items, 1 + tree::label_count(n));
    assert((BPF_LD | BPF_W | BPF_ABS) == 0x20) by (bit_vector);
    assert((BPF_RET | BPF_K) == 0x06) by (bit_vector);
    assert forall|pc: int| 0 <= pc < prog.len() implies {
        let ins = #[trigger] prog[pc];
        ||| ins.code == 0x20 && ins.jt == 0 && ins.jf == 0 && ins.k == 0
        ||| ins.code == 0x06 && ins.jt == 0 && ins.jf == 0
        ||| ins.code == 0x05 && ins.jt == 0 && ins.jf == 0 && pc + 1 + ins.k < prog.len()
        ||| {
            &&& ins.code == 0x15 || ins.code == 0x35
            &&& pc + 1 + ins.jt < prog.len()
            &&& pc + 1 + ins.jf < prog.len()
            &&& exists|i: int| 0 <= i < leaves.len() && ins.k == (#[trigger] leaves[i]).0
        }
    } by {
        let ins = prog[pc];
        assert(finished::accounted_for(items, prog, pc));
        let i = choose|i: int|
            0 <= i < items.len() && match #[trigger] items[i] {
                Item::Mark(_) => false,
                Item::Ins(given) => ins == given,
                Item::Cond { code, k, .. } => {
                    ||| {
                        &&& ins.code == code
                        &&& ins.k == k
                        &&& pc + 1 + ins.jt < prog.len()
                        &&& pc + 1 + ins.jf < prog.len()
                    }
                    ||| {
                        &&& ins.code == 0x05
                        &&& ins.jt == 0
                        &&& ins.jf == 0
                        &&& pc + 1 + ins.k < prog.len()
                    }
                },
            };
        if 1 <= i < end {
            assert(items[i] == part[i - 1]);
            assert(tree::belongs(part, i - 1, leaves, 0));
        }
    }
}

/// A filter decides as its table says: a number that is listed gets its own
/// action, any other gets the default verdict, and no run is longer than the
/// height of the tree asks for.
pub proof fn filter_decides(
    leaves: Seq<(i64, SeccompAction)>,
    verdict: u32,
    nr: u32,
    data: Seq<u8>,
)
    requires
        0 < leaves.len(),
        1 + tree::label_count(leaves.len() as int) <= usize::MAX,
        tree::ascending(leaves),
        tree::numbers_fit(leaves),
        symbolic::trampolines_reach(filter_items(leaves, verdict)),
        machine::word_at(data, 0) == Some(nr),
    ensures
        ({
            let prog = layout::assembled(filter_items(leaves, verdict));
            let outcome = machine::run(prog, 0, machine::initial(), data);
            &&& forall|i: int|
                #![trigger leaves[i]]
                0 <= i < leaves.len() && leaves[i].0 == nr ==> outcome.ret == Some(
                    crate::backend::action_value(leaves[i].1),
                )
            &&& (forall|i: int| 0 <= i < leaves.len() ==> (#[trigger] leaves[i]).0 != nr)
                ==> outcome.ret == Some(verdict)
            &&& outcome.steps <= 2 * tree::height(leaves.len() as int) + 2
        }),
{
    let n = leaves.len() as int;
    let items = filter_items(leaves, verdict);
    let end = 1 + tree::item_count(n);
    let state = machine::initial();
    let loaded = State { a: nr, ..state };
    filter_is_sound(leaves, verdict);
    tree_routes(items, 1, leaves, 1, 0, loaded, data);
    symbolic::assembled_runs_as_written(items, 1 + tree::label_count(n), 0, state, data);
    assert((BPF_LD | BPF_W | BPF_ABS) & 0x07 == 0 && (BPF_LD | BPF_W | BPF_ABS) & 0xe0 == 0x20)
        by (bit_vector);
    assert((BPF_RET | BPF_K) & 0x07 == 0x06 && (BPF_RET | BPF_K) & 0x18 != 0x10) by (bit_vector);
    let first = bpf::stmt(BPF_LD | BPF_W | BPF_ABS, 0);
    assert(items[0] == Item::Ins(first));
    assert(machine::step(first, state, data) == Step::Next { state: loaded, skip: 0 });
    assert(symbolic::landing(items, 1, 0) == 1);
    let routed = symbolic::trace(items, 1, loaded, data);
    assert(symbolic::trace(items, 0, state, data).ret == routed.ret);
    let last = symbolic::trace(items, end + 1, loaded, data);
    assert(last.ret == Some(verdict) && last.straight == 1 && last.tests == 0);
    assert(symbolic::trace(items, end, loaded, data) == last);
    assert(routed.straight == 1 && routed.tests <= tree::height(n));
}

} // verus!
