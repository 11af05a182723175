//! Optimized dispatch: a binary search over system-call numbers in place of a
//! linear scan, so that the worst case takes O(log n) comparisons, not O(n).
//!
//! Classic-BPF conditional jumps carry 8-bit offsets. A label-based assembler
//! resolves symbolic targets and, where a target is out of 8-bit range, relaxes
//! the conditional into a short one plus two 32-bit `JA` trampolines. All jumps
//! are forward, as the top-down layout of the tree has them.

use vstd::prelude::*;

use crate::backend::bpf::{
    bpf_jump, bpf_stmt, sock_filter, BPF_JA, BPF_JEQ, BPF_JGE, BPF_JMP, BPF_K, BPF_RET,
};
use crate::backend::finished;
use crate::backend::layout;
use crate::backend::tree;
use crate::backend::SeccompAction;

verus! {

/// The name of a place in a symbolic program.
pub type Label = usize;

/// One item of a symbolic program.
#[derive(Clone, Copy, Debug, PartialEq, Eq, Structural)]
pub enum Item {
    /// A finished instruction, embedded verbatim: its own relative offsets are
    /// already correct and are never rewritten.
    Ins(sock_filter),
    /// A conditional jump between two labels.
    Cond {
        /// The jump instruction's code.
        code: u16,
        /// The constant it compares with.
        k: u32,
        /// Where to go on when the comparison holds.
        jt: Label,
        /// Where to go on when it does not.
        jf: Label,
    },
    /// The place that a label names; takes up no instruction.
    Mark(Label),
}

/// Number of items that are not relaxed.
spec fn unrelaxed(relaxed: Seq<bool>) -> nat
    decreases relaxed.len(),
{
    if relaxed.len() == 0 {
        0
    } else {
        unrelaxed(relaxed.drop_last()) + if relaxed.last() { 0nat } else { 1nat }
    }
}

/// Relaxing one more item lowers the count by one.
proof fn lemma_unrelaxed_update(relaxed: Seq<bool>, i: int)
    requires
        0 <= i < relaxed.len(),
        !relaxed[i],
    ensures
        unrelaxed(relaxed.update(i, true)) + 1 == unrelaxed(relaxed),
    decreases relaxed.len(),
{
    let updated = relaxed.update(i, true);
    if i == relaxed.len() - 1 {
        assert(updated.drop_last() =~= relaxed.drop_last());
    } else {
        lemma_unrelaxed_update(relaxed.drop_last(), i);
        assert(updated.drop_last() =~= relaxed.drop_last().update(i, true));
    }
}

/// The positions of every label, of every item and of the program's end under
/// the relaxation state `relaxed`.
fn place(items: &[Item], relaxed: &Vec<bool>, n_labels: usize) -> (places: (
    Vec<usize>,
    Vec<usize>,
    usize,
))
    requires
        3 * items.len() <= usize::MAX,
        relaxed.len() == items.len(),
        layout::resolvable(items@, n_labels as int),
    ensures
        places.0.len() == n_labels,
        forall|label: Label|
            label < n_labels ==> #[trigger] places.0[label as int] == layout::label_position(
                items@,
                relaxed@,
                label,
            ),
        places.1.len() == items.len(),
        forall|i: int|
            0 <= i < items.len() ==> #[trigger] places.1[i] == layout::position(
                items@,
                relaxed@,
                i,
            ),
        places.2 == layout::position(items@, relaxed@, items.len() as int),
{
    let mut label_pos: Vec<usize> = vec![0usize; n_labels];
    let mut item_pos: Vec<usize> = vec![0usize; items.len()];
    let mut p: usize = 0;
    let mut i: usize = 0;
    while i < items.len()
        invariant
            i <= items.len(),
            3 * items.len() <= usize::MAX,
            relaxed.len() == items.len(),
            layout::resolvable(items@, n_labels as int),
            p == layout::position(items@, relaxed@, i as int),
            p <= 3 * i,
            label_pos.len() == n_labels,
            forall|label: Label|
                label < n_labels ==> #[trigger] label_pos[label as int] == layout::position(
                    items@,
                    relaxed@,
                    layout::mark_index(items@, label, i as int),
                ),
            item_pos.len() == items.len(),
            forall|j: int|
                0 <= j < i ==> #[trigger] item_pos[j] == layout::position(items@, relaxed@, j),
        decreases items.len() - i,
    {
        item_pos[i] = p;
        match &items[i] {
            Item::Mark(label) => {
                label_pos[*label] = p;
            },
            Item::Ins(_) => {
                p += 1;
            },
            Item::Cond { .. } => {
                p += if relaxed[i] {
                    3
                } else {
                    1
                };
            },
        }
        i += 1;
    }
    (label_pos, item_pos, p)
}

/// Whether `target` is within 8 bits forward of `next`.
fn reaches(target: usize, next: usize) -> (yes: bool)
    ensures
        yes == (0 <= target - next <= 255),
{
    target >= next && target - next <= 255
}

/// Relaxes each conditional with a target out of 8-bit range, and says whether
/// there was one.
fn relax(
    items: &[Item],
    label_pos: &Vec<usize>,
    item_pos: &Vec<usize>,
    relaxed: &mut Vec<bool>,
) -> (changed: bool)
    requires
        3 * items.len() <= usize::MAX,
        old(relaxed).len() == items.len(),
        layout::resolvable(items@, label_pos.len() as int),
        forall|label: Label|
            label < label_pos.len() ==> #[trigger] label_pos[label as int]
                == layout::label_position(items@, old(relaxed)@, label),
        item_pos.len() == items.len(),
        forall|i: int|
            0 <= i < items.len() ==> #[trigger] item_pos[i] == layout::position(
                items@,
                old(relaxed)@,
                i,
            ),
    ensures
        final(relaxed).len() == items.len(),
        forall|i: int|
            0 <= i < items.len() ==> #[trigger] final(relaxed)[i] == (old(relaxed)[i]
                || !layout::short(items@, old(relaxed)@, i)),
        changed == !layout::stable(items@, old(relaxed)@),
        changed ==> unrelaxed(final(relaxed)@) < unrelaxed(old(relaxed)@),
{
    let ghost before = relaxed@;
    let mut changed: bool = false;
    let mut i: usize = 0;
    while i < items.len()
        invariant
            i <= items.len(),
            3 * items.len() <= usize::MAX,
            relaxed.len() == items.len(),
            before.len() == items.len(),
            layout::resolvable(items@, label_pos.len() as int),
            forall|label: Label|
                label < label_pos.len() ==> #[trigger] label_pos[label as int]
                    == layout::label_position(items@, before, label),
            item_pos.len() == items.len(),
            forall|j: int|
                0 <= j < items.len() ==> #[trigger] item_pos[j] == layout::position(
                    items@,
                    before,
                    j,
                ),
            forall|j: int|
                0 <= j < i ==> #[trigger] relaxed[j] == (before[j] || !layout::short(
                    items@,
                    before,
                    j,
                )),
            forall|j: int| i <= j < items.len() ==> #[trigger] relaxed[j] == before[j],
            changed == !(forall|j: int|
                0 <= j < i ==> #[trigger] before[j] || layout::short(items@, before, j)),
            !changed ==> relaxed@ == before,
            changed ==> unrelaxed(relaxed@) < unrelaxed(before),
        decreases items.len() - i,
    {
        let ghost so_far = relaxed@;
        if let Item::Cond { jt, jf, .. } = &items[i] {
            if !relaxed[i] {
                proof {
                    layout::lemma_position_bound(items@, before, i as int);
                }
                let next: usize = item_pos[i] + 1;
                if !reaches(label_pos[*jt], next) || !reaches(label_pos[*jf], next) {
                    relaxed[i] = true;
                    changed = true;
                    proof {
                        lemma_unrelaxed_update(so_far, i as int);
                        assert(relaxed@ =~= so_far.update(i as int, true));
                        assert(!before[i as int]);
                    }
                }
            }
        }
        assert(relaxed[i as int] == (before[i as int] || !layout::short(items@, before, i as int)));
        i += 1;
    }
    changed
}

/// Writes the program out, with every label known.
fn write_out(items: &[Item], label_pos: &Vec<usize>, relaxed: &Vec<bool>, size: usize) -> (out: Vec<
    sock_filter,
>)
    requires
        3 * items.len() <= usize::MAX,
        relaxed.len() == items.len(),
        layout::resolvable(items@, label_pos.len() as int),
        forall|label: Label|
            label < label_pos.len() ==> #[trigger] label_pos[label as int]
                == layout::label_position(items@, relaxed@, label),
    ensures
        out@ == layout::encode(items@, relaxed@, items.len() as int),
{
    let mut out: Vec<sock_filter> = Vec::with_capacity(size);
    let mut i: usize = 0;
    while i < items.len()
        invariant
            i <= items.len(),
            3 * items.len() <= usize::MAX,
            relaxed.len() == items.len(),
            layout::resolvable(items@, label_pos.len() as int),
            forall|label: Label|
                label < label_pos.len() ==> #[trigger] label_pos[label as int]
                    == layout::label_position(items@, relaxed@, label),
            out@ == layout::encode(items@, relaxed@, i as int),
            out.len() == layout::position(items@, relaxed@, i as int),
        decreases items.len() - i,
    {
        proof {
            layout::lemma_position_bound(items@, relaxed@, i as int);
        }
        let ghost so_far = out@;
        match &items[i] {
            Item::Mark(_) => {},
            Item::Ins(ins) => {
                out.push(*ins);
            },
            Item::Cond { code, k, jt, jf } => {
                proof {
                    layout::lemma_position_monotone(
                        items@,
                        relaxed@,
                        i + 1,
                        layout::label_index(items@, *jt),
                    );
                    layout::lemma_position_monotone(
                        items@,
                        relaxed@,
                        i + 1,
                        layout::label_index(items@, *jf),
                    );
                }
                if relaxed[i] {
                    // Cond k, 0, 1 ; JA jt ; JA jf
                    out.push(bpf_jump(*code, *k, 0, 1));
                    let off: usize = label_pos[*jt] - (out.len() + 1);
                    out.push(bpf_stmt(BPF_JMP | BPF_JA, off as u32));
                    let off: usize = label_pos[*jf] - (out.len() + 1);
                    out.push(bpf_stmt(BPF_JMP | BPF_JA, off as u32));
                } else {
                    let next: usize = out.len() + 1;
                    let jt_off: u8 = (label_pos[*jt] - next) as u8;
                    let jf_off: u8 = (label_pos[*jf] - next) as u8;
                    out.push(bpf_jump(*code, *k, jt_off, jf_off));
                }
            },
        }
        i += 1;
        assert(out@ =~= so_far + layout::encode_item(items@, relaxed@, i - 1));
    }
    out
}

/// Resolves the labels and emits the final program: every conditional is one
/// instruction unless it has to relax, every other item is as it was.
///
/// Every conditional must jump forward, to a label that is marked. The length of
/// the fully relaxed program must fit in a `usize`, as it does for every slice
/// of items that fits in memory.
pub fn assemble(items: &[Item], n_labels: usize) -> (out: Vec<sock_filter>)
    requires
        layout::resolvable(items@, n_labels as int),
        3 * items.len() <= usize::MAX,
    ensures
        out@ == layout::assembled(items@),
        finished::finished(items@, out@),
{
    let mut relaxed: Vec<bool> = vec![false; items.len()];
    loop
        invariant
            layout::resolvable(items@, n_labels as int),
            3 * items.len() <= usize::MAX,
            relaxed.len() == items.len(),
            layout::within(relaxed@, layout::relaxation(items@)),
        decreases unrelaxed(relaxed@),
    {
        let ghost before = relaxed@;
        // Positions of every item and label under the current relaxation state.
        let (label_pos, item_pos, size) = place(items, &relaxed, n_labels);
        // A conditional whose target is not a forward jump within 8 bits must relax.
        if relax(items, &label_pos, &item_pos, &mut relaxed) {
            proof {
                let least = layout::relaxation(items@);
                layout::relaxation_is_least(items@, n_labels as int);
                assert forall|i: int| 0 <= i < items.len() && #[trigger] relaxed@[i] implies least[i] by {
                    if !before[i] && !least[i] {
                        assert(least[i] || layout::short(items@, least, i));
                        layout::lemma_short_monotone(items@, n_labels as int, before, least, i);
                    }
                }
            }
            continue ;
        }
        // Stable: emit.
        proof {
            assert(relaxed@ =~= before);
            layout::lemma_relaxation_unique(items@, n_labels as int, before);
            finished::assembled_is_finished(items@, n_labels as int);
        }
        return write_out(items, &label_pos, &relaxed, size);
    }
}

/// Appends a balanced binary-search dispatch over `leaves`, which are sorted in
/// ascending order of their numbers, and takes the labels for it from
/// `next_label` on.
pub fn build_bst(
    leaves: &[(i64, SeccompAction)],
    items: &mut Vec<Item>,
    next_label: &mut usize,
    default_label: Label,
)
    requires
        leaves.len() > 0,
        tree::ascending(leaves@),
        tree::numbers_fit(leaves@),
        *old(next_label) + tree::label_count(leaves.len() as int) <= usize::MAX,
    ensures
        final(items)@ == old(items)@ + tree::tree_items(
            leaves@,
            *old(next_label) as int,
            default_label,
        ),
        *final(next_label) == *old(next_label) + tree::label_count(leaves.len() as int),
        *final(next_label) == *old(next_label) + 3 * leaves.len() - 2,
        final(items).len() == old(items).len() + 6 * leaves.len() - 3,
        final(items)@.take(old(items).len() as int) == old(items)@,
        tree::asks_for_all(
            leaves@,
            default_label,
            final(items)@.skip(old(items).len() as int),
        ),
{
    emit(leaves, items, next_label, default_label);
}

/// Takes the next unused label.
pub fn fresh(next_label: &mut usize) -> (label: Label)
    requires
        *old(next_label) < usize::MAX,
    ensures
        label == *old(next_label),
        *final(next_label) == *old(next_label) + 1,
{
    let label: Label = *next_label;
    *next_label += 1;
    label
}

/// Appends the dispatch over `leaves`, split in the middle until one is left.
pub fn emit(
    leaves: &[(i64, SeccompAction)],
    items: &mut Vec<Item>,
    next: &mut usize,
    default: Label,
)
    requires
        leaves.len() > 0,
        tree::numbers_fit(leaves@),
        *old(next) + tree::label_count(leaves.len() as int) <= usize::MAX,
    ensures
        final(items)@ == old(items)@ + tree::tree_items(leaves@, *old(next) as int, default),
        *final(next) == *old(next) + tree::label_count(leaves.len() as int),
        *final(next) == *old(next) + 3 * leaves.len() - 2,
        final(items).len() == old(items).len() + 6 * leaves.len() - 3,
        final(items)@.take(old(items).len() as int) == old(items)@,
        tree::asks_for_all(leaves@, default, final(items)@.skip(old(items).len() as int)),
    decreases leaves.len(),
{
    let ghost before = items@;
    let ghost first = *next as int;
    let ghost added = tree::tree_items(leaves@, first, default);
    proof {
        tree::tree_asks_for_all(leaves@, first, default);
        assert((before + added).take(before.len() as int) =~= before);
        assert((before + added).skip(before.len() as int) =~= added);
    }
    if leaves.len() == 1 {
        let (nr, action) = &leaves[0];
        let hit: Label = fresh(next);
        // A miss means that the number is absent.
        items.push(
            Item::Cond { code: BPF_JMP | BPF_JEQ | BPF_K, k: u32::try_from(*nr).unwrap(), jt: hit, jf: default },
        );
        items.push(Item::Mark(hit));
        items.push(Item::Ins(bpf_stmt(BPF_RET | BPF_K, u32::from(*action))));
        assert(items@ =~= before + tree::leaf_items(leaves@[0], hit, default));
        return ;
    }
    let mid: usize = leaves.len() / 2;
    let pivot: i64 = leaves[mid].0;
    let right: Label = fresh(next);
    let left: Label = fresh(next);
    items.push(
        Item::Cond { code: BPF_JMP | BPF_JGE | BPF_K, k: u32::try_from(pivot).unwrap(), jt: right, jf: left },
    );
    items.push(Item::Mark(left));
    emit(&leaves[0..mid], items, next, default);
    items.push(Item::Mark(right));
    emit(&leaves[mid..leaves.len()], items, next, default);
    proof {
        let lower = tree::tree_items(leaves@.take(mid as int), first + 2, default);
        let upper = tree::tree_items(
            leaves@.skip(mid as int),
            first + 2 + tree::label_count(mid as int),
            default,
        );
        assert(items@ =~= before + tree::branch_items(pivot, right, left, lower, upper));
    }
}

} // verus!
