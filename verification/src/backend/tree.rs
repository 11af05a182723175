//! The binary-search tree over system-call numbers, as symbolic items.

use vstd::prelude::*;

use crate::backend::bpf;
use crate::backend::bpf::{sock_filter, BPF_JEQ, BPF_JGE, BPF_JMP, BPF_K, BPF_RET};
use crate::backend::layout;
use crate::backend::optimize::{Item, Label};
use crate::backend::SeccompAction;

verus! {

/// Every number is a 32-bit word, as the filter sees it.
pub open spec fn numbers_fit(leaves: Seq<(i64, SeccompAction)>) -> bool {
    forall|i: int| 0 <= i < leaves.len() ==> 0 <= (#[trigger] leaves[i]).0 <= u32::MAX
}

/// The numbers are in strictly ascending order.
pub open spec fn ascending(leaves: Seq<(i64, SeccompAction)>) -> bool {
    forall|i: int, j: int|
        0 <= i < j < leaves.len() ==> (#[trigger] leaves[i]).0 < (#[trigger] leaves[j]).0
}

/// Labels that a tree over `n` leaves uses: two for each branch, one for each
/// leaf.
pub open spec fn label_count(n: int) -> int {
    2 * (n - 1) + n
}

/// Items that a tree over `n` leaves takes up: three for each branch and three
/// for each leaf.
pub open spec fn item_count(n: int) -> int {
    3 * (n - 1) + 3 * n
}

/// The decision on a single number: return its action, or go to `default`.
pub open spec fn leaf_items(leaf: (i64, SeccompAction), hit: Label, default: Label) -> Seq<Item> {
    seq![
        Item::Cond { code: BPF_JMP | BPF_JEQ | BPF_K, k: leaf.0 as u32, jt: hit, jf: default },
        Item::Mark(hit),
        Item::Ins(bpf::stmt(BPF_RET | BPF_K, crate::backend::action_value(leaf.1))),
    ]
}

/// The decision between two subtrees: `upper` for numbers from `pivot` on.
pub open spec fn branch_items(
    pivot: i64,
    right: Label,
    left: Label,
    lower: Seq<Item>,
    upper: Seq<Item>,
) -> Seq<Item> {
    seq![
        Item::Cond { code: BPF_JMP | BPF_JGE | BPF_K, k: pivot as u32, jt: right, jf: left },
        Item::Mark(left),
    ] + lower + seq![Item::Mark(right)] + upper
}

/// The tree over `leaves`, split in the middle at each branch, with labels
/// numbered from `next` on in the order in which the branches stand.
pub open spec fn tree_items(
    leaves: Seq<(i64, SeccompAction)>,
    next: int,
    default: Label,
) -> Seq<Item>
    decreases leaves.len(),
{
    if leaves.len() <= 1 {
        leaf_items(leaves[0], next as usize, default)
    } else {
        let mid = leaves.len() as int / 2;
        branch_items(
            leaves[mid].0,
            next as usize,
            (next + 1) as usize,
            tree_items(leaves.take(mid), next + 2, default),
            tree_items(leaves.skip(mid), next + 2 + label_count(mid), default),
        )
    }
}

/// Comparisons on the longest path through a tree over `n` leaves.
pub open spec fn height(n: int) -> nat
    decreases n,
{
    if n <= 1 {
        1
    } else {
        1 + height(n - n / 2)
    }
}

/// The tree over `leaves` stands in `items` from item `at` on, and nothing behind
/// it marks its labels anew.
pub open spec fn holds_tree(
    items: Seq<Item>,
    at: int,
    leaves: Seq<(i64, SeccompAction)>,
    next: int,
    default: Label,
) -> bool {
    let n = leaves.len() as int;
    let end = at + item_count(n);
    let free = next + label_count(n);
    &&& 0 < n
    &&& 0 <= at && end <= items.len()
    &&& items.subrange(at, end) == tree_items(leaves, next, default)
    &&& 0 <= next && free <= usize::MAX
    &&& forall|j: int|
        end <= j < items.len() ==> match #[trigger] items[j] {
            Item::Mark(label) => !(next <= label < free),
            _ => true,
        }
}

/// A tree over `n` leaves has `item_count(n)` items.
pub proof fn lemma_tree_len(leaves: Seq<(i64, SeccompAction)>, next: int, default: Label)
    requires
        0 < leaves.len(),
    ensures
        tree_items(leaves, next, default).len() == item_count(leaves.len() as int),
    decreases leaves.len(),
{
    if leaves.len() > 1 {
        let mid = leaves.len() as int / 2;
        lemma_tree_len(leaves.take(mid), next + 2, default);
        lemma_tree_len(leaves.skip(mid), next + 2 + label_count(mid), default);
    }
}

/// A tree marks only the labels that were taken for it.
pub proof fn lemma_tree_marks(leaves: Seq<(i64, SeccompAction)>, next: int, default: Label, j: int)
    requires
        0 < leaves.len(),
        0 <= next,
        next + label_count(leaves.len() as int) <= usize::MAX,
        0 <= j < item_count(leaves.len() as int),
    ensures
        tree_items(leaves, next, default)[j] matches Item::Mark(label) ==> next <= label < next
            + label_count(leaves.len() as int),
    decreases leaves.len(),
{
    if leaves.len() > 1 {
        let mid = leaves.len() as int / 2;
        let lower = leaves.take(mid);
        let upper = leaves.skip(mid);
        let second = next + 2 + label_count(mid);
        lemma_tree_len(lower, next + 2, default);
        lemma_tree_len(upper, second, default);
        let items = tree_items(leaves, next, default);
        let split = 2 + item_count(mid);
        if 2 <= j < split {
            lemma_tree_marks(lower, next + 2, default, j - 2);
            assert(items[j] == tree_items(lower, next + 2, default)[j - 2]);
        } else if split < j {
            lemma_tree_marks(upper, second, default, j - split - 1);
            assert(items[j] == tree_items(upper, second, default)[j - split - 1]);
        }
    }
}

/// A leaf in place: its three items, and where its label stands.
pub proof fn lemma_leaf_in_place(
    items: Seq<Item>,
    at: int,
    leaves: Seq<(i64, SeccompAction)>,
    next: int,
    default: Label,
)
    requires
        holds_tree(items, at, leaves, next, default),
        leaves.len() == 1,
    ensures
        ({
            let leaf = leaf_items(leaves[0], next as usize, default);
            &&& items[at] == leaf[0]
            &&& items[at + 1] == leaf[1]
            &&& items[at + 2] == leaf[2]
        }),
        layout::label_index(items, next as usize) == at + 1,
{
    let part = items.subrange(at, at + 3);
    assert(items[at] == part[0]);
    assert(items[at + 1] == part[1]);
    assert(items[at + 2] == part[2]);
    layout::lemma_last_mark(items, next as usize, at + 1);
}

/// A branch in place: its comparison, where its labels stand, and the two
/// subtrees.
pub proof fn lemma_branch_in_place(
    items: Seq<Item>,
    at: int,
    leaves: Seq<(i64, SeccompAction)>,
    next: int,
    default: Label,
)
    requires
        holds_tree(items, at, leaves, next, default),
        leaves.len() > 1,
    ensures
        ({
            let mid = leaves.len() as int / 2;
            let split = at + 2 + item_count(mid);
            let right = next as usize;
            let left = (next + 1) as usize;
            &&& items[at] == Item::Cond {
                code: BPF_JMP | BPF_JGE | BPF_K,
                k: leaves[mid].0 as u32,
                jt: right,
                jf: left,
            }
            &&& items[at + 1] == Item::Mark(left)
            &&& items[split] == Item::Mark(right)
            &&& layout::label_index(items, left) == at + 1
            &&& layout::label_index(items, right) == split
            &&& holds_tree(items, at + 2, leaves.take(mid), next + 2, default)
            &&& holds_tree(
                items,
                split + 1,
                leaves.skip(mid),
                next + 2 + label_count(mid),
                default,
            )
        }),
{
    let n = leaves.len() as int;
    let mid = n / 2;
    let lower = leaves.take(mid);
    let upper = leaves.skip(mid);
    let second = next + 2 + label_count(mid);
    let split = at + 2 + item_count(mid);
    let end = at + item_count(n);
    let free = next + label_count(n);
    let right = next as usize;
    let left = (next + 1) as usize;
    let part = items.subrange(at, end);
    let lower_items = tree_items(lower, next + 2, default);
    let upper_items = tree_items(upper, second, default);
    lemma_tree_len(lower, next + 2, default);
    lemma_tree_len(upper, second, default);
    assert(item_count(n) == 2 + item_count(mid) + 1 + item_count(n - mid));
    assert(items[at] == part[0]);
    assert(items[at + 1] == part[1]);
    assert(items[split] == part[split - at]);
    assert(items.subrange(at + 2, split) =~= lower_items) by {
        assert forall|j: int| 0 <= j < lower_items.len() implies items[at + 2 + j]
            == lower_items[j] by {
            assert(items[at + 2 + j] == part[2 + j]);
        }
    }
    assert(items.subrange(split + 1, end) =~= upper_items) by {
        assert forall|j: int| 0 <= j < upper_items.len() implies items[split + 1 + j]
            == upper_items[j] by {
            assert(items[split + 1 + j] == part[split + 1 - at + j]);
        }
    }
    assert forall|j: int| at + 2 <= j < split implies match #[trigger] items[j] {
        Item::Mark(label) => next + 2 <= label < second,
        _ => true,
    } by {
        lemma_tree_marks(lower, next + 2, default, j - at - 2);
        assert(items[j] == items.subrange(at + 2, split)[j - at - 2]);
    }
    assert forall|j: int| split < j < end implies match #[trigger] items[j] {
        Item::Mark(label) => second <= label < free,
        _ => true,
    } by {
        lemma_tree_marks(upper, second, default, j - split - 1);
        assert(items[j] == items.subrange(split + 1, end)[j - split - 1]);
    }
    layout::lemma_last_mark(items, left, at + 1);
    layout::lemma_last_mark(items, right, split);
}

/// The two lists have the same numbers, whatever their actions are.
pub open spec fn same_numbers(
    leaves: Seq<(i64, SeccompAction)>,
    others: Seq<(i64, SeccompAction)>,
) -> bool {
    &&& leaves.len() == others.len()
    &&& forall|i: int| 0 <= i < leaves.len() ==> (#[trigger] leaves[i]).0 == others[i].0
}

/// The item of a tree over `n` leaves that returns the action of leaf `i`.
pub open spec fn verdict_index(n: int, i: int) -> int
    decreases n,
{
    let mid = n / 2;
    if n <= 1 {
        2
    } else if i < mid {
        2 + verdict_index(mid, i)
    } else {
        3 + item_count(mid) + verdict_index(n - mid, i - mid)
    }
}

/// Each leaf's action stands at its own item.
pub proof fn verdict_in_place(
    leaves: Seq<(i64, SeccompAction)>,
    next: int,
    default: Label,
    i: int,
)
    requires
        0 <= i < leaves.len(),
    ensures
        0 <= verdict_index(leaves.len() as int, i) < item_count(leaves.len() as int),
        tree_items(leaves, next, default)[verdict_index(leaves.len() as int, i)] == Item::Ins(
            bpf::stmt(BPF_RET | BPF_K, crate::backend::action_value(leaves[i].1)),
        ),
    decreases leaves.len(),
{
    let n = leaves.len() as int;
    if n > 1 {
        let mid = n / 2;
        let lower = leaves.take(mid);
        let upper = leaves.skip(mid);
        let second = next + 2 + label_count(mid);
        lemma_tree_len(lower, next + 2, default);
        lemma_tree_len(upper, second, default);
        if i < mid {
            verdict_in_place(lower, next + 2, default, i);
        } else {
            verdict_in_place(upper, second, default, i - mid);
        }
    }
}

/// Item `j` of two trees over the same numbers differs only where it returns
/// two different actions.
proof fn lemma_tree_differs_at(
    leaves: Seq<(i64, SeccompAction)>,
    others: Seq<(i64, SeccompAction)>,
    next: int,
    default: Label,
    j: int,
)
    requires
        0 < leaves.len(),
        same_numbers(leaves, others),
        0 <= j < item_count(leaves.len() as int),
        tree_items(leaves, next, default)[j] != tree_items(others, next, default)[j],
    ensures
        exists|i: int|
            0 <= i < leaves.len() && j == #[trigger] verdict_index(leaves.len() as int, i)
                && crate::backend::action_value(leaves[i].1) != crate::backend::action_value(
                others[i].1,
            ),
    decreases leaves.len(),
{
    let n = leaves.len() as int;
    assert(leaves[0].0 == others[0].0);
    if n == 1 {
        assert(j == verdict_index(n, 0));
    } else {
        let mid = n / 2;
        let second = next + 2 + label_count(mid);
        let split = 2 + item_count(mid);
        assert(leaves[mid].0 == others[mid].0);
        lemma_tree_len(leaves.take(mid), next + 2, default);
        lemma_tree_len(others.take(mid), next + 2, default);
        lemma_tree_len(leaves.skip(mid), second, default);
        lemma_tree_len(others.skip(mid), second, default);
        if j < split {
            lemma_tree_differs_at(leaves.take(mid), others.take(mid), next + 2, default, j - 2);
            let i = choose|i: int|
                0 <= i < mid && j - 2 == #[trigger] verdict_index(mid, i)
                    && crate::backend::action_value(leaves.take(mid)[i].1)
                    != crate::backend::action_value(others.take(mid)[i].1);
            assert(j == verdict_index(n, i));
        } else {
            lemma_tree_differs_at(
                leaves.skip(mid),
                others.skip(mid),
                second,
                default,
                j - split - 1,
            );
            let i = choose|i: int|
                0 <= i < n - mid && j - split - 1 == #[trigger] verdict_index(n - mid, i)
                    && crate::backend::action_value(leaves.skip(mid)[i].1)
                    != crate::backend::action_value(others.skip(mid)[i].1);
            assert(j == verdict_index(n, mid + i));
        }
    }
}

/// Actions stay with their leaves: two trees over the same numbers take the same
/// labels, have the same comparisons and marks at the same places, and differ
/// only in what is returned for leaves whose actions have different values.
pub proof fn actions_are_per_leaf(
    leaves: Seq<(i64, SeccompAction)>,
    others: Seq<(i64, SeccompAction)>,
    next: int,
    default: Label,
)
    requires
        0 < leaves.len(),
        same_numbers(leaves, others),
    ensures
        label_count(leaves.len() as int) == label_count(others.len() as int),
        ({
            let n = leaves.len() as int;
            let items = tree_items(leaves, next, default);
            let other_items = tree_items(others, next, default);
            &&& items.len() == item_count(n)
            &&& other_items.len() == item_count(n)
            &&& forall|j: int|
                0 <= j < item_count(n) && #[trigger] items[j] != #[trigger] other_items[j]
                    ==> exists|i: int|
                    {
                        &&& 0 <= i < n
                        &&& j == #[trigger] verdict_index(n, i)
                        &&& crate::backend::action_value(leaves[i].1)
                            != crate::backend::action_value(others[i].1)
                        &&& items[j] == Item::Ins(
                            bpf::stmt(BPF_RET | BPF_K, crate::backend::action_value(leaves[i].1)),
                        )
                        &&& other_items[j] == Item::Ins(
                            bpf::stmt(BPF_RET | BPF_K, crate::backend::action_value(others[i].1)),
                        )
                    }
        }),
{
    let n = leaves.len() as int;
    let items = tree_items(leaves, next, default);
    let other_items = tree_items(others, next, default);
    lemma_tree_len(leaves, next, default);
    lemma_tree_len(others, next, default);
    assert forall|j: int|
        0 <= j < item_count(n) && #[trigger] items[j] != #[trigger] other_items[j] implies exists|
        i: int,
    |
        {
            &&& 0 <= i < n
            &&& j == #[trigger] verdict_index(n, i)
            &&& crate::backend::action_value(leaves[i].1) != crate::backend::action_value(
                others[i].1,
            )
            &&& items[j] == Item::Ins(
                bpf::stmt(BPF_RET | BPF_K, crate::backend::action_value(leaves[i].1)),
            )
            &&& other_items[j] == Item::Ins(
                bpf::stmt(BPF_RET | BPF_K, crate::backend::action_value(others[i].1)),
            )
        } by {
        lemma_tree_differs_at(leaves, others, next, default, j);
        let i = choose|i: int|
            0 <= i < n && j == #[trigger] verdict_index(n, i) && crate::backend::action_value(
                leaves[i].1,
            ) != crate::backend::action_value(others[i].1);
        verdict_in_place(leaves, next, default, i);
        verdict_in_place(others, next, default, i);
        assert(j == verdict_index(n, i));
    }
}

/// `ins` ends the run with the value of `action`.
pub open spec fn gives_verdict(ins: sock_filter, action: SeccompAction) -> bool {
    &&& ins.code == 0x06
    &&& ins.jt == 0
    &&& ins.jf == 0
    &&& match action {
        SeccompAction::Allow => ins.k == 0x7fff_0000,
        SeccompAction::Errno(number) => ins.k == 0x0005_0000 + number % 0x1_0000,
        SeccompAction::KillThread => ins.k == 0,
        SeccompAction::KillProcess => ins.k == 0x8000_0000,
        SeccompAction::Log => ins.k == 0x7ffc_0000,
        SeccompAction::Trace(message) => ins.k == 0x7ff0_0000 + message % 0x1_0000,
        SeccompAction::Trap => ins.k == 0x0003_0000,
    }
}

/// Item `j` asks whether the number is that of leaf `i`: if it is, the action of
/// the leaf is returned two items on; if not, the search has missed.
pub open spec fn asks_for(
    items: Seq<Item>,
    j: int,
    leaves: Seq<(i64, SeccompAction)>,
    i: int,
    default: Label,
) -> bool {
    &&& 0 <= j && j + 2 < items.len()
    &&& items[j] matches Item::Cond { code, k, jt, jf } && {
        &&& code == 0x15
        &&& k == leaves[i].0
        &&& jf == default
        &&& items[j + 1] == Item::Mark(jt)
    }
    &&& items[j + 2] matches Item::Ins(ins) && gives_verdict(ins, leaves[i].1)
}

/// Item `j` asks whether the number is at least that of leaf `i`, and goes on
/// right behind itself if it is not.
pub open spec fn asks_from(
    items: Seq<Item>,
    j: int,
    leaves: Seq<(i64, SeccompAction)>,
    i: int,
) -> bool {
    &&& 0 <= j && j + 1 < items.len()
    &&& items[j] matches Item::Cond { code, k, jt, jf } && {
        &&& code == 0x35
        &&& k == leaves[i].0
        &&& items[j + 1] == Item::Mark(jf)
    }
}

/// Some item asks for leaf `i`.
pub open spec fn asked(
    items: Seq<Item>,
    leaves: Seq<(i64, SeccompAction)>,
    i: int,
    default: Label,
) -> bool {
    exists|j: int| asks_for(items, j, leaves, i, default)
}

/// Item `j` is a comparison with the number of a leaf, a mark behind one, or the
/// return of the action of a leaf that was asked for.
pub open spec fn belongs(
    items: Seq<Item>,
    j: int,
    leaves: Seq<(i64, SeccompAction)>,
    default: Label,
) -> bool {
    match items[j] {
        Item::Cond { .. } => {
            ||| exists|i: int| 0 <= i < leaves.len() && asks_for(items, j, leaves, i, default)
            ||| exists|i: int| 1 <= i < leaves.len() && asks_from(items, j, leaves, i)
        },
        Item::Ins(_) => exists|q: int, i: int|
            j == q + 2 && 0 <= i < leaves.len() && #[trigger] asks_for(
                items,
                q,
                leaves,
                i,
                default,
            ),
        Item::Mark(_) => 0 < j,
    }
}

/// `items` ask for every leaf, and hold nothing but comparisons with the leaves'
/// numbers, marks, and returns of the leaves' actions.
pub open spec fn asks_for_all(
    leaves: Seq<(i64, SeccompAction)>,
    default: Label,
    items: Seq<Item>,
) -> bool {
    &&& forall|i: int| 0 <= i < leaves.len() ==> #[trigger] asked(items, leaves, i, default)
    &&& forall|j: int| 0 <= j < items.len() ==> #[trigger] belongs(items, j, leaves, default)
}

/// A tree over one number: the comparison with it, on all bits of the items, and
/// the return of its action.
pub proof fn single_leaf_is_exact(leaf: (i64, SeccompAction), next: int, default: Label)
    requires
        0 <= leaf.0 <= u32::MAX,
        0 <= next <= usize::MAX,
    ensures
        ({
            let items = tree_items(seq![leaf], next, default);
            &&& items.len() == 3
            &&& items[0] matches Item::Cond { code, k, jt, jf } && code == 0x15 && k == leaf.0
                && jt == next && jf == default
            &&& items[1] matches Item::Mark(label) && label == next
            &&& items[2] matches Item::Ins(ins) && ins.code == 0x06 && ins.jt == 0 && ins.jf == 0
                && ins.k == crate::backend::action_value(leaf.1) && gives_verdict(ins, leaf.1)
        }),
{
    assert((BPF_JMP | BPF_JEQ | BPF_K) == 0x15) by (bit_vector);
    assert((BPF_RET | BPF_K) == 0x06) by (bit_vector);
    crate::backend::actions_have_kernel_values(leaf.1);
}

/// A tree over more numbers asks first whether the number is at least the one in
/// the middle. Behind that stands the tree over the numbers before the middle,
/// and behind that the tree over the others; each has its own labels.
pub proof fn tree_splits_in_the_middle(
    leaves: Seq<(i64, SeccompAction)>,
    next: int,
    default: Label,
)
    requires
        2 <= leaves.len(),
        numbers_fit(leaves),
        0 <= next,
        next + 3 * leaves.len() - 2 <= usize::MAX,
    ensures
        ({
            let n = leaves.len() as int;
            let mid = n / 2;
            let items = tree_items(leaves, next, default);
            let lower = tree_items(leaves.take(mid), next + 2, default);
            let upper = tree_items(leaves.skip(mid), next + 3 * mid, default);
            &&& lower.len() == 6 * mid - 3
            &&& upper.len() == 6 * (n - mid) - 3
            &&& items.len() == 6 * n - 3
            &&& items[0] matches Item::Cond { code, k, jt, jf } && code == 0x35 && k
                == leaves[mid].0 && jt == next && jf == next + 1
            &&& items[1] matches Item::Mark(label) && label == next + 1
            &&& items.subrange(2, 6 * mid - 1) == lower
            &&& items[6 * mid - 1] matches Item::Mark(label) && label == next
            &&& items.subrange(6 * mid, 6 * n - 3) == upper
        }),
{
    let n = leaves.len() as int;
    let mid = n / 2;
    let items = tree_items(leaves, next, default);
    let lower = tree_items(leaves.take(mid), next + 2, default);
    let upper = tree_items(leaves.skip(mid), next + 3 * mid, default);
    lemma_tree_len(leaves, next, default);
    lemma_tree_len(leaves.take(mid), next + 2, default);
    lemma_tree_len(leaves.skip(mid), next + 3 * mid, default);
    assert(next + 2 + label_count(mid) == next + 3 * mid);
    assert((BPF_JMP | BPF_JGE | BPF_K) == 0x35) by (bit_vector);
    assert(0 <= leaves[mid].0 <= u32::MAX);
    assert(items.subrange(2, 6 * mid - 1) =~= lower);
    assert(items.subrange(6 * mid, 6 * n - 3) =~= upper);
}

/// A question that stands in a part of the items stands in the whole.
proof fn lemma_asks_in_part(
    items: Seq<Item>,
    from: int,
    to: int,
    leaves: Seq<(i64, SeccompAction)>,
    first: int,
    last: int,
    default: Label,
    j: int,
    i: int,
)
    requires
        0 <= from <= to <= items.len(),
        0 <= first <= i < last <= leaves.len(),
        asks_for(items.subrange(from, to), j, leaves.subrange(first, last), i - first, default),
    ensures
        asks_for(items, from + j, leaves, i, default),
{
    let part = items.subrange(from, to);
    assert(part[j] == items[from + j]);
    assert(part[j + 1] == items[from + j + 1]);
    assert(part[j + 2] == items[from + j + 2]);
    assert(leaves.subrange(first, last)[i - first] == leaves[i]);
}

/// A leaf that a part of the items asks for is asked for.
proof fn lemma_asked_in_part(
    items: Seq<Item>,
    from: int,
    to: int,
    leaves: Seq<(i64, SeccompAction)>,
    first: int,
    last: int,
    default: Label,
    i: int,
)
    requires
        0 <= from <= to <= items.len(),
        0 <= first <= i < last <= leaves.len(),
        asked(items.subrange(from, to), leaves.subrange(first, last), i - first, default),
    ensures
        asked(items, leaves, i, default),
{
    let part = items.subrange(from, to);
    let few = leaves.subrange(first, last);
    let p = i - first;
    let j = choose|j: int| asks_for(part, j, few, p, default);
    lemma_asks_in_part(items, from, to, leaves, first, last, default, j, i);
}

/// An item that belongs to a part of the items belongs to the whole.
proof fn lemma_belongs_in_part(
    items: Seq<Item>,
    from: int,
    to: int,
    leaves: Seq<(i64, SeccompAction)>,
    first: int,
    last: int,
    default: Label,
    j: int,
)
    requires
        0 <= from <= j < to <= items.len(),
        0 <= first <= last <= leaves.len(),
        belongs(items.subrange(from, to), j - from, leaves.subrange(first, last), default),
    ensures
        belongs(items, j, leaves, default),
{
    let part = items.subrange(from, to);
    let few = leaves.subrange(first, last);
    let p = j - from;
    assert(part[p] == items[j]);
    match part[p] {
        Item::Cond { .. } => {
            if exists|i: int| 0 <= i < few.len() && asks_for(part, p, few, i, default) {
                let i = choose|i: int| 0 <= i < few.len() && asks_for(part, p, few, i, default);
                lemma_asks_in_part(items, from, to, leaves, first, last, default, p, first + i);
                assert(asks_for(items, j, leaves, first + i, default));
            } else {
                let i = choose|i: int| 1 <= i < few.len() && asks_from(part, p, few, i);
                assert(part[p + 1] == items[j + 1]);
                assert(few[i] == leaves[first + i]);
                assert(asks_from(items, j, leaves, first + i));
            }
        },
        Item::Ins(_) => {
            let (q, i) = choose|q: int, i: int|
                p == q + 2 && 0 <= i < few.len() && #[trigger] asks_for(part, q, few, i, default);
            lemma_asks_in_part(items, from, to, leaves, first, last, default, q, first + i);
            assert(asks_for(items, from + q, leaves, first + i, default));
        },
        Item::Mark(_) => {},
    }
}

/// A tree asks for each of its numbers, and for nothing else.
pub proof fn tree_asks_for_all(leaves: Seq<(i64, SeccompAction)>, next: int, default: Label)
    requires
        0 < leaves.len(),
        numbers_fit(leaves),
        0 <= next,
        next + 3 * leaves.len() - 2 <= usize::MAX,
    ensures
        tree_items(leaves, next, default).len() == 6 * leaves.len() - 3,
        asks_for_all(leaves, default, tree_items(leaves, next, default)),
    decreases leaves.len(),
{
    let n = leaves.len() as int;
    let items = tree_items(leaves, next, default);
    if n == 1 {
        assert(0 <= leaves[0].0 <= u32::MAX);
        assert(leaves =~= seq![leaves[0]]);
        single_leaf_is_exact(leaves[0], next, default);
        assert(asks_for(items, 0, leaves, 0, default));
    } else {
        let mid = n / 2;
        let split = 6 * mid - 1;
        let end = 6 * n - 3;
        tree_splits_in_the_middle(leaves, next, default);
        tree_asks_for_all(leaves.take(mid), next + 2, default);
        tree_asks_for_all(leaves.skip(mid), next + 3 * mid, default);
        assert(leaves.take(mid) =~= leaves.subrange(0, mid));
        assert(leaves.skip(mid) =~= leaves.subrange(mid, n));
        assert forall|i: int| 0 <= i < n implies #[trigger] asked(items, leaves, i, default) by {
            if i < mid {
                assert(asked(items.subrange(2, split), leaves.subrange(0, mid), i - 0, default));
                lemma_asked_in_part(items, 2, split, leaves, 0, mid, default, i);
            } else {
                assert(asked(
                    items.subrange(split + 1, end),
                    leaves.subrange(mid, n),
                    i - mid,
                    default,
                ));
                lemma_asked_in_part(items, split + 1, end, leaves, mid, n, default, i);
            }
        }
        assert forall|j: int| 0 <= j < items.len() implies #[trigger] belongs(
            items,
            j,
            leaves,
            default,
        ) by {
            if j == 0 {
                assert(asks_from(items, 0, leaves, mid));
            } else if 2 <= j < split {
                assert(belongs(
                    items.subrange(2, split),
                    j - 2,
                    leaves.subrange(0, mid),
                    default,
                ));
                lemma_belongs_in_part(items, 2, split, leaves, 0, mid, default, j);
            } else if split < j {
                assert(belongs(
                    items.subrange(split + 1, end),
                    j - (split + 1),
                    leaves.subrange(mid, n),
                    default,
                ));
                lemma_belongs_in_part(items, split + 1, end, leaves, mid, n, default, j);
            }
        }
    }
}

/// The numbers fit just where each keeps its value as a 32-bit word.
pub proof fn numbers_fit_means_words(leaves: Seq<(i64, SeccompAction)>)
    ensures
        numbers_fit(leaves) <==> forall|i: int|
            0 <= i < leaves.len() ==> (#[trigger] leaves[i]).0 as u32 == leaves[i].0,
{
    assert forall|i: int| 0 <= i < leaves.len() implies (0 <= (#[trigger] leaves[i]).0 <= u32::MAX)
        == (leaves[i].0 as u32 == leaves[i].0) by {}
}

/// The numbers are in strictly ascending order just where each is below the one
/// after it.
pub proof fn ascending_means_neighbours(leaves: Seq<(i64, SeccompAction)>)
    ensures
        ascending(leaves) <==> forall|i: int, j: int|
            0 <= i && j == i + 1 && j < leaves.len() ==> (#[trigger] leaves[i]).0 < (
            #[trigger] leaves[j]).0,
{
    if forall|i: int, j: int|
        0 <= i && j == i + 1 && j < leaves.len() ==> (#[trigger] leaves[i]).0 < (
        #[trigger] leaves[j]).0 {
        assert forall|i: int, j: int| 0 <= i < j < leaves.len() implies (#[trigger] leaves[i]).0 < (
        #[trigger] leaves[j]).0 by {
            lemma_neighbours(leaves, i, j);
        }
    }
}

/// Each number below the one after it, and so below every later one.
proof fn lemma_neighbours(leaves: Seq<(i64, SeccompAction)>, i: int, j: int)
    requires
        forall|i: int, j: int|
            0 <= i && j == i + 1 && j < leaves.len() ==> (#[trigger] leaves[i]).0 < (
            #[trigger] leaves[j]).0,
        0 <= i < j < leaves.len(),
    ensures
        leaves[i].0 < leaves[j].0,
    decreases j,
{
    let before = leaves[j - 1];
    if i < j - 1 {
        lemma_neighbours(leaves, i, j - 1);
    }
}

} // verus!
