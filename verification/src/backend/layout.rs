//! Where the items of a symbolic program land, and which conditionals relax.

use vstd::prelude::*;

use crate::backend::bpf;
use crate::backend::bpf::{sock_filter, BPF_JA, BPF_JMP};
use crate::backend::optimize::{Item, Label};

verus! {

/// Instructions that `item` takes up.
pub open spec fn width(item: Item, relaxed: bool) -> nat {
    match item {
        Item::Mark(_) => 0,
        Item::Ins(_) => 1,
        Item::Cond { .. } => if relaxed { 3 } else { 1 },
    }
}

/// Instructions in front of item `i` when the items in `relaxed` are relaxed.
pub open spec fn position(items: Seq<Item>, relaxed: Seq<bool>, i: int) -> nat
    decreases i,
{
    if i <= 0 {
        0
    } else {
        position(items, relaxed, i - 1) + width(items[i - 1], relaxed[i - 1])
    }
}

/// The last of the first `n` items that marks `label`, or -1 where none does.
pub open spec fn mark_index(items: Seq<Item>, label: Label, n: int) -> int
    decreases n,
{
    if n <= 0 {
        -1
    } else if items[n - 1] == Item::Mark(label) {
        n - 1
    } else {
        mark_index(items, label, n - 1)
    }
}

/// The item that `label` stands for: its last mark, or -1 where it has none.
pub open spec fn label_index(items: Seq<Item>, label: Label) -> int {
    mark_index(items, label, items.len() as int)
}

/// The instruction that `label` stands for.
pub open spec fn label_position(items: Seq<Item>, relaxed: Seq<bool>, label: Label) -> nat {
    position(items, relaxed, label_index(items, label))
}

/// Every label is below `n_labels`, and every conditional jumps forward to a
/// marked label.
pub open spec fn resolvable(items: Seq<Item>, n_labels: int) -> bool {
    forall|i: int|
        0 <= i < items.len() ==> match #[trigger] items[i] {
            Item::Ins(_) => true,
            Item::Cond { jt, jf, .. } => {
                &&& jt < n_labels
                &&& jf < n_labels
                &&& i < label_index(items, jt)
                &&& i < label_index(items, jf)
            },
            Item::Mark(label) => label < n_labels,
        }
}

/// An 8-bit offset at the one-instruction conditional `i` reaches `label`.
pub open spec fn fits(items: Seq<Item>, relaxed: Seq<bool>, i: int, label: Label) -> bool {
    0 <= label_position(items, relaxed, label) - (position(items, relaxed, i) + 1) <= 255
}

/// Item `i` is no conditional, or both its targets are within 8 bits.
pub open spec fn short(items: Seq<Item>, relaxed: Seq<bool>, i: int) -> bool {
    match items[i] {
        Item::Cond { jt, jf, .. } => {
            &&& fits(items, relaxed, i, jt)
            &&& fits(items, relaxed, i, jf)
        },
        _ => true,
    }
}

/// A choice of relaxed items under which every other conditional is short.
pub open spec fn stable(items: Seq<Item>, relaxed: Seq<bool>) -> bool {
    &&& relaxed.len() == items.len()
    &&& forall|i: int|
        0 <= i < items.len() ==> #[trigger] relaxed[i] || short(items, relaxed, i)
}

/// Every item relaxed in `fewer` is relaxed in `more`.
pub open spec fn within(fewer: Seq<bool>, more: Seq<bool>) -> bool {
    &&& fewer.len() == more.len()
    &&& forall|i: int| 0 <= i < fewer.len() && #[trigger] fewer[i] ==> more[i]
}

/// The items that have to relax: those relaxed by every stable choice.
pub open spec fn relaxation(items: Seq<Item>) -> Seq<bool> {
    Seq::new(
        items.len(),
        |i: int| forall|choice: Seq<bool>| #[trigger] stable(items, choice) ==> choice[i],
    )
}

/// The instructions for item `i`. A relaxed conditional becomes a short one
/// that picks between two unconditional jumps.
pub open spec fn encode_item(items: Seq<Item>, relaxed: Seq<bool>, i: int) -> Seq<sock_filter> {
    let at = position(items, relaxed, i);
    match items[i] {
        Item::Mark(_) => Seq::empty(),
        Item::Ins(ins) => seq![ins],
        Item::Cond { code, k, jt, jf } => {
            let on_true = label_position(items, relaxed, jt);
            let on_false = label_position(items, relaxed, jf);
            if relaxed[i] {
                seq![
                    bpf::jump(code, k, 0, 1),
                    bpf::stmt(BPF_JMP | BPF_JA, (on_true - (at + 2)) as u32),
                    bpf::stmt(BPF_JMP | BPF_JA, (on_false - (at + 3)) as u32),
                ]
            } else {
                seq![bpf::jump(code, k, (on_true - (at + 1)) as u8, (on_false - (at + 1)) as u8)]
            }
        },
    }
}

/// The instructions for the first `n` items.
pub open spec fn encode(items: Seq<Item>, relaxed: Seq<bool>, n: int) -> Seq<sock_filter>
    decreases n,
{
    if n <= 0 {
        Seq::empty()
    } else {
        encode(items, relaxed, n - 1) + encode_item(items, relaxed, n - 1)
    }
}

/// The program that `items` assemble to.
pub open spec fn assembled(items: Seq<Item>) -> Seq<sock_filter> {
    encode(items, relaxation(items), items.len() as int)
}

/// The encoding is as long as the layout says.
pub proof fn lemma_encode_len(items: Seq<Item>, relaxed: Seq<bool>, n: int)
    ensures
        encode(items, relaxed, n).len() == position(items, relaxed, n),
    decreases n,
{
    if 0 < n {
        lemma_encode_len(items, relaxed, n - 1);
    }
}

/// Each item's instructions stand at the item's position; an embedded
/// instruction is there verbatim.
pub proof fn encoded_in_place(items: Seq<Item>, relaxed: Seq<bool>, i: int, n: int)
    requires
        0 <= i < n <= items.len(),
    ensures
        position(items, relaxed, i + 1) <= encode(items, relaxed, n).len(),
        encode(items, relaxed, n).subrange(
            position(items, relaxed, i) as int,
            position(items, relaxed, i + 1) as int,
        ) == encode_item(items, relaxed, i),
        items[i] matches Item::Ins(ins) ==> encode(items, relaxed, n)[position(
            items,
            relaxed,
            i,
        ) as int] == ins,
    decreases n,
{
    let at = position(items, relaxed, i) as int;
    let end = position(items, relaxed, i + 1) as int;
    let whole = encode(items, relaxed, n);
    lemma_encode_len(items, relaxed, n - 1);
    lemma_encode_len(items, relaxed, n);
    lemma_position_monotone(items, relaxed, i + 1, n);
    if i == n - 1 {
        assert(whole.subrange(at, end) =~= encode_item(items, relaxed, i));
    } else {
        encoded_in_place(items, relaxed, i, n - 1);
        assert(whole.subrange(at, end) =~= encode(items, relaxed, n - 1).subrange(at, end));
    }
    if let Item::Ins(ins) = items[i] {
        assert(whole.subrange(at, end)[0] == ins);
    }
}

/// A label is marked where its index says, and nowhere later.
pub proof fn lemma_mark_index(items: Seq<Item>, label: Label, n: int)
    requires
        0 <= n <= items.len(),
    ensures
        -1 <= mark_index(items, label, n) < n,
        0 <= mark_index(items, label, n) ==> items[mark_index(items, label, n)] == Item::Mark(
            label,
        ),
        forall|j: int|
            mark_index(items, label, n) < j < n ==> #[trigger] items[j] != Item::Mark(label),
    decreases n,
{
    if n > 0 && items[n - 1] != Item::Mark(label) {
        lemma_mark_index(items, label, n - 1);
    }
}

/// A mark that no later item repeats is what its label stands for.
pub proof fn lemma_last_mark(items: Seq<Item>, label: Label, i: int)
    requires
        0 <= i < items.len(),
        items[i] == Item::Mark(label),
        forall|j: int| i < j < items.len() ==> #[trigger] items[j] != Item::Mark(label),
    ensures
        label_index(items, label) == i,
{
    lemma_mark_index(items, label, items.len() as int);
}

/// Positions count instructions: a mark is none, an embedded instruction is one,
/// a conditional is one, or three where it is relaxed.
pub proof fn positions_count_instructions(items: Seq<Item>, relaxed: Seq<bool>, i: int)
    requires
        0 <= i < items.len(),
    ensures
        position(items, relaxed, 0) == 0,
        match items[i] {
            Item::Mark(_) => position(items, relaxed, i + 1) == position(items, relaxed, i),
            Item::Ins(_) => position(items, relaxed, i + 1) == position(items, relaxed, i) + 1,
            Item::Cond { .. } => {
                &&& relaxed[i] ==> position(items, relaxed, i + 1) == position(items, relaxed, i)
                    + 3
                &&& !relaxed[i] ==> position(items, relaxed, i + 1) == position(items, relaxed, i)
                    + 1
            },
        },
{
}

/// Items only push later ones back.
pub proof fn lemma_position_monotone(items: Seq<Item>, relaxed: Seq<bool>, i: int, j: int)
    requires
        i <= j,
    ensures
        position(items, relaxed, i) <= position(items, relaxed, j),
    decreases j,
{
    if i < j && 0 < j {
        lemma_position_monotone(items, relaxed, i, j - 1);
    }
}

/// No program is longer than three instructions per item.
pub proof fn lemma_position_bound(items: Seq<Item>, relaxed: Seq<bool>, i: int)
    requires
        0 <= i,
    ensures
        position(items, relaxed, i) <= 3 * i,
    decreases i,
{
    if 0 < i {
        lemma_position_bound(items, relaxed, i - 1);
    }
}

/// Relaxing more items never shortens a distance.
pub proof fn lemma_distance_monotone(
    items: Seq<Item>,
    fewer: Seq<bool>,
    more: Seq<bool>,
    i: int,
    j: int,
)
    requires
        within(fewer, more),
        fewer.len() == items.len(),
        0 <= i <= j <= items.len(),
    ensures
        position(items, fewer, j) - position(items, fewer, i) <= position(items, more, j)
            - position(items, more, i),
    decreases j,
{
    if i < j {
        lemma_distance_monotone(items, fewer, more, i, j - 1);
        assert(fewer[j - 1] ==> more[j - 1]);
    }
}

/// A conditional that is short while more items are relaxed stays short while
/// fewer are.
pub proof fn lemma_short_monotone(
    items: Seq<Item>,
    n_labels: int,
    fewer: Seq<bool>,
    more: Seq<bool>,
    i: int,
)
    requires
        resolvable(items, n_labels),
        within(fewer, more),
        fewer.len() == items.len(),
        0 <= i < items.len(),
        !more[i],
        short(items, more, i),
    ensures
        short(items, fewer, i),
{
    match items[i] {
        Item::Cond { jt, jf, .. } => {
            assert(!fewer[i]);
            lemma_mark_index(items, jt, items.len() as int);
            lemma_mark_index(items, jf, items.len() as int);
            lemma_distance_monotone(items, fewer, more, i + 1, label_index(items, jt));
            lemma_distance_monotone(items, fewer, more, i + 1, label_index(items, jf));
            lemma_position_monotone(items, fewer, i + 1, label_index(items, jt));
            lemma_position_monotone(items, fewer, i + 1, label_index(items, jf));
            assert(position(items, fewer, i + 1) == position(items, fewer, i) + 1);
            assert(position(items, more, i + 1) == position(items, more, i) + 1);
        },
        _ => {},
    }
}

/// The relaxation is stable, and no stable choice relaxes fewer items: a
/// conditional is made longer only where its targets are out of 8-bit range
/// whatever is done about the others.
pub proof fn relaxation_is_least(items: Seq<Item>, n_labels: int)
    requires
        resolvable(items, n_labels),
    ensures
        stable(items, relaxation(items)),
        forall|choice: Seq<bool>| #[trigger]
            stable(items, choice) ==> within(relaxation(items), choice),
{
    let least = relaxation(items);
    assert forall|i: int| 0 <= i < items.len() implies #[trigger] least[i] || short(
        items,
        least,
        i,
    ) by {
        if !least[i] {
            let choice = choose|choice: Seq<bool>| #[trigger]
                stable(items, choice) && !choice[i];
            assert(stable(items, choice) && !choice[i]);
            assert(choice[i] || short(items, choice, i));
            assert(within(least, choice));
            lemma_short_monotone(items, n_labels, least, choice, i);
        }
    }
}

/// A stable choice that relaxes nothing it could avoid is the relaxation.
pub proof fn lemma_relaxation_unique(items: Seq<Item>, n_labels: int, choice: Seq<bool>)
    requires
        resolvable(items, n_labels),
        stable(items, choice),
        within(choice, relaxation(items)),
    ensures
        choice == relaxation(items),
{
    relaxation_is_least(items, n_labels);
    assert(within(relaxation(items), choice));
    assert forall|i: int| 0 <= i < choice.len() implies choice[i] == relaxation(items)[i] by {
        assert(choice[i] ==> relaxation(items)[i]);
        assert(relaxation(items)[i] ==> choice[i]);
    }
    assert(choice =~= relaxation(items));
}

/// Every relaxed item is a conditional that could not have been left short: not
/// even with all else as it is are both its targets within 8 bits.
pub proof fn relaxation_is_needed(items: Seq<Item>, n_labels: int, i: int)
    requires
        resolvable(items, n_labels),
        0 <= i < items.len(),
        relaxation(items)[i],
    ensures
        items[i] is Cond,
        !short(items, relaxation(items).update(i, false), i),
{
    let least = relaxation(items);
    let fewer = least.update(i, false);
    relaxation_is_least(items, n_labels);
    if short(items, fewer, i) {
        assert forall|j: int| 0 <= j < items.len() implies #[trigger] fewer[j] || short(
            items,
            fewer,
            j,
        ) by {
            if j != i && !fewer[j] {
                assert(least[j] || short(items, least, j));
                assert(within(fewer, least));
                lemma_short_monotone(items, n_labels, fewer, least, j);
            }
        }
        assert(stable(items, fewer));
        assert(within(least, fewer));
        assert(least[i] ==> fewer[i]);
    }
}

/// Where every target is within 8 bits to begin with, nothing relaxes.
pub proof fn nothing_relaxes_in_range(items: Seq<Item>, n_labels: int)
    requires
        resolvable(items, n_labels),
        stable(items, Seq::new(items.len(), |i: int| false)),
    ensures
        relaxation(items) == Seq::new(items.len(), |i: int| false),
{
    lemma_relaxation_unique(items, n_labels, Seq::new(items.len(), |i: int| false));
}

/// No conditional of `first` names a label that `second` marks.
pub open spec fn separate(first: Seq<Item>, second: Seq<Item>) -> bool {
    forall|i: int|
        0 <= i < first.len() ==> match #[trigger] first[i] {
            Item::Cond { jt, jf, .. } => {
                &&& label_index(second, jt) < 0
                &&& label_index(second, jf) < 0
            },
            _ => true,
        }
}

/// A concatenation finds a label in its second list, or else in its first.
proof fn lemma_mark_index_concat(first: Seq<Item>, second: Seq<Item>, label: Label, n: int)
    requires
        0 <= n <= first.len() + second.len(),
    ensures
        mark_index(first + second, label, n) == if n <= first.len() {
            mark_index(first, label, n)
        } else if mark_index(second, label, n - first.len()) >= 0 {
            first.len() + mark_index(second, label, n - first.len())
        } else {
            mark_index(first, label, first.len() as int)
        },
    decreases n,
{
    if 0 < n {
        lemma_mark_index_concat(first, second, label, n - 1);
        if n > first.len() {
            lemma_mark_index(second, label, n - first.len() - 1);
        }
    }
}

/// In a concatenation the second list stands behind the whole of the first.
proof fn lemma_position_concat(
    first: Seq<Item>,
    second: Seq<Item>,
    front: Seq<bool>,
    back: Seq<bool>,
    n: int,
)
    requires
        front.len() == first.len(),
        back.len() == second.len(),
        0 <= n <= first.len() + second.len(),
    ensures
        position(first + second, front + back, n) == if n <= first.len() {
            position(first, front, n)
        } else {
            position(first, front, first.len() as int) + position(second, back, n - first.len())
        },
    decreases n,
{
    if 0 < n {
        lemma_position_concat(first, second, front, back, n - 1);
    }
}

/// The items of a concatenation are as short, and encoded as they are, in their
/// own lists.
proof fn lemma_item_concat(
    first: Seq<Item>,
    second: Seq<Item>,
    n_labels: int,
    front: Seq<bool>,
    back: Seq<bool>,
    i: int,
)
    requires
        resolvable(second, n_labels),
        separate(first, second),
        front.len() == first.len(),
        back.len() == second.len(),
        0 <= i < first.len() + second.len(),
    ensures
        i < first.len() ==> {
            &&& short(first + second, front + back, i) == short(first, front, i)
            &&& encode_item(first + second, front + back, i) == encode_item(first, front, i)
        },
        i >= first.len() ==> {
            &&& short(first + second, front + back, i) == short(second, back, i - first.len())
            &&& encode_item(first + second, front + back, i) == encode_item(
                second,
                back,
                i - first.len(),
            )
        },
{
    let both = first + second;
    let n = both.len() as int;
    lemma_position_concat(first, second, front, back, i);
    if let Item::Cond { jt, jf, .. } = both[i] {
        lemma_mark_index_concat(first, second, jt, n);
        lemma_mark_index_concat(first, second, jf, n);
        lemma_mark_index_concat(first, second, jt, first.len() as int);
        lemma_mark_index_concat(first, second, jf, first.len() as int);
        lemma_mark_index(first, jt, first.len() as int);
        lemma_mark_index(first, jf, first.len() as int);
        lemma_mark_index(second, jt, second.len() as int);
        lemma_mark_index(second, jf, second.len() as int);
        if i < first.len() {
            assert(both[i] == first[i]);
        } else {
            assert(both[i] == second[i - first.len()]);
        }
        lemma_position_at(first, second, front, back, label_index(both, jt));
        lemma_position_at(first, second, front, back, label_index(both, jf));
    }
}

/// `lemma_position_concat`, for the index of a label that may be unmarked.
proof fn lemma_position_at(
    first: Seq<Item>,
    second: Seq<Item>,
    front: Seq<bool>,
    back: Seq<bool>,
    i: int,
)
    requires
        front.len() == first.len(),
        back.len() == second.len(),
        -1 <= i < first.len() + second.len(),
    ensures
        position(first + second, front + back, i) == if i <= first.len() {
            position(first, front, i)
        } else {
            position(first, front, first.len() as int) + position(second, back, i - first.len())
        },
{
    if 0 <= i {
        lemma_position_concat(first, second, front, back, i);
    }
}

/// The encoding of a concatenation is the concatenation of the encodings.
proof fn lemma_encode_concat(
    first: Seq<Item>,
    second: Seq<Item>,
    n_labels: int,
    front: Seq<bool>,
    back: Seq<bool>,
    n: int,
)
    requires
        resolvable(second, n_labels),
        separate(first, second),
        front.len() == first.len(),
        back.len() == second.len(),
        0 <= n <= first.len() + second.len(),
    ensures
        encode(first + second, front + back, n) == if n <= first.len() {
            encode(first, front, n)
        } else {
            encode(first, front, first.len() as int) + encode(second, back, n - first.len())
        },
    decreases n,
{
    if 0 < n {
        lemma_encode_concat(first, second, n_labels, front, back, n - 1);
        lemma_item_concat(first, second, n_labels, front, back, n - 1);
        if n > first.len() {
            let m = n - first.len();
            assert(encode(first + second, front + back, n) =~= encode(
                first,
                front,
                first.len() as int,
            ) + encode(second, back, m));
        }
    }
}

/// Each part of a concatenation relaxes by itself.
proof fn lemma_stable_concat(
    first: Seq<Item>,
    second: Seq<Item>,
    n_labels: int,
    front: Seq<bool>,
    back: Seq<bool>,
)
    requires
        resolvable(second, n_labels),
        separate(first, second),
        front.len() == first.len(),
        back.len() == second.len(),
    ensures
        stable(first + second, front + back) == (stable(first, front) && stable(second, back)),
{
    let both = first + second;
    let choice = front + back;
    assert forall|i: int| 0 <= i < both.len() implies {
        &&& i < first.len() ==> short(both, choice, i) == short(first, front, i) && #[trigger]
            choice[i] == front[i]
        &&& i >= first.len() ==> short(both, choice, i) == short(second, back, i - first.len())
            && choice[i] == back[i - first.len()]
    } by {
        lemma_item_concat(first, second, n_labels, front, back, i);
    }
    if stable(both, choice) {
        assert forall|i: int| 0 <= i < first.len() implies #[trigger] front[i] || short(
            first,
            front,
            i,
        ) by {
            assert(choice[i] || short(both, choice, i));
        }
        assert forall|i: int| 0 <= i < second.len() implies #[trigger] back[i] || short(
            second,
            back,
            i,
        ) by {
            let j = first.len() + i;
            assert(choice[j] || short(both, choice, j));
        }
    }
    if stable(first, front) && stable(second, back) {
        assert forall|i: int| 0 <= i < both.len() implies #[trigger] choice[i] || short(
            both,
            choice,
            i,
        ) by {
            if i < first.len() {
                assert(front[i] || short(first, front, i));
            } else {
                assert(back[i - first.len()] || short(second, back, i - first.len()));
            }
        }
    }
}

/// Lists that do not share labels assemble independently: their concatenation
/// is resolvable and assembles to the concatenation of their programs.
///
/// It is enough that no conditional of the first list names a label that the
/// second one marks.
pub proof fn assembled_concatenates(first: Seq<Item>, second: Seq<Item>, n_labels: int)
    requires
        resolvable(first, n_labels),
        resolvable(second, n_labels),
        separate(first, second),
    ensures
        resolvable(first + second, n_labels),
        relaxation(first + second) == relaxation(first) + relaxation(second),
        assembled(first + second) == assembled(first) + assembled(second),
{
    let both = first + second;
    let front = relaxation(first);
    let back = relaxation(second);
    let n = both.len() as int;
    assert forall|i: int| 0 <= i < both.len() implies match #[trigger] both[i] {
        Item::Ins(_) => true,
        Item::Cond { jt, jf, .. } => {
            &&& jt < n_labels
            &&& jf < n_labels
            &&& i < label_index(both, jt)
            &&& i < label_index(both, jf)
        },
        Item::Mark(label) => label < n_labels,
    } by {
        if i < first.len() {
            assert(both[i] == first[i]);
        } else {
            assert(both[i] == second[i - first.len()]);
        }
        if let Item::Cond { jt, jf, .. } = both[i] {
            lemma_mark_index_concat(first, second, jt, n);
            lemma_mark_index_concat(first, second, jf, n);
            lemma_mark_index(first, jt, first.len() as int);
            lemma_mark_index(first, jf, first.len() as int);
        }
    }
    relaxation_is_least(first, n_labels);
    relaxation_is_least(second, n_labels);
    lemma_stable_concat(first, second, n_labels, front, back);
    assert forall|i: int| 0 <= i < n && #[trigger] (front + back)[i] implies relaxation(both)[i] by {
        assert forall|choice: Seq<bool>| #[trigger] stable(both, choice) implies choice[i] by {
            let head = choice.take(first.len() as int);
            let tail = choice.skip(first.len() as int);
            assert(choice =~= head + tail);
            lemma_stable_concat(first, second, n_labels, head, tail);
            if i < first.len() {
                assert(front[i] ==> head[i]);
            } else {
                assert(back[i - first.len()] ==> tail[i - first.len()]);
            }
        }
    }
    lemma_relaxation_unique(both, n_labels, front + back);
    lemma_encode_concat(first, second, n_labels, front, back, n);
    if second.len() == 0 {
        assert(assembled(both) =~= assembled(first) + assembled(second));
    }
}

/// `item` with every label put through `names`.
pub open spec fn renamed_item(item: Item, names: spec_fn(Label) -> Label) -> Item {
    match item {
        Item::Ins(ins) => Item::Ins(ins),
        Item::Cond { code, k, jt, jf } => Item::Cond { code, k, jt: names(jt), jf: names(jf) },
        Item::Mark(label) => Item::Mark(names(label)),
    }
}

/// `items` with every label put through `names`.
pub open spec fn renamed(items: Seq<Item>, names: spec_fn(Label) -> Label) -> Seq<Item> {
    Seq::new(items.len(), |i: int| renamed_item(items[i], names))
}

/// `item` marks `label` or jumps to it.
pub open spec fn mentions(item: Item, label: Label) -> bool {
    match item {
        Item::Ins(_) => false,
        Item::Cond { jt, jf, .. } => label == jt || label == jf,
        Item::Mark(marked) => label == marked,
    }
}

/// `label` is one of the labels of `items`.
pub open spec fn has_label(items: Seq<Item>, label: Label) -> bool {
    exists|i: int| 0 <= i < items.len() && mentions(#[trigger] items[i], label)
}

/// `names` tells the labels of `items` apart.
pub open spec fn injective(items: Seq<Item>, names: spec_fn(Label) -> Label) -> bool {
    forall|one: Label, other: Label| #[trigger]
        has_label(items, one) && #[trigger] has_label(items, other) && names(one) == names(other)
            ==> one == other
}

/// Lists that have no label in common are separate.
pub proof fn unshared_labels_separate(first: Seq<Item>, second: Seq<Item>)
    requires
        forall|label: Label| !(#[trigger] has_label(first, label) && has_label(second, label)),
    ensures
        separate(first, second),
{
    assert forall|i: int, label: Label|
        0 <= i < first.len() && #[trigger] mentions(first[i], label) implies label_index(
        second,
        label,
    ) < 0 by {
        assert(has_label(first, label));
        let at = label_index(second, label);
        lemma_mark_index(second, label, second.len() as int);
        if 0 <= at {
            assert(mentions(second[at], label));
            assert(has_label(second, label));
        }
    }
    assert forall|i: int| 0 <= i < first.len() implies match #[trigger] first[i] {
        Item::Cond { jt, jf, .. } => {
            &&& label_index(second, jt) < 0
            &&& label_index(second, jf) < 0
        },
        _ => true,
    } by {
        if let Item::Cond { jt, jf, .. } = first[i] {
            assert(mentions(first[i], jt) && mentions(first[i], jf));
        }
    }
}

/// Renaming keeps the place of each mark.
proof fn lemma_mark_index_renamed(
    items: Seq<Item>,
    names: spec_fn(Label) -> Label,
    label: Label,
    n: int,
)
    requires
        injective(items, names),
        has_label(items, label),
        0 <= n <= items.len(),
    ensures
        mark_index(renamed(items, names), names(label), n) == mark_index(items, label, n),
    decreases n,
{
    if 0 < n {
        lemma_mark_index_renamed(items, names, label, n - 1);
        if let Item::Mark(marked) = items[n - 1] {
            assert(mentions(items[n - 1], marked));
            assert(has_label(items, marked));
        }
    }
}

/// Renaming keeps every position.
proof fn lemma_position_renamed(
    items: Seq<Item>,
    names: spec_fn(Label) -> Label,
    relaxed: Seq<bool>,
    i: int,
)
    requires
        i <= items.len(),
    ensures
        position(renamed(items, names), relaxed, i) == position(items, relaxed, i),
    decreases i,
{
    if 0 < i {
        lemma_position_renamed(items, names, relaxed, i - 1);
    }
}

/// Renaming keeps what each item becomes.
proof fn lemma_item_renamed(
    items: Seq<Item>,
    names: spec_fn(Label) -> Label,
    relaxed: Seq<bool>,
    i: int,
)
    requires
        injective(items, names),
        0 <= i < items.len(),
    ensures
        short(renamed(items, names), relaxed, i) == short(items, relaxed, i),
        encode_item(renamed(items, names), relaxed, i) == encode_item(items, relaxed, i),
{
    let n = items.len() as int;
    lemma_position_renamed(items, names, relaxed, i);
    if let Item::Cond { jt, jf, .. } = items[i] {
        assert(mentions(items[i], jt) && mentions(items[i], jf));
        assert(has_label(items, jt) && has_label(items, jf));
        lemma_mark_index_renamed(items, names, jt, n);
        lemma_mark_index_renamed(items, names, jf, n);
        lemma_mark_index(items, jt, n);
        lemma_mark_index(items, jf, n);
        lemma_position_renamed(items, names, relaxed, label_index(items, jt));
        lemma_position_renamed(items, names, relaxed, label_index(items, jf));
    }
}

/// Renaming keeps the encoding.
proof fn lemma_encode_renamed(
    items: Seq<Item>,
    names: spec_fn(Label) -> Label,
    relaxed: Seq<bool>,
    n: int,
)
    requires
        injective(items, names),
        n <= items.len(),
    ensures
        encode(renamed(items, names), relaxed, n) == encode(items, relaxed, n),
    decreases n,
{
    if 0 < n {
        lemma_encode_renamed(items, names, relaxed, n - 1);
        lemma_item_renamed(items, names, relaxed, n - 1);
    }
}

/// Label numbers have no influence: an injective renaming of the labels leaves
/// the program as it is, and leaves the items resolvable under any bound on the
/// new labels.
pub proof fn labels_are_only_names(
    items: Seq<Item>,
    names: spec_fn(Label) -> Label,
    n_labels: int,
    n_renamed: int,
)
    requires
        injective(items, names),
    ensures
        assembled(renamed(items, names)) == assembled(items),
        resolvable(items, n_labels) && (forall|label: Label| #[trigger]
            has_label(items, label) ==> names(label) < n_renamed) ==> resolvable(
            renamed(items, names),
            n_renamed,
        ),
{
    let after = renamed(items, names);
    assert forall|choice: Seq<bool>| #[trigger] stable(after, choice) == stable(items, choice) by {
        assert forall|i: int| 0 <= i < items.len() implies short(after, choice, i) == short(
            items,
            choice,
            i,
        ) by {
            lemma_item_renamed(items, names, choice, i);
        }
        if stable(items, choice) {
            assert forall|i: int| 0 <= i < after.len() implies #[trigger] choice[i] || short(
                after,
                choice,
                i,
            ) by {
                assert(choice[i] || short(items, choice, i));
            }
        }
        if stable(after, choice) {
            assert forall|i: int| 0 <= i < items.len() implies #[trigger] choice[i] || short(
                items,
                choice,
                i,
            ) by {
                assert(choice[i] || short(after, choice, i));
            }
        }
    }
    assert forall|i: int| 0 <= i < items.len() implies relaxation(after)[i] == relaxation(
        items,
    )[i] by {
        if relaxation(after)[i] {
            assert forall|choice: Seq<bool>| #[trigger] stable(items, choice) implies choice[i] by {
                assert(stable(after, choice));
            }
        }
    }
    assert(relaxation(after) =~= relaxation(items));
    lemma_encode_renamed(items, names, relaxation(items), items.len() as int);
    if resolvable(items, n_labels) && (forall|label: Label| #[trigger]
        has_label(items, label) ==> names(label) < n_renamed) {
        assert forall|i: int| 0 <= i < after.len() implies match #[trigger] after[i] {
            Item::Ins(_) => true,
            Item::Cond { jt, jf, .. } => {
                &&& jt < n_renamed
                &&& jf < n_renamed
                &&& i < label_index(after, jt)
                &&& i < label_index(after, jf)
            },
            Item::Mark(label) => label < n_renamed,
        } by {
            let n = items.len() as int;
            match items[i] {
                Item::Ins(_) => {},
                Item::Cond { jt, jf, .. } => {
                    assert(mentions(items[i], jt) && mentions(items[i], jf));
                    assert(has_label(items, jt) && has_label(items, jf));
                    lemma_mark_index_renamed(items, names, jt, n);
                    lemma_mark_index_renamed(items, names, jf, n);
                },
                Item::Mark(label) => {
                    assert(mentions(items[i], label));
                    assert(has_label(items, label));
                },
            }
        }
    }
}

} // verus!
