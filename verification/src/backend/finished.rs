//! What makes a program the finished form of a list of items.
//!
//! Everything here is said of places and instructions alone: where each item
//! stands, what stands there, and that no other way to place the items is
//! shorter.

use vstd::prelude::*;

use crate::backend::bpf::{sock_filter, BPF_JA, BPF_JMP};
use crate::backend::layout;
use crate::backend::optimize::{Item, Label};

verus! {

/// Item `t` is the last one that marks `label`.
pub open spec fn stands_at(items: Seq<Item>, label: Label, t: int) -> bool {
    &&& 0 <= t < items.len()
    &&& items[t] == Item::Mark(label)
    &&& forall|j: int| t < j < items.len() ==> #[trigger] items[j] != Item::Mark(label)
}

/// `at` is a way to place the items one behind the other: item `i` takes up the
/// instructions from `at[i]` up to `at[i + 1]`. A mark takes none and an embedded
/// instruction one. A conditional takes three, or one where both its labels are
/// at most 255 instructions past it.
pub open spec fn places(items: Seq<Item>, at: Seq<int>) -> bool {
    &&& at.len() == items.len() + 1
    &&& at[0] == 0
    &&& forall|i: int|
        0 <= i < items.len() ==> match #[trigger] items[i] {
            Item::Mark(_) => at[i + 1] == at[i],
            Item::Ins(_) => at[i + 1] == at[i] + 1,
            Item::Cond { jt, jf, .. } => {
                ||| at[i + 1] == at[i] + 3
                ||| {
                    &&& at[i + 1] == at[i] + 1
                    &&& forall|t: int| #[trigger]
                        stands_at(items, jt, t) ==> 0 <= at[t] - at[i + 1] <= 255
                    &&& forall|f: int| #[trigger]
                        stands_at(items, jf, f) ==> 0 <= at[f] - at[i + 1] <= 255
                }
            },
        }
}

/// `prog` holds the items at their places: an embedded instruction verbatim, a
/// short conditional with its own code and constant and the distances to its
/// labels, a long one as a choice between two unconditional jumps.
///
/// The offset of an unconditional jump holds the low 32 bits of the distance.
pub open spec fn written(items: Seq<Item>, at: Seq<int>, prog: Seq<sock_filter>) -> bool {
    &&& prog.len() == at[items.len() as int]
    &&& forall|i: int|
        0 <= i < items.len() ==> match #[trigger] items[i] {
            Item::Mark(_) => true,
            Item::Ins(ins) => prog[at[i]] == ins,
            Item::Cond { code, k, jt, jf } => forall|t: int, f: int|
                #![trigger stands_at(items, jt, t), stands_at(items, jf, f)]
                stands_at(items, jt, t) && stands_at(items, jf, f) ==> {
                    let first = prog[at[i]];
                    let on_true = prog[at[i] + 1];
                    let on_false = prog[at[i] + 2];
                    &&& i < t && i < f
                    &&& first.code == code
                    &&& first.k == k
                    &&& at[i + 1] == at[i] + 1 ==> {
                        &&& at[i] + 1 + first.jt == at[t]
                        &&& at[i] + 1 + first.jf == at[f]
                    }
                    &&& at[i + 1] == at[i] + 3 ==> {
                        &&& first.jt == 0 && first.jf == 1
                        &&& on_true.code == 0x05 && on_true.jt == 0 && on_true.jf == 0
                        &&& on_false.code == 0x05 && on_false.jt == 0 && on_false.jf == 0
                        &&& at[t] - (at[i] + 2) <= u64::MAX ==> on_true.k == (at[t] - (at[i] + 2))
                            % 0x1_0000_0000
                        &&& at[f] - (at[i] + 3) <= u64::MAX ==> on_false.k == (at[f] - (at[i] + 3))
                            % 0x1_0000_0000
                    }
                },
        }
}

/// No conditional is long without need: counted as one instruction, with all
/// else as it is, one of its labels would be more than 255 instructions past it.
pub open spec fn needed(items: Seq<Item>, at: Seq<int>) -> bool {
    forall|i: int|
        0 <= i < items.len() ==> match #[trigger] items[i] {
            Item::Cond { jt, jf, .. } => at[i + 1] == at[i] + 3 ==> exists|t: int|
                {
                    &&& stands_at(items, jt, t) || stands_at(items, jf, t)
                    &&& #[trigger] at[t] - 2 - (at[i] + 1) > 255
                },
            _ => true,
        }
}

/// No way to place the items puts any of them earlier.
pub open spec fn shortest(items: Seq<Item>, at: Seq<int>) -> bool {
    forall|other: Seq<int>, i: int|
        #![trigger places(items, other), at[i]]
        places(items, other) && 0 <= i <= items.len() ==> at[i] <= other[i]
}

/// `prog` is the finished form of `items`.
pub open spec fn finished(items: Seq<Item>, prog: Seq<sock_filter>) -> bool {
    exists|at: Seq<int>| #[trigger]
        places(items, at) && written(items, at, prog) && needed(items, at) && shortest(items, at)
}

/// The places that the layout gives to the items.
pub open spec fn positions(items: Seq<Item>, relaxed: Seq<bool>) -> Seq<int> {
    Seq::new(items.len() + 1, |i: int| layout::position(items, relaxed, i) as int)
}

/// A label stands where its index says, and nowhere else.
proof fn lemma_stands(items: Seq<Item>, label: Label)
    ensures
        forall|t: int| #[trigger]
            stands_at(items, label, t) ==> t == layout::label_index(items, label),
        0 <= layout::label_index(items, label) ==> stands_at(
            items,
            label,
            layout::label_index(items, label),
        ),
{
    layout::lemma_mark_index(items, label, items.len() as int);
    assert forall|t: int| #[trigger] stands_at(items, label, t) implies t == layout::label_index(
        items,
        label,
    ) by {
        layout::lemma_last_mark(items, label, t);
    }
}

/// The layout is a way to place the items.
proof fn lemma_layout_places(items: Seq<Item>, n_labels: int)
    requires
        layout::resolvable(items, n_labels),
    ensures
        places(items, positions(items, layout::relaxation(items))),
{
    let relaxed = layout::relaxation(items);
    let at = positions(items, relaxed);
    layout::relaxation_is_least(items, n_labels);
    assert forall|i: int| 0 <= i < items.len() implies match #[trigger] items[i] {
        Item::Mark(_) => at[i + 1] == at[i],
        Item::Ins(_) => at[i + 1] == at[i] + 1,
        Item::Cond { jt, jf, .. } => {
            ||| at[i + 1] == at[i] + 3
            ||| {
                &&& at[i + 1] == at[i] + 1
                &&& forall|t: int| #[trigger]
                    stands_at(items, jt, t) ==> 0 <= at[t] - at[i + 1] <= 255
                &&& forall|f: int| #[trigger]
                    stands_at(items, jf, f) ==> 0 <= at[f] - at[i + 1] <= 255
            }
        },
    } by {
        assert(at[i + 1] == layout::position(items, relaxed, i + 1));
        if let Item::Cond { jt, jf, .. } = items[i] {
            lemma_stands(items, jt);
            lemma_stands(items, jf);
            assert(relaxed[i] || layout::short(items, relaxed, i));
        }
    }
}

/// No way to place the items beats the layout.
proof fn lemma_layout_shortest(items: Seq<Item>, n_labels: int, other: Seq<int>, n: int)
    requires
        layout::resolvable(items, n_labels),
        places(items, other),
        0 <= n <= items.len(),
    ensures
        layout::position(items, layout::relaxation(items), n) <= other[n],
{
    let choice = Seq::new(
        items.len(),
        |i: int| items[i] is Cond && other[i + 1] == other[i] + 3,
    );
    assert forall|i: int| 0 <= i <= items.len() implies layout::position(items, choice, i)
        == #[trigger] other[i] by {
        lemma_choice_position(items, other, choice, i);
    }
    assert forall|i: int| 0 <= i < items.len() implies #[trigger] choice[i] || layout::short(
        items,
        choice,
        i,
    ) by {
        if let Item::Cond { jt, jf, .. } = items[i] {
            lemma_stands(items, jt);
            lemma_stands(items, jf);
            let t = layout::label_index(items, jt);
            let f = layout::label_index(items, jf);
            assert(stands_at(items, jt, t) && stands_at(items, jf, f));
            assert(layout::position(items, choice, t) == other[t]);
            assert(layout::position(items, choice, f) == other[f]);
            assert(layout::position(items, choice, i) == other[i]);
        }
    }
    layout::relaxation_is_least(items, n_labels);
    assert(layout::stable(items, choice));
    layout::lemma_distance_monotone(items, layout::relaxation(items), choice, 0, n);
    assert(layout::position(items, choice, n) == other[n]);
}

/// The choice that a way to place the items makes has its positions.
proof fn lemma_choice_position(items: Seq<Item>, other: Seq<int>, choice: Seq<bool>, i: int)
    requires
        places(items, other),
        choice == Seq::new(
            items.len(),
            |i: int| items[i] is Cond && other[i + 1] == other[i] + 3,
        ),
        0 <= i <= items.len(),
    ensures
        layout::position(items, choice, i) == other[i],
    decreases i,
{
    if 0 < i {
        lemma_choice_position(items, other, choice, i - 1);
        let item = items[i - 1];
    }
}

/// Making one relaxed conditional short pulls what is behind it two closer.
proof fn lemma_position_shortened(items: Seq<Item>, relaxed: Seq<bool>, i: int, j: int)
    requires
        relaxed.len() == items.len(),
        0 <= i < items.len(),
        relaxed[i],
        items[i] is Cond,
        0 <= j <= items.len(),
    ensures
        layout::position(items, relaxed.update(i, false), j) == layout::position(items, relaxed, j)
            - if i < j {
            2int
        } else {
            0int
        },
    decreases j,
{
    if 0 < j {
        lemma_position_shortened(items, relaxed, i, j - 1);
    }
}

/// A distance cut to 32 bits is its remainder.
proof fn lemma_low_half(distance: int)
    ensures
        0 <= distance <= u64::MAX ==> distance as u32 == distance % 0x1_0000_0000,
{
    if 0 <= distance <= u64::MAX {
        let wide = distance as u64;
        assert(wide as u32 == wide % 0x1_0000_0000) by (bit_vector);
    }
}

/// A conditional of the assembled program, on all bits of its instructions: it
/// has its item's own code and constant. Where it is short its offsets are the
/// distances to its labels; where it is not it picks between two unconditional
/// jumps of code 5, whose offsets are the distances from there.
pub proof fn conditional_is_exact(
    items: Seq<Item>,
    n_labels: int,
    i: int,
    code: u16,
    k: u32,
    jt: Label,
    jf: Label,
)
    requires
        layout::resolvable(items, n_labels),
        0 <= i < items.len(),
        items[i] == (Item::Cond { code, k, jt, jf }),
    ensures
        ({
            let relaxed = layout::relaxation(items);
            let prog = layout::assembled(items);
            let at = layout::position(items, relaxed, i) as int;
            let on_true = layout::label_position(items, relaxed, jt);
            let on_false = layout::label_position(items, relaxed, jf);
            &&& at < prog.len()
            &&& prog[at].code == code
            &&& prog[at].k == k
            &&& !relaxed[i] ==> {
                &&& at + 1 + prog[at].jt == on_true
                &&& at + 1 + prog[at].jf == on_false
            }
            &&& relaxed[i] ==> {
                &&& at + 2 < prog.len()
                &&& prog[at].jt == 0 && prog[at].jf == 1
                &&& prog[at + 1].code == 0x05 && prog[at + 1].jt == 0 && prog[at + 1].jf == 0
                &&& prog[at + 2].code == 0x05 && prog[at + 2].jt == 0 && prog[at + 2].jf == 0
                &&& on_true - (at + 2) <= u64::MAX ==> prog[at + 1].k == (on_true - (at + 2))
                    % 0x1_0000_0000
                &&& on_false - (at + 3) <= u64::MAX ==> prog[at + 2].k == (on_false - (at + 3))
                    % 0x1_0000_0000
            }
        }),
{
    let relaxed = layout::relaxation(items);
    let prog = layout::assembled(items);
    let at = layout::position(items, relaxed, i) as int;
    let end = layout::position(items, relaxed, i + 1) as int;
    layout::encoded_in_place(items, relaxed, i, items.len() as int);
    layout::relaxation_is_least(items, n_labels);
    layout::lemma_position_monotone(items, relaxed, i + 1, layout::label_index(items, jt));
    layout::lemma_position_monotone(items, relaxed, i + 1, layout::label_index(items, jf));
    assert(relaxed[i] || layout::short(items, relaxed, i));
    assert((BPF_JMP | BPF_JA) == 0x05) by (bit_vector);
    let here = prog.subrange(at, end);
    assert(prog[at] == here[0]);
    if relaxed[i] {
        assert(prog[at + 1] == here[1]);
        assert(prog[at + 2] == here[2]);
        lemma_low_half(layout::label_position(items, relaxed, jt) - (at + 2));
        lemma_low_half(layout::label_position(items, relaxed, jf) - (at + 3));
    }
}

/// A conditional of the assembled program is long only where one of its labels
/// is out of 8-bit range: with the conditional counted as one instruction and
/// all else as it is, more than 255 instructions past it.
pub proof fn relaxed_is_out_of_range(items: Seq<Item>, n_labels: int, i: int)
    requires
        layout::resolvable(items, n_labels),
        0 <= i < items.len(),
        layout::relaxation(items)[i],
    ensures
        ({
            let relaxed = layout::relaxation(items);
            let next = layout::position(items, relaxed, i) + 1;
            items[i] matches Item::Cond { jt, jf, .. } && {
                ||| layout::label_position(items, relaxed, jt) - 2 - next > 255
                ||| layout::label_position(items, relaxed, jf) - 2 - next > 255
            }
        }),
{
    let relaxed = layout::relaxation(items);
    let fewer = relaxed.update(i, false);
    layout::relaxation_is_needed(items, n_labels, i);
    if let Item::Cond { jt, jf, .. } = items[i] {
        layout::lemma_mark_index(items, jt, items.len() as int);
        layout::lemma_mark_index(items, jf, items.len() as int);
        let t = layout::label_index(items, jt);
        let f = layout::label_index(items, jf);
        lemma_position_shortened(items, relaxed, i, i);
        lemma_position_shortened(items, relaxed, i, i + 1);
        lemma_position_shortened(items, relaxed, i, t);
        lemma_position_shortened(items, relaxed, i, f);
        layout::lemma_position_monotone(items, relaxed, i + 1, t);
        layout::lemma_position_monotone(items, relaxed, i + 1, f);
    }
}

/// The assembled program is the finished form of its items: every item stands at
/// its place, every instruction is right on all its bits, no conditional is long
/// without need, and no other way to place the items is shorter anywhere.
pub proof fn assembled_is_finished(items: Seq<Item>, n_labels: int)
    requires
        layout::resolvable(items, n_labels),
    ensures
        finished(items, layout::assembled(items)),
{
    let relaxed = layout::relaxation(items);
    let prog = layout::assembled(items);
    let at = positions(items, relaxed);
    lemma_layout_places(items, n_labels);
    layout::lemma_encode_len(items, relaxed, items.len() as int);
    assert forall|i: int| 0 <= i < items.len() implies match #[trigger] items[i] {
        Item::Mark(_) => true,
        Item::Ins(ins) => prog[at[i]] == ins,
        Item::Cond { code, k, jt, jf } => forall|t: int, f: int|
            #![trigger stands_at(items, jt, t), stands_at(items, jf, f)]
            stands_at(items, jt, t) && stands_at(items, jf, f) ==> {
                let first = prog[at[i]];
                let on_true = prog[at[i] + 1];
                let on_false = prog[at[i] + 2];
                &&& i < t && i < f
                &&& first.code == code
                &&& first.k == k
                &&& at[i + 1] == at[i] + 1 ==> {
                    &&& at[i] + 1 + first.jt == at[t]
                    &&& at[i] + 1 + first.jf == at[f]
                }
                &&& at[i + 1] == at[i] + 3 ==> {
                    &&& first.jt == 0 && first.jf == 1
                    &&& on_true.code == 0x05 && on_true.jt == 0 && on_true.jf == 0
                    &&& on_false.code == 0x05 && on_false.jt == 0 && on_false.jf == 0
                    &&& at[t] - (at[i] + 2) <= u64::MAX ==> on_true.k == (at[t] - (at[i] + 2))
                            % 0x1_0000_0000
                    &&& at[f] - (at[i] + 3) <= u64::MAX ==> on_false.k == (at[f] - (at[i] + 3))
                            % 0x1_0000_0000
                }
            },
    } by {
        assert(at[i + 1] == layout::position(items, relaxed, i + 1));
        match items[i] {
            Item::Mark(_) => {},
            Item::Ins(_) => {
                layout::encoded_in_place(items, relaxed, i, items.len() as int);
            },
            Item::Cond { code, k, jt, jf } => {
                lemma_stands(items, jt);
                lemma_stands(items, jf);
                conditional_is_exact(items, n_labels, i, code, k, jt, jf);
            },
        }
    }
    assert(written(items, at, prog));
    assert forall|i: int| 0 <= i < items.len() implies match #[trigger] items[i] {
        Item::Cond { jt, jf, .. } => at[i + 1] == at[i] + 3 ==> exists|t: int|
            {
                &&& stands_at(items, jt, t) || stands_at(items, jf, t)
                &&& #[trigger] at[t] - 2 - (at[i] + 1) > 255
            },
        _ => true,
    } by {
        assert(at[i + 1] == layout::position(items, relaxed, i + 1));
        if let Item::Cond { jt, jf, .. } = items[i] {
            if relaxed[i] {
                lemma_stands(items, jt);
                lemma_stands(items, jf);
                relaxed_is_out_of_range(items, n_labels, i);
                let t = layout::label_index(items, jt);
                let f = layout::label_index(items, jf);
                assert(stands_at(items, jt, t) && stands_at(items, jf, f));
                assert(at[t] == layout::position(items, relaxed, t));
                assert(at[f] == layout::position(items, relaxed, f));
            }
        }
    }
    assert(needed(items, at));
    assert forall|other: Seq<int>, i: int|
        #![trigger places(items, other), at[i]]
        places(items, other) && 0 <= i <= items.len() implies at[i] <= other[i] by {
        lemma_layout_shortest(items, n_labels, other, i);
    }
    assert(shortest(items, at));
}

/// Where the items can be placed with every conditional short, the program has
/// one instruction for each item that is not a mark, at just those places.
pub proof fn programs_in_range_stay_short(
    items: Seq<Item>,
    at: Seq<int>,
    prog: Seq<sock_filter>,
)
    requires
        finished(items, prog),
        places(items, at),
        forall|i: int|
            0 <= i < items.len() && (#[trigger] items[i]) is Cond ==> at[i + 1] == at[i] + 1,
    ensures
        written(items, at, prog),
{
    let own = choose|own: Seq<int>| #[trigger]
        places(items, own) && written(items, own, prog) && needed(items, own) && shortest(
            items,
            own,
        );
    assert forall|i: int| 0 <= i <= items.len() implies own[i] == at[i] by {
        lemma_short_places(items, at, own, i);
        assert(own[i] <= at[i]);
    }
    assert(own =~= at);
}

/// Places with every conditional short are the earliest there are.
proof fn lemma_short_places(items: Seq<Item>, at: Seq<int>, other: Seq<int>, n: int)
    requires
        places(items, at),
        places(items, other),
        forall|i: int|
            0 <= i < items.len() && (#[trigger] items[i]) is Cond ==> at[i + 1] == at[i] + 1,
        0 <= n <= items.len(),
    ensures
        at[n] <= other[n],
    decreases n,
{
    if 0 < n {
        lemma_short_places(items, at, other, n - 1);
        let item = items[n - 1];
    }
}

/// What `assemble` takes: labels below `n_labels`, each conditional in front of
/// the places where its two labels stand.
pub proof fn resolvable_means_forward(items: Seq<Item>, n_labels: int)
    ensures
        layout::resolvable(items, n_labels) <==> forall|i: int|
            0 <= i < items.len() ==> match #[trigger] items[i] {
                Item::Ins(_) => true,
                Item::Cond { jt, jf, .. } => {
                    &&& jt < n_labels
                    &&& jf < n_labels
                    &&& exists|t: int| i < t && #[trigger] stands_at(items, jt, t)
                    &&& exists|f: int| i < f && #[trigger] stands_at(items, jf, f)
                },
                Item::Mark(label) => label < n_labels,
            },
{
    assert forall|i: int| 0 <= i < items.len() implies match #[trigger] items[i] {
        Item::Cond { jt, jf, .. } => {
            &&& (exists|t: int| i < t && #[trigger] stands_at(items, jt, t)) == (i
                < layout::label_index(items, jt))
            &&& (exists|f: int| i < f && #[trigger] stands_at(items, jf, f)) == (i
                < layout::label_index(items, jf))
        },
        _ => true,
    } by {
        if let Item::Cond { jt, jf, .. } = items[i] {
            lemma_stands(items, jt);
            lemma_stands(items, jf);
        }
    }
}

/// Every instruction of a program belongs to an item.
proof fn lemma_item_of(items: Seq<Item>, relaxed: Seq<bool>, pc: int, n: int) -> (i: int)
    requires
        0 <= pc < layout::position(items, relaxed, n),
    ensures
        0 <= i < n,
        layout::position(items, relaxed, i) <= pc < layout::position(items, relaxed, i + 1),
    decreases n,
{
    if layout::position(items, relaxed, n - 1) <= pc {
        n - 1
    } else {
        lemma_item_of(items, relaxed, pc, n - 1)
    }
}

/// Instruction `pc` is an embedded one as it was given, the comparison of a
/// conditional with its own code and constant, or an unconditional jump of code
/// 5; and it does not jump out of the program unless it was embedded.
pub open spec fn accounted_for(items: Seq<Item>, prog: Seq<sock_filter>, pc: int) -> bool {
    let ins = prog[pc];
    exists|i: int|
        0 <= i < items.len() && match #[trigger] items[i] {
            Item::Mark(_) => false,
            Item::Ins(given) => ins == given,
            Item::Cond { code, k, .. } => {
                ||| {
                    &&& ins.code == code
                    &&& ins.k == k
                    &&& pc + 1 + ins.jt < prog.len()
                    &&& pc + 1 + ins.jf < prog.len()
                }
                ||| {
                    &&& ins.code == 0x05
                    &&& ins.jt == 0
                    &&& ins.jf == 0
                    &&& pc + 1 + ins.k < prog.len()
                }
            },
        }
}

/// A program whose last item is an embedded instruction ends with it, consists
/// of nothing but what its items ask for, and has no jump of its own that leaves
/// it: what a kernel asks of a filter before it loads it.
pub proof fn assembled_stays_inside(items: Seq<Item>, n_labels: int)
    requires
        layout::resolvable(items, n_labels),
        0 < items.len(),
        items.last() is Ins,
        layout::assembled(items).len() <= u64::MAX,
    ensures
        0 < layout::assembled(items).len(),
        layout::assembled(items).last() == items.last()->Ins_0,
        forall|pc: int|
            0 <= pc < layout::assembled(items).len() ==> #[trigger] accounted_for(
                items,
                layout::assembled(items),
                pc,
            ),
{
    let relaxed = layout::relaxation(items);
    let prog = layout::assembled(items);
    let n = items.len() as int;
    layout::lemma_encode_len(items, relaxed, n);
    layout::encoded_in_place(items, relaxed, n - 1, n);
    assert(layout::position(items, relaxed, n) == layout::position(items, relaxed, n - 1) + 1);
    assert forall|pc: int| 0 <= pc < prog.len() implies #[trigger] accounted_for(
        items,
        prog,
        pc,
    ) by {
        let i = lemma_item_of(items, relaxed, pc, n);
        let at = layout::position(items, relaxed, i) as int;
        match items[i] {
            Item::Mark(_) => {},
            Item::Ins(_) => {
                layout::encoded_in_place(items, relaxed, i, n);
            },
            Item::Cond { code, k, jt, jf } => {
                conditional_is_exact(items, n_labels, i, code, k, jt, jf);
                let t = layout::label_index(items, jt);
                let f = layout::label_index(items, jf);
                layout::lemma_mark_index(items, jt, n);
                layout::lemma_mark_index(items, jf, n);
                layout::lemma_position_monotone(items, relaxed, i + 1, t);
                layout::lemma_position_monotone(items, relaxed, i + 1, f);
                layout::lemma_position_monotone(items, relaxed, t, n - 1);
                layout::lemma_position_monotone(items, relaxed, f, n - 1);
                assert(items[i] is Cond);
            },
        }
    }
}

} // verus!
