//! Exact output of the assembler and of the tree builder.

use seccompiler::backend::bpf::{bpf_jump, bpf_stmt, sock_filter, BPF_JA, BPF_JMP};
use seccompiler::backend::optimize::{assemble, build_bst, emit, fresh, Item};
use seccompiler::backend::SeccompAction;

fn cond(k: u32, jt: usize, jf: usize) -> Item {
    Item::Cond { code: 0x15, k, jt, jf }
}

fn ret(k: u32) -> Item {
    Item::Ins(bpf_stmt(0x06, k))
}

/// `n` verbatim instructions.
fn pad(n: u32) -> Vec<Item> {
    (0..n).map(|k| Item::Ins(bpf_stmt(0x00, k))).collect()
}

#[test]
fn instructions_hold_their_parts() {
    assert_eq!(bpf_stmt(0x20, 4), sock_filter { code: 0x20, jt: 0, jf: 0, k: 4 });
    assert_eq!(bpf_jump(0x15, 7, 1, 2), sock_filter { code: 0x15, jt: 1, jf: 2, k: 7 });
}

#[test]
fn actions_have_their_kernel_values() {
    assert_eq!(u32::from(SeccompAction::Allow), 0x7fff_0000);
    assert_eq!(u32::from(SeccompAction::Errno(38)), 0x0005_0026);
    assert_eq!(u32::from(SeccompAction::Errno(0x1_0002)), 0x0005_0002);
    assert_eq!(u32::from(SeccompAction::KillThread), 0);
    assert_eq!(u32::from(SeccompAction::KillProcess), 0x8000_0000);
    assert_eq!(u32::from(SeccompAction::Log), 0x7ffc_0000);
    assert_eq!(u32::from(SeccompAction::Trace(5)), 0x7ff0_0005);
    assert_eq!(u32::from(SeccompAction::Trap), 0x0003_0000);
}

#[test]
fn nothing_assembles_to_nothing() {
    assert_eq!(assemble(&[], 0), vec![]);
    assert_eq!(assemble(&[Item::Mark(0)], 1), vec![]);
}

#[test]
fn short_conditional_is_one_instruction() {
    let items = [cond(5, 0, 1), Item::Mark(0), ret(1), Item::Mark(1), ret(2)];
    assert_eq!(
        assemble(&items, 2),
        vec![bpf_jump(0x15, 5, 0, 1), bpf_stmt(0x06, 1), bpf_stmt(0x06, 2)]
    );
}

#[test]
fn embedded_instructions_are_verbatim() {
    let odd = sock_filter { code: 0xffff, jt: 3, jf: 250, k: 0xdead_beef };
    let items = [Item::Ins(odd), cond(1, 0, 0), Item::Mark(0), Item::Ins(odd)];
    assert_eq!(assemble(&items, 1), vec![odd, bpf_jump(0x15, 1, 0, 0), odd]);
}

#[test]
fn the_last_mark_counts() {
    let items = [cond(1, 0, 0), Item::Mark(0), ret(1), Item::Mark(0), ret(2)];
    assert_eq!(
        assemble(&items, 1),
        vec![bpf_jump(0x15, 1, 1, 1), bpf_stmt(0x06, 1), bpf_stmt(0x06, 2)]
    );
}

#[test]
fn an_offset_of_255_stays_short() {
    let mut items = vec![cond(9, 0, 1), Item::Mark(0)];
    items.extend(pad(255));
    items.push(Item::Mark(1));
    items.push(ret(3));
    let prog = assemble(&items, 2);
    assert_eq!(prog.len(), 257);
    assert_eq!(prog[0], bpf_jump(0x15, 9, 0, 255));
    assert_eq!(prog[256], bpf_stmt(0x06, 3));
}

#[test]
fn an_offset_of_256_relaxes() {
    let mut items = vec![cond(9, 0, 1), Item::Mark(0)];
    items.extend(pad(256));
    items.push(Item::Mark(1));
    items.push(ret(3));
    let prog = assemble(&items, 2);
    assert_eq!(prog.len(), 260);
    assert_eq!(prog[0], bpf_jump(0x15, 9, 0, 1));
    assert_eq!(prog[1], bpf_stmt(BPF_JMP | BPF_JA, 1));
    assert_eq!(prog[2], bpf_stmt(BPF_JMP | BPF_JA, 256));
    assert_eq!(prog[3], bpf_stmt(0x00, 0));
    assert_eq!(prog[259], bpf_stmt(0x06, 3));
}

#[test]
fn one_relaxation_forces_another() {
    // The first conditional reaches its target until the second one grows.
    let mut items = vec![cond(1, 0, 0), cond(2, 1, 1)];
    items.extend(pad(254));
    items.push(Item::Mark(0));
    items.extend(pad(2));
    items.push(Item::Mark(1));
    items.push(ret(4));
    let prog = assemble(&items, 2);
    assert_eq!(prog.len(), 3 + 3 + 254 + 2 + 1);
    assert_eq!(
        prog[..6].to_vec(),
        vec![
            bpf_jump(0x15, 1, 0, 1),
            bpf_stmt(0x05, 258),
            bpf_stmt(0x05, 257),
            bpf_jump(0x15, 2, 0, 1),
            bpf_stmt(0x05, 257),
            bpf_stmt(0x05, 256),
        ]
    );
}

#[test]
fn a_near_conditional_does_not_relax_with_a_far_one() {
    let mut items = vec![cond(1, 1, 1), cond(2, 0, 0), Item::Mark(0)];
    items.extend(pad(300));
    items.push(Item::Mark(1));
    items.push(ret(4));
    let prog = assemble(&items, 2);
    assert_eq!(prog.len(), 3 + 1 + 300 + 1);
    assert_eq!(prog[3], bpf_jump(0x15, 2, 0, 0));
}

#[test]
fn fresh_labels_count_up() {
    let mut next: usize = 3;
    assert_eq!(fresh(&mut next), 3);
    assert_eq!(fresh(&mut next), 4);
    assert_eq!(next, 5);
}

#[test]
fn tree_over_two_leaves_is_exact() {
    let leaves = [(10, SeccompAction::Allow), (20, SeccompAction::Errno(38))];
    let mut items = vec![ret(0)];
    let mut next: usize = 1;
    build_bst(&leaves, &mut items, &mut next, 0);
    assert_eq!(next, 5);
    assert_eq!(
        items,
        vec![
            ret(0),
            Item::Cond { code: 0x35, k: 20, jt: 1, jf: 2 },
            Item::Mark(2),
            Item::Cond { code: 0x15, k: 10, jt: 3, jf: 0 },
            Item::Mark(3),
            ret(0x7fff_0000),
            Item::Mark(1),
            Item::Cond { code: 0x15, k: 20, jt: 4, jf: 0 },
            Item::Mark(4),
            ret(0x0005_0026),
        ]
    );
}

#[test]
fn trees_take_three_items_per_node() {
    for n in 1..40usize {
        let leaves: Vec<(i64, SeccompAction)> =
            (0..n).map(|i| (i as i64 * 7, SeccompAction::Trap)).collect();
        let mut items = vec![];
        let mut next: usize = 1;
        emit(&leaves, &mut items, &mut next, 0);
        assert_eq!(items.len(), 3 * (2 * n - 1));
        assert_eq!(next, 1 + 2 * (n - 1) + n);
    }
}

/// A far jump over `n` instructions to `far`, with a near one inside.
fn block(near: usize, far: usize, n: u32) -> Vec<Item> {
    let mut items = vec![cond(1, near, far), cond(2, near, near), Item::Mark(near)];
    items.extend(pad(n));
    items.push(Item::Mark(far));
    items.push(ret(n));
    items
}

#[test]
fn separate_lists_assemble_independently() {
    for (m, n) in [(0, 0), (10, 300), (300, 10), (254, 255), (300, 300)] {
        let first = block(0, 1, m);
        let second = block(2, 3, n);
        let mut both = first.clone();
        both.extend(second.clone());
        let mut expected = assemble(&first, 4);
        expected.extend(assemble(&second, 4));
        assert_eq!(assemble(&both, 4), expected);
    }
}

#[test]
fn label_numbers_have_no_influence() {
    for n in [0, 254, 255, 400] {
        let prog = assemble(&block(0, 1, n), 2);
        assert_eq!(assemble(&block(0, 1, n), 50), prog);
        assert_eq!(assemble(&block(1, 0, n), 2), prog);
        assert_eq!(assemble(&block(17, 5, n), 18), prog);
    }
}

#[test]
fn trees_differ_only_in_differing_actions() {
    let with = |last: SeccompAction| {
        let leaves = [(1, SeccompAction::Allow), (2, SeccompAction::Trap), (3, last)];
        let mut items = vec![];
        let mut next: usize = 1;
        build_bst(&leaves, &mut items, &mut next, 0);
        (items, next)
    };
    let (items, next) = with(SeccompAction::Errno(1));
    let (others, other_next) = with(SeccompAction::Log);
    assert_eq!(next, other_next);
    assert_eq!(items.len(), others.len());
    let differing: Vec<usize> = (0..items.len()).filter(|&j| items[j] != others[j]).collect();
    assert_eq!(differing, vec![14]);
    assert_eq!(items[14], ret(0x0005_0001));
    assert_eq!(others[14], ret(0x7ffc_0000));
    // Actions with equal values make equal trees.
    assert_eq!(with(SeccompAction::Errno(0x1_0001)), (items, next));
}
