//! Correctness of the binary-search syscall dispatch: each listed number is
//! routed to its own action and every other one to the default.

use seccompiler::backend::bpf::{
    bpf_jump, bpf_stmt, sock_filter, BpfProgram, BPF_ABS, BPF_JEQ, BPF_JMP, BPF_K, BPF_LD, BPF_RET,
    BPF_W,
};
use seccompiler::backend::optimize::{assemble, build_bst, fresh, Item};
use seccompiler::backend::SeccompAction;

const AUDIT_ARCH_X86_64: u32 = 0xc000_003e;
const AUDIT_ARCH_I386: u32 = 0x4000_0003; // a foreign arch, for guard tests

/// Build a 64-byte `struct seccomp_data` image (little-endian).
fn seccomp_data(nr: u32, arch: u32, args: [u64; 6]) -> [u8; 64] {
    let mut d = [0u8; 64];
    d[0..4].copy_from_slice(&nr.to_le_bytes());
    d[4..8].copy_from_slice(&arch.to_le_bytes());
    for (i, a) in args.iter().enumerate() {
        let off = 16 + i * 8;
        d[off..off + 8].copy_from_slice(&a.to_le_bytes());
    }
    d
}

fn load_u32(data: &[u8; 64], off: u32) -> u32 {
    let o = off as usize;
    u32::from_le_bytes([data[o], data[o + 1], data[o + 2], data[o + 3]])
}

/// Evaluate a classic-BPF seccomp program, returning `(SECCOMP_RET value,
/// instructions executed)`. Covers the full cBPF subset seccomp can emit.
fn eval(prog: &[sock_filter], data: &[u8; 64]) -> (u32, usize) {
    let mut a: u32 = 0;
    let mut x: u32 = 0;
    let mut mem = [0u32; 16];
    let mut pc: usize = 0;
    let mut steps = 0usize;

    loop {
        steps += 1;
        assert!(steps < 1_000_000, "cBPF program did not terminate");
        let ins = &prog[pc];
        pc += 1;
        let class = ins.code & 0x07;
        match class {
            0x00 | 0x01 => {
                let mode = ins.code & 0xe0;
                let val = match mode {
                    0x00 => ins.k,                 // IMM
                    0x20 => load_u32(data, ins.k), // ABS (W)
                    0x60 => mem[ins.k as usize],   // MEM
                    0x80 => data.len() as u32,     // LEN
                    other => panic!("unhandled LD mode {other:#x}"),
                };
                if class == 0x00 {
                    a = val;
                } else {
                    x = val;
                }
            }
            0x02 => mem[ins.k as usize] = a,
            0x03 => mem[ins.k as usize] = x,
            0x04 => {
                let op = ins.code & 0xf0;
                let src = if ins.code & 0x08 != 0 { x } else { ins.k };
                a = match op {
                    0x00 => a.wrapping_add(src),
                    0x10 => a.wrapping_sub(src),
                    0x20 => a.wrapping_mul(src),
                    0x30 => a / src,
                    0x40 => a | src,
                    0x50 => a & src,
                    0x60 => a << src,
                    0x70 => a >> src,
                    0x80 => (!a).wrapping_add(1),
                    0xa0 => a ^ src,
                    other => panic!("unhandled ALU op {other:#x}"),
                };
            }
            0x05 => {
                let op = ins.code & 0xf0;
                if op == 0x00 {
                    pc += ins.k as usize; // JA
                    continue;
                }
                let operand = if ins.code & 0x08 != 0 { x } else { ins.k };
                let take = match op {
                    0x10 => a == operand,
                    0x20 => a > operand,
                    0x30 => a >= operand,
                    0x40 => (a & operand) != 0,
                    other => panic!("unhandled JMP op {other:#x}"),
                };
                pc += if take { ins.jt as usize } else { ins.jf as usize };
            }
            0x06 => return (if ins.code & 0x18 == 0x10 { a } else { ins.k }, steps),
            0x07 => {
                if ins.code & 0x80 == 0 {
                    x = a;
                } else {
                    a = x;
                }
            }
            other => panic!("unhandled BPF class {other:#x}"),
        }
    }
}

/// A filter: the architecture guard, the items of `chains`, the dispatch over
/// `leaves` and the default action.
fn filter(
    chains: Vec<Item>,
    leaves: &[(i64, SeccompAction)],
    default: SeccompAction,
) -> BpfProgram {
    let kill = u32::from(SeccompAction::KillProcess);
    let mut items = vec![
        Item::Ins(bpf_stmt(BPF_LD | BPF_W | BPF_ABS, 4)),
        Item::Ins(bpf_jump(BPF_JMP | BPF_JEQ | BPF_K, AUDIT_ARCH_X86_64, 1, 0)),
        Item::Ins(bpf_stmt(BPF_RET | BPF_K, kill)),
        Item::Ins(bpf_stmt(BPF_LD | BPF_W | BPF_ABS, 0)),
    ];
    items.extend(chains);
    let mut next_label: usize = 0;
    let default_label = fresh(&mut next_label);
    if !leaves.is_empty() {
        build_bst(leaves, &mut items, &mut next_label, default_label);
    }
    items.push(Item::Mark(default_label));
    items.push(Item::Ins(bpf_stmt(BPF_RET | BPF_K, u32::from(default))));
    assemble(&items, next_label)
}

const DEFAULT: SeccompAction = SeccompAction::Errno(1);

/// A filter whose syscalls all have unconditional actions.
fn tree(entries: &[(i64, SeccompAction)]) -> BpfProgram {
    filter(vec![], entries, DEFAULT)
}

fn ret(prog: &BpfProgram, nr: i64) -> u32 {
    eval(prog, &seccomp_data(nr as u32, AUDIT_ARCH_X86_64, [0; 6])).0
}

/// Every listed syscall returns its own action; a set of misses return the default.
fn assert_routes(entries: &[(i64, SeccompAction)], misses: &[i64]) {
    let prog = tree(entries);
    for (nr, action) in entries {
        assert_eq!(
            ret(&prog, *nr),
            u32::from(action.clone()),
            "syscall {nr} routed to the wrong action",
        );
    }
    for &nr in misses {
        assert_eq!(
            ret(&prog, nr),
            u32::from(DEFAULT),
            "absent syscall {nr} should hit the default",
        );
    }
    let foreign = seccomp_data(entries[0].0 as u32, AUDIT_ARCH_I386, [0; 6]);
    assert_eq!(eval(&prog, &foreign), (0x8000_0000, 3));
}

#[test]
fn single_leaf() {
    assert_routes(&[(42, SeccompAction::Allow)], &[0, 41, 43, 1_000_000]);
}

#[test]
fn two_leaves() {
    assert_routes(
        &[(10, SeccompAction::Allow), (20, SeccompAction::Errno(38))],
        &[0, 9, 11, 19, 21, 999],
    );
}

#[test]
fn odd_count_unbalanced_split() {
    assert_routes(
        &[
            (1, SeccompAction::Allow),
            (2, SeccompAction::Errno(13)),
            (3, SeccompAction::KillProcess),
        ],
        &[0, 4, 100],
    );
}

#[test]
fn mixed_actions_are_per_leaf() {
    // Distinct action per syscall must survive the routing, not collapse.
    let entries: Vec<(i64, SeccompAction)> = (0..50i64)
        .map(|i| {
            let action = match i % 4 {
                0 => SeccompAction::Allow,
                1 => SeccompAction::Errno(38),
                2 => SeccompAction::KillProcess,
                _ => SeccompAction::Trap,
            };
            (i * 5 + 2, action) // leaves are exactly the numbers where nr % 5 == 2
        })
        .collect();
    // Misses (none of the form i*5+2): below all, between neighbors, above all.
    let misses = [0, 1, 3, 6, 8, 248, 1_000];
    assert_routes(&entries, &misses);
}

#[test]
fn boundary_numbers() {
    assert_routes(
        &[
            (0, SeccompAction::Allow),
            (1, SeccompAction::Trap),
            (100_000, SeccompAction::KillProcess),
        ],
        &[2, 99_999, 100_001],
    );
}

#[test]
fn large_tree_routes_every_leaf() {
    // Big enough to force multiple levels and far-jump relaxation; every leaf
    // must still be reachable with its own action.
    let entries: Vec<(i64, SeccompAction)> = (0..200i64)
        .map(|i| (i * 3 + 1, if i % 2 == 0 { SeccompAction::Allow } else { SeccompAction::Errno(38) }))
        .collect();
    let misses: Vec<i64> = (0..200i64).map(|i| i * 3).collect(); // the gaps between leaves
    assert_routes(&entries, &misses);
}

#[test]
fn largest_number_is_routed() {
    assert_routes(
        &[(0, SeccompAction::Log), (0xffff_ffff, SeccompAction::Trace(7))],
        &[1, 0x7fff_ffff, 0xffff_fffe],
    );
}

#[test]
fn filter_of_one_number_is_exact() {
    // Load, compare, and the two verdicts.
    let mut items = vec![Item::Ins(bpf_stmt(BPF_LD | BPF_W | BPF_ABS, 0))];
    let mut next_label: usize = 1;
    build_bst(&[(7, SeccompAction::Trap)], &mut items, &mut next_label, 0);
    items.push(Item::Mark(0));
    items.push(Item::Ins(bpf_stmt(BPF_RET | BPF_K, 9)));
    let prog = assemble(&items, next_label);
    assert_eq!(
        prog,
        vec![
            sock_filter { code: 0x20, jt: 0, jf: 0, k: 0 },
            sock_filter { code: 0x15, jt: 0, jf: 1, k: 7 },
            sock_filter { code: 0x06, jt: 0, jf: 0, k: 0x0003_0000 },
            sock_filter { code: 0x06, jt: 0, jf: 0, k: 9 },
        ]
    );
    assert_eq!(eval(&prog, &seccomp_data(7, 0, [0; 6])), (0x0003_0000, 3));
    assert_eq!(eval(&prog, &seccomp_data(8, 0, [0; 6])), (9, 3));
}

#[test]
fn paths_are_logarithmic() {
    // A tree over n leaves with n <= 2^h compares at most h + 1 times, at one
    // instruction or two each; the guard and the verdict take four more.
    for &(n, h) in &[(1i64, 0usize), (2, 1), (3, 2), (4, 2), (5, 3), (256, 8), (257, 9), (1024, 10)] {
        let entries: Vec<(i64, SeccompAction)> =
            (0..n).map(|i| (i * 2, SeccompAction::Allow)).collect();
        let prog = tree(&entries);
        for nr in 0..2 * n {
            let (value, steps) = eval(&prog, &seccomp_data(nr as u32, AUDIT_ARCH_X86_64, [0; 6]));
            assert_eq!(value, if nr % 2 == 0 { 0x7fff_0000 } else { 0x0005_0001 });
            assert!(steps <= 2 * (h + 1) + 4);
        }
    }
}
