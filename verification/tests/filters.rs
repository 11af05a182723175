//! Whole filters against what their tables say, over a battery of inputs.

use seccompiler::backend::bpf::{
    bpf_jump, bpf_stmt, sock_filter, BpfProgram, BPF_ABS, BPF_JEQ, BPF_JMP, BPF_K, BPF_LD, BPF_RET,
    BPF_W,
};
use seccompiler::backend::optimize::{assemble, build_bst, fresh, Item};
use seccompiler::backend::SeccompAction;

const AUDIT_ARCH_X86_64: u32 = 0xc000_003e;
const AUDIT_ARCH_I386: u32 = 0x4000_0003; // a foreign arch, for guard tests

/// Build a 64-byte `struct seccomp_data` image (little-endian).
fn seccomp_data(nr: u32, arch: u32, args: [u64; 6]) -> [u8; 64] {
    let mut d = [0u8; 64];
    d[0..4].copy_from_slice(&nr.to_le_bytes());
    d[4..8].copy_from_slice(&arch.to_le_bytes());
    for (i, a) in args.iter().enumerate() {
        let off = 16 + i * 8;
        d[off..off + 8].copy_from_slice(&a.to_le_bytes());
    }
    d
}

fn load_u32(data: &[u8; 64], off: u32) -> u32 {
    let o = off as usize;
    u32::from_le_bytes([data[o], data[o + 1], data[o + 2], data[o + 3]])
}

/// Evaluate a classic-BPF seccomp program, returning `(SECCOMP_RET value,
/// instructions executed)`. Covers the full cBPF subset seccomp can emit.
fn eval(prog: &[sock_filter], data: &[u8; 64]) -> (u32, usize) {
    let mut a: u32 = 0;
    let mut x: u32 = 0;
    let mut mem = [0u32; 16];
    let mut pc: usize = 0;
    let mut steps = 0usize;

    loop {
        steps += 1;
        assert!(steps < 1_000_000, "cBPF program did not terminate");
        let ins = &prog[pc];
        pc += 1;
        let class = ins.code & 0x07;
        match class {
            0x00 | 0x01 => {
                let mode = ins.code & 0xe0;
                let val = match mode {
                    0x00 => ins.k,                 // IMM
                    0x20 => load_u32(data, ins.k), // ABS (W)
                    0x60 => mem[ins.k as usize],   // MEM
                    0x80 => data.len() as u32,     // LEN
                    other => panic!("unhandled LD mode {other:#x}"),
                };
                if class == 0x00 {
                    a = val;
                } else {
                    x = val;
                }
            }
            0x02 => mem[ins.k as usize] = a,
            0x03 => mem[ins.k as usize] = x,
            0x04 => {
                let op = ins.code & 0xf0;
                let src = if ins.code & 0x08 != 0 { x } else { ins.k };
                a = match op {
                    0x00 => a.wrapping_add(src),
                    0x10 => a.wrapping_sub(src),
                    0x20 => a.wrapping_mul(src),
                    0x30 => a / src,
                    0x40 => a | src,
                    0x50 => a & src,
                    0x60 => a << src,
                    0x70 => a >> src,
                    0x80 => (!a).wrapping_add(1),
                    0xa0 => a ^ src,
                    other => panic!("unhandled ALU op {other:#x}"),
                };
            }
            0x05 => {
                let op = ins.code & 0xf0;
                if op == 0x00 {
                    pc += ins.k as usize; // JA
                    continue;
                }
                let operand = if ins.code & 0x08 != 0 { x } else { ins.k };
                let take = match op {
                    0x10 => a == operand,
                    0x20 => a > operand,
                    0x30 => a >= operand,
                    0x40 => (a & operand) != 0,
                    other => panic!("unhandled JMP op {other:#x}"),
                };
                pc += if take { ins.jt as usize } else { ins.jf as usize };
            }
            0x06 => return (if ins.code & 0x18 == 0x10 { a } else { ins.k }, steps),
            0x07 => {
                if ins.code & 0x80 == 0 {
                    x = a;
                } else {
                    a = x;
                }
            }
            other => panic!("unhandled BPF class {other:#x}"),
        }
    }
}

/// A filter: the architecture guard, the items of `chains`, the dispatch over
/// `leaves` and the default action.
fn filter(
    chains: Vec<Item>,
    leaves: &[(i64, SeccompAction)],
    default: SeccompAction,
) -> BpfProgram {
    let kill = u32::from(SeccompAction::KillProcess);
    let mut items = vec![
        Item::Ins(bpf_stmt(BPF_LD | BPF_W | BPF_ABS, 4)),
        Item::Ins(bpf_jump(BPF_JMP | BPF_JEQ | BPF_K, AUDIT_ARCH_X86_64, 1, 0)),
        Item::Ins(bpf_stmt(BPF_RET | BPF_K, kill)),
        Item::Ins(bpf_stmt(BPF_LD | BPF_W | BPF_ABS, 0)),
    ];
    items.extend(chains);
    let mut next_label: usize = 0;
    let default_label = fresh(&mut next_label);
    if !leaves.is_empty() {
        build_bst(leaves, &mut items, &mut next_label, default_label);
    }
    items.push(Item::Mark(default_label));
    items.push(Item::Ins(bpf_stmt(BPF_RET | BPF_K, u32::from(default))));
    assemble(&items, next_label)
}

#[derive(Clone, Copy)]
enum Op {
    Eq,
    Ne,
}

#[derive(Clone, Copy)]
struct Cond {
    index: u32,
    op: Op,
    value: u64,
}

/// One syscall entry: an action, given always or on one condition.
struct Entry {
    nr: i64,
    action: SeccompAction,
    cond: Option<Cond>,
}

struct Spec {
    default: SeccompAction,
    entries: Vec<Entry>,
}

/// A linear check of one number and one 64-bit argument. Where either does not
/// match, control falls through with the number loaded again.
fn chain(nr: i64, action: SeccompAction, cond: Cond) -> Vec<Item> {
    let load = BPF_LD | BPF_W | BPF_ABS;
    let equal = BPF_JMP | BPF_JEQ | BPF_K;
    let low = cond.value as u32;
    let high = (cond.value >> 32) as u32;
    let arg = 16 + 8 * cond.index;
    let tests = match cond.op {
        Op::Eq => (bpf_jump(equal, low, 0, 3), bpf_jump(equal, high, 0, 1)),
        Op::Ne => (bpf_jump(equal, low, 0, 2), bpf_jump(equal, high, 1, 0)),
    };
    vec![
        Item::Ins(bpf_jump(equal, nr as u32, 0, 5)),
        Item::Ins(bpf_stmt(load, arg)),
        Item::Ins(tests.0),
        Item::Ins(bpf_stmt(load, arg + 4)),
        Item::Ins(tests.1),
        Item::Ins(bpf_stmt(BPF_RET | BPF_K, u32::from(action))),
        Item::Ins(bpf_stmt(load, 0)),
    ]
}

fn build(spec: &Spec) -> BpfProgram {
    let mut chains: Vec<Item> = vec![];
    let mut leaves: Vec<(i64, SeccompAction)> = vec![];
    for e in &spec.entries {
        match e.cond {
            Some(cond) => chains.extend(chain(e.nr, e.action, cond)),
            None => leaves.push((e.nr, e.action)),
        }
    }
    filter(chains, &leaves, spec.default)
}

/// What the table says of a call.
fn expected(spec: &Spec, nr: u32, args: &[u64; 6]) -> u32 {
    for e in &spec.entries {
        let holds = match e.cond {
            None => true,
            Some(c) => match c.op {
                Op::Eq => args[c.index as usize] == c.value,
                Op::Ne => args[c.index as usize] != c.value,
            },
        };
        if e.nr as u32 == nr && holds {
            return u32::from(e.action);
        }
    }
    u32::from(spec.default)
}

fn probe_values() -> [u64; 8] {
    [
        0,
        1,
        15,
        16,
        17,
        0xffff_ffff,
        0x1_0000_0000,
        0xffff_ffff_ffff_ffff,
    ]
}

fn assert_equivalent(spec: &Spec) {
    let ours = build(spec);

    let mut nrs: Vec<u32> = spec.entries.iter().map(|e| e.nr as u32).collect();
    nrs.push(999_999); // a syscall not in the filter -> default path

    let mut values: Vec<u64> = probe_values().to_vec();
    values.extend([2, 5, 0x1_0000_0002, 0x1_0000_0005]);

    for &nr in &nrs {
        for &a0 in &values {
            for &a1 in &values {
                let args = [a0, a1, 0, 0, 0, 0];
                let data = seccomp_data(nr, AUDIT_ARCH_X86_64, args);
                let (ours_ret, _) = eval(&ours, &data);
                assert_eq!(
                    ours_ret,
                    expected(spec, nr, &args),
                    "mismatch nr={nr} a0={a0:#x} a1={a1:#x}"
                );
            }
        }
        // Foreign arch: must kill.
        let data = seccomp_data(nr, AUDIT_ARCH_I386, [0; 6]);
        assert_eq!(eval(&ours, &data).0, 0x8000_0000, "foreign-arch mismatch nr={nr}");
    }
}

fn e(nr: i64, action: SeccompAction) -> Entry {
    Entry { nr, action, cond: None }
}
fn on(nr: i64, action: SeccompAction, index: u32, op: Op, value: u64) -> Entry {
    Entry { nr, action, cond: Some(Cond { index, op, value }) }
}

#[test]
fn allowlist_default_deny() {
    assert_equivalent(&Spec {
        default: SeccompAction::Errno(1),
        entries: vec![
            e(0, SeccompAction::Allow),
            e(1, SeccompAction::Allow),
            e(2, SeccompAction::Allow),
        ],
    });
}

#[test]
fn mixed_per_syscall_actions() {
    assert_equivalent(&Spec {
        default: SeccompAction::Errno(1),
        entries: vec![
            e(0, SeccompAction::Allow),
            e(1, SeccompAction::Errno(38)), // clone3 -> ENOSYS style
            e(2, SeccompAction::KillProcess),
            e(3, SeccompAction::Trap),
            e(4, SeccompAction::Log),
        ],
    });
}

#[test]
fn large_allowlist_forces_tree_and_relaxation() {
    // ~120 unconditional syscalls with mixed actions: deep enough that the tree
    // exceeds the 8-bit jump range, exercising branch relaxation. Non-contiguous
    // numbers so the binary search actually partitions.
    let entries: Vec<Entry> = (0..120i64)
        .map(|i| {
            let nr = i * 3 + 1; // spread out
            let action = match i % 4 {
                0 => SeccompAction::Allow,
                1 => SeccompAction::Errno(38),
                2 => SeccompAction::KillProcess,
                _ => SeccompAction::Log,
            };
            e(nr, action)
        })
        .collect();
    assert_equivalent(&Spec {
        default: SeccompAction::Errno(1),
        entries,
    });
}

#[test]
fn mixed_conditional_and_unconditional() {
    // Conditional entries (linear) alongside unconditional ones (tree), to
    // exercise the fall-through from the conditional chains into the tree.
    assert_equivalent(&Spec {
        default: SeccompAction::Errno(1),
        entries: vec![
            on(10, SeccompAction::Allow, 0, Op::Eq, 2), // conditional
            e(20, SeccompAction::Allow),                // unconditional
            e(30, SeccompAction::Errno(38)),            // unconditional
            on(40, SeccompAction::Allow, 0, Op::Ne, 5), // conditional
            e(50, SeccompAction::KillProcess),          // unconditional
        ],
    });
}

#[test]
fn permissive_default() {
    assert_equivalent(&Spec {
        default: SeccompAction::Allow,
        entries: vec![
            e(0, SeccompAction::Errno(13)),
            e(1, SeccompAction::KillProcess),
        ],
    });
}
