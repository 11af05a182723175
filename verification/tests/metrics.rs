//! Size and evaluation cost of the generated dispatch. Run with `--nocapture`
//! to see the table.

use seccompiler::backend::bpf::{
    bpf_jump, bpf_stmt, sock_filter, BpfProgram, BPF_ABS, BPF_JEQ, BPF_JMP, BPF_K, BPF_LD, BPF_RET,
    BPF_W,
};
use seccompiler::backend::optimize::{assemble, build_bst, fresh, Item};
use seccompiler::backend::SeccompAction;

const AUDIT_ARCH_X86_64: u32 = 0xc000_003e;

/// Build a 64-byte `struct seccomp_data` image (little-endian).
fn seccomp_data(nr: u32, arch: u32, args: [u64; 6]) -> [u8; 64] {
    let mut d = [0u8; 64];
    d[0..4].copy_from_slice(&nr.to_le_bytes());
    d[4..8].copy_from_slice(&arch.to_le_bytes());
    for (i, a) in args.iter().enumerate() {
        let off = 16 + i * 8;
        d[off..off + 8].copy_from_slice(&a.to_le_bytes());
    }
    d
}

fn load_u32(data: &[u8; 64], off: u32) -> u32 {
    let o = off as usize;
    u32::from_le_bytes([data[o], data[o + 1], data[o + 2], data[o + 3]])
}

/// Evaluate a classic-BPF seccomp program, returning `(SECCOMP_RET value,
/// instructions executed)`. Covers the full cBPF subset seccomp can emit.
fn eval(prog: &[sock_filter], data: &[u8; 64]) -> (u32, usize) {
    let mut a: u32 = 0;
    let mut x: u32 = 0;
    let mut mem = [0u32; 16];
    let mut pc: usize = 0;
    let mut steps = 0usize;

    loop {
        steps += 1;
        assert!(steps < 1_000_000, "cBPF program did not terminate");
        let ins = &prog[pc];
        pc += 1;
        let class = ins.code & 0x07;
        match class {
            0x00 | 0x01 => {
                let mode = ins.code & 0xe0;
                let val = match mode {
                    0x00 => ins.k,                 // IMM
                    0x20 => load_u32(data, ins.k), // ABS (W)
                    0x60 => mem[ins.k as usize],   // MEM
                    0x80 => data.len() as u32,     // LEN
                    other => panic!("unhandled LD mode {other:#x}"),
                };
                if class == 0x00 {
                    a = val;
                } else {
                    x = val;
                }
            }
            0x02 => mem[ins.k as usize] = a,
            0x03 => mem[ins.k as usize] = x,
            0x04 => {
                let op = ins.code & 0xf0;
                let src = if ins.code & 0x08 != 0 { x } else { ins.k };
                a = match op {
                    0x00 => a.wrapping_add(src),
                    0x10 => a.wrapping_sub(src),
                    0x20 => a.wrapping_mul(src),
                    0x30 => a / src,
                    0x40 => a | src,
                    0x50 => a & src,
                    0x60 => a << src,
                    0x70 => a >> src,
                    0x80 => (!a).wrapping_add(1),
                    0xa0 => a ^ src,
                    other => panic!("unhandled ALU op {other:#x}"),
                };
            }
            0x05 => {
                let op = ins.code & 0xf0;
                if op == 0x00 {
                    pc += ins.k as usize; // JA
                    continue;
                }
                let operand = if ins.code & 0x08 != 0 { x } else { ins.k };
                let take = match op {
                    0x10 => a == operand,
                    0x20 => a > operand,
                    0x30 => a >= operand,
                    0x40 => (a & operand) != 0,
                    other => panic!("unhandled JMP op {other:#x}"),
                };
                pc += if take { ins.jt as usize } else { ins.jf as usize };
            }
            0x06 => return (if ins.code & 0x18 == 0x10 { a } else { ins.k }, steps),
            0x07 => {
                if ins.code & 0x80 == 0 {
                    x = a;
                } else {
                    a = x;
                }
            }
            other => panic!("unhandled BPF class {other:#x}"),
        }
    }
}

/// A filter: the architecture guard, the items of `chains`, the dispatch over
/// `leaves` and the default action.
fn filter(
    chains: Vec<Item>,
    leaves: &[(i64, SeccompAction)],
    default: SeccompAction,
) -> BpfProgram {
    let kill = u32::from(SeccompAction::KillProcess);
    let mut items = vec![
        Item::Ins(bpf_stmt(BPF_LD | BPF_W | BPF_ABS, 4)),
        Item::Ins(bpf_jump(BPF_JMP | BPF_JEQ | BPF_K, AUDIT_ARCH_X86_64, 1, 0)),
        Item::Ins(bpf_stmt(BPF_RET | BPF_K, kill)),
        Item::Ins(bpf_stmt(BPF_LD | BPF_W | BPF_ABS, 0)),
    ];
    items.extend(chains);
    let mut next_label: usize = 0;
    let default_label = fresh(&mut next_label);
    if !leaves.is_empty() {
        build_bst(leaves, &mut items, &mut next_label, default_label);
    }
    items.push(Item::Mark(default_label));
    items.push(Item::Ins(bpf_stmt(BPF_RET | BPF_K, u32::from(default))));
    assemble(&items, next_label)
}

/// Size (instruction count) and evaluation-cost metrics for a program.
#[derive(Clone, Copy, Debug)]
struct Metrics {
    size: usize,
    worst_steps: usize,
    mean_steps: f64,
}

/// Measure a program over a set of inputs: static size, worst-case executed
/// instructions, and mean executed instructions across the inputs.
fn measure(prog: &[sock_filter], inputs: &[[u8; 64]]) -> Metrics {
    let mut worst = 0usize;
    let mut total = 0usize;
    for data in inputs {
        let (_ret, steps) = eval(prog, data);
        worst = worst.max(steps);
        total += steps;
    }
    Metrics {
        size: prog.len(),
        worst_steps: worst,
        mean_steps: if inputs.is_empty() {
            0.0
        } else {
            total as f64 / inputs.len() as f64
        },
    }
}

/// A default-deny allowlist of `n` syscalls, each allowed unconditionally.
fn allowlist(n: i64) -> BpfProgram {
    let leaves: Vec<(i64, SeccompAction)> =
        (0..n).map(|nr| (nr, SeccompAction::Allow)).collect();
    filter(vec![], &leaves, SeccompAction::Errno(1))
}

/// Inputs covering every listed syscall plus one miss.
fn inputs_for(n: i64) -> Vec<[u8; 64]> {
    let mut v: Vec<[u8; 64]> = (0..n)
        .map(|nr| seccomp_data(nr as u32, AUDIT_ARCH_X86_64, [0; 6]))
        .collect();
    v.push(seccomp_data((n + 1000) as u32, AUDIT_ARCH_X86_64, [0; 6]));
    v
}

#[test]
fn baseline_allowlist_metrics() {
    println!(
        "\n{:>8} | {:>6} | {:>11} | {:>10}",
        "syscalls", "size", "worst-steps", "mean-steps"
    );
    println!("{}", "-".repeat(44));

    let mut prev_worst = 0;
    for &n in &[10i64, 50, 100, 300] {
        let prog = allowlist(n);
        let m = measure(&prog, &inputs_for(n));
        println!(
            "{n:>8} | {:>6} | {:>11} | {:>10.1}",
            m.size, m.worst_steps, m.mean_steps
        );

        assert!(m.size < 4096, "filter must stay under BPF_MAXINSNS");
        assert!(m.worst_steps <= m.size, "cannot execute more than it contains");
        assert!(
            m.worst_steps > prev_worst,
            "unoptimized worst-case should grow with syscall count"
        );
        prev_worst = m.worst_steps;
    }
    println!();
}
