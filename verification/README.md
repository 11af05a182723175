# seccompiler

Binary-search dispatch for classic-BPF seccomp filters, with proofs.

- `backend` has the actions of a filter and their kernel values.
- `backend::bpf` has the instructions.
- `backend::optimize` has the executable code: the label-based assembler with
  branch relaxation, and the builder of the search tree.
- `backend::layout` says where each item lands, which conditionals relax and
  what the assembler writes; it proves that separate lists assemble
  independently and that label numbers have no influence.
- `backend::tree` says which items the search tree consists of, and proves that
  actions stay with their leaves.
- `backend::machine` gives the meaning of a classic-BPF program.
- `backend::symbolic` gives the meaning of a program with labels, and proves
  that assembling keeps it.
- `backend::routing` proves where the search tree sends each system-call number,
  how long that takes, and how large the program gets.
