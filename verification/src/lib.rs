//! Dispatch of system-call numbers in classic-BPF seccomp filters.
//!
//! A filter decides on each system call by its number. The code generator in
//! [`backend::optimize`] lays the decision out as a binary search and turns it
//! into classic-BPF instructions, whose meaning is written down in
//! [`backend::machine`]. What the finished instructions have to be, bit for bit,
//! is written down in [`backend::finished`].

pub mod backend;
