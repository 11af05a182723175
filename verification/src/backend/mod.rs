//! The back end of the filter compiler: actions, instructions and dispatch.

use vstd::prelude::*;

pub mod bpf;
pub mod finished;
pub mod layout;
pub mod machine;
pub mod optimize;
pub mod routing;
pub mod symbolic;
pub mod tree;

verus! {

/// Return value that kills the calling thread.
pub const SECCOMP_RET_KILL_THREAD: u32 = 0x0000_0000;

/// Return value that kills the whole process.
pub const SECCOMP_RET_KILL_PROCESS: u32 = 0x8000_0000;

/// Return value that raises `SIGSYS` in the caller.
pub const SECCOMP_RET_TRAP: u32 = 0x0003_0000;

/// Return value that makes the call fail; the low half carries the error number.
pub const SECCOMP_RET_ERRNO: u32 = 0x0005_0000;

/// Return value that notifies a tracer; the low half carries a message.
pub const SECCOMP_RET_TRACE: u32 = 0x7ff0_0000;

/// Return value that logs the call and lets it through.
pub const SECCOMP_RET_LOG: u32 = 0x7ffc_0000;

/// Return value that lets the call through.
pub const SECCOMP_RET_ALLOW: u32 = 0x7fff_0000;

/// The part of a return value that carries the data of an action.
pub const SECCOMP_RET_DATA: u32 = 0x0000_ffff;

/// What a filter tells the kernel to do with a system call.
#[derive(Clone, Copy, Debug, PartialEq, Eq, Structural)]
pub enum SeccompAction {
    /// Let the call through.
    Allow,
    /// Fail the call with the given error number.
    Errno(u32),
    /// Kill the calling thread.
    KillThread,
    /// Kill the calling process.
    KillProcess,
    /// Let the call through and log it.
    Log,
    /// Notify the attached tracer with the given message.
    Trace(u32),
    /// Raise `SIGSYS` in the calling thread.
    Trap,
}

/// The value that a filter returns to the kernel for `action`.
pub open spec fn action_value(action: SeccompAction) -> u32 {
    match action {
        SeccompAction::Allow => SECCOMP_RET_ALLOW,
        SeccompAction::Errno(number) => SECCOMP_RET_ERRNO | (number & SECCOMP_RET_DATA),
        SeccompAction::KillThread => SECCOMP_RET_KILL_THREAD,
        SeccompAction::KillProcess => SECCOMP_RET_KILL_PROCESS,
        SeccompAction::Log => SECCOMP_RET_LOG,
        SeccompAction::Trace(message) => SECCOMP_RET_TRACE | (message & SECCOMP_RET_DATA),
        SeccompAction::Trap => SECCOMP_RET_TRAP,
    }
}

/// Every action has the value that the kernel reads it from: the kind of the
/// action in the high half and, for the two kinds that carry a number, the low
/// half of that number in the low half, whole and unchanged.
pub proof fn actions_have_kernel_values(action: SeccompAction)
    ensures
        match action {
            SeccompAction::Allow => action_value(action) == 0x7fff_0000,
            SeccompAction::Errno(number) => {
                &&& action_value(action) == 0x0005_0000 + number % 0x1_0000
                &&& action_value(action) / 0x1_0000 == 5
                &&& action_value(action) % 0x1_0000 == number % 0x1_0000
            },
            SeccompAction::KillThread => action_value(action) == 0,
            SeccompAction::KillProcess => action_value(action) == 0x8000_0000,
            SeccompAction::Log => action_value(action) == 0x7ffc_0000,
            SeccompAction::Trace(message) => {
                &&& action_value(action) == 0x7ff0_0000 + message % 0x1_0000
                &&& action_value(action) / 0x1_0000 == 0x7ff0
                &&& action_value(action) % 0x1_0000 == message % 0x1_0000
            },
            SeccompAction::Trap => action_value(action) == 0x0003_0000,
        },
{
    match action {
        SeccompAction::Errno(number) => {
            assert((0x0005_0000u32 | (number & 0xffff)) == 0x0005_0000u32 + number % 0x1_0000)
                by (bit_vector);
        },
        SeccompAction::Trace(message) => {
            assert((0x7ff0_0000u32 | (message & 0xffff)) == 0x7ff0_0000u32 + message % 0x1_0000)
                by (bit_vector);
        },
        _ => {},
    }
}

/// No two actions collapse into one value, as long as the numbers that they
/// carry fit in 16 bits.
pub proof fn actions_stay_distinct(one: SeccompAction, other: SeccompAction)
    requires
        one matches SeccompAction::Errno(number) ==> number <= 0xffff,
        one matches SeccompAction::Trace(message) ==> message <= 0xffff,
        other matches SeccompAction::Errno(number) ==> number <= 0xffff,
        other matches SeccompAction::Trace(message) ==> message <= 0xffff,
    ensures
        action_value(one) == action_value(other) ==> one == other,
{
    actions_have_kernel_values(one);
    actions_have_kernel_values(other);
}

impl From<SeccompAction> for u32 {
    /// The value that a filter returns to the kernel for `action`.
    fn from(action: SeccompAction) -> (value: u32)
        ensures
            match action {
                SeccompAction::Allow => value == 0x7fff_0000,
                SeccompAction::Errno(number) => value == 0x0005_0000 + number % 0x1_0000,
                SeccompAction::KillThread => value == 0,
                SeccompAction::KillProcess => value == 0x8000_0000,
                SeccompAction::Log => value == 0x7ffc_0000,
                SeccompAction::Trace(message) => value == 0x7ff0_0000 + message % 0x1_0000,
                SeccompAction::Trap => value == 0x0003_0000,
            },
    {
        proof {
            actions_have_kernel_values(action);
        }
        match action {
            SeccompAction::Allow => SECCOMP_RET_ALLOW,
            SeccompAction::Errno(number) => SECCOMP_RET_ERRNO | (number & SECCOMP_RET_DATA),
            SeccompAction::KillThread => SECCOMP_RET_KILL_THREAD,
            SeccompAction::KillProcess => SECCOMP_RET_KILL_PROCESS,
            SeccompAction::Log => SECCOMP_RET_LOG,
            SeccompAction::Trace(message) => SECCOMP_RET_TRACE | (message & SECCOMP_RET_DATA),
            SeccompAction::Trap => SECCOMP_RET_TRAP,
        }
    }
}

impl vstd::std_specs::convert::FromSpecImpl<SeccompAction> for u32 {
    open spec fn obeys_from_spec() -> bool {
        true
    }

    open spec fn from_spec(action: SeccompAction) -> u32 {
        action_value(action)
    }
}

} // verus!
