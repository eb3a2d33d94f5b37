//! The terminal-injection guard: a seccomp filter that allows every
//! syscall except the `ioctl` operations able to inject characters into the
//! controlling terminal's input buffer.

use vstd::prelude::*;

use crate::sandbox::SandboxError;
use seccompiler::{SeccompAction, SeccompCmpArgLen, SeccompCmpOp, SeccompCondition, SeccompFilter,
    SeccompRule};

verus! {

#[verifier::external_type_specification]
#[verifier::external_body]
pub struct ExSockFilter(seccompiler::sock_filter);

/// The BPF program that seccompiler compiles for the named architecture: a
/// filter allowing everything except an `ioctl` whose second argument,
/// masked with `mask`, equals `op_a` or `op_b` (those are trapped), or
/// `None` where the compilation fails (an unknown architecture name). The
/// compilation depends on its arguments alone, so it is given a name rather
/// than spelled out.
pub uninterp spec fn ioctl_trap_filter_of(arch: Seq<char>, mask: u64, op_a: u64, op_b: u64) -> Option<
    Seq<seccompiler::sock_filter>,
>;

/// The `TIOCSTI` ioctl request: simulate terminal input.
pub const TIOCSTI_REQUEST: u64 = 0x5412;

/// The `TIOCLINUX` ioctl request: the Linux console ioctl, whose sub-codes
/// include input injection.
pub const TIOCLINUX_REQUEST: u64 = 0x541C;

/// The mask confining the comparison to the request code's lower 32 bits.
pub const IOCTL_REQUEST_MASK: u64 = 0xFFFF_FFFF;

/// Relies on seccompiler (SeccompCondition, SeccompRule, SeccompFilter and
/// its BPF compilation): builds a filter whose default action allows every
/// syscall and whose only rule traps an `ioctl` whose second argument,
/// masked with `mask`, equals `op_a` or `op_b`. The compiled program is
/// machine code for the architecture named by `arch`; nothing is claimed
/// about its contents.
#[verifier::external_body]
fn compile_ioctl_trap_filter(arch: &str, mask: u64, op_a: u64, op_b: u64) -> (r: Option<
    Vec<seccompiler::sock_filter>,
>)
    ensures
        r matches Some(p) ==> ioctl_trap_filter_of(arch@, mask, op_a, op_b) == Some(p@),
        r is None ==> ioctl_trap_filter_of(arch@, mask, op_a, op_b) is None,
{
    let cond_a = SeccompCondition::new(1, SeccompCmpArgLen::Qword, SeccompCmpOp::MaskedEq(mask), op_a).ok()?;
    let cond_b = SeccompCondition::new(1, SeccompCmpArgLen::Qword, SeccompCmpOp::MaskedEq(mask), op_b).ok()?;
    let rules = vec![SeccompRule::new(vec![cond_a]).ok()?, SeccompRule::new(vec![cond_b]).ok()?];
    let filter = SeccompFilter::new(
        [(libc::SYS_ioctl, rules)].into_iter().collect(),
        SeccompAction::Allow,
        SeccompAction::Trap,
        arch.try_into().ok()?,
    ).ok()?;
    filter.try_into().ok()
}

/// Compiles the terminal-injection guard for the architecture named by
/// `arch` (as the platform names it, e.g. `x86_64`). The filter blocks only
/// the two injection requests, masked to their lower 32 bits, and allows
/// everything else.
pub fn get_bpf_program(arch: &str) -> (r: Result<Vec<seccompiler::sock_filter>, SandboxError>)
    ensures
        r matches Ok(p) ==> ioctl_trap_filter_of(
            arch@,
            IOCTL_REQUEST_MASK,
            TIOCSTI_REQUEST,
            TIOCLINUX_REQUEST,
        ) == Some(p@),
        r matches Err(e) ==> e is SeccompUnavailable && ioctl_trap_filter_of(
            arch@,
            IOCTL_REQUEST_MASK,
            TIOCSTI_REQUEST,
            TIOCLINUX_REQUEST,
        ) is None,
{
    match compile_ioctl_trap_filter(arch, IOCTL_REQUEST_MASK, TIOCSTI_REQUEST, TIOCLINUX_REQUEST) {
        Some(p) => Ok(p),
        None => Err(SandboxError::SeccompUnavailable),
    }
}

} // verus!
