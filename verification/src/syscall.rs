//! The system calls, as far as the trap handler has to know them.
use vstd::prelude::*;

verus! {

/// The number of the system call that writes to a file.
pub const SYSCALL_WRITE: u64 = 64;

/// The number of the system call that ends the calling task.
pub const SYSCALL_EXIT: u64 = 93;

/// A system call as a task has made it: its number was in the register
/// `a7`, its arguments in `a0`, `a1` and `a2`.
#[derive(Copy, Clone, Debug, PartialEq, Eq)]
pub enum Syscall {
    /// Write the `len` bytes at the address `buf` of the caller to the file
    /// `fd`.
    Write { fd: u64, buf: u64, len: u64 },
    /// End the calling task with the exit code `exit_code`.
    Exit { exit_code: u64 },
    /// A call that this layer does not know.
    Unknown { id: u64, args: [u64; 3] },
}

impl Syscall {
    /// The system call with the number `id` and the arguments `args`.
    pub open spec fn spec_decode(id: u64, args: [u64; 3]) -> Syscall {
        if id == SYSCALL_WRITE {
            Syscall::Write { fd: args@[0], buf: args@[1], len: args@[2] }
        } else if id == SYSCALL_EXIT {
            Syscall::Exit { exit_code: args@[0] }
        } else {
            Syscall::Unknown { id, args }
        }
    }

    /// The call is the one with the number `id` and the arguments `a0`,
    /// `a1` and `a2`.
    pub open spec fn is_call(&self, id: u64, a0: u64, a1: u64, a2: u64) -> bool {
        match *self {
            Syscall::Write { fd, buf, len } => id == SYSCALL_WRITE && fd == a0 && buf == a1 && len
                == a2,
            Syscall::Exit { exit_code } => id == SYSCALL_EXIT && exit_code == a0,
            Syscall::Unknown { id: number, args } => id != SYSCALL_WRITE && id != SYSCALL_EXIT
                && number == id && args@ == seq![a0, a1, a2],
        }
    }

    /// The system call with the number `id` and the arguments `args`.
    #[verifier::when_used_as_spec(spec_decode)]
    pub fn decode(id: u64, args: [u64; 3]) -> (r: Syscall)
        ensures
            r == Self::spec_decode(id, args),
            r.is_call(id, args@[0], args@[1], args@[2]),
    {
        assert(args@ =~= seq![args@[0], args@[1], args@[2]]);
        if id == SYSCALL_WRITE {
            Syscall::Write { fd: args[0], buf: args[1], len: args[2] }
        } else if id == SYSCALL_EXIT {
            Syscall::Exit { exit_code: args[0] }
        } else {
            Syscall::Unknown { id, args }
        }
    }
}

/// The register value that hands the result `result` of a system call back
/// to the caller: the same 64 bits, read as a number without sign.
pub open spec fn result_bits(result: i64) -> u64 {
    if result >= 0 {
        result as u64
    } else {
        (result + 0x1_0000_0000_0000_0000) as u64
    }
}

/// The register value that hands the result of a system call back.
pub fn result_register(result: i64) -> (r: u64)
    ensures
        r == result_bits(result),
{
    if result >= 0 {
        result as u64
    } else {
        let below: u64 = (-(result + 1)) as u64;
        u64::MAX - below
    }
}

} // verus!
