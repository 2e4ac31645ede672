//! The registers of a task that are saved when it traps into the kernel.
use vstd::prelude::*;
use riscv::register::sstatus::{SPP, Sstatus};
use crate::mm::address::PhysPageNum;
use crate::mm::memory::PhysMemory;

verus! {

/// The bits of the supervisor status register that hold a field.
pub const SSTATUS_MASK: u64 = 0x8000_0003_000d_e762;

/// The value of the supervisor status register, read as `bits`, with the
/// previous privilege mode set to user mode: the bits of the register's
/// fields, less bit 8.
pub open spec fn sstatus_with_user_spp(bits: u64) -> u64 {
    (bits & SSTATUS_MASK) & !0x100u64
}

/// Calls `Sstatus::from_bits`, `Sstatus::set_spp` with `SPP::User` and
/// `Sstatus::bits` of the crate riscv, which work on a copy of the register
/// in memory. Trusted: `from_bits` and `bits` keep the bits of the
/// register's fields, and `set_spp` writes 0 for user mode into the field
/// of bit 8.
#[verifier::external_body]
fn set_spp_user(bits: u64) -> (r: u64)
    ensures
        r == sstatus_with_user_spp(bits),
{
    let mut sstatus = Sstatus::from_bits(bits as usize);
    sstatus.set_spp(SPP::User);
    sstatus.bits() as u64
}

/// The registers of a task at the moment of a trap, and what the trampoline
/// needs to enter the kernel: the general registers, the status register,
/// the program counter, the token of the kernel's address space, the top of
/// the task's kernel stack and the address of the trap handler. In the
/// task's trap context page the fields lie in this order, one 64-bit word
/// each.
#[derive(Copy, Clone, Debug)]
pub struct TrapContext {
    pub x: [u64; 32],
    pub sstatus: u64,
    pub sepc: u64,
    pub kernel_satp: u64,
    pub kernel_sp: u64,
    pub trap_handler: u64,
}

impl TrapContext {
    /// The 37 words of the context, in the order in which they are stored.
    pub open spec fn words(&self) -> Seq<u64> {
        self.x@ + seq![self.sstatus, self.sepc, self.kernel_satp, self.kernel_sp, self.trap_handler]
    }

    /// The frame `ppn` of `mem` starts with the words of the context.
    pub open spec fn stored_at(&self, mem: &PhysMemory, ppn: u64) -> bool {
        forall|i: int| 0 <= i < 37 ==> #[trigger] mem.word(ppn, i) == self.words()[i]
    }

    /// The context is the one that starts a task: all general registers are
    /// zero but the stack pointer, the status register is as in `sstatus`
    /// with the previous privilege mode set to user mode, and the program
    /// counter is at `entry`.
    pub open spec fn starts_task(
        &self,
        entry: u64,
        sp: u64,
        kernel_satp: u64,
        kernel_sp: u64,
        trap_handler: u64,
        sstatus: u64,
    ) -> bool {
        &&& self.x@ == Seq::new(
            32,
            |i: int|
                if i == 2 {
                    sp
                } else {
                    0u64
                },
        )
        &&& self.sstatus == sstatus_with_user_spp(sstatus)
        &&& self.sepc == entry
        &&& self.kernel_satp == kernel_satp
        &&& self.kernel_sp == kernel_sp
        &&& self.trap_handler == trap_handler
    }

    /// Sets the stack pointer, the register `x[2]`.
    pub fn set_up(&mut self, sp: u64)
        ensures
            final(self).x@ == old(self).x@.update(2, sp),
            final(self).sstatus == old(self).sstatus,
            final(self).sepc == old(self).sepc,
            final(self).kernel_satp == old(self).kernel_satp,
            final(self).kernel_sp == old(self).kernel_sp,
            final(self).trap_handler == old(self).trap_handler,
    {
        self.x[2] = sp;
    }

    /// The context that starts a task at `entry` with the stack pointer
    /// `sp`, where the supervisor status register reads `sstatus`.
    pub fn app_init_context(
        entry: u64,
        sp: u64,
        kernel_satp: u64,
        kernel_sp: u64,
        trap_handler: u64,
        sstatus: u64,
    ) -> (r: TrapContext)
        ensures
            r.starts_task(entry, sp, kernel_satp, kernel_sp, trap_handler, sstatus),
    {
        let sstatus = set_spp_user(sstatus);
        let mut cx = TrapContext {
            x: [0u64; 32],
            sstatus,
            sepc: entry,
            kernel_satp,
            kernel_sp,
            trap_handler,
        };
        cx.set_up(sp);
        assert(cx.x@ =~= Seq::new(
            32,
            |i: int|
                if i == 2 {
                    sp
                } else {
                    0u64
                },
        ));
        cx
    }

    /// Reads the context that the frame `ppn` starts with.
    pub fn load(mem: &PhysMemory, ppn: PhysPageNum) -> (r: TrapContext)
        requires
            mem.wf(),
            mem.contains(ppn.0),
        ensures
            r.stored_at(mem, ppn.0),
    {
        let mut x: [u64; 32] = [0u64; 32];
        let mut i: usize = 0;
        while i < 32
            invariant
                i <= 32,
                mem.wf(),
                mem.contains(ppn.0),
                forall|j: int| 0 <= j < i ==> x@[j] == #[trigger] mem.word(ppn.0, j),
            decreases 32 - i,
        {
            x[i] = mem.read_word(ppn, i);
            i += 1;
        }
        TrapContext {
            x,
            sstatus: mem.read_word(ppn, 32),
            sepc: mem.read_word(ppn, 33),
            kernel_satp: mem.read_word(ppn, 34),
            kernel_sp: mem.read_word(ppn, 35),
            trap_handler: mem.read_word(ppn, 36),
        }
    }

    /// Writes the context to the start of the frame `ppn`.
    pub fn store(&self, mem: &mut PhysMemory, ppn: PhysPageNum)
        requires
            old(mem).wf(),
            old(mem).contains(ppn.0),
        ensures
            final(mem).wf(),
            final(mem).agrees_except(old(mem), ppn.0),
            self.stored_at(final(mem), ppn.0),
            forall|i: int| 37 <= i < 512 ==> #[trigger] final(mem).word(ppn.0, i) == old(mem).word(
                ppn.0,
                i,
            ),
    {
        let mut i: usize = 0;
        while i < 32
            invariant
                i <= 32,
                mem.wf(),
                mem.contains(ppn.0),
                mem.agrees_except(old(mem), ppn.0),
                forall|j: int| 0 <= j < i ==> #[trigger] mem.word(ppn.0, j) == self.x@[j],
                forall|j: int| 32 <= j < 512 ==> #[trigger] mem.word(ppn.0, j) == old(mem).word(
                    ppn.0,
                    j,
                ),
            decreases 32 - i,
        {
            mem.write_word(ppn, i, self.x[i]);
            i += 1;
        }
        mem.write_word(ppn, 32, self.sstatus);
        mem.write_word(ppn, 33, self.sepc);
        mem.write_word(ppn, 34, self.kernel_satp);
        mem.write_word(ppn, 35, self.kernel_sp);
        mem.write_word(ppn, 36, self.trap_handler);
    }
}

/// Two contexts that one frame starts with are the same.
pub proof fn lemma_stored_once(a: TrapContext, b: TrapContext, mem: &PhysMemory, ppn: u64)
    requires
        a.stored_at(mem, ppn),
        b.stored_at(mem, ppn),
    ensures
        a == b,
{
    assert forall|i: int| 0 <= i < 32 implies a.x@[i] == b.x@[i] by {
        assert(a.words()[i] == mem.word(ppn, i));
        assert(b.words()[i] == mem.word(ppn, i));
    }
    assert(a.x@ =~= b.x@);
    assert(a.x =~= b.x);
    assert(a.words()[32] == mem.word(ppn, 32) && b.words()[32] == mem.word(ppn, 32));
    assert(a.words()[33] == mem.word(ppn, 33) && b.words()[33] == mem.word(ppn, 33));
    assert(a.words()[34] == mem.word(ppn, 34) && b.words()[34] == mem.word(ppn, 34));
    assert(a.words()[35] == mem.word(ppn, 35) && b.words()[35] == mem.word(ppn, 35));
    assert(a.words()[36] == mem.word(ppn, 36) && b.words()[36] == mem.word(ppn, 36));
}

} // verus!
