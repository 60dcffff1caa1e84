//! The state of one hart as the kernel sees and sets it: the trap registers,
//! the register file saved at trap entry, the timer and the active address
//! space.

use vstd::prelude::*;
use crate::interrupts::trap::TrapFrame;
use crate::processes::process::Pid;

verus! {

/// Milliseconds that a process runs before the timer preempts it.
pub const TIME_SLICE_MS: u64 = 10;

/// The trap frame that the scratch register points at: the hart's own, or the
/// one of a process.
#[derive(Clone, Copy, PartialEq, Eq, Debug, Structural)]
pub enum TrapFrameOwner {
    Kernel,
    Process(Pid),
}

/// The address space that translation runs on: the kernel's, or the one of a
/// process.
#[derive(Clone, Copy, PartialEq, Eq, Debug, Structural)]
pub enum AddressSpace {
    Kernel,
    Process(Pid),
}

/// One hart.
pub struct Cpu {
    /// `sepc`: where `sret` continues.
    pub sepc: u64,
    /// `sscratch`: the frame that the trap entry saves registers to.
    pub sscratch: TrapFrameOwner,
    /// The registers as the trap entry saved them and as the trap exit
    /// restores them.
    pub trap_frame: TrapFrame,
    /// The previous-privilege bit: whether `sret` returns to supervisor mode.
    pub ret_to_kernel_mode: bool,
    /// Milliseconds until the next timer interrupt; `None` while the timer is
    /// off.
    pub timer: Option<u64>,
    /// `satp`: the active address space.
    pub active_page_table: AddressSpace,
    /// The address of the loop that waits for interrupts.
    pub idle_loop: u64,
}

impl Cpu {
    /// A hart in the kernel, on the kernel's address space, with the timer
    /// off.
    pub fn new(idle_loop: u64) -> (cpu: Self)
        ensures
            cpu.sepc == 0,
            cpu.sscratch == TrapFrameOwner::Kernel,
            cpu.ret_to_kernel_mode,
            cpu.timer is None,
            cpu.active_page_table == AddressSpace::Kernel,
            cpu.idle_loop == idle_loop,
            cpu.trap_frame.registers() == Seq::new(32, |i: int| 0u64),
            cpu.trap_frame.floating_registers() == Seq::new(32, |i: int| 0u64),
    {
        Cpu {
            sepc: 0,
            sscratch: TrapFrameOwner::Kernel,
            trap_frame: TrapFrame::zero(),
            ret_to_kernel_mode: true,
            timer: None,
            active_page_table: AddressSpace::Kernel,
            idle_loop,
        }
    }

    /// Points the scratch register at a trap frame.
    pub fn write_sscratch_register(&mut self, value: TrapFrameOwner)
        ensures
            *final(self) == (Cpu { sscratch: value, ..*old(self) }),
    {
        self.sscratch = value;
    }

    /// Sets where `sret` continues.
    pub fn write_sepc(&mut self, value: u64)
        ensures
            *final(self) == (Cpu { sepc: value, ..*old(self) }),
    {
        self.sepc = value;
    }

    /// Where `sret` continues.
    pub fn read_sepc(&self) -> (sepc: u64)
        ensures
            sepc == self.sepc,
    {
        self.sepc
    }

    /// Sets whether `sret` returns to supervisor mode.
    pub fn set_ret_to_kernel_mode(&mut self, kernel_mode: bool)
        ensures
            *final(self) == (Cpu { ret_to_kernel_mode: kernel_mode, ..*old(self) }),
    {
        self.ret_to_kernel_mode = kernel_mode;
    }

    /// Whether the interrupted code ran in supervisor mode.
    pub fn is_in_kernel_mode(&self) -> (kernel_mode: bool)
        ensures
            kernel_mode == self.ret_to_kernel_mode,
    {
        self.ret_to_kernel_mode
    }

    /// Arms the timer to fire in `milliseconds`.
    pub fn set_timer(&mut self, milliseconds: u64)
        ensures
            *final(self) == (Cpu { timer: Some(milliseconds), ..*old(self) }),
    {
        self.timer = Some(milliseconds);
    }

    /// Turns the timer off.
    pub fn disable_timer(&mut self)
        ensures
            *final(self) == (Cpu { timer: None, ..*old(self) }),
    {
        self.timer = None;
    }

    /// Whether the timer is armed.
    pub fn is_timer_enabled(&self) -> (enabled: bool)
        ensures
            enabled == self.timer is Some,
    {
        self.timer.is_some()
    }

    /// Makes `space` the active address space.
    pub fn activate_page_table(&mut self, space: AddressSpace)
        ensures
            *final(self) == (Cpu { active_page_table: space, ..*old(self) }),
    {
        self.active_page_table = space;
    }
}

/// The harts that the booting hart starts: every hart of the machine but
/// itself, in ascending order.
pub open spec fn other_harts(current_hart_id: int, number_of_cpus: int) -> Seq<usize> {
    Seq::new(
        if 0 <= current_hart_id < number_of_cpus {
            (number_of_cpus - 1) as nat
        } else {
            number_of_cpus as nat
        },
        |i: int|
            if 0 <= current_hart_id <= i {
                (i + 1) as usize
            } else {
                i as usize
            },
    )
}

/// The harts that the booting hart `current_hart_id` starts on a machine of
/// `number_of_cpus` harts.
pub fn start_other_harts(current_hart_id: usize, number_of_cpus: usize) -> (started: Vec<usize>)
    ensures
        started@ == other_harts(current_hart_id as int, number_of_cpus as int),
{
    let mut started: Vec<usize> = Vec::new();
    let mut cpu_id: usize = 0;
    while cpu_id < number_of_cpus
        invariant
            cpu_id <= number_of_cpus,
            started@.len() == if current_hart_id < cpu_id {
                cpu_id - 1
            } else {
                cpu_id as int
            },
            forall|i: int|
                0 <= i < started@.len() ==> started@[i] == if current_hart_id <= i {
                    (i + 1) as usize
                } else {
                    i as usize
                },
        decreases number_of_cpus - cpu_id,
    {
        if cpu_id != current_hart_id {
            started.push(cpu_id);
        }
        cpu_id = cpu_id + 1;
    }
    assert(started@ =~= other_harts(current_hart_id as int, number_of_cpus as int));
    started
}

/// Readies the hart for the scheduler at the end of boot: arms the timer to
/// fire at once, so that the first tick gives the hart to the first process.
pub fn prepare_for_scheduling(cpu: &mut Cpu)
    ensures
        *final(cpu) == (Cpu { timer: Some(0), ..*old(cpu) }),
{
    cpu.set_timer(0);
}

/// The value of `satp` that activates the sv39 address space whose root table
/// lies in frame `root_ppn`: mode 8 in the top four bits, the frame number in
/// the low 44.
pub open spec fn spec_satp(root_ppn: u64) -> int {
    8 * 0x1000_0000_0000_0000 + root_ppn
}

/// The value of `satp` that activates the sv39 address space whose root table
/// lies in frame `root_ppn`.
pub fn satp_value(root_ppn: u64) -> (satp: u64)
    requires
        root_ppn < 0x1000_0000_0000,
    ensures
        satp == spec_satp(root_ppn),
{
    0x8000_0000_0000_0000 + root_ppn
}

} // verus!
