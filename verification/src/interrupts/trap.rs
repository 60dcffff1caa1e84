//! The trap frame, the register file as the trap entry saves it, and the
//! dispatch of a trap to what services it.

use vstd::prelude::*;
use crate::cpu::Cpu;
use crate::io::stdin_buf::StdinBuffer;
use crate::processes::process::{ProcessState, NEVER_PID};
use crate::processes::scheduler::ScheduleOutcome;
use crate::state::Kernel;
use crate::syscalls::handler::{handle_syscall, syscall_effect, SyscallReply};
use super::trap_cause::{
    InterruptCause, ENVIRONMENT_CALL_FROM_U_MODE, SUPERVISOR_EXTERNAL_INTERRUPT,
    SUPERVISOR_TIMER_INTERRUPT,
};

verus! {

/// The 32 integer registers, by their ABI names.
#[allow(non_camel_case_types)]
#[derive(Clone, Copy, PartialEq, Eq, Debug, Structural)]
pub enum Register {
    zero,
    ra,
    sp,
    gp,
    tp,
    t0,
    t1,
    t2,
    s0_fp,
    s1,
    a0,
    a1,
    a2,
    a3,
    a4,
    a5,
    a6,
    a7,
    s2,
    s3,
    s4,
    s5,
    s6,
    s7,
    s8,
    s9,
    s10,
    s11,
    t3,
    t4,
    t5,
    t6,
}

impl Register {
    /// The register's number, `x0` to `x31`.
    pub open spec fn number(self) -> int {
        match self {
            Register::zero => 0,
            Register::ra => 1,
            Register::sp => 2,
            Register::gp => 3,
            Register::tp => 4,
            Register::t0 => 5,
            Register::t1 => 6,
            Register::t2 => 7,
            Register::s0_fp => 8,
            Register::s1 => 9,
            Register::a0 => 10,
            Register::a1 => 11,
            Register::a2 => 12,
            Register::a3 => 13,
            Register::a4 => 14,
            Register::a5 => 15,
            Register::a6 => 16,
            Register::a7 => 17,
            Register::s2 => 18,
            Register::s3 => 19,
            Register::s4 => 20,
            Register::s5 => 21,
            Register::s6 => 22,
            Register::s7 => 23,
            Register::s8 => 24,
            Register::s9 => 25,
            Register::s10 => 26,
            Register::s11 => 27,
            Register::t3 => 28,
            Register::t4 => 29,
            Register::t5 => 30,
            Register::t6 => 31,
        }
    }

    /// The register's number, as an index into the trap frame.
    pub fn index(self) -> (i: usize)
        ensures
            i == self.number(),
            i < 32,
    {
        match self {
            Register::zero => 0,
            Register::ra => 1,
            Register::sp => 2,
            Register::gp => 3,
            Register::tp => 4,
            Register::t0 => 5,
            Register::t1 => 6,
            Register::t2 => 7,
            Register::s0_fp => 8,
            Register::s1 => 9,
            Register::a0 => 10,
            Register::a1 => 11,
            Register::a2 => 12,
            Register::a3 => 13,
            Register::a4 => 14,
            Register::a5 => 15,
            Register::a6 => 16,
            Register::a7 => 17,
            Register::s2 => 18,
            Register::s3 => 19,
            Register::s4 => 20,
            Register::s5 => 21,
            Register::s6 => 22,
            Register::s7 => 23,
            Register::s8 => 24,
            Register::s9 => 25,
            Register::s10 => 26,
            Register::s11 => 27,
            Register::t3 => 28,
            Register::t4 => 29,
            Register::t5 => 30,
            Register::t6 => 31,
        }
    }
}

/// The saved register file: 32 integer and 32 floating-point registers.
#[derive(Clone, Copy, Debug)]
pub struct TrapFrame {
    registers: [u64; 32],
    floating_registers: [u64; 32],
}

impl TrapFrame {
    /// The integer registers, `x0` first.
    pub closed spec fn registers(&self) -> Seq<u64> {
        self.registers@
    }

    /// The floating-point registers, `f0` first.
    pub closed spec fn floating_registers(&self) -> Seq<u64> {
        self.floating_registers@
    }

    /// The value saved for `register`.
    pub open spec fn spec_get(&self, register: Register) -> u64 {
        self.registers()[register.number()]
    }

    /// This frame with `value` saved for `register`.
    pub open spec fn with(&self, register: Register, value: u64) -> Seq<u64> {
        self.registers().update(register.number(), value)
    }

    /// Both register files hold the same values as those of `other`.
    pub open spec fn same_as(&self, other: &TrapFrame) -> bool {
        self.registers() == other.registers() && self.floating_registers()
            == other.floating_registers()
    }

    /// Both register files have 32 entries.
    pub proof fn lemma_lengths(&self)
        ensures
            self.registers().len() == 32,
            self.floating_registers().len() == 32,
    {
    }

    /// The frame with every register zero.
    pub fn zero() -> (frame: Self)
        ensures
            frame.registers() == Seq::new(32, |i: int| 0u64),
            frame.floating_registers() == Seq::new(32, |i: int| 0u64),
    {
        let frame = Self { registers: [0; 32], floating_registers: [0; 32] };
        assert(frame.registers@ =~= Seq::new(32, |i: int| 0u64));
        assert(frame.floating_registers@ =~= Seq::new(32, |i: int| 0u64));
        frame
    }

    /// The value saved for `register`.
    pub fn get(&self, register: Register) -> (value: u64)
        ensures
            value == self.spec_get(register),
    {
        self.registers[register.index()]
    }

    /// Saves `value` for `register` and leaves every other register as it is.
    pub fn set(&mut self, register: Register, value: u64)
        ensures
            final(self).registers() == old(self).with(register, value),
            final(self).floating_registers() == old(self).floating_registers(),
    {
        let i = register.index();
        self.registers[i] = value;
    }
}

/// What the kernel answers to a trap: the answer to the system call, if the
/// trap was one; the bytes to echo on the console, if console input arrived;
/// and the scheduling decision, if the scheduler ran.
pub struct TrapReply {
    pub syscall: Option<SyscallReply>,
    pub echo: Vec<u8>,
    pub scheduled: Option<ScheduleOutcome>,
}

/// What the console shows for a byte of input: a backspace wipes the last
/// character, a line feed or a carriage return ends the line, any other byte
/// is shown as it is.
pub open spec fn echo_of(input: u8) -> Seq<u8> {
    if input == 8 {
        seq![8u8, 32u8, 8u8]
    } else if input == 10 || input == 13 {
        seq![10u8]
    } else {
        seq![input]
    }
}

/// The registers with `value` in place `index`, where there is a value.
pub open spec fn with_optional(registers: Seq<u64>, index: int, value: Option<u64>) -> Seq<u64> {
    match value {
        Some(v) => registers.update(index, v),
        None => registers,
    }
}

/// `returned` is `handled` with the answer of a system call delivered: `a0`
/// and `a1` in the registers of the hart, where the answer has values for
/// them, and the program counter behind the `ecall` at `sepc`; where the
/// answer has no value for `a0`, the program counter stays at the `ecall`.
pub open spec fn is_returned(
    handled: Kernel,
    returned: Kernel,
    a0: Option<u64>,
    a1: Option<u64>,
    sepc: u64,
) -> bool {
    &&& returned.scheduler == handled.scheduler
    &&& returned.stdin == handled.stdin
    &&& returned.page_allocator == handled.page_allocator
    &&& returned.sockets == handled.sockets
    &&& returned.cpu.sepc == if a0 is Some {
        sepc + 4
    } else {
        sepc as int
    }
    &&& returned.cpu.sscratch == handled.cpu.sscratch
    &&& returned.cpu.ret_to_kernel_mode == handled.cpu.ret_to_kernel_mode
    &&& returned.cpu.timer == handled.cpu.timer
    &&& returned.cpu.active_page_table == handled.cpu.active_page_table
    &&& returned.cpu.idle_loop == handled.cpu.idle_loop
    &&& returned.cpu.trap_frame.floating_registers()
        == handled.cpu.trap_frame.floating_registers()
    &&& returned.cpu.trap_frame.registers() == with_optional(
        with_optional(handled.cpu.trap_frame.registers(), Register::a0.number(), a0),
        Register::a1.number(),
        a1,
    )
}

/// What `handle_exception` does for an `ecall` at `sepc`: the system call is
/// handled, its answer delivered, and the scheduler runs where the current
/// process cannot go on.
pub open spec fn exception_effect(
    before: Kernel,
    after: Kernel,
    sepc: u64,
    name: Seq<char>,
    reply: TrapReply,
) -> bool {
    &&& reply.echo@.len() == 0
    &&& reply.syscall matches Some(answer)
    &&& exists|handled: Kernel, returned: Kernel|
        {
            &&& #[trigger] syscall_effect(before, handled, name, answer)
            &&& #[trigger] is_returned(handled, returned, answer.a0, answer.a1, sepc)
            &&& if returned.needs_reschedule() {
                &&& reply.scheduled matches Some(outcome)
                &&& Kernel::is_scheduled(returned, after, outcome)
            } else {
                &&& reply.scheduled is None
                &&& after == returned
            }
        }
}

/// What `handle_external_interrupt` does with a byte of console input.
pub open spec fn external_interrupt_effect(
    before: Kernel,
    after: Kernel,
    input: u8,
    reply: TrapReply,
) -> bool {
    &&& reply.syscall is None
    &&& reply.echo@ == echo_of(input)
    &&& after.page_allocator == before.page_allocator
    &&& after.sockets == before.sockets
    &&& StdinBuffer::pushed(
        before.stdin,
        after.stdin,
        before.scheduler,
        after.scheduler,
        before.cpu,
        after.cpu,
        input,
        reply.scheduled,
    )
}

/// What `handle_supervisor_timer_interrupt` does: the timer is armed for the
/// next tick and the scheduler runs.
pub open spec fn timer_interrupt_effect(before: Kernel, after: Kernel, reply: TrapReply) -> bool {
    &&& reply.syscall is None
    &&& reply.echo@.len() == 0
    &&& reply.scheduled matches Some(outcome)
    &&& Kernel::is_scheduled(
        Kernel { cpu: Cpu { timer: Some(1), ..before.cpu }, ..before },
        after,
        outcome,
    )
}

/// The kernel services the cause: the supervisor timer, the supervisor
/// external interrupt, or an `ecall` from user mode. Any other cause is
/// fatal.
pub open spec fn is_handled(cause: InterruptCause) -> bool {
    if cause.spec_is_interrupt() {
        cause.spec_exception_code() == SUPERVISOR_TIMER_INTERRUPT || cause.spec_exception_code()
            == SUPERVISOR_EXTERNAL_INTERRUPT
    } else {
        cause.spec_exception_code() == ENVIRONMENT_CALL_FROM_U_MODE
    }
}

/// Whether the kernel services the cause; see `is_handled`.
pub fn can_handle(cause: InterruptCause) -> (handled: bool)
    ensures
        handled == is_handled(cause),
{
    let code = cause.get_exception_code();
    if cause.is_interrupt() {
        code == SUPERVISOR_TIMER_INTERRUPT || code == SUPERVISOR_EXTERNAL_INTERRUPT
    } else {
        code == ENVIRONMENT_CALL_FROM_U_MODE
    }
}

/// Handles a timer tick: arms the timer for the next tick and lets the
/// scheduler run.
pub fn handle_supervisor_timer_interrupt(kernel: &mut Kernel) -> (reply: TrapReply)
    requires
        old(kernel).wf(),
    ensures
        final(kernel).wf(),
        final(kernel).scheduler.scratch_invariant(final(kernel).cpu),
        timer_interrupt_effect(*old(kernel), *final(kernel), reply),
{
    kernel.cpu.set_timer(1);
    let outcome = kernel.schedule();
    TrapReply { syscall: None, echo: Vec::new(), scheduled: Some(outcome) }
}

/// Handles console input: `input` is the byte that the console delivered.
/// Says what to echo and hands the byte to the input buffer, which wakes the
/// processes blocked for input or keeps the byte.
pub fn handle_external_interrupt(kernel: &mut Kernel, input: u8) -> (reply: TrapReply)
    requires
        old(kernel).wf(),
    ensures
        final(kernel).wf(),
        external_interrupt_effect(*old(kernel), *final(kernel), input, reply),
{
    let mut echo: Vec<u8> = Vec::new();
    if input == 8 {
        echo.push(8);
        echo.push(32);
        echo.push(8);
    } else if input == 10 || input == 13 {
        echo.push(10);
    } else {
        echo.push(input);
    }
    assert(echo@ =~= echo_of(input));
    let rescheduled = kernel.stdin.push(input, &mut kernel.scheduler, &mut kernel.cpu);
    TrapReply { syscall: None, echo, scheduled: rescheduled }
}

/// Handles an interrupt: a timer tick or console input. `input` counts only
/// for console input.
pub fn handle_interrupt(
    kernel: &mut Kernel,
    cause: InterruptCause,
    stval: u64,
    sepc: u64,
    input: u8,
) -> (reply: TrapReply)
    requires
        old(kernel).wf(),
        cause.spec_is_interrupt(),
        is_handled(cause),
    ensures
        final(kernel).wf(),
        if cause.spec_exception_code() == SUPERVISOR_TIMER_INTERRUPT {
            timer_interrupt_effect(*old(kernel), *final(kernel), reply)
        } else {
            external_interrupt_effect(*old(kernel), *final(kernel), input, reply)
        },
{
    if cause.get_exception_code() == SUPERVISOR_TIMER_INTERRUPT {
        handle_supervisor_timer_interrupt(kernel)
    } else {
        handle_external_interrupt(kernel, input)
    }
}

/// Handles an exception, which is an `ecall` from user mode at `sepc`:
/// handles the system call, puts its answer into the registers of the hart
/// and the program counter behind the `ecall`, and lets the scheduler run
/// where the calling process cannot go on. `name` is the text that the first
/// argument of `execute` points at.
pub fn handle_exception(
    kernel: &mut Kernel,
    cause: InterruptCause,
    stval: u64,
    sepc: u64,
    name: &str,
) -> (reply: TrapReply)
    requires
        old(kernel).wf(),
        old(kernel).scheduler.current_pid != NEVER_PID,
        !cause.spec_is_interrupt(),
        is_handled(cause),
        sepc <= u64::MAX - 4,
    ensures
        final(kernel).wf(),
        exception_effect(*old(kernel), *final(kernel), sepc, name@, reply),
{
    let answer = handle_syscall(kernel, name);
    let ghost handled = *kernel;
    match answer.a0 {
        Some(value) => {
            kernel.cpu.trap_frame.set(Register::a0, value);
            kernel.cpu.sepc = sepc + 4;
        },
        None => {
            kernel.cpu.sepc = sepc;
        },
    }
    match answer.a1 {
        Some(value) => {
            kernel.cpu.trap_frame.set(Register::a1, value);
        },
        None => {},
    }
    let ghost returned = *kernel;
    assert(is_returned(handled, returned, answer.a0, answer.a1, sepc));
    let reschedule = kernel.scheduler.current_pid == NEVER_PID
        || kernel.scheduler.get_current_process().state != ProcessState::Running;
    let scheduled = if reschedule {
        Some(kernel.schedule())
    } else {
        None
    };
    TrapReply { syscall: Some(answer), echo: Vec::new(), scheduled }
}

/// What `supervisor_mode_trap` does between the entry and the exit of the
/// trap, by the kind of the trap.
pub open spec fn trap_effect(
    before: Kernel,
    after: Kernel,
    cause: InterruptCause,
    sepc: u64,
    input: u8,
    name: Seq<char>,
    reply: TrapReply,
) -> bool {
    if !cause.spec_is_interrupt() {
        exception_effect(before, after, sepc, name, reply)
    } else if cause.spec_exception_code() == SUPERVISOR_TIMER_INTERRUPT {
        timer_interrupt_effect(before, after, reply)
    } else {
        external_interrupt_effect(before, after, input, reply)
    }
}

/// The entry of every trap into the kernel: services the timer, console
/// input and system calls. While the trap is serviced the scratch register
/// points at the hart's own frame; at the end it points at the frame that
/// holds the live state of what the hart returns to. `input` is the byte
/// that the console delivered, `name` the text that the first argument of
/// `execute` points at; each counts only for its kind of trap.
pub fn supervisor_mode_trap(
    kernel: &mut Kernel,
    cause: InterruptCause,
    stval: u64,
    sepc: u64,
    input: u8,
    name: &str,
) -> (reply: TrapReply)
    requires
        old(kernel).wf(),
        is_handled(cause),
        !cause.spec_is_interrupt() ==> old(kernel).scheduler.current_pid != NEVER_PID && sepc
            <= u64::MAX - 4,
    ensures
        final(kernel).wf(),
        final(kernel).scheduler.scratch_invariant(final(kernel).cpu),
        exists|serviced: Kernel|
            {
                &&& #[trigger] trap_effect(
                    old(kernel).entered(),
                    serviced,
                    cause,
                    sepc,
                    input,
                    name@,
                    reply,
                )
                &&& *final(kernel) == serviced.left()
            },
{
    kernel.enter_trap();
    let reply = if cause.is_interrupt() {
        handle_interrupt(kernel, cause, stval, sepc, input)
    } else {
        handle_exception(kernel, cause, stval, sepc, name)
    };
    let ghost serviced = *kernel;
    kernel.leave_trap();
    proof {
        assert(trap_effect(old(kernel).entered(), serviced, cause, sepc, input, name@, reply));
    }
    reply
}

} // verus!
