//! The scheduler of one hart: which process runs, round robin over the
//! runnable ones, and what is saved and installed when the hart changes
//! from one to the next.

use vstd::prelude::*;
use crate::cpu::{AddressSpace, Cpu, TrapFrameOwner, TIME_SLICE_MS};
use crate::interrupts::trap::Register;
use crate::memory::page_allocator::{after_release, has_fit, PageAllocator};
use super::loader::{image_regions, loadable, total_pages, ElfFile, MappingDescription};
use super::process::{is_created, Pid, Process, ProcessState, NEVER_PID};
use super::process_table::{
    contains_pid, is_delivered, is_killed, is_round_robin_successor, is_runnable,
    lemma_position_unique, lists, position_of, process_of, runnable_pids, sorted_by_pid,
    ProcessTable,
};

verus! {

/// A program that the kernel image carries: its name and its parsed image.
pub struct Program {
    pub name: String,
    pub elf: ElfFile,
}

/// What the hart does after a scheduling decision.
#[derive(Clone, Copy, PartialEq, Eq, Debug, Structural)]
pub enum ScheduleOutcome {
    /// The process with this pid runs.
    Run(Pid),
    /// No process is runnable: the hart waits for an interrupt.
    Idle,
    /// No process is left: the system shuts down.
    Shutdown,
}

/// The process as it is put back once the hart leaves it: with the hart's
/// trap registers and register file saved, and runnable again if it was
/// running.
pub open spec fn saved_context(process: Process, cpu: Cpu) -> Process {
    Process {
        program_counter: cpu.sepc,
        in_kernel_mode: cpu.ret_to_kernel_mode,
        register_state: cpu.trap_frame,
        state: if process.state == ProcessState::Running {
            ProcessState::Runnable
        } else {
            process.state
        },
        ..process
    }
}

/// The table once the current process was put back.
pub open spec fn requeued(table: Seq<Process>, current: Pid, cpu: Cpu) -> Seq<Process> {
    if contains_pid(table, current) {
        table.update(
            position_of(table, current),
            saved_context(process_of(table, current), cpu),
        )
    } else {
        table
    }
}

/// The process made the running one.
pub open spec fn made_running(process: Process) -> Process {
    Process { state: ProcessState::Running, ..process }
}

/// The table after the decision `outcome` was taken over `table`.
pub open spec fn scheduled_table(table: Seq<Process>, outcome: ScheduleOutcome) -> Seq<Process> {
    match outcome {
        ScheduleOutcome::Run(pid) => table.update(
            position_of(table, pid),
            made_running(process_of(table, pid)),
        ),
        _ => table,
    }
}

/// The hart with the context of `process` installed: its registers, its
/// program counter, its mode and its address space; the scratch register
/// points at the frame of the process where it returns to user mode, and at
/// the hart's own frame where it returns to the kernel.
pub open spec fn installed(cpu: Cpu, process: Process) -> Cpu {
    Cpu {
        trap_frame: process.register_state,
        sepc: process.program_counter,
        ret_to_kernel_mode: process.in_kernel_mode,
        active_page_table: AddressSpace::Process(process.pid),
        sscratch: if process.in_kernel_mode {
            TrapFrameOwner::Kernel
        } else {
            TrapFrameOwner::Process(process.pid)
        },
        ..cpu
    }
}

/// The hart sent to wait for an interrupt: on the kernel's address space,
/// with the timer off, returning into the idle loop in supervisor mode, the
/// scratch register at the hart's own frame.
pub open spec fn idling(cpu: Cpu) -> Cpu {
    Cpu {
        active_page_table: AddressSpace::Kernel,
        timer: None,
        sepc: cpu.idle_loop,
        ret_to_kernel_mode: true,
        sscratch: TrapFrameOwner::Kernel,
        ..cpu
    }
}

/// The hart after the decision `outcome` was taken over `table`.
pub open spec fn scheduled_cpu(cpu: Cpu, table: Seq<Process>, outcome: ScheduleOutcome) -> Cpu {
    match outcome {
        ScheduleOutcome::Run(pid) => Cpu {
            timer: Some(TIME_SLICE_MS),
            ..installed(cpu, process_of(table, pid))
        },
        ScheduleOutcome::Idle => idling(cpu),
        ScheduleOutcome::Shutdown => cpu,
    }
}

/// `outcome` is the decision that round robin takes over `table` behind the
/// process `previous`.
pub open spec fn is_decision(table: Seq<Process>, previous: Pid, outcome: ScheduleOutcome) -> bool {
    match outcome {
        ScheduleOutcome::Run(pid) => is_round_robin_successor(runnable_pids(table), previous, pid),
        ScheduleOutcome::Idle => table.len() > 0 && forall|pid: Pid| !is_runnable(table, pid),
        ScheduleOutcome::Shutdown => table.len() == 0,
    }
}

/// The pid of the process, or the reserved pid where there is none.
pub open spec fn zombie_pid(zombie: Option<Process>) -> Pid {
    match zombie {
        Some(dead) => dead.pid,
        None => NEVER_PID,
    }
}

/// The process the hart runs after `outcome`.
pub open spec fn scheduled_pid(outcome: ScheduleOutcome) -> Pid {
    match outcome {
        ScheduleOutcome::Run(pid) => pid,
        _ => NEVER_PID,
    }
}

/// Some process of the sequence has this pid and is runnable or running.
pub open spec fn is_ready(processes: Seq<Process>, pid: Pid) -> bool {
    exists|i: int|
        0 <= i < processes.len() && (#[trigger] processes[i]).pid == pid && (processes[i].state
            == ProcessState::Runnable || processes[i].state == ProcessState::Running)
}

/// The pids that round robin goes around: those of the runnable processes
/// and of the running one.
pub open spec fn ready_pids(processes: Seq<Process>) -> Set<Pid> {
    Set::new(|pid: Pid| is_ready(processes, pid))
}

/// `after` is `before` with the process `current` waiting for the death of
/// `target`: `current` is in the state `Waiting` with 0 in its saved `a0`,
/// and `target` has `current` among the processes to wake.
pub open spec fn is_waiting_for(
    before: Seq<Process>,
    after: Seq<Process>,
    current: Pid,
    target: Pid,
) -> bool {
    &&& after.len() == before.len()
    &&& forall|i: int|
        0 <= i < before.len() ==> waits(before[i], #[trigger] after[i], current, target)
}

/// What `is_waiting_for` says of one process.
pub open spec fn waits(before: Process, after: Process, current: Pid, target: Pid) -> bool {
    &&& after.name == before.name
    &&& after.pid == before.pid
    &&& after.page_table == before.page_table
    &&& after.program_counter == before.program_counter
    &&& after.allocated_pages == before.allocated_pages
    &&& after.free_mmap_address == before.free_mmap_address
    &&& after.next_free_descriptor == before.next_free_descriptor
    &&& after.open_udp_sockets == before.open_udp_sockets
    &&& after.in_kernel_mode == before.in_kernel_mode
    &&& after.waiting_on_syscall == before.waiting_on_syscall
    &&& if before.pid == target {
        after.notify_on_die@ == before.notify_on_die@.insert(current)
    } else {
        after.notify_on_die == before.notify_on_die
    }
    &&& if before.pid == current {
        &&& after.state == ProcessState::Waiting
        &&& after.register_state.registers() == before.register_state.with(Register::a0, 0)
        &&& after.register_state.floating_registers()
            == before.register_state.floating_registers()
    } else {
        &&& after.state == before.state
        &&& after.register_state == before.register_state
    }
}

/// `programs[i]` is the first program with this name.
pub open spec fn is_program_at(programs: Seq<Program>, i: int, name: Seq<char>) -> bool {
    &&& 0 <= i < programs.len()
    &&& programs[i].name@ == name
    &&& forall|k: int| 0 <= k < i ==> (#[trigger] programs[k]).name@ != name
}

/// No program has this name.
pub open spec fn no_program(programs: Seq<Program>, name: Seq<char>) -> bool {
    forall|k: int| 0 <= k < programs.len() ==> (#[trigger] programs[k]).name@ != name
}

/// What is known of one process for a listing.
pub struct ProcessInfo {
    pub pid: Pid,
    pub name: String,
    pub state: ProcessState,
}

/// The scheduler of one hart.
pub struct Scheduler {
    pub process_table: ProcessTable,
    pub current_pid: Pid,
    pub programs: Vec<Program>,
    /// The ranges of the kernel that every process maps.
    pub kernel_mappings: Vec<MappingDescription>,
}

impl Scheduler {
    /// The live processes, in ascending order of pid.
    pub open spec fn table(&self) -> Seq<Process> {
        self.process_table@
    }

    /// The table is well formed, the current process is the placeholder or
    /// alive, and no process but the current one is running.
    pub open spec fn wf(&self) -> bool {
        &&& self.process_table.wf()
        &&& self.current_pid == NEVER_PID || contains_pid(self.table(), self.current_pid)
        &&& forall|i: int|
            0 <= i < self.table().len() && (#[trigger] self.table()[i]).state
                == ProcessState::Running ==> self.table()[i].pid == self.current_pid
    }

    /// While a process is running, the scratch register points at the frame
    /// that holds the live user state: the frame of the process where the hart
    /// returns to user mode, the hart's own where it returns to the kernel.
    pub open spec fn scratch_invariant(&self, cpu: Cpu) -> bool {
        self.current_pid != NEVER_PID && process_of(self.table(), self.current_pid).state
            == ProcessState::Running ==> cpu.sscratch == if cpu.ret_to_kernel_mode {
            TrapFrameOwner::Kernel
        } else {
            TrapFrameOwner::Process(self.current_pid)
        }
    }

    /// The two schedulers have the same programs, the same ranges of the
    /// kernel, the same placeholder and hand out the same pid next.
    pub open spec fn same_setup(&self, other: &Scheduler) -> bool {
        &&& self.programs == other.programs
        &&& self.kernel_mappings == other.kernel_mappings
        &&& self.process_table.dummy == other.process_table.dummy
        &&& self.process_table.next_pid == other.process_table.next_pid
    }

    /// The current process; the placeholder where no process is current.
    pub open spec fn current(&self) -> Process {
        if self.current_pid == NEVER_PID {
            self.process_table.dummy
        } else {
            process_of(self.table(), self.current_pid)
        }
    }

    /// The scheduler over `programs`, with the program `init` as the first
    /// process, under the name "init" and the pid 1. Where `init` cannot be
    /// loaded the table stays empty.
    pub fn new(
        init: &ElfFile,
        programs: Vec<Program>,
        kernel_mappings: Vec<MappingDescription>,
        allocator: &mut PageAllocator,
    ) -> (scheduler: Self)
        requires
            old(allocator).wf(),
        ensures
            scheduler.wf(),
            final(allocator).wf(),
            final(allocator).base() == old(allocator).base(),
            final(allocator)@.len() == old(allocator)@.len(),
            scheduler.programs == programs,
            scheduler.kernel_mappings == kernel_mappings,
            scheduler.current_pid == NEVER_PID,
            if loadable(image_regions(*init, kernel_mappings@)) && has_fit(
                old(allocator)@,
                total_pages(image_regions(*init, kernel_mappings@)),
            ) {
                &&& scheduler.table().len() == 1
                &&& is_created(
                    scheduler.table()[0],
                    *init,
                    "init"@,
                    1,
                    kernel_mappings@,
                    *old(allocator),
                    *final(allocator),
                )
                &&& scheduler.process_table.next_pid == 2
            } else {
                &&& scheduler.table().len() == 0
                &&& scheduler.process_table.next_pid == 1
                &&& final(allocator)@ == old(allocator)@
            },
    {
        let mut process_table = ProcessTable::new();
        match Process::from_elf(init, "init", 1, &kernel_mappings, allocator) {
            Some(process) => {
                process_table.add_process(process);
            },
            None => {},
        }
        Scheduler { process_table, current_pid: NEVER_PID, programs, kernel_mappings }
    }

    /// The processes of the table, each with its pid, name and state.
    pub fn dump(&self) -> (listing: Vec<ProcessInfo>)
        ensures
            listing@.len() == self.table().len(),
            forall|i: int|
                0 <= i < listing@.len() ==> (#[trigger] listing@[i]).pid == self.table()[i].pid
                    && listing@[i].name@ == self.table()[i].name@ && listing@[i].state
                    == self.table()[i].state,
    {
        let mut listing: Vec<ProcessInfo> = Vec::new();
        let mut i: usize = 0;
        while i < self.process_table.processes.len()
            invariant
                i <= self.table().len(),
                listing@.len() == i,
                forall|k: int|
                    0 <= k < i ==> (#[trigger] listing@[k]).pid == self.table()[k].pid
                        && listing@[k].name@ == self.table()[k].name@ && listing@[k].state
                        == self.table()[k].state,
            decreases self.table().len() - i,
        {
            let process = &self.process_table.processes[i];
            listing.push(
                ProcessInfo { pid: process.pid, name: process.name.clone(), state: process.state },
            );
            i = i + 1;
        }
        listing
    }

    /// The current process; the placeholder where no process is current.
    pub fn get_current_process(&self) -> (process: &Process)
        requires
            self.wf(),
        ensures
            *process == self.current(),
    {
        if self.current_pid == NEVER_PID {
            return self.process_table.get_dummy_process();
        }
        match self.process_table.get_process(self.current_pid) {
            Some(process) => process,
            None => self.process_table.get_dummy_process(),
        }
    }

    /// The process `pid`, if it is alive.
    pub fn get_process(&self, pid: Pid) -> (process: Option<&Process>)
        requires
            self.wf(),
        ensures
            process is Some <==> contains_pid(self.table(), pid),
            process matches Some(p) ==> *p == process_of(self.table(), pid) && p.pid == pid,
    {
        self.process_table.get_process(pid)
    }

    /// The placeholder process.
    pub fn get_dummy_process(&self) -> (dummy: &Process)
        ensures
            *dummy == self.process_table.dummy,
    {
        self.process_table.get_dummy_process()
    }

    /// Whether no process is current: the hart idles.
    pub fn is_current_process_energy_saver(&self) -> (idle: bool)
        ensures
            idle == (self.current_pid == NEVER_PID),
    {
        self.current_pid == NEVER_PID
    }

    /// Delivers `byte` to the process `pid` as the result of the system call
    /// it is blocked in, and makes it runnable. Nothing changes where no such
    /// process is alive or the process is not blocked for input.
    pub fn resume_on_syscall(&mut self, pid: Pid, byte: u8)
        requires
            old(self).wf(),
        ensures
            final(self).wf(),
            old(self).same_setup(final(self)),
            final(self).current_pid == old(self).current_pid,
            is_delivered(old(self).table(), final(self).table(), set![pid], byte),
    {
        self.process_table.resume_on_syscall(pid, byte);
        proof {
            let before = old(self).table();
            let after = self.table();
            assert forall|i: int|
                0 <= i < after.len() && (#[trigger] after[i]).state
                    == ProcessState::Running implies after[i].pid == self.current_pid by {
                assert(before[i].state == ProcessState::Running);
            }
            if self.current_pid != NEVER_PID {
                let c = position_of(before, self.current_pid);
                assert(after[c].pid == self.current_pid);
            }
        }
    }

    /// Makes the placeholder the current process and returns the pid of the
    /// process that was current.
    pub fn swap_current_with_dummy(&mut self) -> (previous: Pid)
        ensures
            previous == old(self).current_pid,
            *final(self) == (Scheduler { current_pid: NEVER_PID, ..*old(self) }),
    {
        let previous = self.current_pid;
        self.current_pid = NEVER_PID;
        previous
    }

    /// Takes the hart from the current process: saves the trap registers and
    /// the register file of `cpu` into it, makes it runnable again if it was
    /// running, and makes the placeholder current. Returns the pid of the
    /// process that was current.
    pub fn queue_current_process_back(&mut self, cpu: &Cpu) -> (previous: Pid)
        requires
            old(self).wf(),
        ensures
            final(self).wf(),
            previous == old(self).current_pid,
            final(self).current_pid == NEVER_PID,
            final(self).table() == requeued(old(self).table(), previous, *cpu),
            old(self).same_setup(final(self)),
            forall|i: int|
                0 <= i < final(self).table().len() ==> (#[trigger] final(self).table()[i]).state
                    != ProcessState::Running,
            forall|pid: Pid| is_runnable(final(self).table(), pid)
                <==> is_ready(old(self).table(), pid),
    {
        let previous = self.swap_current_with_dummy();
        let ghost before = old(self).table();
        match self.process_table.position(previous) {
            Some(i) => {
                let process = &mut self.process_table.processes[i];
                process.program_counter = cpu.sepc;
                process.in_kernel_mode = cpu.ret_to_kernel_mode;
                process.register_state = cpu.trap_frame;
                if process.state == ProcessState::Running {
                    process.state = ProcessState::Runnable;
                }
                proof {
                    let after = self.table();
                    assert(after =~= requeued(before, previous, *cpu));
                    assert forall|a: int, q: Pid|
                        0 <= a < after.len() && (#[trigger] after[a]).notify_on_die@.contains(
                            q,
                        ) implies #[trigger] contains_pid(after, q) by {
                        assert(before[a].notify_on_die@.contains(q));
                        assert(contains_pid(before, q));
                        let c = position_of(before, q);
                        assert(after[c].pid == q);
                    }
                    assert forall|a: int, b: int| 0 <= a < b < after.len() implies (
                    #[trigger] after[a]).pid < (#[trigger] after[b]).pid by {
                        assert(before[a].pid < before[b].pid);
                    }
                    assert forall|a: int| 0 <= a < after.len() implies (#[trigger] after[a]).wf()
                        && 1 <= after[a].pid < self.process_table.next_pid by {
                        assert(before[a].wf());
                    }
                    assert forall|a: int| 0 <= a < after.len() implies (#[trigger] after[a]).state
                        != ProcessState::Running by {
                        if a != i {
                            assert(before[a].state != ProcessState::Running);
                        }
                    }
                    assert forall|pid: Pid| is_runnable(after, pid) <==> is_ready(before, pid) by {
                        if is_runnable(after, pid) {
                            let a = choose|a: int|
                                0 <= a < after.len() && (#[trigger] after[a]).pid == pid
                                    && after[a].state == ProcessState::Runnable;
                            assert(before[a].pid == pid);
                        }
                        if is_ready(before, pid) {
                            let a = choose|a: int|
                                0 <= a < before.len() && (#[trigger] before[a]).pid == pid && (
                                before[a].state == ProcessState::Runnable || before[a].state
                                    == ProcessState::Running);
                            assert(after[a].pid == pid);
                            if a != i {
                                assert(before[a].state != ProcessState::Running);
                            }
                        }
                    }
                }
            },
            None => {
                proof {
                    let after = self.table();
                    assert(previous == NEVER_PID);
                    assert forall|a: int| 0 <= a < after.len() implies (#[trigger] after[a]).state
                        != ProcessState::Running by {
                        assert(before[a].pid >= 1);
                    }
                    assert forall|pid: Pid| is_runnable(after, pid) <==> is_ready(before, pid) by {
                        if is_ready(before, pid) {
                            let a = choose|a: int|
                                0 <= a < before.len() && (#[trigger] before[a]).pid == pid && (
                                before[a].state == ProcessState::Runnable || before[a].state
                                    == ProcessState::Running);
                            assert(before[a].state != ProcessState::Running);
                        }
                    }
                }
            },
        }
        previous
    }

    /// Puts the current process back and picks the next one, round robin:
    /// installs its saved context on `cpu` and makes it the running and
    /// current process. Where no process is runnable, or none is left, the
    /// placeholder stays current and `cpu` as it is.
    pub fn prepare_next_process(&mut self, cpu: &mut Cpu) -> (outcome: ScheduleOutcome)
        requires
            old(self).wf(),
        ensures
            final(self).wf(),
            old(self).same_setup(final(self)),
            is_decision(
                requeued(old(self).table(), old(self).current_pid, *old(cpu)),
                old(self).current_pid,
                outcome,
            ),
            final(self).table() == scheduled_table(
                requeued(old(self).table(), old(self).current_pid, *old(cpu)),
                outcome,
            ),
            final(self).current_pid == scheduled_pid(outcome),
            *final(cpu) == match outcome {
                ScheduleOutcome::Run(pid) => installed(
                    *old(cpu),
                    process_of(
                        requeued(old(self).table(), old(self).current_pid, *old(cpu)),
                        pid,
                    ),
                ),
                _ => *old(cpu),
            },
            final(self).scratch_invariant(*final(cpu)),
            forall|pid: Pid|
                is_runnable(
                    requeued(old(self).table(), old(self).current_pid, *old(cpu)),
                    pid,
                ) <==> is_ready(old(self).table(), pid),
            forall|pid: Pid| is_ready(final(self).table(), pid)
                <==> is_ready(old(self).table(), pid),
    {
        let old_pid = self.queue_current_process_back(cpu);
        let ghost table = self.table();
        if self.process_table.is_empty() {
            return ScheduleOutcome::Shutdown;
        }
        let next = match self.process_table.next_runnable(old_pid) {
            Some(next) => next,
            None => {
                proof {
                    assert forall|pid: Pid| is_ready(table, pid) <==> is_runnable(table, pid) by {
                        if is_ready(table, pid) {
                            let a = choose|a: int|
                                0 <= a < table.len() && (#[trigger] table[a]).pid == pid && (
                                table[a].state == ProcessState::Runnable || table[a].state
                                    == ProcessState::Running);
                            assert(table[a].state != ProcessState::Running);
                        }
                    }
                }
                return ScheduleOutcome::Idle;
            },
        };
        assert(is_runnable(table, next));
        let i = match self.process_table.position(next) {
            Some(i) => i,
            None => {
                assert(false);
                return ScheduleOutcome::Idle;
            },
        };
        let process = &mut self.process_table.processes[i];
        cpu.trap_frame = process.register_state;
        cpu.sepc = process.program_counter;
        cpu.ret_to_kernel_mode = process.in_kernel_mode;
        cpu.active_page_table = AddressSpace::Process(process.pid);
        cpu.sscratch = if process.in_kernel_mode {
            TrapFrameOwner::Kernel
        } else {
            TrapFrameOwner::Process(process.pid)
        };
        process.state = ProcessState::Running;
        self.current_pid = next;
        proof {
            let after = self.table();
            assert(after =~= scheduled_table(table, ScheduleOutcome::Run(next)));
            lemma_position_unique(table, i as int);
            assert(after[i as int].pid == next);
            assert forall|a: int, b: int| 0 <= a < b < after.len() implies (#[trigger] after[a]).pid
                < (#[trigger] after[b]).pid by {
                assert(table[a].pid < table[b].pid);
            }
            assert(sorted_by_pid(after));
            lemma_position_unique(after, i as int);
            assert forall|a: int, q: Pid|
                0 <= a < after.len() && (#[trigger] after[a]).notify_on_die@.contains(
                    q,
                ) implies #[trigger] contains_pid(after, q) by {
                assert(table[a].notify_on_die@.contains(q));
                assert(contains_pid(table, q));
                let c = position_of(table, q);
                assert(after[c].pid == q);
            }
            assert forall|a: int| 0 <= a < after.len() implies (#[trigger] after[a]).wf() && 1
                <= after[a].pid < self.process_table.next_pid by {
                assert(table[a].wf());
            }
            assert forall|a: int|
                0 <= a < after.len() && (#[trigger] after[a]).state
                    == ProcessState::Running implies after[a].pid == next by {
                if a != i {
                    assert(table[a].state != ProcessState::Running);
                }
            }
            assert forall|pid: Pid| is_ready(after, pid) <==> is_runnable(table, pid) by {
                if is_ready(after, pid) {
                    let a = choose|a: int|
                        0 <= a < after.len() && (#[trigger] after[a]).pid == pid && (after[a].state
                            == ProcessState::Runnable || after[a].state == ProcessState::Running);
                    assert(table[a].pid == pid);
                    if a != i {
                        assert(table[a].state != ProcessState::Running);
                    }
                }
                if is_runnable(table, pid) {
                    let a = choose|a: int|
                        0 <= a < table.len() && (#[trigger] table[a]).pid == pid && table[a].state
                            == ProcessState::Runnable;
                    assert(after[a].pid == pid);
                }
            }
        }
        ScheduleOutcome::Run(next)
    }

    /// What `schedule` does: the current process is put back; behind it
    /// round robin decides over the processes that are then runnable, which
    /// are those that were runnable or running; the process it picks runs
    /// for a time slice, or the hart idles, or the system is to shut down.
    /// The processes that are runnable or running stay the same ones.
    pub open spec fn schedule_effect(
        before: Scheduler,
        after: Scheduler,
        cpu_before: Cpu,
        cpu_after: Cpu,
        outcome: ScheduleOutcome,
    ) -> bool {
        let queued = requeued(before.table(), before.current_pid, cpu_before);
        &&& before.same_setup(&after)
        &&& is_decision(queued, before.current_pid, outcome)
        &&& after.table() == scheduled_table(queued, outcome)
        &&& after.current_pid == scheduled_pid(outcome)
        &&& cpu_after == scheduled_cpu(cpu_before, queued, outcome)
        &&& runnable_pids(queued) == ready_pids(before.table())
        &&& ready_pids(after.table()) == ready_pids(before.table())
    }

    /// Gives the hart to the next runnable process, round robin behind the
    /// current one, and arms the timer for its time slice. Where no process
    /// is runnable the hart is sent to wait for an interrupt with the timer
    /// off; where no process is left the outcome asks for shutdown.
    pub fn schedule(&mut self, cpu: &mut Cpu) -> (outcome: ScheduleOutcome)
        requires
            old(self).wf(),
        ensures
            final(self).wf(),
            final(self).scratch_invariant(*final(cpu)),
            Self::schedule_effect(*old(self), *final(self), *old(cpu), *final(cpu), outcome),
    {
        let outcome = self.prepare_next_process(cpu);
        let ghost table = requeued(old(self).table(), old(self).current_pid, *old(cpu));
        proof {
            assert(runnable_pids(table) =~= ready_pids(old(self).table()));
            assert(ready_pids(self.table()) =~= ready_pids(old(self).table()));
        }
        match outcome {
            ScheduleOutcome::Run(pid) => {
                cpu.set_timer(TIME_SLICE_MS);
            },
            ScheduleOutcome::Idle => {
                cpu.activate_page_table(AddressSpace::Kernel);
                cpu.disable_timer();
                let address = cpu.idle_loop;
                cpu.write_sepc(address);
                cpu.set_ret_to_kernel_mode(true);
                cpu.write_sscratch_register(TrapFrameOwner::Kernel);
            },
            ScheduleOutcome::Shutdown => {},
        }
        outcome
    }

    /// Kills the current process: the placeholder becomes current, the kernel's
    /// address space active, and the process leaves the table as
    /// `ProcessTable::kill` says. Returns the dead process, if a process was
    /// current.
    pub fn kill_current_process(&mut self, cpu: &mut Cpu, allocator: &mut PageAllocator) -> (zombie:
        Option<Process>)
        requires
            old(self).wf(),
            old(allocator).wf(),
        ensures
            final(self).wf(),
            final(allocator).wf(),
            final(allocator).base() == old(allocator).base(),
            final(allocator)@.len() == old(allocator)@.len(),
            old(self).same_setup(final(self)),
            final(self).current_pid == NEVER_PID,
            is_killed(old(self).table(), final(self).table(), old(self).current_pid),
            *final(cpu) == (Cpu { active_page_table: AddressSpace::Kernel, ..*old(cpu) }),
            zombie is Some <==> old(self).current_pid != NEVER_PID,
            zombie is None ==> final(allocator)@ == old(allocator)@,
            zombie matches Some(dead) ==> {
                &&& dead == (Process {
                    state: ProcessState::Zombie,
                    ..process_of(old(self).table(), old(self).current_pid)
                })
                &&& final(allocator)@ == after_release(
                    old(allocator)@,
                    old(allocator).base(),
                    dead.allocated_pages@,
                )
            },
            final(self).scratch_invariant(*final(cpu)),
    {
        let pid = self.swap_current_with_dummy();
        cpu.activate_page_table(AddressSpace::Kernel);
        let zombie = self.process_table.kill(pid, allocator);
        proof {
            lemma_killed_none_running(old(self).table(), self.table(), pid);
            if pid == NEVER_PID {
                assert forall|i: int| 0 <= i < old(self).table().len() implies (
                #[trigger] old(self).table()[i]).pid != pid by {}
            }
        }
        zombie
    }

    /// Lets the current process wait for the death of the process `pid`: the
    /// current process goes to the state `Waiting` with 0 as the pending
    /// result of its system call, and `pid` gets it among those to wake. No
    /// such process: nothing changes and the result is `false`.
    pub fn let_current_process_wait_for(&mut self, pid: Pid) -> (waiting: bool)
        requires
            old(self).wf(),
            old(self).current_pid != NEVER_PID,
        ensures
            final(self).wf(),
            waiting == contains_pid(old(self).table(), pid),
            !waiting ==> *final(self) == *old(self),
            waiting ==> {
                &&& old(self).same_setup(final(self))
                &&& final(self).current_pid == old(self).current_pid
                &&& is_waiting_for(
                    old(self).table(),
                    final(self).table(),
                    old(self).current_pid,
                    pid,
                )
            },
    {
        let target = match self.process_table.position(pid) {
            Some(target) => target,
            None => {
                return false;
            },
        };
        let current_pid = self.current_pid;
        let current = match self.process_table.position(current_pid) {
            Some(current) => current,
            None => {
                assert(false);
                return false;
            },
        };
        let ghost before = self.table();
        assert(before[current as int].wf() && before[target as int].wf());
        {
            let process = &mut self.process_table.processes[current];
            process.set_state(ProcessState::Waiting);
            process.set_syscall_return_code(0);
        }
        let ghost middle = self.table();
        assert(middle[target as int].wf());
        {
            let process = &mut self.process_table.processes[target];
            process.add_notify_on_die(current_pid);
        }
        proof {
            let after = self.table();
            assert forall|i: int| 0 <= i < before.len() implies waits(
                before[i],
                #[trigger] after[i],
                current_pid,
                pid,
            ) by {
                lemma_position_unique(before, i);
                if i != target {
                    assert(after[i] == middle[i]);
                }
                if i != current {
                    assert(middle[i] == before[i]);
                }
            }
            lemma_waiting_keeps_wf(*old(self), *self, pid);
        }
        true
    }

    /// The first program named `name` can be started: there is one, the pids
    /// are not used up, its regions can be mapped, and the allocator has the
    /// pages for them in one run.
    pub open spec fn can_start(self, allocator: PageAllocator, name: Seq<char>) -> bool {
        exists|i: int|
            {
                let regions = image_regions(self.programs@[i].elf, self.kernel_mappings@);
                &&& #[trigger] is_program_at(self.programs@, i, name)
                &&& self.process_table.next_pid < u64::MAX
                &&& loadable(regions)
                &&& has_fit(allocator@, total_pages(regions))
            }
    }

    /// What `start_program` does: where the first program named `name` can
    /// be started, a process made of it stands at the end of the table under
    /// the next pid, which is the answer, and the next pid is one higher;
    /// else the answer is `None` and nothing changes.
    pub open spec fn start_effect(
        before: Scheduler,
        after: Scheduler,
        allocator_before: PageAllocator,
        allocator_after: PageAllocator,
        name: Seq<char>,
        started: Option<Pid>,
    ) -> bool {
        &&& allocator_after.base() == allocator_before.base()
        &&& allocator_after@.len() == allocator_before@.len()
        &&& after.programs == before.programs
        &&& after.kernel_mappings == before.kernel_mappings
        &&& after.current_pid == before.current_pid
        &&& after.process_table.dummy == before.process_table.dummy
        &&& started is Some <==> before.can_start(allocator_before, name)
        &&& started is None ==> after == before && allocator_after@ == allocator_before@
        &&& started matches Some(pid) ==> {
            &&& pid == before.process_table.next_pid
            &&& after.process_table.next_pid == pid + 1
            &&& after.table().len() == before.table().len() + 1
            &&& after.table().drop_last() == before.table()
            &&& forall|i: int|
                is_program_at(before.programs@, i, name) ==> is_created(
                    after.table().last(),
                    #[trigger] before.programs@[i].elf,
                    name,
                    pid,
                    before.kernel_mappings@,
                    allocator_before,
                    allocator_after,
                )
        }
    }

    /// Starts the program `name`: makes a process for the first program of
    /// that name and puts it into the table, under the next pid. `None`, with
    /// nothing changed, where no program has the name, where the program
    /// cannot be loaded, or once the pids are used up.
    pub fn start_program(&mut self, name: &str, allocator: &mut PageAllocator) -> (started: Option<
        Pid,
    >)
        requires
            old(self).wf(),
            old(allocator).wf(),
        ensures
            final(self).wf(),
            final(allocator).wf(),
            Self::start_effect(
                *old(self),
                *final(self),
                *old(allocator),
                *final(allocator),
                name@,
                started,
            ),
    {
        let mut i: usize = 0;
        let wanted: String = name.to_owned();
        while i < self.programs.len()
            invariant
                *self == *old(self),
                i <= self.programs@.len(),
                wanted@ == name@,
                forall|k: int| 0 <= k < i ==> (#[trigger] self.programs@[k]).name@ != name@,
            ensures
                i < self.programs@.len() ==> self.programs@[i as int].name@ == name@,
            decreases self.programs@.len() - i,
        {
            if self.programs[i].name == wanted {
                break ;
            }
            i = i + 1;
        }
        if i >= self.programs.len() {
            return None;
        }
        assert(is_program_at(self.programs@, i as int, name@));
        assert forall|j: int| is_program_at(self.programs@, j, name@) implies j == i by {
            if j < i {
                assert(self.programs@[j].name@ != name@);
            }
        }
        let pid = self.process_table.next_free_pid();
        if pid == u64::MAX {
            return None;
        }
        let process = match Process::from_elf(
            &self.programs[i].elf,
            name,
            pid,
            &self.kernel_mappings,
            allocator,
        ) {
            Some(process) => process,
            None => {
                return None;
            },
        };
        let ghost before = self.table();
        self.process_table.add_process(process);
        proof {
            let after = self.table();
            assert(after.drop_last() =~= before);
            assert forall|a: int|
                0 <= a < after.len() && (#[trigger] after[a]).state
                    == ProcessState::Running implies after[a].pid == self.current_pid by {
                if a < before.len() {
                    assert(before[a].state == ProcessState::Running);
                }
            }
            if self.current_pid != NEVER_PID {
                let c = position_of(before, self.current_pid);
                assert(after[c].pid == self.current_pid);
            }
        }
        Some(pid)
    }

    /// What `send_ctrl_c` does: the current process is put back, the process
    /// with the highest pid whose name is not that of the shell is killed, if
    /// there is one, and the scheduler decides anew, as behind no process.
    pub open spec fn ctrl_c_effect(
        before: Scheduler,
        after: Scheduler,
        cpu_before: Cpu,
        cpu_after: Cpu,
        allocator_before: PageAllocator,
        allocator_after: PageAllocator,
        zombie: Option<Process>,
        outcome: ScheduleOutcome,
    ) -> bool {
        let queued = requeued(before.table(), before.current_pid, cpu_before);
        &&& before.same_setup(&after)
        &&& after.current_pid == scheduled_pid(outcome)
        &&& allocator_after.base() == allocator_before.base()
        &&& match zombie {
            Some(dead) => {
                &&& contains_pid(queued, dead.pid)
                &&& dead == (Process {
                    state: ProcessState::Zombie,
                    ..process_of(queued, dead.pid)
                })
                &&& dead.name@ != SHELL_NAME@
                &&& forall|i: int|
                    0 <= i < queued.len() && (#[trigger] queued[i]).name@ != SHELL_NAME@
                        ==> queued[i].pid <= dead.pid
                &&& allocator_after@ == after_release(
                    allocator_before@,
                    allocator_before.base(),
                    dead.allocated_pages@,
                )
            },
            None => {
                &&& forall|i: int|
                    0 <= i < queued.len() ==> (#[trigger] queued[i]).name@ == SHELL_NAME@
                &&& allocator_after@ == allocator_before@
            },
        }
        &&& exists|left: Seq<Process>|
            {
                &&& #[trigger] is_killed(queued, left, zombie_pid(zombie))
                &&& is_decision(left, NEVER_PID, outcome)
                &&& after.table() == scheduled_table(left, outcome)
                &&& cpu_after == scheduled_cpu(
                    if zombie is Some {
                        Cpu { active_page_table: AddressSpace::Kernel, ..cpu_before }
                    } else {
                        cpu_before
                    },
                    left,
                    outcome,
                )
            }
    }

    /// Handles ctrl-C: takes the hart from the current process, kills the
    /// process with the highest pid whose name is not that of the shell, and
    /// schedules anew. Returns the killed process, as a zombie, and the
    /// scheduling decision.
    pub fn send_ctrl_c(&mut self, cpu: &mut Cpu, allocator: &mut PageAllocator) -> (result: (
        Option<Process>,
        ScheduleOutcome,
    ))
        requires
            old(self).wf(),
            old(allocator).wf(),
        ensures
            final(self).wf(),
            final(allocator).wf(),
            final(allocator)@.len() == old(allocator)@.len(),
            final(self).scratch_invariant(*final(cpu)),
            Self::ctrl_c_effect(
                *old(self),
                *final(self),
                *old(cpu),
                *final(cpu),
                *old(allocator),
                *final(allocator),
                result.0,
                result.1,
            ),
    {
        self.queue_current_process_back(cpu);
        let ghost queued = self.table();
        let highest_pid = self.process_table.get_highest_pid_without(SHELL_NAME);
        let zombie = match highest_pid {
            Some(pid) => {
                cpu.activate_page_table(AddressSpace::Kernel);
                let zombie = self.process_table.kill(pid, allocator);
                proof {
                    lemma_killed_none_running(queued, self.table(), pid);
                }
                zombie
            },
            None => {
                proof {
                    assert forall|i: int| 0 <= i < queued.len() implies (#[trigger] queued[i]).pid
                        != NEVER_PID by {}
                    assert(!contains_pid(queued, NEVER_PID));
                }
                None
            },
        };
        let ghost left = self.table();
        let ghost cpu_before = *cpu;
        let outcome = self.schedule(cpu);
        proof {
            assert(!contains_pid(left, NEVER_PID)) by {
                assert forall|i: int| 0 <= i < left.len() implies (#[trigger] left[i]).pid
                    != NEVER_PID by {}
            }
            assert(requeued(left, NEVER_PID, cpu_before) == left);
            assert(is_killed(queued, left, zombie_pid(zombie)));
        }
        (zombie, outcome)
    }
}

/// The name of the interactive shell, which ctrl-C spares.
pub const SHELL_NAME: &'static str = "yash";

/// Where no process was running before a kill, none is running after it.
pub proof fn lemma_killed_none_running(before: Seq<Process>, after: Seq<Process>, pid: Pid)
    requires
        is_killed(before, after, pid),
        forall|i: int|
            0 <= i < before.len() ==> (#[trigger] before[i]).state != ProcessState::Running
                || before[i].pid == pid,
        sorted_by_pid(before),
    ensures
        forall|i: int| 0 <= i < after.len() ==> (#[trigger] after[i]).state
            != ProcessState::Running,
{
    if contains_pid(before, pid) {
        let k = position_of(before, pid);
        assert forall|i: int| 0 <= i < after.len() implies (#[trigger] after[i]).state
            != ProcessState::Running by {
            let j = if i < k { i } else { i + 1 };
            assert(super::process_table::survives(before[j], after[i], before[k]));
            lemma_position_unique(before, j);
            assert(before[j].pid != pid);
            assert(before[j].state != ProcessState::Running);
        }
    }
}

/// Once the process `current` waits for the death of the live process
/// `target`, it is in the state `Waiting` and `target` has it among the
/// processes to wake; when `target` is killed after that, `current` is
/// runnable again, with 0 as the result of its system call.
pub proof fn lemma_wait_then_exit_wakes(
    before: Seq<Process>,
    waiting: Seq<Process>,
    after: Seq<Process>,
    current: Pid,
    target: Pid,
)
    requires
        sorted_by_pid(before),
        contains_pid(before, current),
        contains_pid(before, target),
        current != target,
        is_waiting_for(before, waiting, current, target),
        is_killed(waiting, after, target),
    ensures
        process_of(waiting, current).state == ProcessState::Waiting,
        process_of(waiting, target).notify_on_die@.contains(current),
        contains_pid(after, current),
        process_of(after, current).state == ProcessState::Runnable,
        process_of(after, current).register_state.spec_get(Register::a0) == 0,
{
    let c = position_of(before, current);
    let t = position_of(before, target);
    assert forall|i: int, j: int| 0 <= i < j < waiting.len() implies (#[trigger] waiting[i]).pid < (
    #[trigger] waiting[j]).pid by {
        assert(waits(before[i], waiting[i], current, target));
        assert(waits(before[j], waiting[j], current, target));
        assert(before[i].pid < before[j].pid);
    }
    assert(waits(before[c], waiting[c], current, target));
    assert(waits(before[t], waiting[t], current, target));
    lemma_position_unique(waiting, c);
    lemma_position_unique(waiting, t);
    super::process_table::lemma_kill_wakes_waiter(waiting, after, current, target);
}

/// `after` is `before` with no process touched but the process `pid`, which
/// keeps its pid.
pub open spec fn only_changes(before: Seq<Process>, after: Seq<Process>, pid: Pid) -> bool {
    &&& after.len() == before.len()
    &&& forall|i: int|
        0 <= i < before.len() ==> (#[trigger] after[i]).pid == before[i].pid && (before[i].pid
            != pid ==> after[i] == before[i])
}

/// A scheduler stays well formed when one of its processes is replaced by a
/// well-formed one with the same pid that is to wake no further process and
/// was not made the running one.
pub proof fn lemma_update_keeps_wf(before: Scheduler, after: Scheduler, i: int)
    requires
        before.wf(),
        0 <= i < before.table().len(),
        before.same_setup(&after),
        after.current_pid == before.current_pid,
        after.table().len() == before.table().len(),
        forall|j: int|
            0 <= j < before.table().len() && j != i ==> #[trigger] after.table()[j]
                == before.table()[j],
        after.table()[i].pid == before.table()[i].pid,
        after.table()[i].wf(),
        forall|q: Pid|
            after.table()[i].notify_on_die@.contains(q)
                ==> before.table()[i].notify_on_die@.contains(
                q,
            ),
        after.table()[i].state == ProcessState::Running ==> before.table()[i].state
            == ProcessState::Running,
    ensures
        after.wf(),
        only_changes(before.table(), after.table(), before.table()[i].pid),
        contains_pid(after.table(), before.table()[i].pid),
        position_of(after.table(), before.table()[i].pid) == i,
        position_of(before.table(), before.table()[i].pid) == i,
{
    let b = before.table();
    let a = after.table();
    assert forall|j: int| 0 <= j < a.len() implies (#[trigger] a[j]).pid == b[j].pid by {}
    assert forall|x: int, y: int| 0 <= x < y < a.len() implies (#[trigger] a[x]).pid < (
    #[trigger] a[y]).pid by {
        assert(b[x].pid < b[y].pid);
    }
    assert forall|j: int| 0 <= j < a.len() implies (#[trigger] a[j]).wf() && 1 <= a[j].pid
        < after.process_table.next_pid by {
        assert(b[j].wf());
    }
    assert forall|j: int, q: Pid|
        0 <= j < a.len() && (#[trigger] a[j]).notify_on_die@.contains(q)
            implies #[trigger] contains_pid(
        a,
        q,
    ) by {
        assert(b[j].notify_on_die@.contains(q));
        assert(contains_pid(b, q));
        let c = position_of(b, q);
        assert(a[c].pid == q);
    }
    assert forall|j: int|
        0 <= j < a.len() && (#[trigger] a[j]).state == ProcessState::Running implies a[j].pid
        == after.current_pid by {
        assert(b[j].state == ProcessState::Running);
    }
    if after.current_pid != NEVER_PID {
        let c = position_of(b, after.current_pid);
        assert(a[c].pid == after.current_pid);
    }
    lemma_position_unique(b, i);
    lemma_position_unique(a, i);
    assert forall|j: int| 0 <= j < b.len() implies (#[trigger] a[j]).pid == b[j].pid && (b[j].pid
        != b[i].pid ==> a[j] == b[j]) by {
        if j != i {
        } else {
        }
    }
}

/// The pids that a row of scheduling decisions picked.
pub open spec fn picked(outcomes: Seq<ScheduleOutcome>) -> Seq<Pid> {
    Seq::new(outcomes.len(), |k: int| scheduled_pid(outcomes[k]))
}

/// Over consecutive calls of `schedule` the processes that are runnable or
/// running stay the same ones.
pub proof fn lemma_schedule_keeps_ready(
    schedulers: Seq<Scheduler>,
    cpus: Seq<Cpu>,
    outcomes: Seq<ScheduleOutcome>,
    k: int,
)
    requires
        schedulers.len() == outcomes.len() + 1,
        cpus.len() == outcomes.len() + 1,
        forall|j: int|
            0 <= j < outcomes.len() ==> Scheduler::schedule_effect(
                schedulers[j],
                schedulers[j + 1],
                cpus[j],
                cpus[j + 1],
                #[trigger] outcomes[j],
            ),
        0 <= k <= outcomes.len(),
    ensures
        ready_pids(schedulers[k].table()) == ready_pids(schedulers[0].table()),
    decreases k,
{
    if k > 0 {
        lemma_schedule_keeps_ready(schedulers, cpus, outcomes, k - 1);
        assert(Scheduler::schedule_effect(
            schedulers[k - 1],
            schedulers[k],
            cpus[k - 1],
            cpus[k],
            outcomes[k - 1],
        ));
    }
}

/// Round robin is fair over consecutive calls of `schedule`. Where the
/// processes that are runnable or running are `order`, at least one, and
/// nothing but `schedule` changes the scheduler, as many calls as there are
/// such processes each run a process, every one of these processes is run by
/// one of the calls, and none by two.
pub proof fn lemma_schedule_is_fair(
    schedulers: Seq<Scheduler>,
    cpus: Seq<Cpu>,
    outcomes: Seq<ScheduleOutcome>,
    order: Seq<Pid>,
)
    requires
        order.len() >= 1,
        outcomes.len() == order.len(),
        schedulers.len() == outcomes.len() + 1,
        cpus.len() == outcomes.len() + 1,
        lists(order, ready_pids(schedulers[0].table())),
        forall|j: int|
            0 <= j < outcomes.len() ==> Scheduler::schedule_effect(
                schedulers[j],
                schedulers[j + 1],
                cpus[j],
                cpus[j + 1],
                #[trigger] outcomes[j],
            ),
    ensures
        forall|k: int|
            0 <= k < outcomes.len() ==> #[trigger] outcomes[k] == ScheduleOutcome::Run(
                schedulers[k + 1].current_pid,
            ),
        forall|i: int| 0 <= i < order.len() ==> picked(outcomes).contains(#[trigger] order[i]),
        forall|a: int, b: int|
            0 <= a < b < outcomes.len() ==> picked(outcomes)[a] != picked(outcomes)[b],
{
    let candidates = ready_pids(schedulers[0].table());
    let picks = picked(outcomes);
    assert(candidates.contains(order[0]));
    assert forall|k: int| 0 <= k < outcomes.len() implies #[trigger] outcomes[k]
        == ScheduleOutcome::Run(schedulers[k + 1].current_pid) && is_round_robin_successor(
        candidates,
        schedulers[k].current_pid,
        picks[k],
    ) by {
        lemma_schedule_keeps_ready(schedulers, cpus, outcomes, k);
        assert(Scheduler::schedule_effect(
            schedulers[k],
            schedulers[k + 1],
            cpus[k],
            cpus[k + 1],
            outcomes[k],
        ));
        let queued = requeued(schedulers[k].table(), schedulers[k].current_pid, cpus[k]);
        assert(runnable_pids(queued) == candidates);
        assert(runnable_pids(queued).contains(order[0]));
        assert(is_runnable(queued, order[0]));
    }
    assert forall|j: int| 1 <= j < picks.len() implies is_round_robin_successor(
        candidates,
        picks[j - 1],
        #[trigger] picks[j],
    ) by {
        assert(outcomes[j - 1] == ScheduleOutcome::Run(schedulers[j].current_pid));
        assert(outcomes[j] == ScheduleOutcome::Run(schedulers[j + 1].current_pid));
    }
    assert(outcomes[0] == ScheduleOutcome::Run(schedulers[1].current_pid));
    super::process_table::lemma_round_robin_fair(
        order,
        candidates,
        schedulers[0].current_pid,
        picks,
    );
}

/// What a step in the life of a scheduler does to the pids: a start hands
/// out the next pid and moves it on by one; any other step hands out none
/// and leaves the next pid as it is.
pub open spec fn hands_out(before: Scheduler, after: Scheduler, started: Option<Pid>) -> bool {
    match started {
        Some(pid) => pid == before.process_table.next_pid && after.process_table.next_pid == pid
            + 1,
        None => after.process_table.next_pid == before.process_table.next_pid,
    }
}

/// `start_program` is such a step, with its answer; every step that keeps
/// the set-up of the scheduler, as `schedule`, the kills and the waits do, is
/// one that hands out no pid.
pub proof fn lemma_steps_hand_out(
    before: Scheduler,
    after: Scheduler,
    allocator_before: PageAllocator,
    allocator_after: PageAllocator,
    name: Seq<char>,
    started: Option<Pid>,
)
    ensures
        Scheduler::start_effect(before, after, allocator_before, allocator_after, name, started)
            ==> hands_out(before, after, started),
        before.same_setup(&after) ==> hands_out(before, after, None),
{
}

/// The next pid never falls, and lies above every pid handed out before.
pub proof fn lemma_next_pid_grows(
    history: Seq<Scheduler>,
    started: Seq<Option<Pid>>,
    a: int,
    b: int,
)
    requires
        history.len() == started.len() + 1,
        forall|k: int|
            0 <= k < started.len() ==> hands_out(history[k], history[k + 1], #[trigger] started[k]),
        0 <= a <= b <= started.len(),
    ensures
        history[a].process_table.next_pid <= history[b].process_table.next_pid,
        a < b && started[a] is Some ==> started[a]->0 < history[b].process_table.next_pid,
    decreases b - a,
{
    if a < b {
        assert(hands_out(history[b - 1], history[b], started[b - 1]));
        lemma_next_pid_grows(history, started, a, b - 1);
        if a == b - 1 {
            assert(hands_out(history[a], history[a + 1], started[a]));
        }
    }
}

/// No pid is handed out twice. Over any steps in the life of a scheduler,
/// kills among them, the pids that the starts hand out ascend: a later one
/// is above every earlier one, none is the reserved pid, and each is above
/// the pid of every process that is in the table when it is handed out.
pub proof fn lemma_pids_ascend(
    history: Seq<Scheduler>,
    started: Seq<Option<Pid>>,
    i: int,
    j: int,
)
    requires
        history.len() == started.len() + 1,
        forall|k: int| 0 <= k < history.len() ==> (#[trigger] history[k]).wf(),
        forall|k: int|
            0 <= k < started.len() ==> hands_out(history[k], history[k + 1], #[trigger] started[k]),
        0 <= i < j < started.len(),
        started[i] is Some,
        started[j] is Some,
    ensures
        NEVER_PID < started[i]->0 < started[j]->0,
        forall|k: int|
            0 <= k < history[j].table().len() ==> (#[trigger] history[j].table()[k]).pid
                < started[j]->0,
{
    lemma_next_pid_grows(history, started, i, j);
    assert(hands_out(history[i], history[i + 1], started[i]));
    assert(hands_out(history[j], history[j + 1], started[j]));
    assert(history[i].wf());
    assert(history[j].wf());
}

/// The first program started behind init gets the pid 2. In a scheduler
/// whose only process is init, under the pid 1, a program that can be
/// started is started: the answer is 2, the process with that pid is
/// runnable and carries the name of the program, and init is as it was.
pub proof fn lemma_start_behind_init(
    before: Scheduler,
    after: Scheduler,
    allocator_before: PageAllocator,
    allocator_after: PageAllocator,
    name: Seq<char>,
    started: Option<Pid>,
)
    requires
        before.table().len() == 1,
        before.table()[0].pid == 1,
        before.process_table.next_pid == 2,
        before.can_start(allocator_before, name),
        Scheduler::start_effect(before, after, allocator_before, allocator_after, name, started),
    ensures
        started == Some(2u64),
        after.table().len() == 2,
        after.table()[0] == before.table()[0],
        contains_pid(after.table(), 2),
        process_of(after.table(), 2).pid == 2,
        process_of(after.table(), 2).name@ == name,
        process_of(after.table(), 2).state == ProcessState::Runnable,
{
    let table = after.table();
    assert(table.drop_last()[0] == table[0]);
    let i = choose|i: int| #[trigger] is_program_at(before.programs@, i, name);
    assert(is_created(
        table.last(),
        before.programs@[i].elf,
        name,
        2,
        before.kernel_mappings@,
        allocator_before,
        allocator_after,
    ));
    assert(table[1].pid == 2);
    let place = position_of(table, 2);
    assert(table[place].pid == 2);
    assert(place == 1);
}

/// A scheduler stays well formed when its current process begins to wait for
/// a live process.
pub proof fn lemma_waiting_keeps_wf(before: Scheduler, after: Scheduler, target: Pid)
    requires
        before.wf(),
        before.current_pid != NEVER_PID,
        contains_pid(before.table(), target),
        before.same_setup(&after),
        after.current_pid == before.current_pid,
        is_waiting_for(before.table(), after.table(), before.current_pid, target),
        forall|i: int| 0 <= i < after.table().len() ==> (#[trigger] after.table()[i]).wf(),
    ensures
        after.wf(),
{
    let b = before.table();
    let a = after.table();
    assert forall|i: int| 0 <= i < a.len() implies (#[trigger] a[i]).pid == b[i].pid by {
        assert(waits(b[i], a[i], before.current_pid, target));
    }
    assert forall|i: int, j: int| 0 <= i < j < a.len() implies (#[trigger] a[i]).pid < (
    #[trigger] a[j]).pid by {
        assert(b[i].pid < b[j].pid);
    }
    assert forall|i: int| 0 <= i < a.len() implies (#[trigger] a[i]).wf() && 1 <= a[i].pid
        < after.process_table.next_pid by {
        assert(b[i].wf());
    }
    assert forall|q: Pid| contains_pid(b, q) implies contains_pid(a, q) by {
        let c = position_of(b, q);
        assert(a[c].pid == q);
    }
    assert forall|i: int, q: Pid|
        0 <= i < a.len() && (#[trigger] a[i]).notify_on_die@.contains(q)
            implies #[trigger] contains_pid(
        a,
        q,
    ) by {
        assert(waits(b[i], a[i], before.current_pid, target));
        if b[i].notify_on_die@.contains(q) {
            assert(contains_pid(b, q));
        } else {
            assert(q == before.current_pid);
            assert(contains_pid(b, q));
        }
    }
    assert forall|i: int|
        0 <= i < a.len() && (#[trigger] a[i]).state == ProcessState::Running implies a[i].pid
        == after.current_pid by {
        assert(waits(b[i], a[i], before.current_pid, target));
        assert(b[i].state == ProcessState::Running);
    }
}

/// Makes the scheduler of a hart: `Scheduler::new`.
pub fn init(
    first: &ElfFile,
    programs: Vec<Program>,
    kernel_mappings: Vec<MappingDescription>,
    allocator: &mut PageAllocator,
) -> (scheduler: Scheduler)
    requires
        old(allocator).wf(),
    ensures
        scheduler.wf(),
        final(allocator).wf(),
        final(allocator).base() == old(allocator).base(),
        final(allocator)@.len() == old(allocator)@.len(),
        scheduler.programs == programs,
        scheduler.kernel_mappings == kernel_mappings,
        scheduler.current_pid == NEVER_PID,
        if loadable(image_regions(*first, kernel_mappings@)) && has_fit(
            old(allocator)@,
            total_pages(image_regions(*first, kernel_mappings@)),
        ) {
            &&& scheduler.table().len() == 1
            &&& is_created(
                scheduler.table()[0],
                *first,
                "init"@,
                1,
                kernel_mappings@,
                *old(allocator),
                *final(allocator),
            )
            &&& scheduler.process_table.next_pid == 2
        } else {
            &&& scheduler.table().len() == 0
            &&& scheduler.process_table.next_pid == 1
            &&& final(allocator)@ == old(allocator)@
        },
{
    Scheduler::new(first, programs, kernel_mappings, allocator)
}

/// Gives the hart to the next process: `Scheduler::schedule`.
pub fn schedule(scheduler: &mut Scheduler, cpu: &mut Cpu) -> (outcome: ScheduleOutcome)
    requires
        old(scheduler).wf(),
    ensures
        final(scheduler).wf(),
        old(scheduler).same_setup(final(scheduler)),
        is_decision(
            requeued(old(scheduler).table(), old(scheduler).current_pid, *old(cpu)),
            old(scheduler).current_pid,
            outcome,
        ),
        final(scheduler).table() == scheduled_table(
            requeued(old(scheduler).table(), old(scheduler).current_pid, *old(cpu)),
            outcome,
        ),
        final(scheduler).current_pid == scheduled_pid(outcome),
        *final(cpu) == scheduled_cpu(
            *old(cpu),
            requeued(old(scheduler).table(), old(scheduler).current_pid, *old(cpu)),
            outcome,
        ),
        final(scheduler).scratch_invariant(*final(cpu)),
{
    scheduler.schedule(cpu)
}

/// Puts a process for the program `init` into the table of `scheduler`, under
/// the name "init" and the next pid. `None`, with nothing changed, where the
/// program cannot be loaded or the pids are used up.
pub fn initialize(
    scheduler: &mut Scheduler,
    init: &ElfFile,
    allocator: &mut PageAllocator,
) -> (started:
    Option<Pid>)
    requires
        old(scheduler).wf(),
        old(allocator).wf(),
    ensures
        final(scheduler).wf(),
        final(allocator).wf(),
        final(allocator).base() == old(allocator).base(),
        final(allocator)@.len() == old(allocator)@.len(),
        final(scheduler).programs == old(scheduler).programs,
        final(scheduler).kernel_mappings == old(scheduler).kernel_mappings,
        final(scheduler).current_pid == old(scheduler).current_pid,
        final(scheduler).process_table.dummy == old(scheduler).process_table.dummy,
        started is Some <==> old(scheduler).process_table.next_pid < u64::MAX && loadable(
            image_regions(*init, old(scheduler).kernel_mappings@),
        ) && has_fit(
            old(allocator)@,
            total_pages(image_regions(*init, old(scheduler).kernel_mappings@)),
        ),
        started is None ==> *final(scheduler) == *old(scheduler) && final(allocator)@
            == old(allocator)@,
        started matches Some(pid) ==> {
            &&& pid == old(scheduler).process_table.next_pid
            &&& final(scheduler).process_table.next_pid == pid + 1
            &&& final(scheduler).table().len() == old(scheduler).table().len() + 1
            &&& final(scheduler).table().drop_last() == old(scheduler).table()
            &&& is_created(
                final(scheduler).table().last(),
                *init,
                "init"@,
                pid,
                old(scheduler).kernel_mappings@,
                *old(allocator),
                *final(allocator),
            )
        },
{
    let pid = scheduler.process_table.next_free_pid();
    if pid == u64::MAX {
        return None;
    }
    let process = match Process::from_elf(
        init,
        "init",
        pid,
        &scheduler.kernel_mappings,
        allocator,
    ) {
        Some(process) => process,
        None => {
            return None;
        },
    };
    let ghost before = scheduler.table();
    scheduler.process_table.add_process(process);
    proof {
        let after = scheduler.table();
        assert(after.drop_last() =~= before);
        assert forall|a: int|
            0 <= a < after.len() && (#[trigger] after[a]).state
                == ProcessState::Running implies after[a].pid == scheduler.current_pid by {
            if a < before.len() {
                assert(before[a].state == ProcessState::Running);
            }
        }
        if scheduler.current_pid != NEVER_PID {
            let c = position_of(before, scheduler.current_pid);
            assert(after[c].pid == scheduler.current_pid);
        }
    }
    Some(pid)
}

/// Starts the program `name`: `Scheduler::start_program`.
pub fn schedule_program(
    scheduler: &mut Scheduler,
    name: &str,
    allocator: &mut PageAllocator,
) -> (started:
    Option<Pid>)
    requires
        old(scheduler).wf(),
        old(allocator).wf(),
    ensures
        final(scheduler).wf(),
        final(allocator).wf(),
        final(allocator).base() == old(allocator).base(),
        final(allocator)@.len() == old(allocator)@.len(),
        final(scheduler).programs == old(scheduler).programs,
        final(scheduler).current_pid == old(scheduler).current_pid,
        started is None ==> *final(scheduler) == *old(scheduler) && final(allocator)@
            == old(allocator)@,
        no_program(old(scheduler).programs@, name@) ==> started is None,
        old(scheduler).process_table.next_pid == u64::MAX ==> started is None,
        forall|i: int|
            is_program_at(old(scheduler).programs@, i, name@)
                && old(scheduler).process_table.next_pid < u64::MAX
                    ==> (started is Some <==> loadable(
                image_regions(old(scheduler).programs@[i].elf, old(scheduler).kernel_mappings@),
            ) && has_fit(
                old(allocator)@,
                total_pages(
                    image_regions(
                        old(scheduler).programs@[i].elf,
                        old(scheduler).kernel_mappings@,
                    ),
                ),
            )),
        started matches Some(pid) ==> {
            &&& pid == old(scheduler).process_table.next_pid
            &&& final(scheduler).process_table.next_pid == pid + 1
            &&& final(scheduler).table().len() == old(scheduler).table().len() + 1
            &&& final(scheduler).table().drop_last() == old(scheduler).table()
            &&& forall|i: int|
                is_program_at(old(scheduler).programs@, i, name@) ==> is_created(
                    final(scheduler).table().last(),
                    #[trigger] old(scheduler).programs@[i].elf,
                    name@,
                    pid,
                    old(scheduler).kernel_mappings@,
                    *old(allocator),
                    *final(allocator),
                )
        },
{
    scheduler.start_program(name, allocator)
}

/// `after` is `before` with the current process killed: the placeholder is
/// current, the kernel's address space active, the process out of the table
/// and its pages back with the allocator.
pub open spec fn is_current_killed(
    before: Scheduler,
    after: Scheduler,
    cpu_before: Cpu,
    cpu_after: Cpu,
    allocator_before: PageAllocator,
    allocator_after: PageAllocator,
) -> bool {
    &&& before.same_setup(&after)
    &&& after.current_pid == NEVER_PID
    &&& is_killed(before.table(), after.table(), before.current_pid)
    &&& cpu_after == (Cpu { active_page_table: AddressSpace::Kernel, ..cpu_before })
    &&& allocator_after.base() == allocator_before.base()
    &&& allocator_after@ == if before.current_pid == NEVER_PID {
        allocator_before@
    } else {
        after_release(
            allocator_before@,
            allocator_before.base(),
            process_of(before.table(), before.current_pid).allocated_pages@,
        )
    }
}

/// Kills the current process, as `Scheduler::kill_current_process` says, and
/// gives the hart to the next one.
pub fn kill_current_process(
    scheduler: &mut Scheduler,
    cpu: &mut Cpu,
    allocator: &mut PageAllocator,
) -> (outcome: ScheduleOutcome)
    requires
        old(scheduler).wf(),
        old(allocator).wf(),
    ensures
        final(scheduler).wf(),
        final(allocator).wf(),
        final(scheduler).scratch_invariant(*final(cpu)),
        final(scheduler).current_pid == scheduled_pid(outcome),
        exists|killed: Scheduler, cpu_killed: Cpu|
            {
                &&& #[trigger] is_current_killed(
                    *old(scheduler),
                    killed,
                    *old(cpu),
                    cpu_killed,
                    *old(allocator),
                    *final(allocator),
                )
                &&& killed.same_setup(final(scheduler))
                &&& is_decision(killed.table(), NEVER_PID, outcome)
                &&& final(scheduler).table() == scheduled_table(killed.table(), outcome)
                &&& *final(cpu) == scheduled_cpu(cpu_killed, killed.table(), outcome)
            },
{
    scheduler.kill_current_process(cpu, allocator);
    let ghost killed = *scheduler;
    let ghost cpu_killed = *cpu;
    let outcome = scheduler.schedule(cpu);
    proof {
        assert(!contains_pid(killed.table(), NEVER_PID)) by {
            assert forall|i: int| 0 <= i < killed.table().len() implies (
            #[trigger] killed.table()[i]).pid != NEVER_PID by {}
        }
        assert(is_current_killed(
            *old(scheduler),
            killed,
            *old(cpu),
            cpu_killed,
            *old(allocator),
            *allocator,
        ));
    }
    outcome
}

/// Lets the current process wait for the death of the process `pid`, as
/// `Scheduler::let_current_process_wait_for` says, and gives the hart to the
/// next process. No such process: nothing changes and the result is `None`.
pub fn let_current_process_wait_for(scheduler: &mut Scheduler, cpu: &mut Cpu, pid: Pid) -> (outcome:
    Option<ScheduleOutcome>)
    requires
        old(scheduler).wf(),
        old(scheduler).current_pid != NEVER_PID,
    ensures
        final(scheduler).wf(),
        outcome is Some <==> contains_pid(old(scheduler).table(), pid),
        outcome is None ==> *final(scheduler) == *old(scheduler) && *final(cpu) == *old(cpu),
        outcome matches Some(decision) ==> {
            &&& final(scheduler).scratch_invariant(*final(cpu))
            &&& old(scheduler).same_setup(final(scheduler))
            &&& final(scheduler).current_pid == scheduled_pid(decision)
            &&& exists|waiting: Seq<Process>|
                {
                    let queued = requeued(waiting, old(scheduler).current_pid, *old(cpu));
                    &&& #[trigger] is_waiting_for(
                        old(scheduler).table(),
                        waiting,
                        old(scheduler).current_pid,
                        pid,
                    )
                    &&& is_decision(queued, old(scheduler).current_pid, decision)
                    &&& final(scheduler).table() == scheduled_table(queued, decision)
                    &&& *final(cpu) == scheduled_cpu(*old(cpu), queued, decision)
                }
        },
{
    if !scheduler.let_current_process_wait_for(pid) {
        return None;
    }
    let ghost waiting = scheduler.table();
    let decision = scheduler.schedule(cpu);
    proof {
        assert(is_waiting_for(old(scheduler).table(), waiting, old(scheduler).current_pid, pid));
    }
    Some(decision)
}

} // verus!
