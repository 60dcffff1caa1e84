//! The state of the kernel on one hart.

use vstd::prelude::*;
use crate::cpu::{Cpu, TrapFrameOwner};
use crate::io::stdin_buf::StdinBuffer;
use crate::memory::page_allocator::{lemma_all_free_fits, usable_pages, PageAllocator};
use crate::memory::PHYSICAL_ADDRESS_LIMIT;
use crate::net::{
    is_bound, keeps_sockets, lemma_keeps_sockets_twice, OpenUdpSockets, UdpSocket,
};
use crate::processes::loader::{
    image_regions, lemma_pages_before_monotone, loadable, total_pages, ElfFile,
    MappingDescription,
};
use crate::processes::process::{Pid, Process, ProcessState, SocketEntry, NEVER_PID};
use crate::processes::scheduler::{
    is_decision, requeued, scheduled_cpu, scheduled_pid, scheduled_table, Program,
    ScheduleOutcome, Scheduler,
};

verus! {

/// One of the first `n` sockets of the list is bound to `port`.
pub open spec fn owns_port(sockets: Seq<SocketEntry>, port: u16, n: int) -> bool {
    exists|k: int| 0 <= k < n && (#[trigger] sockets[k]).port == port
}

/// Everything the kernel keeps: the hart, the scheduler with its processes,
/// the console input, the physical pages and the sockets.
pub struct Kernel {
    pub cpu: Cpu,
    pub scheduler: Scheduler,
    pub stdin: StdinBuffer,
    pub page_allocator: PageAllocator,
    pub sockets: OpenUdpSockets,
}

impl Kernel {
    /// Every part is well formed.
    pub open spec fn wf(&self) -> bool {
        &&& self.scheduler.wf()
        &&& self.page_allocator.wf()
        &&& self.sockets.wf()
    }

    /// The current process.
    pub open spec fn current(&self) -> Process {
        self.scheduler.current()
    }

    /// The two states agree in everything: the hart, the processes, the
    /// current process, the programs, the console input, the sockets and the
    /// status of every frame.
    pub open spec fn same_as(&self, other: &Kernel) -> bool {
        &&& self.cpu == other.cpu
        &&& self.scheduler.table() == other.scheduler.table()
        &&& self.scheduler.current_pid == other.scheduler.current_pid
        &&& self.scheduler.same_setup(&other.scheduler)
        &&& self.stdin == other.stdin
        &&& self.sockets == other.sockets
        &&& self.page_allocator@ == other.page_allocator@
        &&& self.page_allocator.base() == other.page_allocator.base()
    }

    /// `after` is `before` once the scheduler took the decision `outcome`: the
    /// current process was put back, and the process that round robin picks
    /// behind it runs, or the hart idles, or the system is to shut down.
    pub open spec fn is_scheduled(before: Kernel, after: Kernel, outcome: ScheduleOutcome) -> bool {
        let queued = requeued(
            before.scheduler.table(),
            before.scheduler.current_pid,
            before.cpu,
        );
        &&& before.scheduler.same_setup(&after.scheduler)
        &&& is_decision(queued, before.scheduler.current_pid, outcome)
        &&& after.scheduler.table() == scheduled_table(queued, outcome)
        &&& after.scheduler.current_pid == scheduled_pid(outcome)
        &&& after.cpu == scheduled_cpu(before.cpu, queued, outcome)
        &&& after.stdin == before.stdin
        &&& after.page_allocator == before.page_allocator
        &&& after.sockets == before.sockets
    }

    /// Whether the hart has to leave the current process: no process is
    /// current, or the current one is not running any more.
    pub open spec fn needs_reschedule(&self) -> bool {
        self.scheduler.current_pid == NEVER_PID || self.current().state != ProcessState::Running
    }

    /// The frame that the scratch register points at while the hart runs what
    /// it returns to: the frame of the current process where that process is
    /// running and the hart returns to user mode, else the hart's own.
    pub open spec fn live_frame(&self) -> TrapFrameOwner {
        if self.scheduler.current_pid != NEVER_PID && self.current().state
            == ProcessState::Running && !self.cpu.ret_to_kernel_mode {
            TrapFrameOwner::Process(self.scheduler.current_pid)
        } else {
            TrapFrameOwner::Kernel
        }
    }

    /// The kernel as the trap entry leaves it: with the scratch register at
    /// the hart's own frame, so that a trap taken inside the kernel saves
    /// the kernel's registers there and not over those of the process.
    pub open spec fn entered(self) -> Kernel {
        Kernel { cpu: Cpu { sscratch: TrapFrameOwner::Kernel, ..self.cpu }, ..self }
    }

    /// The kernel as the trap exit leaves it: with the scratch register at
    /// the frame that holds the live state of what the hart returns to.
    pub open spec fn left(self) -> Kernel {
        Kernel { cpu: Cpu { sscratch: self.live_frame(), ..self.cpu }, ..self }
    }

    /// Points the scratch register at the hart's own frame, as the trap
    /// entry does.
    pub fn enter_trap(&mut self)
        ensures
            *final(self) == old(self).entered(),
    {
        self.cpu.write_sscratch_register(TrapFrameOwner::Kernel);
    }

    /// Points the scratch register at the frame of what the hart returns to,
    /// as the trap exit does.
    pub fn leave_trap(&mut self)
        requires
            old(self).wf(),
        ensures
            *final(self) == old(self).left(),
            final(self).wf(),
            final(self).scheduler.scratch_invariant(final(self).cpu),
    {
        let owner = if self.scheduler.current_pid != NEVER_PID
            && self.scheduler.get_current_process().state == ProcessState::Running
            && !self.cpu.ret_to_kernel_mode {
            TrapFrameOwner::Process(self.scheduler.current_pid)
        } else {
            TrapFrameOwner::Kernel
        };
        self.cpu.write_sscratch_register(owner);
    }

    /// Gives the hart to the next process, as `Scheduler::schedule` says.
    pub fn schedule(&mut self) -> (outcome: ScheduleOutcome)
        requires
            old(self).wf(),
        ensures
            final(self).wf(),
            Self::is_scheduled(*old(self), *final(self), outcome),
            final(self).scheduler.scratch_invariant(final(self).cpu),
    {
        self.scheduler.schedule(&mut self.cpu)
    }

    /// The sockets once the ports of `dead` were unbound: a port is bound
    /// exactly if it was bound and is none of the ports of `dead`, and every
    /// socket that is still bound is as it was, with the origin of its last
    /// datagram and its unread bytes, and stands where it stood among the
    /// others.
    pub open spec fn sockets_closed(
        before: Seq<UdpSocket>,
        after: Seq<UdpSocket>,
        dead: Process,
    ) -> bool {
        &&& forall|port: u16|
            is_bound(after, port) <==> is_bound(before, port) && !owns_port(
                dead.open_udp_sockets@,
                port,
                dead.open_udp_sockets@.len() as int,
            )
        &&& keeps_sockets(before, after)
    }

    /// Unbinds the ports of the sockets that the process `dead` held.
    pub fn close_sockets_of(&mut self, dead: &Process)
        requires
            old(self).sockets.wf(),
        ensures
            final(self).sockets.wf(),
            final(self).cpu == old(self).cpu,
            final(self).scheduler == old(self).scheduler,
            final(self).stdin == old(self).stdin,
            final(self).page_allocator == old(self).page_allocator,
            Self::sockets_closed(old(self).sockets@, final(self).sockets@, *dead),
    {
        let mut i: usize = 0;
        while i < dead.open_udp_sockets.len()
            invariant
                i <= dead.open_udp_sockets@.len(),
                self.sockets.wf(),
                self.cpu == old(self).cpu,
                self.scheduler == old(self).scheduler,
                self.stdin == old(self).stdin,
                self.page_allocator == old(self).page_allocator,
                forall|port: u16|
                    is_bound(self.sockets@, port) <==> is_bound(old(self).sockets@, port)
                        && !owns_port(dead.open_udp_sockets@, port, i as int),
                keeps_sockets(old(self).sockets@, self.sockets@),
            decreases dead.open_udp_sockets@.len() - i,
        {
            let ghost before = self.sockets@;
            let closed = dead.open_udp_sockets[i].port;
            self.sockets.close(closed);
            proof {
                lemma_keeps_sockets_twice(old(self).sockets@, before, self.sockets@);
                assert forall|port: u16|
                    is_bound(self.sockets@, port) <==> is_bound(old(self).sockets@, port)
                        && !owns_port(dead.open_udp_sockets@, port, i + 1) by {
                    if port == closed {
                        assert(dead.open_udp_sockets@[i as int].port == port);
                    } else {
                        assert(is_bound(self.sockets@, port) <==> is_bound(before, port));
                        if owns_port(dead.open_udp_sockets@, port, i + 1) {
                            let k = choose|k: int|
                                0 <= k < i + 1 && (#[trigger] dead.open_udp_sockets@[k]).port
                                    == port;
                            assert(k < i);
                        }
                    }
                }
            }
            i = i + 1;
        }
    }

    /// Handles ctrl-C as `Scheduler::send_ctrl_c` says, and unbinds the ports
    /// of the process that it kills.
    pub fn send_ctrl_c(&mut self) -> (result: (Option<Process>, ScheduleOutcome))
        requires
            old(self).wf(),
        ensures
            final(self).wf(),
            final(self).stdin == old(self).stdin,
            final(self).scheduler.scratch_invariant(final(self).cpu),
            Scheduler::ctrl_c_effect(
                old(self).scheduler,
                final(self).scheduler,
                old(self).cpu,
                final(self).cpu,
                old(self).page_allocator,
                final(self).page_allocator,
                result.0,
                result.1,
            ),
            match result.0 {
                Some(dead) => Self::sockets_closed(old(self).sockets@, final(self).sockets@, dead),
                None => final(self).sockets == old(self).sockets,
            },
    {
        let (zombie, outcome) = self.scheduler.send_ctrl_c(
            &mut self.cpu,
            &mut self.page_allocator,
        );
        match &zombie {
            Some(dead) => {
                self.close_sockets_of(dead);
            },
            None => {},
        }
        (zombie, outcome)
    }

    /// The kernel after boot: the physical pages of the region of
    /// `heap_size` bytes at `heap_start` under the page allocator, the program
    /// `init` as the first process, no console input, no socket, and the hart
    /// in the kernel with no process current. Every process maps the ranges
    /// `kernel_mappings` of the kernel.
    pub fn new(
        heap_start: u64,
        heap_size: usize,
        idle_loop: u64,
        init: &ElfFile,
        programs: Vec<Program>,
        kernel_mappings: Vec<MappingDescription>,
    ) -> (kernel: Self)
        requires
            heap_start + heap_size <= PHYSICAL_ADDRESS_LIMIT,
        ensures
            kernel.wf(),
            kernel.scheduler.current_pid == NEVER_PID,
            kernel.scheduler.programs == programs,
            kernel.scheduler.kernel_mappings == kernel_mappings,
            kernel.page_allocator@.len() == usable_pages(heap_start as int, heap_size as int),
            if loadable(image_regions(*init, kernel_mappings@)) && total_pages(
                image_regions(*init, kernel_mappings@),
            ) <= usable_pages(heap_start as int, heap_size as int) {
                &&& kernel.scheduler.table().len() == 1
                &&& kernel.scheduler.table()[0].pid == 1
                &&& kernel.scheduler.table()[0].name@ == "init"@
                &&& kernel.scheduler.table()[0].state == ProcessState::Runnable
                &&& kernel.scheduler.table()[0].program_counter == init.entry_address
                &&& kernel.scheduler.process_table.next_pid == 2
            } else {
                &&& kernel.scheduler.table().len() == 0
                &&& kernel.scheduler.process_table.next_pid == 1
            },
            kernel.stdin.data().len() == 0,
            kernel.stdin.waiters() == Set::<Pid>::empty(),
            kernel.sockets@.len() == 0,
            kernel.cpu.idle_loop == idle_loop,
            kernel.cpu.timer is None,
            kernel.scheduler.scratch_invariant(kernel.cpu),
    {
        let mut page_allocator = PageAllocator::new(heap_start, heap_size);
        proof {
            let regions = image_regions(*init, kernel_mappings@);
            lemma_pages_before_monotone(regions, 0, regions.len() as int);
            assert(regions.subrange(0, regions.len() as int) =~= regions);
            lemma_all_free_fits(page_allocator@, total_pages(regions));
        }
        let scheduler = Scheduler::new(init, programs, kernel_mappings, &mut page_allocator);
        Kernel {
            cpu: Cpu::new(idle_loop),
            scheduler,
            stdin: StdinBuffer::new(),
            page_allocator,
            sockets: OpenUdpSockets::new(),
        }
    }
}

} // verus!
