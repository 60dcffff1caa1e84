//! One process: its identity, saved context, address space and what it waits
//! for.

use std::collections::BTreeSet;
use vstd::prelude::*;
use vstd::std_specs::btree::group_btree_axioms;
use crate::interrupts::trap::{Register, TrapFrame};
use crate::memory::page_allocator::{
    after_release, after_runs, count_free, has_fit, is_first_fit, lemma_life_returns_frames,
    mark_allocated, run_addresses, runs_were_free, PageAllocator,
};
use crate::memory::page_tables::{
    is_mapping_of, range_unmapped, RootPageTableHolder, XWRMode, VIRTUAL_ADDRESS_LIMIT,
};
use crate::memory::PAGE_SIZE;
use super::loader::{
    image_mapped, image_regions, lemma_pages_before_monotone, load_elf, loadable, total_pages,
    ElfFile, MappingDescription, STACK_END,
};

verus! {

broadcast use group_btree_axioms;

/// Process identifier.
pub type Pid = u64;

/// The pid that no process ever has; the placeholder process carries it.
pub const NEVER_PID: Pid = 0;

/// Where the pages of `mmap_pages` begin in every address space.
pub const FREE_MMAP_START_ADDRESS: u64 = 0x20_0000_0000;

/// Bytes of the `ecall` instruction.
pub const ECALL_SIZE: u64 = 4;

/// The address behind the `ecall` at `pc`.
pub open spec fn behind_ecall(pc: u64) -> u64 {
    if pc <= u64::MAX - ECALL_SIZE {
        (pc + ECALL_SIZE) as u64
    } else {
        pc
    }
}

/// The states of a process.
#[derive(Clone, Copy, PartialEq, Eq, Debug, Structural)]
pub enum ProcessState {
    Runnable,
    Running,
    Waiting,
    WaitingForInput,
    Zombie,
}

/// A descriptor of one of a process's UDP sockets, and the port it is bound to.
#[derive(Clone, Copy, PartialEq, Eq, Debug, Structural)]
pub struct SocketEntry {
    pub descriptor: u64,
    pub port: u16,
}

/// One process.
pub struct Process {
    pub name: String,
    pub pid: Pid,
    pub register_state: TrapFrame,
    pub page_table: RootPageTableHolder,
    pub program_counter: u64,
    pub allocated_pages: Vec<u64>,
    pub state: ProcessState,
    pub free_mmap_address: u64,
    pub next_free_descriptor: u64,
    pub open_udp_sockets: Vec<SocketEntry>,
    pub in_kernel_mode: bool,
    pub notify_on_die: BTreeSet<Pid>,
    pub waiting_on_syscall: bool,
}

/// `process` is the process that `Process::from_elf` makes of the program
/// `elf` under the name `name` and the pid `pid`: runnable, at the entry of
/// the program, with an empty register file but for the stack pointer, with
/// no socket and no process to wake, and with the ranges of the kernel, the
/// segments of the program and a stack mapped, the latter two onto the first
/// run of free pages of the allocator that holds them.
pub open spec fn is_created(
    process: Process,
    elf: ElfFile,
    name: Seq<char>,
    pid: Pid,
    kernel_mappings: Seq<MappingDescription>,
    allocator_before: PageAllocator,
    allocator_after: PageAllocator,
) -> bool {
    &&& process.wf()
    &&& process.pid == pid
    &&& process.name@ == name
    &&& process.state == ProcessState::Runnable
    &&& process.program_counter == elf.entry_address
    &&& !process.in_kernel_mode
    &&& !process.waiting_on_syscall
    &&& process.notify_on_die@ == Set::<Pid>::empty()
    &&& process.open_udp_sockets@.len() == 0
    &&& process.next_free_descriptor == 0
    &&& process.free_mmap_address == FREE_MMAP_START_ADDRESS
    &&& process.register_state.registers() == Seq::new(32, |i: int| 0u64).update(
        Register::sp.number(),
        STACK_END,
    )
    &&& process.register_state.floating_registers() == Seq::new(32, |i: int| 0u64)
    &&& exists|s: int|
        {
            &&& #[trigger] is_first_fit(
                allocator_before@,
                s,
                total_pages(image_regions(elf, kernel_mappings)),
            )
            &&& allocator_after@ == mark_allocated(
                allocator_before@,
                s,
                total_pages(image_regions(elf, kernel_mappings)),
            )
            &&& process.allocated_pages@ == seq![allocator_before.page_address(s) as u64]
            &&& image_mapped(
                process.page_table@,
                image_regions(elf, kernel_mappings),
                allocator_before.page_address(s),
                image_regions(elf, kernel_mappings).len() as int,
            )
        }
}

/// A process took a run of `n` frames: the first run of so many free frames
/// left the allocator, and the address of its first frame stands behind the
/// addresses `owned_before` of the runs that the process owned already.
pub open spec fn took_frames(
    owned_before: Seq<u64>,
    owned_after: Seq<u64>,
    allocator_before: PageAllocator,
    allocator_after: PageAllocator,
    n: int,
) -> bool {
    &&& n > 0
    &&& allocator_after.base() == allocator_before.base()
    &&& exists|s: int|
        {
            &&& #[trigger] is_first_fit(allocator_before@, s, n)
            &&& allocator_after@ == mark_allocated(allocator_before@, s, n)
            &&& owned_after == owned_before.push(allocator_before.page_address(s) as u64)
        }
}

/// The making of a process takes its first run of frames: those of its image
/// and its stack.
pub proof fn lemma_created_took_frames(
    process: Process,
    elf: ElfFile,
    name: Seq<char>,
    pid: Pid,
    kernel_mappings: Seq<MappingDescription>,
    allocator_before: PageAllocator,
    allocator_after: PageAllocator,
)
    requires
        is_created(process, elf, name, pid, kernel_mappings, allocator_before, allocator_after),
        allocator_after.base() == allocator_before.base(),
    ensures
        took_frames(
            Seq::empty(),
            process.allocated_pages@,
            allocator_before,
            allocator_after,
            total_pages(image_regions(elf, kernel_mappings)),
        ),
{
    let regions = image_regions(elf, kernel_mappings);
    let n = total_pages(regions);
    lemma_pages_before_monotone(regions, 0, regions.len() - 1);
    assert(regions.subrange(0, regions.len() - 1) =~= regions.drop_last());
    assert(regions.subrange(0, 0).len() == 0);
    assert(n >= 4);
    let s = choose|s: int|
        {
            &&& #[trigger] is_first_fit(allocator_before@, s, n)
            &&& allocator_after@ == mark_allocated(allocator_before@, s, n)
            &&& process.allocated_pages@ == seq![allocator_before.page_address(s) as u64]
        };
    assert(process.allocated_pages@ =~= Seq::<u64>::empty().push(
        allocator_before.page_address(s) as u64,
    ));
}

/// The runs that a process took over its life, by what it owned and what the
/// allocator held after each of its first `k` takings.
pub open spec fn runs_taken(
    allocators: Seq<PageAllocator>,
    owned: Seq<Seq<u64>>,
    counts: Seq<int>,
    k: int,
) -> Seq<(int, int)>
    decreases k,
{
    if k <= 0 {
        Seq::empty()
    } else {
        let s = choose|s: int|
            {
                &&& #[trigger] is_first_fit(allocators[k - 1]@, s, counts[k - 1])
                &&& allocators[k]@ == mark_allocated(allocators[k - 1]@, s, counts[k - 1])
                &&& owned[k] == owned[k - 1].push(allocators[k - 1].page_address(s) as u64)
            };
        runs_taken(allocators, owned, counts, k - 1).push((s, counts[k - 1]))
    }
}

/// After each taking the allocator holds the runs taken so far, and the
/// process owns their addresses.
pub proof fn lemma_runs_taken(
    allocators: Seq<PageAllocator>,
    owned: Seq<Seq<u64>>,
    counts: Seq<int>,
    k: int,
)
    requires
        allocators.len() == counts.len() + 1,
        owned.len() == counts.len() + 1,
        allocators[0].wf(),
        owned[0].len() == 0,
        forall|j: int|
            0 <= j < counts.len() ==> took_frames(
                owned[j],
                owned[j + 1],
                allocators[j],
                allocators[j + 1],
                #[trigger] counts[j],
            ),
        0 <= k <= counts.len(),
    ensures
        runs_were_free(allocators[0]@, runs_taken(allocators, owned, counts, k)),
        allocators[k]@ == after_runs(allocators[0]@, runs_taken(allocators, owned, counts, k)),
        allocators[k].base() == allocators[0].base(),
        owned[k] == run_addresses(allocators[0].base(), runs_taken(allocators, owned, counts, k)),
    decreases k,
{
    let runs = runs_taken(allocators, owned, counts, k);
    if k == 0 {
        assert(owned[0] =~= run_addresses(allocators[0].base(), runs));
    } else {
        lemma_runs_taken(allocators, owned, counts, k - 1);
        let front = runs_taken(allocators, owned, counts, k - 1);
        assert(took_frames(
            owned[k - 1],
            owned[k],
            allocators[k - 1],
            allocators[k],
            counts[k - 1],
        ));
        let s = choose|s: int|
            {
                &&& #[trigger] is_first_fit(allocators[k - 1]@, s, counts[k - 1])
                &&& allocators[k]@ == mark_allocated(allocators[k - 1]@, s, counts[k - 1])
                &&& owned[k] == owned[k - 1].push(allocators[k - 1].page_address(s) as u64)
            };
        assert(runs == front.push((s, counts[k - 1])));
        assert(runs.drop_last() =~= front);
        assert(runs.last() == (s, counts[k - 1]));
        assert(owned[k] =~= run_addresses(allocators[0].base(), runs));
    }
}

/// The frames of a process return to the allocator when it dies. Where a
/// process took its runs of frames one after the other, the first when it
/// was made and one with each `mmap`, and nothing else was handed out or
/// released since the process was made, releasing what the process owns,
/// as its death does, leaves the allocator as it was before the process
/// was made: as many frames are free as were.
pub proof fn lemma_death_returns_frames(
    allocators: Seq<PageAllocator>,
    owned: Seq<Seq<u64>>,
    counts: Seq<int>,
)
    requires
        allocators.len() == counts.len() + 1,
        owned.len() == counts.len() + 1,
        allocators[0].wf(),
        owned[0].len() == 0,
        forall|j: int|
            0 <= j < counts.len() ==> took_frames(
                owned[j],
                owned[j + 1],
                allocators[j],
                allocators[j + 1],
                #[trigger] counts[j],
            ),
    ensures
        after_release(allocators.last()@, allocators.last().base(), owned.last())
            == allocators[0]@,
        count_free(after_release(allocators.last()@, allocators.last().base(), owned.last()))
            == count_free(allocators[0]@),
{
    let k = counts.len() as int;
    lemma_runs_taken(allocators, owned, counts, k);
    lemma_life_returns_frames(
        allocators[0]@,
        allocators[0].base(),
        runs_taken(allocators, owned, counts, k),
    );
}

impl Process {
    /// The address space is a tree, and the next `mmap` address is page
    /// aligned and below the stack.
    pub open spec fn wf(&self) -> bool {
        &&& self.page_table.wf()
        &&& self.free_mmap_address % PAGE_SIZE == 0
        &&& FREE_MMAP_START_ADDRESS <= self.free_mmap_address <= VIRTUAL_ADDRESS_LIMIT
    }

    /// The placeholder that stands for "no process".
    pub fn never() -> (process: Self)
        ensures
            process.wf(),
            process.pid == NEVER_PID,
            process.name@ == "never"@,
            process.state == ProcessState::Runnable,
            process.notify_on_die@ == Set::<Pid>::empty(),
            !process.waiting_on_syscall,
    {
        Process {
            name: "never".to_owned(),
            pid: NEVER_PID,
            register_state: TrapFrame::zero(),
            page_table: RootPageTableHolder::empty(),
            program_counter: 0,
            allocated_pages: Vec::new(),
            state: ProcessState::Runnable,
            free_mmap_address: FREE_MMAP_START_ADDRESS,
            next_free_descriptor: 0,
            open_udp_sockets: Vec::new(),
            in_kernel_mode: false,
            notify_on_die: BTreeSet::new(),
            waiting_on_syscall: false,
        }
    }

    /// The pid of the process.
    pub fn get_pid(&self) -> (pid: Pid)
        ensures
            pid == self.pid,
    {
        self.pid
    }

    /// The name of the process.
    pub fn get_name(&self) -> (name: &str)
        ensures
            name@ == self.name@,
    {
        self.name.as_str()
    }

    /// The state of the process.
    pub fn get_state(&self) -> (state: ProcessState)
        ensures
            state == self.state,
    {
        self.state
    }

    /// Puts the process into `state`.
    pub fn set_state(&mut self, state: ProcessState)
        ensures
            *final(self) == (Process { state, ..*old(self) }),
    {
        self.state = state;
    }

    /// Where the process goes on when it runs again.
    pub fn get_program_counter(&self) -> (pc: u64)
        ensures
            pc == self.program_counter,
    {
        self.program_counter
    }

    /// Sets where the process goes on when it runs again.
    pub fn set_program_counter(&mut self, program_counter: u64)
        ensures
            *final(self) == (Process { program_counter, ..*old(self) }),
    {
        self.program_counter = program_counter;
    }

    /// Whether the process was interrupted in supervisor mode.
    pub fn get_in_kernel_mode(&self) -> (in_kernel_mode: bool)
        ensures
            in_kernel_mode == self.in_kernel_mode,
    {
        self.in_kernel_mode
    }

    /// Records whether the process was interrupted in supervisor mode.
    pub fn set_in_kernel_mode(&mut self, in_kernel_mode: bool)
        ensures
            *final(self) == (Process { in_kernel_mode, ..*old(self) }),
    {
        self.in_kernel_mode = in_kernel_mode;
    }

    /// The saved registers of the process.
    pub fn get_register_state(&self) -> (frame: &TrapFrame)
        ensures
            *frame == self.register_state,
    {
        &self.register_state
    }

    /// Saves `register_state` as the registers of the process.
    pub fn set_register_state(&mut self, register_state: &TrapFrame)
        ensures
            *final(self) == (Process { register_state: *register_state, ..*old(self) }),
    {
        self.register_state = *register_state;
    }

    /// The address space of the process.
    pub fn get_page_table(&self) -> (tables: &RootPageTableHolder)
        ensures
            *tables == self.page_table,
    {
        &self.page_table
    }

    /// The two processes agree in everything but the saved registers.
    pub open spec fn differs_only_in_registers(self, other: Process) -> bool {
        &&& self.name == other.name
        &&& self.pid == other.pid
        &&& self.page_table == other.page_table
        &&& self.program_counter == other.program_counter
        &&& self.allocated_pages == other.allocated_pages
        &&& self.state == other.state
        &&& self.free_mmap_address == other.free_mmap_address
        &&& self.next_free_descriptor == other.next_free_descriptor
        &&& self.open_udp_sockets == other.open_udp_sockets
        &&& self.in_kernel_mode == other.in_kernel_mode
        &&& self.notify_on_die == other.notify_on_die
        &&& self.waiting_on_syscall == other.waiting_on_syscall
    }

    /// `other` is this process with `value` in the saved `a0`: what the
    /// process sees as the result of its system call when it runs again.
    pub open spec fn with_return_code(self, other: Process, value: u64) -> bool {
        &&& self.differs_only_in_registers(other)
        &&& other.register_state.registers() == self.register_state.with(Register::a0, value)
        &&& other.register_state.floating_registers()
            == self.register_state.floating_registers()
    }

    /// Puts `value` into the saved `a0`.
    pub fn set_syscall_return_code(&mut self, value: u64)
        ensures
            old(self).with_return_code(*final(self), value),
    {
        self.register_state.set(Register::a0, value);
    }

    /// The two processes agree in everything but the set of pids to wake.
    pub open spec fn differs_only_in_notify(self, other: Process) -> bool {
        &&& self.name == other.name
        &&& self.pid == other.pid
        &&& self.register_state == other.register_state
        &&& self.page_table == other.page_table
        &&& self.program_counter == other.program_counter
        &&& self.allocated_pages == other.allocated_pages
        &&& self.state == other.state
        &&& self.free_mmap_address == other.free_mmap_address
        &&& self.next_free_descriptor == other.next_free_descriptor
        &&& self.open_udp_sockets == other.open_udp_sockets
        &&& self.in_kernel_mode == other.in_kernel_mode
        &&& self.waiting_on_syscall == other.waiting_on_syscall
    }

    /// The two processes agree in everything but the address space, the pages
    /// they own and the next `mmap` address.
    pub open spec fn differs_only_in_memory(self, other: Process) -> bool {
        &&& self.name == other.name
        &&& self.pid == other.pid
        &&& self.register_state == other.register_state
        &&& self.program_counter == other.program_counter
        &&& self.state == other.state
        &&& self.next_free_descriptor == other.next_free_descriptor
        &&& self.open_udp_sockets == other.open_udp_sockets
        &&& self.in_kernel_mode == other.in_kernel_mode
        &&& self.notify_on_die == other.notify_on_die
        &&& self.waiting_on_syscall == other.waiting_on_syscall
    }

    /// The two processes agree in everything but the saved `a0`, the program
    /// counter, the state and whether a system call waits for its result.
    pub open spec fn differs_only_in_resumption(self, other: Process) -> bool {
        &&& self.name == other.name
        &&& self.pid == other.pid
        &&& self.page_table == other.page_table
        &&& self.allocated_pages == other.allocated_pages
        &&& self.free_mmap_address == other.free_mmap_address
        &&& self.next_free_descriptor == other.next_free_descriptor
        &&& self.open_udp_sockets == other.open_udp_sockets
        &&& self.in_kernel_mode == other.in_kernel_mode
        &&& self.notify_on_die == other.notify_on_die
    }

    /// The two processes agree in everything but their sockets.
    pub open spec fn differs_only_in_sockets(self, other: Process) -> bool {
        &&& self.name == other.name
        &&& self.pid == other.pid
        &&& self.register_state == other.register_state
        &&& self.page_table == other.page_table
        &&& self.program_counter == other.program_counter
        &&& self.allocated_pages == other.allocated_pages
        &&& self.state == other.state
        &&& self.free_mmap_address == other.free_mmap_address
        &&& self.in_kernel_mode == other.in_kernel_mode
        &&& self.notify_on_die == other.notify_on_die
        &&& self.waiting_on_syscall == other.waiting_on_syscall
    }

    /// Adds `pid` to the set of processes to wake when this one dies.
    pub fn add_notify_on_die(&mut self, pid: Pid)
        requires
            old(self).wf(),
        ensures
            final(self).wf(),
            old(self).differs_only_in_notify(*final(self)),
            final(self).notify_on_die@ == old(self).notify_on_die@.insert(pid),
    {
        self.notify_on_die.insert(pid);
    }

    /// `other` is this process made runnable with `value` in the saved `a0`.
    pub open spec fn woken_with(self, other: Process, value: u64) -> bool {
        &&& self.differs_only_in_resumption(other)
        &&& other.register_state.registers() == self.register_state.with(Register::a0, value)
        &&& other.register_state.floating_registers()
            == self.register_state.floating_registers()
        &&& other.state == ProcessState::Runnable
        &&& other.waiting_on_syscall == self.waiting_on_syscall
        &&& other.program_counter == self.program_counter
    }

    /// `other` is this process after the byte it waited for arrived: the
    /// system call that blocked it has returned. The byte is in the saved
    /// `a0`, the program counter is behind the `ecall`, the process is
    /// runnable and waits no more. A process that did not wait is unchanged.
    pub open spec fn resumed_with(self, other: Process, byte: u8) -> bool {
        if self.waiting_on_syscall {
            &&& self.differs_only_in_resumption(other)
            &&& other.program_counter == behind_ecall(self.program_counter)
            &&& other.register_state.registers() == self.register_state.with(
                Register::a0,
                byte as u64,
            )
            &&& other.register_state.floating_registers()
                == self.register_state.floating_registers()
            &&& other.state == ProcessState::Runnable
            &&& !other.waiting_on_syscall
        } else {
            other == self
        }
    }

    /// Marks the process as blocked in a system call whose result, one byte,
    /// is delivered later.
    pub fn set_waiting_on_syscall(&mut self)
        ensures
            *final(self) == (Process {
                state: ProcessState::WaitingForInput,
                waiting_on_syscall: true,
                ..*old(self)
            }),
    {
        self.state = ProcessState::WaitingForInput;
        self.waiting_on_syscall = true;
    }

    /// Completes the system call that the process is blocked in: delivers
    /// `byte` as its result, moves the program counter behind the `ecall`
    /// and makes the process runnable.
    pub fn resume_on_syscall(&mut self, byte: u8)
        ensures
            old(self).resumed_with(*final(self), byte),
    {
        if self.waiting_on_syscall {
            self.waiting_on_syscall = false;
            self.register_state.set(Register::a0, byte as u64);
            if self.program_counter <= u64::MAX - ECALL_SIZE {
                self.program_counter = self.program_counter + ECALL_SIZE;
            }
            self.state = ProcessState::Runnable;
        }
    }

    /// Makes the process runnable with `value` as the result of its system
    /// call.
    pub fn wake_with(&mut self, value: u64)
        ensures
            old(self).woken_with(*final(self), value),
    {
        self.register_state.set(Register::a0, value);
        self.state = ProcessState::Runnable;
    }

    /// Takes `pid` out of the set of processes to wake.
    pub fn remove_notify_on_die(&mut self, pid: Pid)
        requires
            old(self).wf(),
        ensures
            final(self).wf(),
            old(self).differs_only_in_notify(*final(self)),
            final(self).notify_on_die@ == old(self).notify_on_die@.remove(pid),
    {
        self.notify_on_die.remove(&pid);
    }

    /// Whether `pid` is to be woken when this process dies.
    pub fn notifies(&self, pid: Pid) -> (found: bool)
        ensures
            found == self.notify_on_die@.contains(pid),
    {
        self.notify_on_die.contains(&pid)
    }

    /// `n` pages can be had from `allocator` and mapped at the next `mmap`
    /// address.
    pub open spec fn can_mmap(self, allocator: PageAllocator, n: int) -> bool {
        &&& n > 0
        &&& self.free_mmap_address + n * PAGE_SIZE <= VIRTUAL_ADDRESS_LIMIT
        &&& range_unmapped(self.page_table@, self.free_mmap_address as int, n * PAGE_SIZE)
        &&& has_fit(allocator@, n)
    }

    /// Takes `number_of_pages` fresh pages and maps them, readable and
    /// writable for user mode, at the next free `mmap` address. Returns that
    /// address, or 0 where the pages cannot be had or mapped; then nothing
    /// changes.
    pub fn mmap_pages(&mut self, allocator: &mut PageAllocator, number_of_pages: usize) -> (ptr:
        u64)
        requires
            old(self).wf(),
            old(allocator).wf(),
        ensures
            final(self).wf(),
            final(allocator).wf(),
            final(allocator).base() == old(allocator).base(),
            final(allocator)@.len() == old(allocator)@.len(),
            ptr != 0 <==> old(self).can_mmap(*old(allocator), number_of_pages as int),
            ptr == 0 ==> *final(self) == *old(self) && final(allocator)@ == old(allocator)@,
            ptr != 0 ==> took_frames(
                old(self).allocated_pages@,
                final(self).allocated_pages@,
                *old(allocator),
                *final(allocator),
                number_of_pages as int,
            ),
            ptr != 0 ==> {
                &&& ptr == old(self).free_mmap_address
                &&& ptr % PAGE_SIZE == 0
                &&& final(self).free_mmap_address == ptr + number_of_pages * PAGE_SIZE
                &&& old(self).differs_only_in_memory(*final(self))
                &&& exists|s: int|
                    {
                        &&& #[trigger] is_first_fit(old(allocator)@, s, number_of_pages as int)
                        &&& final(allocator)@ == mark_allocated(
                            old(allocator)@,
                            s,
                            number_of_pages as int,
                        )
                        &&& final(self).allocated_pages@ == old(self).allocated_pages@.push(
                            old(allocator).page_address(s) as u64,
                        )
                        &&& is_mapping_of(
                            old(self).page_table@,
                            final(self).page_table@,
                            ptr as int,
                            old(allocator).page_address(s),
                            number_of_pages * PAGE_SIZE,
                            XWRMode::ReadWrite,
                            true,
                        )
                    }
            },
    {
        if number_of_pages == 0 {
            return 0;
        }
        if number_of_pages as u64 > (VIRTUAL_ADDRESS_LIMIT - self.free_mmap_address) / PAGE_SIZE {
            return 0;
        }
        let size: u64 = number_of_pages as u64 * PAGE_SIZE;
        if !self.page_table.is_range_unmapped(self.free_mmap_address, size) {
            return 0;
        }
        let addr: u64 = match allocator.allocate(number_of_pages) {
            Some(addr) => addr,
            None => {
                return 0;
            },
        };
        proof {
            let s = choose|s: int|
                {
                    &&& #[trigger] is_first_fit(old(allocator)@, s, number_of_pages as int)
                    &&& addr == old(allocator).page_address(s)
                    &&& allocator@ == mark_allocated(old(allocator)@, s, number_of_pages as int)
                };
            let frames = old(allocator)@.len();
            assert((s + number_of_pages) * PAGE_SIZE <= frames * PAGE_SIZE) by (nonlinear_arith)
                requires
                    s + number_of_pages <= frames,
            ;
            assert((s + number_of_pages) * PAGE_SIZE == s * PAGE_SIZE + number_of_pages
                * PAGE_SIZE) by (nonlinear_arith);
            assert((s * 4096) % 4096 == 0) by (nonlinear_arith);
        }
        let mapped = self.page_table.map_userspace(
            self.free_mmap_address,
            addr,
            size,
            XWRMode::ReadWrite,
        );
        assert(mapped);
        self.allocated_pages.push(addr);
        let ptr = self.free_mmap_address;
        self.free_mmap_address = self.free_mmap_address + size;
        ptr
    }

    /// Gives every allocation of physical pages that the process owns back to
    /// `allocator`.
    pub fn release_pages(&self, allocator: &mut PageAllocator)
        requires
            old(allocator).wf(),
        ensures
            final(allocator).wf(),
            final(allocator).base() == old(allocator).base(),
            final(allocator)@.len() == old(allocator)@.len(),
            final(allocator)@ == after_release(
                old(allocator)@,
                old(allocator).base(),
                self.allocated_pages@,
            ),
    {
        let mut i: usize = 0;
        assert(self.allocated_pages@.subrange(0, 0).len() == 0);
        while i < self.allocated_pages.len()
            invariant
                i <= self.allocated_pages@.len(),
                allocator.wf(),
                allocator.base() == old(allocator).base(),
                allocator@.len() == old(allocator)@.len(),
                allocator@ == after_release(
                    old(allocator)@,
                    old(allocator).base(),
                    self.allocated_pages@.subrange(0, i as int),
                ),
            decreases self.allocated_pages@.len() - i,
        {
            allocator.dealloc(self.allocated_pages[i]);
            assert(self.allocated_pages@.subrange(0, i + 1).drop_last()
                =~= self.allocated_pages@.subrange(0, i as int));
            i = i + 1;
        }
        assert(self.allocated_pages@.subrange(0, i as int) =~= self.allocated_pages@);
    }

    /// The process for the program `elf` under the name `name` and the pid
    /// `pid`: runnable, at the program's entry point, with an empty register
    /// file but for the stack pointer, and with the ranges of the kernel, the
    /// program's segments and a stack mapped, the latter two onto fresh pages
    /// of `allocator`. `None` where the pages
    /// cannot be had or the segments cannot be mapped; `allocator` is then
    /// unchanged.
    pub fn from_elf(
        elf: &ElfFile,
        name: &str,
        pid: Pid,
        kernel_mappings: &Vec<MappingDescription>,
        allocator: &mut PageAllocator,
    ) -> (created: Option<Process>)
        requires
            old(allocator).wf(),
        ensures
            final(allocator).wf(),
            final(allocator).base() == old(allocator).base(),
            final(allocator)@.len() == old(allocator)@.len(),
            created is Some <==> loadable(image_regions(*elf, kernel_mappings@)) && has_fit(
                old(allocator)@,
                total_pages(image_regions(*elf, kernel_mappings@)),
            ),
            created is None ==> final(allocator)@ == old(allocator)@,
            created matches Some(process) ==> is_created(
                process,
                *elf,
                name@,
                pid,
                kernel_mappings@,
                *old(allocator),
                *final(allocator),
            ),
    {
        let image = match load_elf(elf, kernel_mappings, allocator) {
            Some(image) => image,
            None => {
                return None;
            },
        };
        let mut register_state = TrapFrame::zero();
        register_state.set(Register::sp, STACK_END);
        Some(
            Process {
                name: name.to_owned(),
                pid,
                register_state,
                page_table: image.page_tables,
                program_counter: image.entry_address,
                allocated_pages: image.allocated_pages,
                state: ProcessState::Runnable,
                free_mmap_address: FREE_MMAP_START_ADDRESS,
                next_free_descriptor: 0,
                open_udp_sockets: Vec::new(),
                in_kernel_mode: false,
                notify_on_die: BTreeSet::new(),
                waiting_on_syscall: false,
            },
        )
    }

    /// The port behind `descriptor`, if the process has such a socket.
    pub open spec fn spec_socket_port(self, descriptor: u64) -> Option<u16> {
        if exists|i: int|
            0 <= i < self.open_udp_sockets@.len() && self.open_udp_sockets@[i].descriptor
                == descriptor {
            let i = choose|i: int|
                0 <= i < self.open_udp_sockets@.len() && self.open_udp_sockets@[i].descriptor
                    == descriptor && forall|k: int|
                    0 <= k < i ==> self.open_udp_sockets@[k].descriptor != descriptor;
            Some(self.open_udp_sockets@[i].port)
        } else {
            None
        }
    }

    /// The port behind `descriptor`, if the process has such a socket.
    pub fn get_socket_port(&self, descriptor: u64) -> (port: Option<u16>)
        ensures
            port == self.spec_socket_port(descriptor),
    {
        let mut i: usize = 0;
        while i < self.open_udp_sockets.len()
            invariant
                i <= self.open_udp_sockets@.len(),
                forall|k: int| 0 <= k < i ==> self.open_udp_sockets@[k].descriptor != descriptor,
            decreases self.open_udp_sockets@.len() - i,
        {
            if self.open_udp_sockets[i].descriptor == descriptor {
                proof {
                    let c = choose|c: int|
                        0 <= c < self.open_udp_sockets@.len()
                            && self.open_udp_sockets@[c].descriptor == descriptor && forall|k: int|
                            0 <= k < c ==> self.open_udp_sockets@[k].descriptor != descriptor;
                    assert(c == i);
                }
                return Some(self.open_udp_sockets[i].port);
            }
            i = i + 1;
        }
        None
    }

    /// Records a socket bound to `port` under the next free descriptor and
    /// returns that descriptor; `None`, with nothing changed, once the
    /// descriptors are used up.
    pub fn put_new_udp_socket(&mut self, port: u16) -> (descriptor: Option<u64>)
        ensures
            descriptor is Some <==> old(self).next_free_descriptor < u64::MAX,
            descriptor is None ==> *final(self) == *old(self),
            descriptor matches Some(d) ==> {
                &&& d == old(self).next_free_descriptor
                &&& final(self).next_free_descriptor == d + 1
                &&& final(self).open_udp_sockets@ == old(self).open_udp_sockets@.push(
                    SocketEntry { descriptor: d, port },
                )
                &&& old(self).differs_only_in_sockets(*final(self))
            },
    {
        if self.next_free_descriptor == u64::MAX {
            return None;
        }
        let descriptor = self.next_free_descriptor;
        self.open_udp_sockets.push(SocketEntry { descriptor, port });
        self.next_free_descriptor = descriptor + 1;
        Some(descriptor)
    }
}

} // verus!
