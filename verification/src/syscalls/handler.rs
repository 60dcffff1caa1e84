//! The handlers of the system calls. Each takes the arguments as the calling
//! process passed them; pointers into user memory are checked against the
//! address space of the caller before anything else happens.

use vstd::prelude::*;
use crate::cpu::{AddressSpace, Cpu};
use crate::interrupts::trap::Register;
use crate::memory::page_allocator::{after_release, has_fit, is_first_fit, mark_allocated};
use crate::memory::page_tables::{
    is_mapping_of, lemma_map_round_trip, range_unmapped, translation, user_accessible, XWRMode,
    VIRTUAL_ADDRESS_LIMIT,
};
use crate::memory::PAGE_SIZE;
use crate::net::{is_bound, socket_place, UDPDescriptor, UdpSend, UdpSocket};
use crate::processes::loader::{image_regions, loadable, total_pages};
use crate::processes::process::{
    is_created, Pid, Process, ProcessState, SocketEntry, FREE_MMAP_START_ADDRESS, NEVER_PID,
};
use crate::processes::process_table::{contains_pid, is_killed, position_of, process_of};
use crate::processes::scheduler::{
    is_program_at, is_waiting_for, lemma_update_keeps_wf, no_program, only_changes, Scheduler,
};
use crate::state::Kernel;

verus! {

/// Why `execute` failed.
#[derive(Clone, Copy, PartialEq, Eq, Debug, Structural)]
pub enum SysExecuteError {
    InvalidPtr,
    InvalidProgram,
}

/// Why `wait` failed.
#[derive(Clone, Copy, PartialEq, Eq, Debug, Structural)]
pub enum SysWaitError {
    InvalidPid,
}

/// Why a socket call failed.
#[derive(Clone, Copy, PartialEq, Eq, Debug, Structural)]
pub enum SysSocketError {
    PortAlreadyUsed,
    InvalidPtr,
    InvalidDescriptor,
    NoReceiveIPYet,
}

/// What a process that asked for a kernel panic is known by.
pub struct PanicInfo {
    pub pid: Pid,
    pub name: String,
    pub state: ProcessState,
}

/// The handler of one system call: the process that made the call, and
/// whether the call ended it.
pub struct SyscallHandler {
    pub process_exit: bool,
    pub current_pid: Pid,
}

/// The pointer and the length describe user memory that the process may read,
/// and write where `write` asks; the first byte is mapped.
pub open spec fn valid_user_range(process: Process, ptr: u64, len: u64, write: bool) -> bool {
    &&& forall|a: int| ptr <= a < ptr + len ==> user_accessible(process.page_table@, a, write)
    &&& user_accessible(process.page_table@, ptr as int, false)
}

impl SyscallHandler {
    /// The handler serves the current process of `kernel`, and there is one.
    pub open spec fn serves(&self, kernel: &Kernel) -> bool {
        &&& kernel.wf()
        &&& self.current_pid == kernel.scheduler.current_pid
        &&& self.current_pid != NEVER_PID
    }

    /// What `sys_read_input` does: the oldest byte of console input is taken
    /// off the buffer and answered, where there is one; nothing else changes.
    pub open spec fn read_input_effect(before: Kernel, after: Kernel, byte: Option<u8>) -> bool {
        &&& after.cpu == before.cpu
        &&& after.scheduler == before.scheduler
        &&& after.page_allocator == before.page_allocator
        &&& after.sockets == before.sockets
        &&& after.stdin.waiters() == before.stdin.waiters()
        &&& byte == first_input(before)
        &&& after.stdin.data() == input_behind(before, byte)
    }

    /// What `sys_read_input_wait` does: with console input, what
    /// `sys_read_input` does; without, the process `current` is registered
    /// to be woken by the next byte and blocked for input, and the answer is
    /// `None`.
    pub open spec fn read_input_wait_effect(
        before: Kernel,
        after: Kernel,
        current: Pid,
        byte: Option<u8>,
    ) -> bool {
        &&& after.cpu == before.cpu
        &&& after.page_allocator == before.page_allocator
        &&& after.sockets == before.sockets
        &&& byte == first_input(before)
        &&& after.stdin.data() == input_behind(before, byte)
        &&& match byte {
            Some(b) => {
                &&& after.stdin.waiters() == before.stdin.waiters()
                &&& after.scheduler == before.scheduler
            },
            None => {
                &&& after.stdin.waiters() == before.stdin.waiters().insert(current)
                &&& before.scheduler.same_setup(&after.scheduler)
                &&& after.scheduler.current_pid == before.scheduler.current_pid
                &&& only_changes(before.scheduler.table(), after.scheduler.table(), current)
                &&& after.current() == (Process {
                    state: ProcessState::WaitingForInput,
                    waiting_on_syscall: true,
                    ..before.current()
                })
            },
        }
    }

    /// What `sys_exit` does: the process `current` is killed, the placeholder
    /// is current, the kernel's address space active, the pages of the
    /// process are back with the allocator and its ports unbound.
    pub open spec fn exit_effect(before: Kernel, after: Kernel, current: Pid) -> bool {
        &&& after.stdin == before.stdin
        &&& after.cpu == (Cpu { active_page_table: AddressSpace::Kernel, ..before.cpu })
        &&& before.scheduler.same_setup(&after.scheduler)
        &&& after.scheduler.current_pid == NEVER_PID
        &&& is_killed(before.scheduler.table(), after.scheduler.table(), current)
        &&& after.page_allocator.base() == before.page_allocator.base()
        &&& after.page_allocator@ == after_release(
            before.page_allocator@,
            before.page_allocator.base(),
            before.current().allocated_pages@,
        )
        &&& Kernel::sockets_closed(before.sockets@, after.sockets@, before.current())
    }

    /// The program `programs[i]` can be started: the pids are not used up,
    /// its regions can be mapped, and the allocator has the pages for them in
    /// one run.
    pub open spec fn can_start(kernel: Kernel, i: int) -> bool {
        let regions = image_regions(
            kernel.scheduler.programs@[i].elf,
            kernel.scheduler.kernel_mappings@,
        );
        &&& kernel.scheduler.process_table.next_pid < u64::MAX
        &&& loadable(regions)
        &&& has_fit(kernel.page_allocator@, total_pages(regions))
    }

    /// What `sys_execute` does. A name that the caller may not read is
    /// answered with `InvalidPtr`; a name of no program, or of one that
    /// cannot be started, with `InvalidProgram`; in both cases nothing
    /// changes. Else the first program of that name becomes a new process
    /// at the end of the table, and its pid is the answer.
    pub open spec fn execute_effect(
        before: Kernel,
        after: Kernel,
        name_ptr: u64,
        name_len: u64,
        name: Seq<char>,
        started: Result<u64, SysExecuteError>,
    ) -> bool {
        let programs = before.scheduler.programs@;
        &&& after.cpu == before.cpu
        &&& after.stdin == before.stdin
        &&& after.sockets == before.sockets
        &&& after.page_allocator.base() == before.page_allocator.base()
        &&& after.scheduler.programs == before.scheduler.programs
        &&& after.scheduler.kernel_mappings == before.scheduler.kernel_mappings
        &&& after.scheduler.current_pid == before.scheduler.current_pid
        &&& started is Err ==> before.same_as(&after)
        &&& !valid_user_range(before.current(), name_ptr, name_len, false) ==> started == Err::<
            u64,
            SysExecuteError,
        >(SysExecuteError::InvalidPtr)
        &&& valid_user_range(before.current(), name_ptr, name_len, false) ==> {
            &&& started matches Err(error) ==> error == SysExecuteError::InvalidProgram
            &&& no_program(programs, name) ==> started is Err
            &&& forall|i: int|
                is_program_at(programs, i, name) ==> (started is Ok <==> #[trigger] Self::can_start(
                    before,
                    i,
                ))
        }
        &&& started matches Ok(pid) ==> {
            &&& pid == before.scheduler.process_table.next_pid
            &&& after.scheduler.process_table.next_pid == pid + 1
            &&& after.scheduler.table().len() == before.scheduler.table().len() + 1
            &&& after.scheduler.table().drop_last() == before.scheduler.table()
            &&& forall|i: int|
                is_program_at(programs, i, name) ==> is_created(
                    after.scheduler.table().last(),
                    #[trigger] programs[i].elf,
                    name,
                    pid,
                    before.scheduler.kernel_mappings@,
                    before.page_allocator,
                    after.page_allocator,
                )
        }
    }

    /// What `sys_wait` does: where the process `pid` is alive, the process
    /// `current` waits for its death; else the answer is `InvalidPid` and
    /// nothing changes.
    pub open spec fn wait_effect(
        before: Kernel,
        after: Kernel,
        current: Pid,
        pid: u64,
        waiting: Result<(), SysWaitError>,
    ) -> bool {
        &&& after.cpu == before.cpu
        &&& after.stdin == before.stdin
        &&& after.sockets == before.sockets
        &&& after.page_allocator == before.page_allocator
        &&& waiting is Ok <==> contains_pid(before.scheduler.table(), pid)
        &&& waiting is Err ==> after == before
        &&& waiting is Ok ==> {
            &&& before.scheduler.same_setup(&after.scheduler)
            &&& after.scheduler.current_pid == before.scheduler.current_pid
            &&& is_waiting_for(before.scheduler.table(), after.scheduler.table(), current, pid)
        }
    }

    /// What `sys_mmap_pages` does: where the pages can be had and mapped,
    /// the process `current` has them mapped at its next `mmap` address,
    /// which is the answer; else the answer is 0 and nothing changes.
    pub open spec fn mmap_effect(
        before: Kernel,
        after: Kernel,
        current: Pid,
        number_of_pages: usize,
        ptr: u64,
    ) -> bool {
        &&& after.cpu == before.cpu
        &&& after.stdin == before.stdin
        &&& after.sockets == before.sockets
        &&& after.page_allocator.base() == before.page_allocator.base()
        &&& ptr != 0 <==> before.current().can_mmap(before.page_allocator, number_of_pages as int)
        &&& ptr == 0 ==> before.same_as(&after)
        &&& ptr != 0 ==> {
            &&& before.scheduler.same_setup(&after.scheduler)
            &&& after.scheduler.current_pid == before.scheduler.current_pid
            &&& only_changes(before.scheduler.table(), after.scheduler.table(), current)
            &&& ptr == before.current().free_mmap_address
            &&& ptr % PAGE_SIZE == 0
            &&& after.current().free_mmap_address == ptr + number_of_pages * PAGE_SIZE
            &&& before.current().differs_only_in_memory(after.current())
            &&& exists|s: int|
                {
                    &&& #[trigger] is_first_fit(before.page_allocator@, s, number_of_pages as int)
                    &&& after.page_allocator@ == mark_allocated(
                        before.page_allocator@,
                        s,
                        number_of_pages as int,
                    )
                    &&& after.current().allocated_pages@
                        == before.current().allocated_pages@.push(
                        before.page_allocator.page_address(s) as u64,
                    )
                    &&& is_mapping_of(
                        before.current().page_table@,
                        after.current().page_table@,
                        ptr as int,
                        before.page_allocator.page_address(s),
                        number_of_pages * PAGE_SIZE,
                        XWRMode::ReadWrite,
                        true,
                    )
                }
        }
    }

    /// What `sys_open_udp_socket` does: where the port is free and the
    /// process `current` has a descriptor left, a socket is bound to the port
    /// and the process holds it under its next descriptor, which is the
    /// answer; else the answer is `PortAlreadyUsed` and nothing changes.
    pub open spec fn open_udp_effect(
        before: Kernel,
        after: Kernel,
        current: Pid,
        port: u16,
        opened: Result<UDPDescriptor, SysSocketError>,
    ) -> bool {
        &&& after.cpu == before.cpu
        &&& after.stdin == before.stdin
        &&& after.page_allocator == before.page_allocator
        &&& opened is Ok <==> !is_bound(before.sockets@, port)
            && before.current().next_free_descriptor < u64::MAX
        &&& opened matches Err(error) ==> error == SysSocketError::PortAlreadyUsed && after
            == before
        &&& opened matches Ok(descriptor) ==> {
            &&& descriptor == before.current().next_free_descriptor
            &&& after.sockets@.drop_last() == before.sockets@
            &&& after.sockets@.len() == before.sockets@.len() + 1
            &&& after.sockets@.last().port == port
            &&& after.sockets@.last().from is None
            &&& after.sockets@.last().buffer@.len() == 0
            &&& before.scheduler.same_setup(&after.scheduler)
            &&& after.scheduler.current_pid == before.scheduler.current_pid
            &&& only_changes(before.scheduler.table(), after.scheduler.table(), current)
            &&& before.current().differs_only_in_sockets(after.current())
            &&& after.current().next_free_descriptor == descriptor + 1
            &&& after.current().open_udp_sockets@ == before.current().open_udp_sockets@.push(
                SocketEntry { descriptor, port },
            )
        }
    }

    /// What `sys_read_udp_socket` does. A buffer that the caller may not
    /// write is answered with `InvalidPtr`, a descriptor of no socket with
    /// `InvalidDescriptor`; in both cases nothing changes. Else up to
    /// `buffer_len` of the oldest unread bytes leave the socket; they are the
    /// answer, with the physical address of the buffer.
    pub open spec fn read_udp_effect(
        before: Kernel,
        after: Kernel,
        descriptor: UDPDescriptor,
        buffer_ptr: u64,
        buffer_len: u64,
        received: Result<(u64, Vec<u8>), SysSocketError>,
    ) -> bool {
        let valid = valid_user_range(before.current(), buffer_ptr, buffer_len, true);
        let held = before.current().spec_socket_port(descriptor);
        &&& after.cpu == before.cpu
        &&& after.stdin == before.stdin
        &&& after.page_allocator == before.page_allocator
        &&& after.scheduler == before.scheduler
        &&& received is Err ==> after == before
        &&& match received {
            Err(error) => error == if !valid {
                SysSocketError::InvalidPtr
            } else {
                SysSocketError::InvalidDescriptor
            },
            Ok(_) => true,
        }
        &&& received is Ok <==> valid && held is Some
        &&& received matches Ok((physical_address, data)) ==> {
            let port = held->0;
            &&& translation(before.current().page_table@, buffer_ptr as int) == Some(
                physical_address as int,
            )
            &&& after.sockets@.len() == before.sockets@.len()
            &&& if is_bound(before.sockets@, port) {
                let i = socket_place(before.sockets@, port);
                let unread = before.sockets@[i].buffer@;
                let n = if unread.len() <= buffer_len {
                    unread.len() as int
                } else {
                    buffer_len as int
                };
                &&& data@ == unread.subrange(0, n)
                &&& after.sockets@[i].buffer@ == unread.subrange(n, unread.len() as int)
                &&& after.sockets@[i].port == port
                &&& after.sockets@[i].from == before.sockets@[i].from
                &&& forall|j: int|
                    0 <= j < before.sockets@.len() && j != i ==> after.sockets@[j]
                        == before.sockets@[j]
            } else {
                data@.len() == 0 && after.sockets == before.sockets
            }
        }
    }

    /// The handler for a call of the current process.
    pub fn new(scheduler: &Scheduler) -> (handler: Self)
        ensures
            handler.current_pid == scheduler.current_pid,
            !handler.process_exit,
    {
        SyscallHandler { process_exit: false, current_pid: scheduler.current_pid }
    }

    /// The process that made the call.
    pub fn current_process<'a>(&self, kernel: &'a Kernel) -> (process: &'a Process)
        requires
            self.serves(kernel),
        ensures
            *process == kernel.current(),
            process.pid == self.current_pid,
    {
        kernel.scheduler.get_current_process()
    }

    /// Checks that user mode may access the `len` bytes at `ptr` in the
    /// address space of the caller, for writing where `write` asks, and
    /// translates `ptr` to the physical address behind it.
    pub fn validate_and_translate_pointer(
        &self,
        kernel: &Kernel,
        ptr: u64,
        len: u64,
        write: bool,
    ) -> (physical_address: Option<u64>)
        requires
            self.serves(kernel),
        ensures
            physical_address is Some <==> valid_user_range(kernel.current(), ptr, len, write),
            physical_address matches Some(p) ==> translation(
                kernel.current().page_table@,
                ptr as int,
            ) == Some(p as int),
    {
        let process = self.current_process(kernel);
        assert(contains_pid(kernel.scheduler.table(), self.current_pid));
        let ghost place = position_of(kernel.scheduler.table(), self.current_pid);
        assert(kernel.scheduler.table()[place].wf());
        let tables = process.get_page_table();
        if !tables.is_valid_userspace_ptr(ptr, len, write) {
            return None;
        }
        tables.translate_userspace_address(ptr)
    }

    /// The names of the programs that can be started, in the order of the
    /// program table.
    pub fn sys_print_programs(&mut self, kernel: &Kernel) -> (names: Vec<String>)
        ensures
            *final(self) == *old(self),
            names@.len() == kernel.scheduler.programs@.len(),
            forall|i: int|
                0 <= i < names@.len() ==> (#[trigger] names@[i])@
                    == kernel.scheduler.programs@[i].name@,
    {
        let mut names: Vec<String> = Vec::new();
        let mut i: usize = 0;
        while i < kernel.scheduler.programs.len()
            invariant
                i <= kernel.scheduler.programs@.len(),
                names@.len() == i,
                forall|k: int|
                    0 <= k < i ==> (#[trigger] names@[k])@ == kernel.scheduler.programs@[k].name@,
            decreases kernel.scheduler.programs@.len() - i,
        {
            names.push(kernel.scheduler.programs[i].name.clone());
            i = i + 1;
        }
        names
    }

    /// The process that asks for a kernel panic, for the panic's banner.
    pub fn sys_panic(&mut self, kernel: &Kernel) -> (info: PanicInfo)
        requires
            old(self).serves(kernel),
        ensures
            *final(self) == *old(self),
            info.pid == kernel.current().pid,
            info.name@ == kernel.current().name@,
            info.state == kernel.current().state,
    {
        let process = self.current_process(kernel);
        PanicInfo { pid: process.pid, name: process.name.clone(), state: process.state }
    }

    /// The code of the character that the process writes to the console.
    pub fn sys_write_char(&mut self, c: u64) -> (printed: u64)
        ensures
            *final(self) == *old(self),
            printed == c,
    {
        c
    }

    /// The oldest byte of console input, if there is one; never blocks.
    pub fn sys_read_input(&mut self, kernel: &mut Kernel) -> (byte: Option<u8>)
        ensures
            *final(self) == *old(self),
            Self::read_input_effect(*old(kernel), *final(kernel), byte),
    {
        kernel.stdin.pop()
    }

    /// The oldest byte of console input. Without input the process blocks:
    /// it is registered to be woken by the next byte and goes to the state
    /// `WaitingForInput`, the byte to be delivered into its saved `a0`; the
    /// result is then `None`.
    pub fn sys_read_input_wait(&mut self, kernel: &mut Kernel) -> (byte: Option<u8>)
        requires
            old(self).serves(old(kernel)),
        ensures
            *final(self) == *old(self),
            final(self).serves(final(kernel)),
            Self::read_input_wait_effect(*old(kernel), *final(kernel), old(self).current_pid, byte),
    {
        let input = kernel.stdin.pop();
        if input.is_some() {
            return input;
        }
        kernel.stdin.register_wakeup(self.current_pid);
        let i = match kernel.scheduler.process_table.position(self.current_pid) {
            Some(i) => i,
            None => {
                assert(false);
                return None;
            },
        };
        let process = &mut kernel.scheduler.process_table.processes[i];
        process.set_waiting_on_syscall();
        proof {
            lemma_update_keeps_wf(old(kernel).scheduler, kernel.scheduler, i as int);
        }
        None
    }

    /// Ends the calling process: it is killed as `Scheduler::kill_current_process`
    /// says, and the ports of its sockets are unbound. The handler then
    /// serves no process.
    pub fn sys_exit(&mut self, kernel: &mut Kernel, status: isize)
        requires
            old(self).serves(old(kernel)),
        ensures
            final(self).process_exit,
            final(self).current_pid == NEVER_PID,
            final(kernel).wf(),
            Self::exit_effect(*old(kernel), *final(kernel), old(self).current_pid),
    {
        self.process_exit = true;
        self.current_pid = NEVER_PID;
        let zombie = kernel.scheduler.kill_current_process(
            &mut kernel.cpu,
            &mut kernel.page_allocator,
        );
        match &zombie {
            Some(dead) => {
                kernel.close_sockets_of(dead);
            },
            None => {},
        }
    }

    /// Starts the program whose name is at `name_ptr`. `name` is the text
    /// read there; it counts only where the pointer is valid. The result is
    /// the pid of the new process.
    pub fn sys_execute(
        &mut self,
        kernel: &mut Kernel,
        name_ptr: u64,
        name_len: u64,
        name: &str,
    ) -> (started: Result<u64, SysExecuteError>)
        requires
            old(self).serves(old(kernel)),
        ensures
            *final(self) == *old(self),
            final(self).serves(final(kernel)),
            Self::execute_effect(*old(kernel), *final(kernel), name_ptr, name_len, name@, started),
    {
        if self.validate_and_translate_pointer(kernel, name_ptr, name_len, false).is_none() {
            return Err(SysExecuteError::InvalidPtr);
        }
        match kernel.scheduler.start_program(name, &mut kernel.page_allocator) {
            Some(pid) => Ok(pid),
            None => Err(SysExecuteError::InvalidProgram),
        }
    }

    /// Lets the calling process wait for the death of the process `pid`, as
    /// `Scheduler::let_current_process_wait_for` says.
    pub fn sys_wait(&mut self, kernel: &mut Kernel, pid: u64) -> (waiting: Result<
        (),
        SysWaitError,
    >)
        requires
            old(self).serves(old(kernel)),
        ensures
            *final(self) == *old(self),
            final(self).serves(final(kernel)),
            Self::wait_effect(*old(kernel), *final(kernel), old(self).current_pid, pid, waiting),
    {
        if kernel.scheduler.let_current_process_wait_for(pid) {
            Ok(())
        } else {
            Err(SysWaitError::InvalidPid)
        }
    }

    /// Gives the calling process `number_of_pages` fresh pages, as
    /// `Process::mmap_pages` says: the result is the address they are mapped
    /// at, or 0 where they cannot be had.
    pub fn sys_mmap_pages(&mut self, kernel: &mut Kernel, number_of_pages: usize) -> (ptr: u64)
        requires
            old(self).serves(old(kernel)),
        ensures
            *final(self) == *old(self),
            final(self).serves(final(kernel)),
            Self::mmap_effect(
                *old(kernel),
                *final(kernel),
                old(self).current_pid,
                number_of_pages,
                ptr,
            ),
    {
        let i = match kernel.scheduler.process_table.position(self.current_pid) {
            Some(i) => i,
            None => {
                assert(false);
                return 0;
            },
        };
        assert(kernel.scheduler.table()[i as int].wf());
        let process = &mut kernel.scheduler.process_table.processes[i];
        let ptr = process.mmap_pages(&mut kernel.page_allocator, number_of_pages);
        proof {
            if ptr != 0 {
                lemma_update_keeps_wf(old(kernel).scheduler, kernel.scheduler, i as int);
            } else {
                assert(kernel.scheduler.table() =~= old(kernel).scheduler.table());
            }
        }
        ptr
    }

    /// Binds a UDP socket of the calling process to `port` and returns its
    /// descriptor. A port that is bound already is refused; so is the call
    /// once the descriptors of the process are used up.
    pub fn sys_open_udp_socket(&mut self, kernel: &mut Kernel, port: u16) -> (opened: Result<
        UDPDescriptor,
        SysSocketError,
    >)
        requires
            old(self).serves(old(kernel)),
        ensures
            *final(self) == *old(self),
            final(self).serves(final(kernel)),
            Self::open_udp_effect(
                *old(kernel),
                *final(kernel),
                old(self).current_pid,
                port,
                opened,
            ),
    {
        let i = match kernel.scheduler.process_table.position(self.current_pid) {
            Some(i) => i,
            None => {
                assert(false);
                return Err(SysSocketError::PortAlreadyUsed);
            },
        };
        if kernel.scheduler.process_table.processes[i].next_free_descriptor == u64::MAX {
            return Err(SysSocketError::PortAlreadyUsed);
        }
        if !kernel.sockets.try_get_socket(port) {
            return Err(SysSocketError::PortAlreadyUsed);
        }
        assert(kernel.scheduler.table()[i as int].wf());
        let process = &mut kernel.scheduler.process_table.processes[i];
        let descriptor = process.put_new_udp_socket(port);
        proof {
            lemma_update_keeps_wf(old(kernel).scheduler, kernel.scheduler, i as int);
        }
        match descriptor {
            Some(descriptor) => Ok(descriptor),
            None => Err(SysSocketError::PortAlreadyUsed),
        }
    }

    /// What `sys_write_back_udp_socket` answers for a process and the sockets
    /// of the system.
    pub open spec fn write_back_result(
        process: Process,
        sockets: Seq<UdpSocket>,
        descriptor: UDPDescriptor,
        buffer_ptr: u64,
        buffer_len: u64,
    ) -> Result<UdpSend, SysSocketError> {
        if !valid_user_range(process, buffer_ptr, buffer_len, false) {
            Err(SysSocketError::InvalidPtr)
        } else {
            match process.spec_socket_port(descriptor) {
                None => Err(SysSocketError::InvalidDescriptor),
                Some(port) => if is_bound(sockets, port) && sockets[socket_place(
                    sockets,
                    port,
                )].from is Some {
                    let from = sockets[socket_place(sockets, port)].from->0;
                    Ok(
                        UdpSend {
                            destination_ip: from.0,
                            destination_port: from.1,
                            source_port: port,
                            length: buffer_len,
                        },
                    )
                } else {
                    Err(SysSocketError::NoReceiveIPYet)
                },
            }
        }
    }

    /// Answers on a socket: the `buffer_len` bytes at `buffer_ptr` are to be
    /// sent from the socket's port to where its last datagram came from. The
    /// result says what to send; the kernel's state does not change.
    pub fn sys_write_back_udp_socket(
        &mut self,
        kernel: &Kernel,
        descriptor: UDPDescriptor,
        buffer_ptr: u64,
        buffer_len: u64,
    ) -> (sent: Result<UdpSend, SysSocketError>)
        requires
            old(self).serves(kernel),
        ensures
            *final(self) == *old(self),
            sent == Self::write_back_result(
                kernel.current(),
                kernel.sockets@,
                descriptor,
                buffer_ptr,
                buffer_len,
            ),
    {
        if self.validate_and_translate_pointer(kernel, buffer_ptr, buffer_len, false).is_none() {
            return Err(SysSocketError::InvalidPtr);
        }
        let process = self.current_process(kernel);
        let port = match process.get_socket_port(descriptor) {
            Some(port) => port,
            None => {
                return Err(SysSocketError::InvalidDescriptor);
            },
        };
        match kernel.sockets.get_from(port) {
            Some(from) => Ok(
                UdpSend {
                    destination_ip: from.0,
                    destination_port: from.1,
                    source_port: port,
                    length: buffer_len,
                },
            ),
            None => Err(SysSocketError::NoReceiveIPYet),
        }
    }

    /// Reads from a socket: takes up to `buffer_len` of the oldest unread
    /// bytes off it. The result is the physical address behind `buffer_ptr`
    /// and the bytes to put there.
    pub fn sys_read_udp_socket(
        &mut self,
        kernel: &mut Kernel,
        descriptor: UDPDescriptor,
        buffer_ptr: u64,
        buffer_len: u64,
    ) -> (received: Result<(u64, Vec<u8>), SysSocketError>)
        requires
            old(self).serves(old(kernel)),
        ensures
            *final(self) == *old(self),
            final(self).serves(final(kernel)),
            Self::read_udp_effect(
                *old(kernel),
                *final(kernel),
                descriptor,
                buffer_ptr,
                buffer_len,
                received,
            ),
    {
        let physical_address = match self.validate_and_translate_pointer(
            kernel,
            buffer_ptr,
            buffer_len,
            true,
        ) {
            Some(physical_address) => physical_address,
            None => {
                return Err(SysSocketError::InvalidPtr);
            },
        };
        let port = match self.current_process(kernel).get_socket_port(descriptor) {
            Some(port) => port,
            None => {
                return Err(SysSocketError::InvalidDescriptor);
            },
        };
        let data = kernel.sockets.get_data(port, buffer_len);
        Ok((physical_address, data))
    }
}

/// Number of the system call that lists the programs.
pub const SYS_PRINT_PROGRAMS: u64 = 1;

/// Number of the system call that asks for a kernel panic.
pub const SYS_PANIC: u64 = 2;

/// Number of the system call that writes a character to the console.
pub const SYS_WRITE_CHAR: u64 = 3;

/// Number of the system call that reads console input without blocking.
pub const SYS_READ_INPUT: u64 = 4;

/// Number of the system call that reads console input and blocks for it.
pub const SYS_READ_INPUT_WAIT: u64 = 5;

/// Number of the system call that ends the calling process.
pub const SYS_EXIT: u64 = 6;

/// Number of the system call that starts a program.
pub const SYS_EXECUTE: u64 = 7;

/// Number of the system call that waits for the death of a process.
pub const SYS_WAIT: u64 = 8;

/// Number of the system call that maps fresh pages.
pub const SYS_MMAP_PAGES: u64 = 9;

/// Number of the system call that opens a UDP socket.
pub const SYS_OPEN_UDP_SOCKET: u64 = 10;

/// Number of the system call that answers on a UDP socket.
pub const SYS_WRITE_BACK_UDP_SOCKET: u64 = 11;

/// Number of the system call that reads from a UDP socket.
pub const SYS_READ_UDP_SOCKET: u64 = 12;

/// What a process gets in `a0` for a system call number that names no call:
/// -1.
pub const INVALID_SYSCALL_NUMBER: u64 = 0xffff_ffff_ffff_ffff;

/// What a process gets in `a0` for a pointer it may not use: -2.
pub const INVALID_POINTER: u64 = 0xffff_ffff_ffff_fffe;

/// What a process gets in `a0` for a program that cannot be started: -3.
pub const INVALID_PROGRAM: u64 = 0xffff_ffff_ffff_fffd;

/// What a process gets in `a0` for a pid that names no live process: -4.
pub const INVALID_PID: u64 = 0xffff_ffff_ffff_fffc;

/// What a process gets in `a0` for a port that cannot be bound: -5.
pub const PORT_ALREADY_USED: u64 = 0xffff_ffff_ffff_fffb;

/// What a process gets in `a0` for a descriptor that names no socket: -6.
pub const INVALID_DESCRIPTOR: u64 = 0xffff_ffff_ffff_fffa;

/// What a process gets in `a0` for an answer on a socket that received
/// nothing yet: -7.
pub const NO_RECEIVE_IP_YET: u64 = 0xffff_ffff_ffff_fff9;

/// Whether the number named a system call.
#[derive(Clone, Copy, PartialEq, Eq, Debug, Structural)]
pub enum SyscallStatus {
    Success,
    InvalidSyscallNumber,
}

/// What is left to do outside the kernel's state once a system call was
/// handled.
pub enum SyscallAction {
    /// Nothing.
    Nothing,
    /// Print these program names.
    PrintPrograms(Vec<String>),
    /// Print the character with this code.
    PrintChar(u64),
    /// Halt with a panic in the name of this process.
    Panic(PanicInfo),
    /// Send this datagram; its bytes are those the call pointed at.
    Send(UdpSend),
    /// Put these bytes at this physical address.
    CopyToUser { physical_address: u64, data: Vec<u8> },
}

/// The answer to a system call: whether the number was known, `None` where
/// the call ended the process; what goes into `a0` and `a1` of the caller,
/// `None` where a register keeps its value; and what is left to do.
pub struct SyscallReply {
    pub status: Option<SyscallStatus>,
    pub a0: Option<u64>,
    pub a1: Option<u64>,
    pub action: SyscallAction,
}

/// The tag that stands for a socket error in `a0`.
pub open spec fn spec_socket_error_code(error: SysSocketError) -> u64 {
    match error {
        SysSocketError::PortAlreadyUsed => PORT_ALREADY_USED,
        SysSocketError::InvalidPtr => INVALID_POINTER,
        SysSocketError::InvalidDescriptor => INVALID_DESCRIPTOR,
        SysSocketError::NoReceiveIPYet => NO_RECEIVE_IP_YET,
    }
}

/// The tag that stands for a socket error in `a0`.
pub fn socket_error_code(error: SysSocketError) -> (code: u64)
    ensures
        code == spec_socket_error_code(error),
{
    match error {
        SysSocketError::PortAlreadyUsed => PORT_ALREADY_USED,
        SysSocketError::InvalidPtr => INVALID_POINTER,
        SysSocketError::InvalidDescriptor => INVALID_DESCRIPTOR,
        SysSocketError::NoReceiveIPYet => NO_RECEIVE_IP_YET,
    }
}

/// What `execute` puts into `a0`: the pid, or the tag of the error.
pub open spec fn spec_execute_code(started: Result<u64, SysExecuteError>) -> u64 {
    match started {
        Ok(pid) => pid,
        Err(SysExecuteError::InvalidPtr) => INVALID_POINTER,
        Err(SysExecuteError::InvalidProgram) => INVALID_PROGRAM,
    }
}

/// The oldest byte of console input, if there is one.
pub open spec fn first_input(kernel: Kernel) -> Option<u8> {
    if kernel.stdin.data().len() > 0 {
        Some(kernel.stdin.data()[0])
    } else {
        None
    }
}

/// The console input that is left once `byte`, the oldest, was taken.
pub open spec fn input_behind(kernel: Kernel, byte: Option<u8>) -> Seq<u8> {
    if byte is Some {
        kernel.stdin.data().subrange(1, kernel.stdin.data().len() as int)
    } else {
        kernel.stdin.data()
    }
}

/// What `handle_syscall` does for the call that the registers of the hart
/// describe: the number in `a7`, the arguments from `a0` on.
#[verifier::opaque]
pub open spec fn syscall_effect(
    before: Kernel,
    after: Kernel,
    name: Seq<char>,
    reply: SyscallReply,
) -> bool {
    let nr = before.cpu.trap_frame.spec_get(Register::a7);
    let a0 = before.cpu.trap_frame.spec_get(Register::a0);
    let a1 = before.cpu.trap_frame.spec_get(Register::a1);
    let a2 = before.cpu.trap_frame.spec_get(Register::a2);
    let current = before.scheduler.current_pid;
    if nr == SYS_PRINT_PROGRAMS {
        &&& after == before
        &&& reply.status == Some(SyscallStatus::Success)
        &&& reply.a0 == Some(0u64)
        &&& reply.a1 is None
        &&& reply.action matches SyscallAction::PrintPrograms(names)
        &&& names@.len() == before.scheduler.programs@.len()
        &&& forall|i: int|
            0 <= i < names@.len() ==> (#[trigger] names@[i])@ == before.scheduler.programs@[i].name@
    } else if nr == SYS_PANIC {
        &&& after == before
        &&& reply.status == Some(SyscallStatus::Success)
        &&& reply.a0 is None
        &&& reply.a1 is None
        &&& reply.action matches SyscallAction::Panic(info)
        &&& info.pid == before.current().pid
        &&& info.name@ == before.current().name@
        &&& info.state == before.current().state
    } else if nr == SYS_WRITE_CHAR {
        &&& after == before
        &&& reply.status == Some(SyscallStatus::Success)
        &&& reply.a0 == Some(0u64)
        &&& reply.a1 is None
        &&& reply.action matches SyscallAction::PrintChar(c)
        &&& c == a0
    } else if nr == SYS_READ_INPUT {
        &&& SyscallHandler::read_input_effect(before, after, first_input(before))
        &&& reply.status == Some(SyscallStatus::Success)
        &&& reply.action is Nothing
        &&& match first_input(before) {
            Some(byte) => reply.a0 == Some(1u64) && reply.a1 == Some(byte as u64),
            None => reply.a0 == Some(0u64) && reply.a1 == Some(0u64),
        }
    } else if nr == SYS_READ_INPUT_WAIT {
        &&& SyscallHandler::read_input_wait_effect(before, after, current, first_input(before))
        &&& reply.status == Some(SyscallStatus::Success)
        &&& reply.action is Nothing
        &&& reply.a1 is None
        &&& match first_input(before) {
            Some(byte) => reply.a0 == Some(byte as u64),
            None => reply.a0 is None,
        }
    } else if nr == SYS_EXIT {
        &&& SyscallHandler::exit_effect(before, after, current)
        &&& reply.status is None
        &&& reply.a0 is None
        &&& reply.a1 is None
        &&& reply.action is Nothing
    } else if nr == SYS_EXECUTE {
        &&& reply.status == Some(SyscallStatus::Success)
        &&& reply.action is Nothing
        &&& reply.a1 is None
        &&& exists|started: Result<u64, SysExecuteError>|
            {
                &&& #[trigger] SyscallHandler::execute_effect(before, after, a0, a1, name, started)
                &&& reply.a0 == Some(spec_execute_code(started))
            }
    } else if nr == SYS_WAIT {
        &&& reply.status == Some(SyscallStatus::Success)
        &&& reply.action is Nothing
        &&& reply.a1 is None
        &&& if contains_pid(before.scheduler.table(), a0) {
            &&& SyscallHandler::wait_effect(before, after, current, a0, Ok(()))
            &&& reply.a0 == Some(0u64)
        } else {
            &&& after == before
            &&& reply.a0 == Some(INVALID_PID)
        }
    } else if nr == SYS_MMAP_PAGES {
        &&& reply.status == Some(SyscallStatus::Success)
        &&& reply.action is Nothing
        &&& reply.a1 is None
        &&& reply.a0 is Some
        &&& if a0 <= usize::MAX {
            SyscallHandler::mmap_effect(before, after, current, a0 as usize, reply.a0->0)
        } else {
            after == before && reply.a0 == Some(0u64)
        }
    } else if nr == SYS_OPEN_UDP_SOCKET {
        &&& reply.status == Some(SyscallStatus::Success)
        &&& reply.action is Nothing
        &&& reply.a1 is None
        &&& exists|opened: Result<UDPDescriptor, SysSocketError>|
            {
                &&& #[trigger] SyscallHandler::open_udp_effect(
                    before,
                    after,
                    current,
                    (a0 % 0x1_0000) as u16,
                    opened,
                )
                &&& reply.a0 == Some(
                    match opened {
                        Ok(descriptor) => descriptor,
                        Err(error) => spec_socket_error_code(error),
                    },
                )
            }
    } else if nr == SYS_WRITE_BACK_UDP_SOCKET {
        &&& after == before
        &&& reply.status == Some(SyscallStatus::Success)
        &&& reply.a1 is None
        &&& match SyscallHandler::write_back_result(
            before.current(),
            before.sockets@,
            a0,
            a1,
            a2,
        ) {
            Ok(send) => reply.a0 == Some(a2) && reply.action == SyscallAction::Send(send),
            Err(error) => reply.a0 == Some(spec_socket_error_code(error))
                && reply.action is Nothing,
        }
    } else if nr == SYS_READ_UDP_SOCKET {
        &&& reply.status == Some(SyscallStatus::Success)
        &&& reply.a1 is None
        &&& exists|received: Result<(u64, Vec<u8>), SysSocketError>|
            {
                &&& #[trigger] SyscallHandler::read_udp_effect(before, after, a0, a1, a2, received)
                &&& match received {
                    Ok((physical_address, data)) => {
                        &&& reply.a0 == Some(data@.len() as u64)
                        &&& reply.action matches SyscallAction::CopyToUser {
                            physical_address: target,
                            data: bytes,
                        }
                        &&& target == physical_address
                        &&& bytes@ == data@
                    },
                    Err(error) => reply.a0 == Some(spec_socket_error_code(error))
                        && reply.action is Nothing,
                }
            }
    } else {
        &&& after == before
        &&& reply.status == Some(SyscallStatus::InvalidSyscallNumber)
        &&& reply.a0 == Some(INVALID_SYSCALL_NUMBER)
        &&& reply.a1 is None
        &&& reply.action is Nothing
    }
}

/// Handles the system call that the current process made: reads its number
/// from `a7` and its arguments from `a0` on, checks the arguments, runs the
/// handler and answers. `name` is the text that the first argument of
/// `execute` points at; it counts only for that call and only where the
/// pointer is valid. The registers of the hart are left as they are: the
/// values for them are part of the answer.
pub fn handle_syscall(kernel: &mut Kernel, name: &str) -> (reply: SyscallReply)
    requires
        old(kernel).wf(),
        old(kernel).scheduler.current_pid != NEVER_PID,
    ensures
        final(kernel).wf(),
        syscall_effect(*old(kernel), *final(kernel), name@, reply),
{
    proof {
        reveal(syscall_effect);
    }
    let nr = kernel.cpu.trap_frame.get(Register::a7);
    let a0 = kernel.cpu.trap_frame.get(Register::a0);
    let a1 = kernel.cpu.trap_frame.get(Register::a1);
    let a2 = kernel.cpu.trap_frame.get(Register::a2);
    let mut handler = SyscallHandler::new(&kernel.scheduler);
    let success = Some(SyscallStatus::Success);
    if nr == SYS_PRINT_PROGRAMS {
        let names = handler.sys_print_programs(kernel);
        SyscallReply {
            status: success,
            a0: Some(0),
            a1: None,
            action: SyscallAction::PrintPrograms(names),
        }
    } else if nr == SYS_PANIC {
        let info = handler.sys_panic(kernel);
        SyscallReply { status: success, a0: None, a1: None, action: SyscallAction::Panic(info) }
    } else if nr == SYS_WRITE_CHAR {
        let printed = handler.sys_write_char(a0);
        SyscallReply {
            status: success,
            a0: Some(0),
            a1: None,
            action: SyscallAction::PrintChar(printed),
        }
    } else if nr == SYS_READ_INPUT {
        match handler.sys_read_input(kernel) {
            Some(byte) => SyscallReply {
                status: success,
                a0: Some(1),
                a1: Some(byte as u64),
                action: SyscallAction::Nothing,
            },
            None => SyscallReply {
                status: success,
                a0: Some(0),
                a1: Some(0),
                action: SyscallAction::Nothing,
            },
        }
    } else if nr == SYS_READ_INPUT_WAIT {
        match handler.sys_read_input_wait(kernel) {
            Some(byte) => SyscallReply {
                status: success,
                a0: Some(byte as u64),
                a1: None,
                action: SyscallAction::Nothing,
            },
            None => SyscallReply {
                status: success,
                a0: None,
                a1: None,
                action: SyscallAction::Nothing,
            },
        }
    } else if nr == SYS_EXIT {
        handler.sys_exit(kernel, #[verifier::truncate] (a0 as isize));
        SyscallReply { status: None, a0: None, a1: None, action: SyscallAction::Nothing }
    } else if nr == SYS_EXECUTE {
        let started = handler.sys_execute(kernel, a0, a1, name);
        let code = match started {
            Ok(pid) => pid,
            Err(SysExecuteError::InvalidPtr) => INVALID_POINTER,
            Err(SysExecuteError::InvalidProgram) => INVALID_PROGRAM,
        };
        SyscallReply { status: success, a0: Some(code), a1: None, action: SyscallAction::Nothing }
    } else if nr == SYS_WAIT {
        match handler.sys_wait(kernel, a0) {
            Ok(()) => SyscallReply {
                status: success,
                a0: Some(0),
                a1: None,
                action: SyscallAction::Nothing,
            },
            Err(SysWaitError::InvalidPid) => SyscallReply {
                status: success,
                a0: Some(INVALID_PID),
                a1: None,
                action: SyscallAction::Nothing,
            },
        }
    } else if nr == SYS_MMAP_PAGES {
        if a0 > usize::MAX as u64 {
            return SyscallReply {
                status: success,
                a0: Some(0),
                a1: None,
                action: SyscallAction::Nothing,
            };
        }
        let ptr = handler.sys_mmap_pages(kernel, a0 as usize);
        SyscallReply { status: success, a0: Some(ptr), a1: None, action: SyscallAction::Nothing }
    } else if nr == SYS_OPEN_UDP_SOCKET {
        let port: u16 = (a0 % 0x1_0000) as u16;
        let opened = handler.sys_open_udp_socket(kernel, port);
        let code = match opened {
            Ok(descriptor) => descriptor,
            Err(error) => socket_error_code(error),
        };
        SyscallReply { status: success, a0: Some(code), a1: None, action: SyscallAction::Nothing }
    } else if nr == SYS_WRITE_BACK_UDP_SOCKET {
        match handler.sys_write_back_udp_socket(kernel, a0, a1, a2) {
            Ok(send) => SyscallReply {
                status: success,
                a0: Some(a2),
                a1: None,
                action: SyscallAction::Send(send),
            },
            Err(error) => SyscallReply {
                status: success,
                a0: Some(socket_error_code(error)),
                a1: None,
                action: SyscallAction::Nothing,
            },
        }
    } else if nr == SYS_READ_UDP_SOCKET {
        let received = handler.sys_read_udp_socket(kernel, a0, a1, a2);
        match received {
            Ok((physical_address, data)) => {
                let count = data.len() as u64;
                proof {
                    assert(SyscallHandler::read_udp_effect(
                        *old(kernel),
                        *kernel,
                        a0,
                        a1,
                        a2,
                        Ok((physical_address, data)),
                    ));
                }
                SyscallReply {
                    status: success,
                    a0: Some(count),
                    a1: None,
                    action: SyscallAction::CopyToUser { physical_address, data },
                }
            },
            Err(error) => SyscallReply {
                status: success,
                a0: Some(socket_error_code(error)),
                a1: None,
                action: SyscallAction::Nothing,
            },
        }
    } else {
        SyscallReply {
            status: Some(SyscallStatus::InvalidSyscallNumber),
            a0: Some(INVALID_SYSCALL_NUMBER),
            a1: None,
            action: SyscallAction::Nothing,
        }
    }
}

/// What `sys_mmap_pages` hands out is memory of the caller. Where the pages
/// can be had and mapped, the answer is not 0, lies on a page boundary in
/// the part of the address space that is kept for `mmap`, and every byte of
/// the `number_of_pages` pages from it is mapped for user mode to read and
/// to write; no byte of them was mapped before, and the run of frames behind
/// them is recorded with the frames that the process owns.
pub proof fn lemma_mmap_gives_user_memory(
    before: Kernel,
    after: Kernel,
    number_of_pages: usize,
    ptr: u64,
)
    requires
        before.wf(),
        before.scheduler.current_pid != NEVER_PID,
        before.current().can_mmap(before.page_allocator, number_of_pages as int),
        SyscallHandler::mmap_effect(
            before,
            after,
            before.scheduler.current_pid,
            number_of_pages,
            ptr,
        ),
    ensures
        ptr != 0,
        ptr % PAGE_SIZE == 0,
        FREE_MMAP_START_ADDRESS <= ptr,
        ptr + number_of_pages * PAGE_SIZE <= VIRTUAL_ADDRESS_LIMIT,
        range_unmapped(before.current().page_table@, ptr as int, number_of_pages * PAGE_SIZE),
        forall|a: int|
            ptr <= a < ptr + number_of_pages * PAGE_SIZE ==> #[trigger] user_accessible(
                after.current().page_table@,
                a,
                true,
            ),
        forall|a: int|
            ptr <= a < ptr + number_of_pages * PAGE_SIZE ==> #[trigger] user_accessible(
                after.current().page_table@,
                a,
                false,
            ),
        after.current().allocated_pages@.len() == before.current().allocated_pages@.len() + 1,
        after.current().allocated_pages@.drop_last() == before.current().allocated_pages@,
        exists|s: int|
            #[trigger] is_first_fit(before.page_allocator@, s, number_of_pages as int)
                && after.current().allocated_pages@.last() == before.page_allocator.page_address(
                s,
            ),
{
    let current = before.scheduler.current_pid;
    let table = before.scheduler.table();
    assert(table[position_of(table, current)].wf());
    let s = choose|s: int|
        {
            &&& #[trigger] is_first_fit(before.page_allocator@, s, number_of_pages as int)
            &&& after.current().allocated_pages@ == before.current().allocated_pages@.push(
                before.page_allocator.page_address(s) as u64,
            )
            &&& is_mapping_of(
                before.current().page_table@,
                after.current().page_table@,
                ptr as int,
                before.page_allocator.page_address(s),
                number_of_pages * PAGE_SIZE,
                XWRMode::ReadWrite,
                true,
            )
        };
    let frames = before.page_allocator@.len();
    assert((s + number_of_pages) * PAGE_SIZE <= frames * PAGE_SIZE) by (nonlinear_arith)
        requires
            s + number_of_pages <= frames,
    ;
    assert((s + number_of_pages) * PAGE_SIZE == s * PAGE_SIZE + number_of_pages * PAGE_SIZE)
        by (nonlinear_arith);
    assert(0 <= s * PAGE_SIZE) by (nonlinear_arith)
        requires
            0 <= s,
    ;
    assert(after.current().allocated_pages@.drop_last() =~= before.current().allocated_pages@);
    assert forall|a: int|
        ptr <= a < ptr + number_of_pages * PAGE_SIZE implies user_accessible(
        after.current().page_table@,
        a,
        true,
    ) && user_accessible(after.current().page_table@, a, false) by {
        lemma_map_round_trip(
            before.current().page_table@,
            after.current().page_table@,
            ptr as int,
            before.page_allocator.page_address(s),
            number_of_pages * PAGE_SIZE,
            XWRMode::ReadWrite,
            true,
            a,
        );
    }
}

} // verus!
