use kernel::cpu::{AddressSpace, TrapFrameOwner};
use kernel::interrupts::trap::{
    handle_exception, handle_external_interrupt, handle_supervisor_timer_interrupt,
    supervisor_mode_trap, Register,
};
use kernel::interrupts::trap_cause::{
    InterruptCause, ENVIRONMENT_CALL_FROM_U_MODE, SUPERVISOR_EXTERNAL_INTERRUPT,
    SUPERVISOR_TIMER_INTERRUPT,
};
use kernel::memory::page_tables::XWRMode;
use kernel::memory::PAGE_SIZE;
use kernel::net::UdpSend;
use kernel::processes::loader::{ElfFile, ProgramSegment};
use kernel::processes::process::{ProcessState, FREE_MMAP_START_ADDRESS, NEVER_PID};
use kernel::processes::scheduler::{Program, ScheduleOutcome};
use kernel::state::Kernel;
use kernel::syscalls::handler::{
    handle_syscall, SysExecuteError, SysSocketError, SysWaitError, SyscallAction, SyscallHandler,
    SyscallStatus, INVALID_DESCRIPTOR, INVALID_PID, INVALID_POINTER, INVALID_PROGRAM,
    INVALID_SYSCALL_NUMBER, NO_RECEIVE_IP_YET, PORT_ALREADY_USED, SYS_EXECUTE, SYS_EXIT,
    SYS_MMAP_PAGES, SYS_OPEN_UDP_SOCKET, SYS_PANIC, SYS_PRINT_PROGRAMS, SYS_READ_INPUT,
    SYS_READ_INPUT_WAIT, SYS_READ_UDP_SOCKET, SYS_WAIT, SYS_WRITE_BACK_UDP_SOCKET, SYS_WRITE_CHAR,
};

const IDLE_LOOP: u64 = 0x8000_1234;
const DATA: u64 = 0x2_0000;
const TEXT: u64 = 0x1_0000;

fn elf(entry: u64) -> ElfFile {
    ElfFile {
        entry_address: entry,
        segments: vec![
            ProgramSegment { virtual_address: TEXT, pages: 1, privileges: XWRMode::ReadExecute },
            ProgramSegment { virtual_address: DATA, pages: 2, privileges: XWRMode::ReadWrite },
        ],
    }
}

fn programs() -> Vec<Program> {
    vec![
        Program { name: "loop".to_string(), elf: elf(0x1_0040) },
        Program { name: "panic".to_string(), elf: elf(0x1_00c0) },
    ]
}

/// The kernel with init running.
fn running() -> Kernel {
    let mut kernel =
        Kernel::new(
        0x8020_0000,
        512 * PAGE_SIZE as usize,
        IDLE_LOOP,
        &elf(TEXT),
        programs(),
        Vec::new(),
    );
    assert_eq!(kernel.schedule(), ScheduleOutcome::Run(1));
    kernel
}

fn call(kernel: &mut Kernel, nr: u64, a0: u64, a1: u64, a2: u64) {
    kernel.cpu.trap_frame.set(Register::a7, nr);
    kernel.cpu.trap_frame.set(Register::a0, a0);
    kernel.cpu.trap_frame.set(Register::a1, a1);
    kernel.cpu.trap_frame.set(Register::a2, a2);
}

fn ecall() -> InterruptCause {
    InterruptCause::exception(ENVIRONMENT_CALL_FROM_U_MODE)
}

fn state_of(kernel: &Kernel, pid: u64) -> ProcessState {
    kernel.scheduler.get_process(pid).unwrap().get_state()
}

#[test]
fn boot_and_idle() {
    let mut kernel =
        Kernel::new(
        0x8020_0000,
        512 * PAGE_SIZE as usize,
        IDLE_LOOP,
        &elf(TEXT),
        programs(),
        Vec::new(),
    );
    assert_eq!(kernel.scheduler.get_current_process().get_pid(), NEVER_PID);
    // the first timer tick selects init
    let reply = handle_supervisor_timer_interrupt(&mut kernel);
    assert_eq!(reply.scheduled, Some(ScheduleOutcome::Run(1)));
    assert_eq!(kernel.cpu.timer, Some(10));
    // init reads input and blocks: the hart idles with the timer off
    call(&mut kernel, SYS_READ_INPUT_WAIT, 0, 0, 0);
    let reply = handle_exception(&mut kernel, ecall(), 0, 0x1_0010, "");
    assert_eq!(reply.scheduled, Some(ScheduleOutcome::Idle));
    assert_eq!(state_of(&kernel, 1), ProcessState::WaitingForInput);
    assert_eq!(kernel.cpu.timer, None);
    assert_eq!(kernel.cpu.read_sepc(), IDLE_LOOP);
    assert_eq!(kernel.cpu.sscratch, TrapFrameOwner::Kernel);
    assert_eq!(kernel.cpu.active_page_table, AddressSpace::Kernel);
    // the process stays at its ecall
    assert_eq!(kernel.scheduler.get_process(1).unwrap().get_program_counter(), 0x1_0010);
    // a key delivers exactly one byte to init
    let reply = handle_external_interrupt(&mut kernel, b'x');
    assert_eq!(reply.echo, vec![b'x']);
    assert_eq!(reply.scheduled, Some(ScheduleOutcome::Run(1)));
    assert_eq!(state_of(&kernel, 1), ProcessState::Running);
    assert_eq!(kernel.cpu.trap_frame.get(Register::a0), b'x' as u64);
    // the call has returned: init goes on behind its ecall
    assert_eq!(kernel.cpu.read_sepc(), 0x1_0014);
    assert!(kernel.stdin.is_empty());
    assert!(kernel.cpu.is_timer_enabled());
    assert!(!kernel.scheduler.get_process(1).unwrap().waiting_on_syscall);
}

#[test]
fn input_without_a_reader_is_kept_in_order() {
    let mut kernel = running();
    for byte in [b'a', b'b', b'c'] {
        let reply = handle_external_interrupt(&mut kernel, byte);
        assert_eq!(reply.scheduled, None);
    }
    let mut handler = SyscallHandler::new(&kernel.scheduler);
    assert_eq!(handler.sys_read_input(&mut kernel), Some(b'a'));
    assert_eq!(handler.sys_read_input_wait(&mut kernel), Some(b'b'));
    assert_eq!(handler.sys_read_input(&mut kernel), Some(b'c'));
    assert_eq!(handler.sys_read_input(&mut kernel), None);
    assert_eq!(state_of(&kernel, 1), ProcessState::Running);
}

#[test]
fn echo_follows_the_terminal_rules() {
    let mut kernel = running();
    assert_eq!(handle_external_interrupt(&mut kernel, 8).echo, vec![8, b' ', 8]);
    assert_eq!(handle_external_interrupt(&mut kernel, 10).echo, vec![b'\n']);
    assert_eq!(handle_external_interrupt(&mut kernel, 13).echo, vec![b'\n']);
    assert_eq!(handle_external_interrupt(&mut kernel, b'q').echo, vec![b'q']);
}

#[test]
fn byte_is_broadcast_to_every_waiter() {
    let mut kernel = running();
    let mut handler = SyscallHandler::new(&kernel.scheduler);
    assert_eq!(handler.sys_execute(&mut kernel, DATA, 4, "loop"), Ok(2));
    assert_eq!(handler.sys_read_input_wait(&mut kernel), None);
    assert_eq!(kernel.schedule(), ScheduleOutcome::Run(2));
    let mut handler = SyscallHandler::new(&kernel.scheduler);
    assert_eq!(handler.sys_read_input_wait(&mut kernel), None);
    assert_eq!(kernel.schedule(), ScheduleOutcome::Idle);
    let reply = handle_external_interrupt(&mut kernel, b'z');
    assert_eq!(reply.scheduled, Some(ScheduleOutcome::Run(1)));
    assert_eq!(kernel.cpu.trap_frame.get(Register::a0), b'z' as u64);
    assert_eq!(state_of(&kernel, 2), ProcessState::Runnable);
    assert_eq!(
        kernel.scheduler.get_process(2).unwrap().get_register_state().get(Register::a0),
        b'z' as u64
    );
    assert!(kernel.stdin.is_empty());
    // the next byte finds no waiter and is kept
    handle_external_interrupt(&mut kernel, b'y');
    assert!(!kernel.stdin.is_empty());
}

#[test]
fn syscall_return_advances_past_the_ecall() {
    let mut kernel = running();
    call(&mut kernel, SYS_WRITE_CHAR, b'A' as u64, 0, 0);
    let reply = handle_exception(&mut kernel, ecall(), 0, 0x1_0020, "");
    assert_eq!(kernel.cpu.read_sepc(), 0x1_0024);
    assert_eq!(kernel.cpu.trap_frame.get(Register::a0), 0);
    assert_eq!(reply.scheduled, None);
    let answer = reply.syscall.unwrap();
    assert_eq!(answer.status, Some(SyscallStatus::Success));
    assert!(matches!(answer.action, SyscallAction::PrintChar(65)));
    assert_eq!(state_of(&kernel, 1), ProcessState::Running);
    assert_eq!(kernel.cpu.sscratch, TrapFrameOwner::Process(1));
}

#[test]
fn unknown_syscall_is_an_error_for_the_process() {
    let mut kernel = running();
    for nr in [0, 13, 1000, u64::MAX] {
        call(&mut kernel, nr, 1, 2, 3);
        let answer = handle_syscall(&mut kernel, "");
        assert_eq!(answer.status, Some(SyscallStatus::InvalidSyscallNumber));
        assert_eq!(answer.a0, Some(INVALID_SYSCALL_NUMBER));
        assert_eq!(answer.a0, Some(-1i64 as u64));
    }
    assert_eq!(state_of(&kernel, 1), ProcessState::Running);
}

#[test]
fn print_programs_lists_the_program_table() {
    let mut kernel = running();
    call(&mut kernel, SYS_PRINT_PROGRAMS, 0, 0, 0);
    let answer = handle_syscall(&mut kernel, "");
    match answer.action {
        SyscallAction::PrintPrograms(names) => assert_eq!(names, vec!["loop", "panic"]),
        _ => panic!("no listing"),
    }
}

#[test]
fn panic() {
    let mut kernel = running();
    let mut handler = SyscallHandler::new(&kernel.scheduler);
    assert_eq!(handler.sys_execute(&mut kernel, DATA, 4, "loop"), Ok(2));
    assert_eq!(handler.sys_execute(&mut kernel, DATA, 5, "panic"), Ok(3));
    assert_eq!(kernel.schedule(), ScheduleOutcome::Run(2));
    assert_eq!(kernel.schedule(), ScheduleOutcome::Run(3));
    call(&mut kernel, SYS_PANIC, 0, 0, 0);
    let answer = handle_syscall(&mut kernel, "");
    match answer.action {
        SyscallAction::Panic(info) => {
            let banner = format!(
                "[info][kernel::debugging] Current Process: PID={} NAME={} STATE={:?}",
                info.pid, info.name, info.state
            );
            assert!(banner
                .contains("[info][kernel::debugging] Current Process: PID=3 NAME=panic STATE=Running"));
        }
        _ => panic!("no panic"),
    }
}

#[test]
fn execute_errors_leave_the_state_as_it_is() {
    let mut kernel = running();
    let mut handler = SyscallHandler::new(&kernel.scheduler);
    let free = kernel.page_allocator.free_pages();
    // a pointer into nothing
    assert_eq!(
        handler.sys_execute(&mut kernel, 0x9_0000, 4, "loop"),
        Err(SysExecuteError::InvalidPtr)
    );
    // a pointer that runs off the mapping
    assert_eq!(
        handler.sys_execute(&mut kernel, DATA + 2 * PAGE_SIZE - 2, 4, "loop"),
        Err(SysExecuteError::InvalidPtr)
    );
    assert_eq!(
        handler.sys_execute(&mut kernel, DATA, 7, "missing"),
        Err(SysExecuteError::InvalidProgram)
    );
    assert_eq!(kernel.page_allocator.free_pages(), free);
    assert_eq!(kernel.scheduler.dump().len(), 1);
    assert_eq!(kernel.scheduler.process_table.next_free_pid(), 2);
    assert_eq!(state_of(&kernel, 1), ProcessState::Running);

    call(&mut kernel, SYS_EXECUTE, 0x9_0000, 4, 0);
    assert_eq!(handle_syscall(&mut kernel, "loop").a0, Some(INVALID_POINTER));
    call(&mut kernel, SYS_EXECUTE, DATA, 7, 0);
    assert_eq!(handle_syscall(&mut kernel, "missing").a0, Some(INVALID_PROGRAM));
    call(&mut kernel, SYS_EXECUTE, TEXT, 4, 0);
    assert_eq!(handle_syscall(&mut kernel, "loop").a0, Some(2));
}

#[test]
fn wait_error_leaves_the_state_as_it_is() {
    let mut kernel = running();
    let mut handler = SyscallHandler::new(&kernel.scheduler);
    assert_eq!(handler.sys_wait(&mut kernel, 5), Err(SysWaitError::InvalidPid));
    assert_eq!(state_of(&kernel, 1), ProcessState::Running);
    call(&mut kernel, SYS_WAIT, 5, 0, 0);
    let reply = handle_exception(&mut kernel, ecall(), 0, 0x1_0000, "");
    assert_eq!(reply.syscall.unwrap().a0, Some(INVALID_PID));
    assert_eq!(reply.scheduled, None);
    assert_eq!(kernel.cpu.trap_frame.get(Register::a0), INVALID_PID);
    assert_eq!(kernel.cpu.read_sepc(), 0x1_0004);
}

#[test]
fn wait_blocks_until_the_child_exits() {
    let mut kernel = running();
    call(&mut kernel, SYS_EXECUTE, DATA, 4, 0);
    let reply = handle_exception(&mut kernel, ecall(), 0, 0x1_0000, "loop");
    assert_eq!(reply.syscall.unwrap().a0, Some(2));
    assert_eq!(kernel.cpu.trap_frame.get(Register::a0), 2);
    call(&mut kernel, SYS_WAIT, 2, 0, 0);
    let reply = handle_exception(&mut kernel, ecall(), 0, 0x1_0004, "");
    assert_eq!(reply.scheduled, Some(ScheduleOutcome::Run(2)));
    assert_eq!(state_of(&kernel, 1), ProcessState::Waiting);
    // the wait returns behind its ecall
    assert_eq!(kernel.scheduler.get_process(1).unwrap().get_program_counter(), 0x1_0008);
    // the child exits
    call(&mut kernel, SYS_EXIT, 0, 0, 0);
    let reply = handle_exception(&mut kernel, ecall(), 0, 0x1_0044, "");
    assert_eq!(reply.syscall.unwrap().status, None);
    assert_eq!(reply.scheduled, Some(ScheduleOutcome::Run(1)));
    assert!(kernel.scheduler.get_process(2).is_none());
    assert_eq!(state_of(&kernel, 1), ProcessState::Running);
    assert_eq!(kernel.cpu.trap_frame.get(Register::a0), 0);
    assert_eq!(kernel.cpu.read_sepc(), 0x1_0008);
}

#[test]
fn mmap() {
    let mut kernel = running();
    let before_exec = kernel.page_allocator.free_pages();
    let mut handler = SyscallHandler::new(&kernel.scheduler);
    assert_eq!(handler.sys_execute(&mut kernel, DATA, 4, "loop"), Ok(2));
    assert_eq!(kernel.schedule(), ScheduleOutcome::Run(2));
    let after_exec = kernel.page_allocator.free_pages();
    assert_eq!(after_exec, before_exec - 7);

    let mut handler = SyscallHandler::new(&kernel.scheduler);
    let ptr = handler.sys_mmap_pages(&mut kernel, 3);
    assert_eq!(ptr, FREE_MMAP_START_ADDRESS);
    assert_eq!(ptr % PAGE_SIZE, 0);
    assert_eq!(kernel.page_allocator.free_pages(), after_exec - 3);
    // the process may write all of it and nothing behind it
    assert!(handler.validate_and_translate_pointer(&kernel, ptr, 3 * PAGE_SIZE, true).is_some());
    assert!(handler.validate_and_translate_pointer(&kernel, ptr, 3 * PAGE_SIZE + 1, true).is_none());
    let second = handler.sys_mmap_pages(&mut kernel, 1);
    assert_eq!(second, ptr + 3 * PAGE_SIZE);
    // another process does not see the pages
    assert!(!kernel.scheduler.get_process(1).unwrap().get_page_table().is_valid_userspace_ptr(
        ptr,
        1,
        false
    ));
    // on exit the frames return to the page allocator
    handler.sys_exit(&mut kernel, 0);
    assert!(handler.process_exit);
    assert_eq!(handler.current_pid, NEVER_PID);
    assert_eq!(kernel.page_allocator.free_pages(), before_exec);
}

#[test]
fn mmap_failure_changes_nothing() {
    let mut kernel = running();
    let free = kernel.page_allocator.free_pages();
    let mut handler = SyscallHandler::new(&kernel.scheduler);
    assert_eq!(handler.sys_mmap_pages(&mut kernel, 0), 0);
    assert_eq!(handler.sys_mmap_pages(&mut kernel, 100_000), 0);
    assert_eq!(handler.sys_mmap_pages(&mut kernel, usize::MAX), 0);
    assert_eq!(kernel.page_allocator.free_pages(), free);
    assert_eq!(
        kernel.scheduler.get_process(1).unwrap().free_mmap_address,
        FREE_MMAP_START_ADDRESS
    );
    call(&mut kernel, SYS_MMAP_PAGES, 2, 0, 0);
    assert_eq!(handle_syscall(&mut kernel, "").a0, Some(FREE_MMAP_START_ADDRESS));
    call(&mut kernel, SYS_MMAP_PAGES, u64::MAX, 0, 0);
    assert_eq!(handle_syscall(&mut kernel, "").a0, Some(0));
}

#[test]
fn pointer_validation_translates_to_the_physical_address() {
    let kernel = running();
    let handler = SyscallHandler::new(&kernel.scheduler);
    let process = handler.current_process(&kernel);
    assert_eq!(process.get_pid(), 1);
    let base = process.allocated_pages[0];
    assert_eq!(
        handler.validate_and_translate_pointer(&kernel, DATA + 0x10, 16, true),
        Some(base + PAGE_SIZE + 0x10)
    );
    assert_eq!(handler.validate_and_translate_pointer(&kernel, TEXT, 16, false), Some(base));
    assert_eq!(handler.validate_and_translate_pointer(&kernel, TEXT, 16, true), None);
    assert_eq!(handler.validate_and_translate_pointer(&kernel, 0, 16, false), None);
    assert_eq!(handler.validate_and_translate_pointer(&kernel, 0, 0, false), None);
    assert_eq!(handler.validate_and_translate_pointer(&kernel, DATA, 0, false), Some(base + PAGE_SIZE));
}

#[test]
fn sockets() {
    let mut kernel = running();
    let mut handler = SyscallHandler::new(&kernel.scheduler);
    assert_eq!(handler.sys_open_udp_socket(&mut kernel, 1234), Ok(0));
    assert_eq!(handler.sys_open_udp_socket(&mut kernel, 1234), Err(SysSocketError::PortAlreadyUsed));
    assert_eq!(handler.sys_open_udp_socket(&mut kernel, 4321), Ok(1));
    assert_eq!(kernel.scheduler.get_process(1).unwrap().get_socket_port(1), Some(4321));
    assert_eq!(kernel.scheduler.get_process(1).unwrap().get_socket_port(2), None);

    // nothing received yet
    assert_eq!(
        handler.sys_write_back_udp_socket(&kernel, 0, DATA, 5),
        Err(SysSocketError::NoReceiveIPYet)
    );
    assert_eq!(
        handler.sys_write_back_udp_socket(&kernel, 7, DATA, 5),
        Err(SysSocketError::InvalidDescriptor)
    );
    assert_eq!(
        handler.sys_write_back_udp_socket(&kernel, 0, 0x9_0000, 5),
        Err(SysSocketError::InvalidPtr)
    );
    assert_eq!(handler.sys_read_udp_socket(&mut kernel, 0, DATA, 8), Ok((
        kernel.scheduler.get_process(1).unwrap().allocated_pages[0] + PAGE_SIZE,
        Vec::new()
    )));

    // a datagram arrives
    assert!(kernel.sockets.put_data(1234, 0x0a00_0202, 9999, &b"hello world".to_vec()));
    assert!(!kernel.sockets.put_data(1, 0x0a00_0202, 9999, &b"dropped".to_vec()));
    let (_, data) = handler.sys_read_udp_socket(&mut kernel, 0, DATA, 5).unwrap();
    assert_eq!(data, b"hello");
    let (_, data) = handler.sys_read_udp_socket(&mut kernel, 0, DATA, 100).unwrap();
    assert_eq!(data, b" world");
    // read-only memory cannot take the bytes
    assert_eq!(
        handler.sys_read_udp_socket(&mut kernel, 0, TEXT, 5),
        Err(SysSocketError::InvalidPtr)
    );
    assert_eq!(
        handler.sys_read_udp_socket(&mut kernel, 9, DATA, 5),
        Err(SysSocketError::InvalidDescriptor)
    );
    assert_eq!(
        handler.sys_write_back_udp_socket(&kernel, 0, DATA, 5),
        Ok(UdpSend {
            destination_ip: 0x0a00_0202,
            destination_port: 9999,
            source_port: 1234,
            length: 5
        })
    );

    // through the dispatch, with the errors as tags
    call(&mut kernel, SYS_OPEN_UDP_SOCKET, 1234, 0, 0);
    assert_eq!(handle_syscall(&mut kernel, "").a0, Some(PORT_ALREADY_USED));
    call(&mut kernel, SYS_OPEN_UDP_SOCKET, 80, 0, 0);
    assert_eq!(handle_syscall(&mut kernel, "").a0, Some(2));
    call(&mut kernel, SYS_WRITE_BACK_UDP_SOCKET, 2, DATA, 4);
    assert_eq!(handle_syscall(&mut kernel, "").a0, Some(NO_RECEIVE_IP_YET));
    call(&mut kernel, SYS_WRITE_BACK_UDP_SOCKET, 9, DATA, 4);
    assert_eq!(handle_syscall(&mut kernel, "").a0, Some(INVALID_DESCRIPTOR));
    call(&mut kernel, SYS_WRITE_BACK_UDP_SOCKET, 0, DATA, 4);
    let answer = handle_syscall(&mut kernel, "");
    assert_eq!(answer.a0, Some(4));
    assert!(matches!(answer.action, SyscallAction::Send(send) if send.source_port == 1234));
    kernel.sockets.put_data(80, 1, 2, &vec![1, 2, 3]);
    call(&mut kernel, SYS_READ_UDP_SOCKET, 2, DATA + 8, 2);
    let answer = handle_syscall(&mut kernel, "");
    assert_eq!(answer.a0, Some(2));
    match answer.action {
        SyscallAction::CopyToUser { physical_address, data } => {
            assert_eq!(data, vec![1, 2]);
            assert_eq!(
                physical_address,
                kernel.scheduler.get_process(1).unwrap().allocated_pages[0] + PAGE_SIZE + 8
            );
        }
        _ => panic!("nothing to copy"),
    }
    call(&mut kernel, SYS_READ_UDP_SOCKET, 2, 0, 2);
    assert_eq!(handle_syscall(&mut kernel, "").a0, Some(INVALID_POINTER));

    // the ports are free again once the process is gone
    handler.sys_exit(&mut kernel, 0);
    assert!(!kernel.sockets.is_port_used(1234));
    assert!(!kernel.sockets.is_port_used(4321));
    assert!(!kernel.sockets.is_port_used(80));
}

#[test]
fn read_input_through_the_dispatch() {
    let mut kernel = running();
    call(&mut kernel, SYS_READ_INPUT, 0, 0, 0);
    let answer = handle_syscall(&mut kernel, "");
    assert_eq!((answer.a0, answer.a1), (Some(0), Some(0)));
    handle_external_interrupt(&mut kernel, 200);
    call(&mut kernel, SYS_READ_INPUT, 0, 0, 0);
    let reply = handle_exception(&mut kernel, ecall(), 0, 0x1_0000, "");
    let answer = reply.syscall.unwrap();
    assert_eq!((answer.a0, answer.a1), (Some(1), Some(200)));
    assert_eq!(kernel.cpu.trap_frame.get(Register::a0), 1);
    assert_eq!(kernel.cpu.trap_frame.get(Register::a1), 200);
    handle_external_interrupt(&mut kernel, 7);
    call(&mut kernel, SYS_READ_INPUT_WAIT, 0, 0, 0);
    let answer = handle_syscall(&mut kernel, "");
    assert_eq!((answer.a0, answer.a1), (Some(7), None));
}

#[test]
fn trap_entry_dispatches_by_cause() {
    let mut kernel = running();
    let timer = InterruptCause::interrupt(SUPERVISOR_TIMER_INTERRUPT);
    let reply = supervisor_mode_trap(&mut kernel, timer, 0, 0x1_0000, 0, "");
    assert_eq!(reply.scheduled, Some(ScheduleOutcome::Run(1)));
    assert!(reply.syscall.is_none());
    let external = InterruptCause::interrupt(SUPERVISOR_EXTERNAL_INTERRUPT);
    let reply = supervisor_mode_trap(&mut kernel, external, 0, 0x1_0000, b'k', "");
    assert_eq!(reply.echo, vec![b'k']);
    assert!(!kernel.stdin.is_empty());
    call(&mut kernel, SYS_EXECUTE, DATA, 4, 0);
    let reply = supervisor_mode_trap(&mut kernel, ecall(), 0, 0x1_0000, 0, "loop");
    assert_eq!(reply.syscall.unwrap().a0, Some(2));
    assert_eq!(kernel.cpu.read_sepc(), 0x1_0004);
    // back to user mode: the scratch register points at the frame of the process
    assert_eq!(kernel.cpu.sscratch, TrapFrameOwner::Process(1));
    // the process blocks: the hart idles on its own frame
    call(&mut kernel, SYS_READ_INPUT, 0, 0, 0);
    supervisor_mode_trap(&mut kernel, ecall(), 0, 0x1_0004, 0, "");
    call(&mut kernel, SYS_READ_INPUT_WAIT, 0, 0, 0);
    let reply = supervisor_mode_trap(&mut kernel, ecall(), 0, 0x1_0008, 0, "");
    assert_eq!(reply.scheduled, Some(ScheduleOutcome::Run(2)));
    assert_eq!(kernel.cpu.sscratch, TrapFrameOwner::Process(2));
    call(&mut kernel, SYS_EXIT, 0, 0, 0);
    let reply = supervisor_mode_trap(&mut kernel, ecall(), 0, 0x1_0040, 0, "");
    assert_eq!(reply.scheduled, Some(ScheduleOutcome::Idle));
    assert_eq!(kernel.cpu.sscratch, TrapFrameOwner::Kernel);
}

#[test]
fn scratch_register_follows_the_trap() {
    let mut kernel = running();
    kernel.enter_trap();
    assert_eq!(kernel.cpu.sscratch, TrapFrameOwner::Kernel);
    kernel.leave_trap();
    assert_eq!(kernel.cpu.sscratch, TrapFrameOwner::Process(1));
    kernel.cpu.set_ret_to_kernel_mode(true);
    kernel.leave_trap();
    assert_eq!(kernel.cpu.sscratch, TrapFrameOwner::Kernel);
}

#[test]
fn timer_tick_preempts_in_round_robin() {
    let mut kernel = running();
    let mut handler = SyscallHandler::new(&kernel.scheduler);
    assert_eq!(handler.sys_execute(&mut kernel, DATA, 4, "loop"), Ok(2));
    assert_eq!(handler.sys_execute(&mut kernel, DATA, 4, "loop"), Ok(3));
    let mut picks = Vec::new();
    for _ in 0..6 {
        let reply = handle_supervisor_timer_interrupt(&mut kernel);
        match reply.scheduled {
            Some(ScheduleOutcome::Run(pid)) => picks.push(pid),
            other => panic!("unexpected outcome {:?}", other),
        }
        assert_eq!(kernel.cpu.timer, Some(10));
    }
    assert_eq!(picks, vec![2, 3, 1, 2, 3, 1]);
}

#[test]
fn ctrl_c_frees_the_ports_of_the_process_it_kills() {
    let mut kernel = running();
    let mut handler = SyscallHandler::new(&kernel.scheduler);
    assert_eq!(handler.sys_open_udp_socket(&mut kernel, 7), Ok(0));
    assert_eq!(handler.sys_execute(&mut kernel, DATA, 4, "loop"), Ok(2));
    assert_eq!(kernel.schedule(), ScheduleOutcome::Run(2));
    let mut handler = SyscallHandler::new(&kernel.scheduler);
    assert_eq!(handler.sys_open_udp_socket(&mut kernel, 8), Ok(0));
    assert_eq!(handler.sys_open_udp_socket(&mut kernel, 9), Ok(1));
    assert!(kernel.sockets.put_data(7, 1, 2, &vec![5, 6]));
    let (victim, outcome) = kernel.send_ctrl_c();
    assert_eq!(victim.unwrap().get_pid(), 2);
    assert_eq!(outcome, ScheduleOutcome::Run(1));
    assert!(kernel.sockets.is_port_used(7));
    assert!(!kernel.sockets.is_port_used(8));
    assert!(!kernel.sockets.is_port_used(9));
    // the socket that stays keeps its sender and its unread bytes
    assert_eq!(kernel.sockets.get_from(7), Some((1, 2)));
    assert_eq!(kernel.sockets.get_data(7, 10), vec![5, 6]);
}

#[test]
fn write_char_hands_the_code_on() {
    let mut kernel = running();
    let mut handler = SyscallHandler::new(&kernel.scheduler);
    assert_eq!(handler.sys_write_char(0x1f600), 0x1f600);
    call(&mut kernel, SYS_WRITE_CHAR, 0x41, 0, 0);
    let answer = handle_syscall(&mut kernel, "");
    assert_eq!(answer.a0, Some(0));
    assert!(matches!(answer.action, SyscallAction::PrintChar(0x41)));
}

#[test]
fn kernel_without_room_for_init_has_no_process() {
    let mut kernel = Kernel::new(0x8020_0000, 6 * PAGE_SIZE as usize, IDLE_LOOP, &elf(TEXT), programs(), Vec::new());
    assert_eq!(kernel.page_allocator.total_pages(), 5);
    assert_eq!(kernel.scheduler.dump().len(), 0);
    assert_eq!(kernel.schedule(), ScheduleOutcome::Shutdown);
    let mut kernel = Kernel::new(0x8020_0000, 8 * PAGE_SIZE as usize, IDLE_LOOP, &elf(TEXT), programs(), Vec::new());
    assert_eq!(kernel.page_allocator.total_pages(), 7);
    assert_eq!(kernel.scheduler.dump().len(), 1);
    assert_eq!(kernel.schedule(), ScheduleOutcome::Run(1));
}
