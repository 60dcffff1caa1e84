use kernel::cpu::{AddressSpace, Cpu, TrapFrameOwner, TIME_SLICE_MS};
use kernel::interrupts::trap::Register;
use kernel::memory::page_allocator::PageAllocator;
use kernel::memory::page_tables::XWRMode;
use kernel::memory::PAGE_SIZE;
use kernel::processes::loader::{
    kernel_page_table, ElfFile, MappingDescription, ProgramSegment, STACK_END, STACK_START,
};
use kernel::processes::process::{Process, ProcessState, FREE_MMAP_START_ADDRESS, NEVER_PID};
use kernel::processes::process_table::ProcessTable;
use kernel::processes::scheduler::{
    init, initialize, kill_current_process, let_current_process_wait_for, schedule,
    schedule_program, Program, ScheduleOutcome, Scheduler,
};

const IDLE_LOOP: u64 = 0x8000_1234;

fn elf(entry: u64) -> ElfFile {
    ElfFile {
        entry_address: entry,
        segments: vec![
            ProgramSegment { virtual_address: 0x1_0000, pages: 1, privileges: XWRMode::ReadExecute },
            ProgramSegment { virtual_address: 0x2_0000, pages: 2, privileges: XWRMode::ReadWrite },
        ],
    }
}

fn programs() -> Vec<Program> {
    vec![
        Program { name: "loop".to_string(), elf: elf(0x1_0040) },
        Program { name: "yash".to_string(), elf: elf(0x1_0080) },
        Program { name: "panic".to_string(), elf: elf(0x1_00c0) },
    ]
}

const KERNEL_TEXT: u64 = 0x8000_0000;

fn kernel_mappings() -> Vec<MappingDescription> {
    vec![
        MappingDescription {
            virtual_address_start: KERNEL_TEXT,
            pages: 16,
            privileges: XWRMode::ReadExecute,
        },
        MappingDescription {
            virtual_address_start: KERNEL_TEXT + 16 * PAGE_SIZE,
            pages: 8,
            privileges: XWRMode::ReadWrite,
        },
    ]
}

fn allocator() -> PageAllocator {
    PageAllocator::new(0x8020_0000, 512 * PAGE_SIZE as usize)
}

fn boot() -> (Scheduler, Cpu, PageAllocator) {
    let mut pages = allocator();
    let scheduler = Scheduler::new(&elf(0x1_0000), programs(), kernel_mappings(), &mut pages);
    (scheduler, Cpu::new(IDLE_LOOP), pages)
}

fn state_of(scheduler: &Scheduler, pid: u64) -> ProcessState {
    scheduler.get_process(pid).unwrap().get_state()
}

#[test]
fn boot_makes_init_the_first_process() {
    let (scheduler, _cpu, pages) = boot();
    let listing = scheduler.dump();
    assert_eq!(listing.len(), 1);
    assert_eq!(listing[0].pid, 1);
    assert_eq!(listing[0].name, "init");
    assert_eq!(listing[0].state, ProcessState::Runnable);
    assert_eq!(scheduler.get_current_process().get_pid(), NEVER_PID);
    assert_eq!(scheduler.get_dummy_process().get_pid(), NEVER_PID);
    assert!(scheduler.is_current_process_energy_saver());
    // three pages of segments and four of stack
    assert_eq!(pages.free_pages(), pages.total_pages() - 7);
}

#[test]
fn new_process_starts_at_the_entry_with_a_stack() {
    let (scheduler, _cpu, _pages) = boot();
    let process = scheduler.get_process(1).unwrap();
    assert_eq!(process.get_program_counter(), 0x1_0000);
    assert!(!process.get_in_kernel_mode());
    assert_eq!(process.get_register_state().get(Register::sp), STACK_END);
    assert_eq!(process.get_register_state().get(Register::a0), 0);
    assert_eq!(process.free_mmap_address, FREE_MMAP_START_ADDRESS);
    let tables = process.get_page_table();
    assert!(tables.is_valid_userspace_ptr(0x1_0000, PAGE_SIZE, false));
    assert!(!tables.is_valid_userspace_ptr(0x1_0000, PAGE_SIZE, true));
    assert!(tables.is_valid_userspace_ptr(0x2_0000, 2 * PAGE_SIZE, true));
    assert!(tables.is_valid_userspace_ptr(STACK_START, STACK_END - STACK_START, true));
    assert!(!tables.is_valid_userspace_ptr(STACK_END, 1, false));
    assert!(!tables.is_valid_userspace_ptr(0x3_0000, 1, false));
    // the regions lie one behind the other in one run of pages
    let base = process.allocated_pages[0];
    assert_eq!(tables.translate(0x1_0000), Some(base));
    assert_eq!(tables.translate(0x2_0000), Some(base + PAGE_SIZE));
    assert_eq!(tables.translate(0x2_1008), Some(base + 2 * PAGE_SIZE + 8));
    assert_eq!(tables.translate(STACK_START), Some(base + 3 * PAGE_SIZE));
}

#[test]
fn schedule_installs_the_next_process() {
    let (mut scheduler, mut cpu, _pages) = boot();
    let outcome = scheduler.schedule(&mut cpu);
    assert_eq!(outcome, ScheduleOutcome::Run(1));
    assert_eq!(scheduler.get_current_process().get_pid(), 1);
    assert_eq!(state_of(&scheduler, 1), ProcessState::Running);
    assert_eq!(cpu.read_sepc(), 0x1_0000);
    assert_eq!(cpu.timer, Some(TIME_SLICE_MS));
    assert_eq!(cpu.timer, Some(10));
    assert_eq!(cpu.active_page_table, AddressSpace::Process(1));
    assert_eq!(cpu.sscratch, TrapFrameOwner::Process(1));
    assert!(!cpu.is_in_kernel_mode());
    assert_eq!(cpu.trap_frame.get(Register::sp), STACK_END);
}

#[test]
fn schedule_saves_the_context_of_the_process_it_leaves() {
    let (mut scheduler, mut cpu, mut pages) = boot();
    scheduler.start_program("loop", &mut pages).unwrap();
    assert_eq!(scheduler.schedule(&mut cpu), ScheduleOutcome::Run(1));
    cpu.write_sepc(0x1_0abc);
    cpu.trap_frame.set(Register::t0, 99);
    assert_eq!(scheduler.schedule(&mut cpu), ScheduleOutcome::Run(2));
    let first = scheduler.get_process(1).unwrap();
    assert_eq!(first.get_state(), ProcessState::Runnable);
    assert_eq!(first.get_program_counter(), 0x1_0abc);
    assert_eq!(first.get_register_state().get(Register::t0), 99);
    assert_eq!(cpu.read_sepc(), 0x1_0040);
    assert_eq!(cpu.trap_frame.get(Register::t0), 0);
    assert_eq!(scheduler.schedule(&mut cpu), ScheduleOutcome::Run(1));
    assert_eq!(cpu.read_sepc(), 0x1_0abc);
    assert_eq!(cpu.trap_frame.get(Register::t0), 99);
}

#[test]
fn round_robin_runs_each_runnable_process_once_per_round() {
    let (mut scheduler, mut cpu, mut pages) = boot();
    for _ in 0..4 {
        scheduler.start_program("loop", &mut pages).unwrap();
    }
    // pids 1..=5 are runnable; make pid 3 wait, so that it is skipped
    assert_eq!(scheduler.schedule(&mut cpu), ScheduleOutcome::Run(1));
    assert_eq!(scheduler.schedule(&mut cpu), ScheduleOutcome::Run(2));
    assert_eq!(scheduler.schedule(&mut cpu), ScheduleOutcome::Run(3));
    assert!(scheduler.let_current_process_wait_for(5));
    let mut picks = Vec::new();
    for _ in 0..8 {
        match scheduler.schedule(&mut cpu) {
            ScheduleOutcome::Run(pid) => picks.push(pid),
            other => panic!("unexpected outcome {:?}", other),
        }
    }
    assert_eq!(picks, vec![4, 5, 1, 2, 4, 5, 1, 2]);
}

#[test]
fn idle_when_nothing_is_runnable() {
    let (mut scheduler, mut cpu, _pages) = boot();
    assert_eq!(scheduler.schedule(&mut cpu), ScheduleOutcome::Run(1));
    // init waits for itself: nothing is runnable
    assert!(scheduler.let_current_process_wait_for(1));
    assert_eq!(scheduler.schedule(&mut cpu), ScheduleOutcome::Idle);
    assert_eq!(scheduler.get_current_process().get_pid(), NEVER_PID);
    assert_eq!(cpu.timer, None);
    assert!(!cpu.is_timer_enabled());
    assert_eq!(cpu.read_sepc(), IDLE_LOOP);
    assert!(cpu.is_in_kernel_mode());
    assert_eq!(cpu.active_page_table, AddressSpace::Kernel);
    assert_eq!(cpu.sscratch, TrapFrameOwner::Kernel);
}

#[test]
fn shutdown_when_no_process_is_left() {
    let (mut scheduler, mut cpu, mut pages) = boot();
    assert_eq!(scheduler.schedule(&mut cpu), ScheduleOutcome::Run(1));
    let free = pages.free_pages();
    let zombie = scheduler.kill_current_process(&mut cpu, &mut pages).unwrap();
    assert_eq!(zombie.get_pid(), 1);
    assert_eq!(zombie.get_state(), ProcessState::Zombie);
    assert_eq!(pages.free_pages(), free + 7);
    assert_eq!(pages.free_pages(), pages.total_pages());
    assert_eq!(cpu.active_page_table, AddressSpace::Kernel);
    assert!(scheduler.get_process(1).is_none());
    assert_eq!(scheduler.schedule(&mut cpu), ScheduleOutcome::Shutdown);
    assert!(scheduler.kill_current_process(&mut cpu, &mut pages).is_none());
}

#[test]
fn waiter_is_woken_when_the_process_it_waits_for_dies() {
    let (mut scheduler, mut cpu, mut pages) = boot();
    let child = scheduler.start_program("loop", &mut pages).unwrap();
    assert_eq!(child, 2);
    assert_eq!(scheduler.schedule(&mut cpu), ScheduleOutcome::Run(1));
    cpu.trap_frame.set(Register::a0, 77);
    assert!(scheduler.let_current_process_wait_for(child));
    assert_eq!(state_of(&scheduler, 1), ProcessState::Waiting);
    assert!(scheduler.get_process(child).unwrap().notifies(1));
    assert_eq!(scheduler.schedule(&mut cpu), ScheduleOutcome::Run(2));
    assert_eq!(scheduler.schedule(&mut cpu), ScheduleOutcome::Run(2));
    scheduler.kill_current_process(&mut cpu, &mut pages);
    assert_eq!(state_of(&scheduler, 1), ProcessState::Runnable);
    assert_eq!(scheduler.get_process(1).unwrap().get_register_state().get(Register::a0), 0);
    assert_eq!(scheduler.schedule(&mut cpu), ScheduleOutcome::Run(1));
    assert_eq!(cpu.trap_frame.get(Register::a0), 0);
}

#[test]
fn waiting_for_a_pid_that_is_not_alive_fails() {
    let (mut scheduler, mut cpu, _pages) = boot();
    assert_eq!(scheduler.schedule(&mut cpu), ScheduleOutcome::Run(1));
    assert!(!scheduler.let_current_process_wait_for(2));
    assert!(!scheduler.let_current_process_wait_for(NEVER_PID));
    assert_eq!(state_of(&scheduler, 1), ProcessState::Running);
}

#[test]
fn dead_process_is_forgotten_by_those_it_waited_for() {
    let (mut scheduler, mut cpu, mut pages) = boot();
    scheduler.start_program("loop", &mut pages).unwrap();
    assert_eq!(scheduler.schedule(&mut cpu), ScheduleOutcome::Run(1));
    assert!(scheduler.let_current_process_wait_for(2));
    assert!(scheduler.get_process(2).unwrap().notifies(1));
    // init dies while it waits
    scheduler.kill_current_process(&mut cpu, &mut pages);
    assert!(!scheduler.get_process(2).unwrap().notifies(1));
}

#[test]
fn start_program_hands_out_ascending_pids() {
    let (mut scheduler, _cpu, mut pages) = boot();
    assert_eq!(scheduler.start_program("loop", &mut pages), Some(2));
    assert_eq!(scheduler.start_program("yash", &mut pages), Some(3));
    assert_eq!(scheduler.start_program("nothing", &mut pages), None);
    assert_eq!(scheduler.start_program("loop", &mut pages), Some(4));
    let listing = scheduler.dump();
    let names: Vec<&str> = listing.iter().map(|p| p.name.as_str()).collect();
    assert_eq!(names, vec!["init", "loop", "yash", "loop"]);
    assert_eq!(scheduler.get_process(3).unwrap().get_program_counter(), 0x1_0080);
    assert_eq!(scheduler.get_process(3).unwrap().get_name(), "yash");
}

#[test]
fn start_program_fails_without_memory_and_changes_nothing() {
    let mut pages = PageAllocator::new(0x8020_0000, 12 * PAGE_SIZE as usize);
    let mut scheduler = Scheduler::new(&elf(0x1_0000), programs(), kernel_mappings(), &mut pages);
    assert_eq!(scheduler.dump().len(), 1);
    let free = pages.free_pages();
    assert_eq!(free, 4);
    assert_eq!(scheduler.start_program("loop", &mut pages), None);
    assert_eq!(pages.free_pages(), free);
    assert_eq!(scheduler.dump().len(), 1);
    assert_eq!(scheduler.process_table.next_free_pid(), 2);
}

#[test]
fn program_with_overlapping_segments_is_not_loaded() {
    let mut pages = allocator();
    let overlapping = ElfFile {
        entry_address: 0x1000,
        segments: vec![
            ProgramSegment { virtual_address: 0x1000, pages: 2, privileges: XWRMode::ReadExecute },
            ProgramSegment { virtual_address: 0x2000, pages: 1, privileges: XWRMode::ReadWrite },
        ],
    };
    let free = pages.free_pages();
    assert!(Process::from_elf(&overlapping, "bad", 1, &kernel_mappings(), &mut pages).is_none());
    assert_eq!(pages.free_pages(), free);
    let misaligned = ElfFile {
        entry_address: 0x1000,
        segments: vec![ProgramSegment {
            virtual_address: 0x1800,
            pages: 1,
            privileges: XWRMode::ReadExecute,
        }],
    };
    assert!(Process::from_elf(&misaligned, "bad", 1, &kernel_mappings(), &mut pages).is_none());
    let on_the_stack = ElfFile {
        entry_address: 0x1000,
        segments: vec![ProgramSegment {
            virtual_address: STACK_START,
            pages: 1,
            privileges: XWRMode::ReadWrite,
        }],
    };
    assert!(Process::from_elf(&on_the_stack, "bad", 1, &kernel_mappings(), &mut pages).is_none());
    assert_eq!(pages.free_pages(), free);
    let scheduler = Scheduler::new(&overlapping, Vec::new(), kernel_mappings(), &mut pages);
    assert_eq!(scheduler.dump().len(), 0);
}

#[test]
fn ctrl_c_kills_the_highest_pid_that_is_not_the_shell() {
    let (mut scheduler, mut cpu, mut pages) = boot();
    scheduler.start_program("loop", &mut pages).unwrap();
    scheduler.start_program("yash", &mut pages).unwrap();
    assert_eq!(scheduler.schedule(&mut cpu), ScheduleOutcome::Run(1));
    let (victim, outcome) = scheduler.send_ctrl_c(&mut cpu, &mut pages);
    let victim = victim.unwrap();
    assert_eq!(victim.get_pid(), 2);
    assert_eq!(victim.get_name(), "loop");
    assert_eq!(victim.get_state(), ProcessState::Zombie);
    assert_eq!(outcome, ScheduleOutcome::Run(1));
    let (victim, outcome) = scheduler.send_ctrl_c(&mut cpu, &mut pages);
    assert_eq!(victim.map(|dead| dead.get_pid()), Some(1));
    assert_eq!(outcome, ScheduleOutcome::Run(3));
    let (victim, outcome) = scheduler.send_ctrl_c(&mut cpu, &mut pages);
    assert!(victim.is_none());
    assert_eq!(outcome, ScheduleOutcome::Run(3));
    assert_eq!(scheduler.dump().len(), 1);
}

#[test]
fn execute_then_wait_then_ctrl_c_wakes_init() {
    let (mut scheduler, mut cpu, mut pages) = boot();
    assert_eq!(scheduler.schedule(&mut cpu), ScheduleOutcome::Run(1));
    assert_eq!(scheduler.start_program("loop", &mut pages), Some(2));
    assert!(scheduler.let_current_process_wait_for(2));
    assert_eq!(state_of(&scheduler, 1), ProcessState::Waiting);
    assert_eq!(scheduler.schedule(&mut cpu), ScheduleOutcome::Run(2));
    let (victim, outcome) = scheduler.send_ctrl_c(&mut cpu, &mut pages);
    assert_eq!(victim.map(|dead| dead.get_pid()), Some(2));
    assert_eq!(outcome, ScheduleOutcome::Run(1));
    assert_eq!(state_of(&scheduler, 1), ProcessState::Running);
    assert_eq!(cpu.trap_frame.get(Register::a0), 0);
}

#[test]
fn stress_thirty_two_children() {
    let (mut scheduler, mut cpu, mut pages) = boot();
    let free_before = pages.free_pages();
    assert_eq!(scheduler.schedule(&mut cpu), ScheduleOutcome::Run(1));
    let mut pids = Vec::new();
    for _ in 0..32 {
        pids.push(scheduler.start_program("loop", &mut pages).unwrap());
    }
    assert_eq!(pids, (2..=33).collect::<Vec<u64>>());
    for pid in pids {
        // init waits for the child
        assert_eq!(scheduler.get_current_process().get_pid(), 1);
        assert!(scheduler.let_current_process_wait_for(pid));
        // the children run in turn until the awaited one exits
        loop {
            match scheduler.schedule(&mut cpu) {
                ScheduleOutcome::Run(running) if running == pid => break,
                ScheduleOutcome::Run(running) => assert_ne!(running, 1),
                other => panic!("unexpected outcome {:?}", other),
            }
        }
        assert_eq!(kill_current_process(&mut scheduler, &mut cpu, &mut pages), {
            // behind the dead child round robin starts anew, at init
            ScheduleOutcome::Run(1)
        });
        assert_eq!(cpu.trap_frame.get(Register::a0), 0);
    }
    assert_eq!(scheduler.dump().len(), 1);
    assert_eq!(pages.free_pages(), free_before);
}

#[test]
fn process_table_by_itself() {
    let mut pages = allocator();
    let mut table = ProcessTable::new();
    assert!(table.is_empty());
    assert_eq!(table.next_free_pid(), 1);
    assert_eq!(table.next_runnable(0), None);
    for (pid, name) in [(1, "a"), (2, "b"), (3, "c")] {
        let process = Process::from_elf(&elf(0x1_0000), name, pid, &kernel_mappings(), &mut pages).unwrap();
        table.add_process(process);
    }
    assert!(!table.is_empty());
    assert_eq!(table.next_free_pid(), 4);
    assert_eq!(table.position(2), Some(1));
    assert_eq!(table.position(7), None);
    assert_eq!(table.next_runnable(0), Some(1));
    assert_eq!(table.next_runnable(1), Some(2));
    assert_eq!(table.next_runnable(3), Some(1));
    assert_eq!(table.next_runnable(100), Some(1));
    assert_eq!(table.get_highest_pid_without("c"), Some(2));
    assert_eq!(table.get_highest_pid_without("x"), Some(3));
    assert!(table.kill(2, &mut pages).is_some());
    assert!(table.kill(2, &mut pages).is_none());
    assert_eq!(table.next_runnable(1), Some(3));
    assert_eq!(table.next_free_pid(), 4);
    assert!(table.get_process(2).is_none());
    assert_eq!(table.get_process(3).unwrap().get_name(), "c");
}

#[test]
fn free_functions_compose_the_steps() {
    let mut pages = allocator();
    let mut scheduler = init(&elf(0x1_0000), programs(), kernel_mappings(), &mut pages);
    assert_eq!(scheduler.dump().len(), 1);
    assert_eq!(initialize(&mut scheduler, &elf(0x1_0100), &mut pages), Some(2));
    assert_eq!(scheduler.get_process(2).unwrap().get_name(), "init");
    assert_eq!(schedule_program(&mut scheduler, "loop", &mut pages), Some(3));
    assert_eq!(schedule_program(&mut scheduler, "none", &mut pages), None);
    let mut cpu = Cpu::new(IDLE_LOOP);
    assert_eq!(schedule(&mut scheduler, &mut cpu), ScheduleOutcome::Run(1));
    assert_eq!(let_current_process_wait_for(&mut scheduler, &mut cpu, 9), None);
    assert_eq!(
        let_current_process_wait_for(&mut scheduler, &mut cpu, 3),
        Some(ScheduleOutcome::Run(2))
    );
    assert_eq!(state_of(&scheduler, 1), ProcessState::Waiting);
    assert_eq!(
        kill_current_process(&mut scheduler, &mut cpu, &mut pages),
        ScheduleOutcome::Run(3)
    );
    assert_eq!(
        kill_current_process(&mut scheduler, &mut cpu, &mut pages),
        ScheduleOutcome::Run(1)
    );
    assert_eq!(kill_current_process(&mut scheduler, &mut cpu, &mut pages), ScheduleOutcome::Shutdown);
}

#[test]
fn every_process_maps_the_kernel_for_the_kernel_alone() {
    let (mut scheduler, _cpu, mut pages) = boot();
    scheduler.start_program("loop", &mut pages).unwrap();
    for pid in [1, 2] {
        let tables = scheduler.get_process(pid).unwrap().get_page_table();
        assert_eq!(tables.translate(KERNEL_TEXT + 0x123), Some(KERNEL_TEXT + 0x123));
        assert_eq!(
            tables.translate(KERNEL_TEXT + 23 * PAGE_SIZE + 8),
            Some(KERNEL_TEXT + 23 * PAGE_SIZE + 8)
        );
        assert_eq!(tables.translate(KERNEL_TEXT + 24 * PAGE_SIZE), None);
        let (entry, _) = tables.lookup(KERNEL_TEXT).unwrap();
        assert!(entry.global && !entry.user);
        assert_eq!(entry.xwr, XWRMode::ReadExecute);
        assert_eq!(tables.lookup(KERNEL_TEXT + 16 * PAGE_SIZE).unwrap().0.xwr, XWRMode::ReadWrite);
        assert!(!tables.is_valid_userspace_ptr(KERNEL_TEXT, 1, false));
        assert_eq!(tables.translate_userspace_address(KERNEL_TEXT), None);
    }
}

#[test]
fn program_on_top_of_the_kernel_is_not_loaded() {
    let mut pages = allocator();
    let free = pages.free_pages();
    let on_the_kernel = ElfFile {
        entry_address: KERNEL_TEXT,
        segments: vec![ProgramSegment {
            virtual_address: KERNEL_TEXT + 4 * PAGE_SIZE,
            pages: 1,
            privileges: XWRMode::ReadWrite,
        }],
    };
    assert!(Process::from_elf(&on_the_kernel, "bad", 1, &kernel_mappings(), &mut pages).is_none());
    assert!(Process::from_elf(&on_the_kernel, "fine", 1, &Vec::new(), &mut pages).is_some());
    assert_eq!(pages.free_pages(), free - 5);
}

#[test]
fn kernel_address_space_maps_the_ranges_at_their_own_addresses() {
    let tables = kernel_page_table(&kernel_mappings()).unwrap();
    assert_eq!(tables.translate(KERNEL_TEXT), Some(KERNEL_TEXT));
    assert_eq!(tables.translate(KERNEL_TEXT + 24 * PAGE_SIZE - 1), Some(KERNEL_TEXT + 24 * PAGE_SIZE - 1));
    assert_eq!(tables.translate(KERNEL_TEXT - 1), None);
    assert_eq!(tables.translate(0x1_0000), None);
    let mut overlapping = kernel_mappings();
    overlapping.push(MappingDescription {
        virtual_address_start: KERNEL_TEXT + PAGE_SIZE,
        pages: 1,
        privileges: XWRMode::ReadOnly,
    });
    assert!(kernel_page_table(&overlapping).is_none());
    let misaligned = vec![MappingDescription {
        virtual_address_start: 0x800,
        pages: 1,
        privileges: XWRMode::ReadOnly,
    }];
    assert!(kernel_page_table(&misaligned).is_none());
    assert!(kernel_page_table(&Vec::new()).is_some());
}
