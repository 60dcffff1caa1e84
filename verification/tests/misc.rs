use kernel::cpu::{
    prepare_for_scheduling, satp_value, start_other_harts, AddressSpace, Cpu, TrapFrameOwner,
};
use kernel::memory::init_page_allocator;
use kernel::io::stdin_buf::StdinBuffer;
use kernel::memory::linker_information::LinkerInformation;
use kernel::memory::page_tables::{PageTableEntry, XWRMode};
use kernel::net::OpenUdpSockets;
use kernel::processes::loader::MappingDescription;
use kernel::processes::process::Process;

#[test]
fn cpu_registers() {
    let mut cpu = Cpu::new(0x8000_0000);
    assert_eq!(cpu.read_sepc(), 0);
    assert!(cpu.is_in_kernel_mode());
    cpu.write_sepc(0x1234);
    cpu.set_ret_to_kernel_mode(false);
    cpu.write_sscratch_register(TrapFrameOwner::Process(4));
    cpu.activate_page_table(AddressSpace::Process(4));
    cpu.set_timer(3);
    assert_eq!(cpu.read_sepc(), 0x1234);
    assert!(!cpu.is_in_kernel_mode());
    assert_eq!(cpu.sscratch, TrapFrameOwner::Process(4));
    assert_eq!(cpu.active_page_table, AddressSpace::Process(4));
    assert!(cpu.is_timer_enabled());
    cpu.disable_timer();
    assert!(!cpu.is_timer_enabled());
    assert_eq!(cpu.idle_loop, 0x8000_0000);
    prepare_for_scheduling(&mut cpu);
    assert_eq!(cpu.timer, Some(0));
}

#[test]
fn page_allocator_of_the_heap_region() {
    let pages = init_page_allocator(0x8020_0000, 64 * 4096);
    assert_eq!(pages.total_pages(), 63);
    assert_eq!(pages.free_pages(), 63);
}

#[test]
fn satp_holds_mode_and_root_frame() {
    assert_eq!(satp_value(0), 8 << 60);
    assert_eq!(satp_value(0x80200), (8 << 60) | 0x80200);
    assert_eq!(satp_value(0xfff_ffff_ffff), (8 << 60) | 0xfff_ffff_ffff);
}

#[test]
fn stdin_is_first_in_first_out() {
    let mut stdin = StdinBuffer::new();
    assert!(stdin.is_empty());
    assert_eq!(stdin.pop(), None);
    stdin.register_wakeup(3);
    stdin.register_wakeup(3);
    assert!(stdin.is_empty());
}

#[test]
fn section_sizes() {
    let information = LinkerInformation {
        text_start: 0x8000_0000,
        text_end: 0x8000_4000,
        rodata_start: 0x8000_4000,
        rodata_end: 0x8000_5800,
        data_start: 0x8000_6000,
        data_end: 0x8000_6010,
        heap_start: 0x8010_0000,
        heap_size: 0x10_0000,
        eh_frame_start: 0,
        eh_frame_size: 0,
    };
    assert_eq!(information.text_size(), 0x4000);
    assert_eq!(information.rodata_size(), 0x1800);
    assert_eq!(information.data_size(), 0x10);
    assert_eq!(
        information.all_mappings(),
        vec![
            MappingDescription {
                virtual_address_start: 0x8000_0000,
                pages: 4,
                privileges: XWRMode::ReadExecute
            },
            MappingDescription {
                virtual_address_start: 0x8000_4000,
                pages: 2,
                privileges: XWRMode::ReadOnly
            },
            MappingDescription {
                virtual_address_start: 0x8000_6000,
                pages: 1,
                privileges: XWRMode::ReadWrite
            },
        ]
    );
    let empty = LinkerInformation::default();
    assert_eq!(empty.text_size(), 0);
    assert_eq!(empty.heap_size, 0);
}

#[test]
fn ports_are_bound_once() {
    let mut sockets = OpenUdpSockets::new();
    assert!(sockets.try_get_socket(53));
    assert!(!sockets.try_get_socket(53));
    assert!(sockets.try_get_socket(54));
    assert_eq!(sockets.position(54), Some(1));
    assert_eq!(sockets.get_from(53), None);
    assert!(sockets.put_data(53, 7, 8, &vec![1, 2, 3]));
    assert!(sockets.put_data(53, 9, 10, &vec![4]));
    assert_eq!(sockets.get_from(53), Some((9, 10)));
    assert_eq!(sockets.get_data(53, 0), Vec::<u8>::new());
    assert_eq!(sockets.get_data(53, 2), vec![1, 2]);
    assert_eq!(sockets.get_data(99, 2), Vec::<u8>::new());
    assert_eq!(sockets.get_data(53, 200), vec![3, 4]);
    sockets.close(53);
    sockets.close(53);
    assert!(!sockets.is_port_used(53));
    assert!(sockets.is_port_used(54));
    assert!(sockets.try_get_socket(53));
}

#[test]
fn entry_bits_follow_the_hardware_format() {
    let leaf = PageTableEntry::leaf(0x8020_3000, XWRMode::ReadWrite, true);
    // V, R, W, U, A, D and the frame number from bit 10 on
    assert_eq!(leaf.to_bits(), 0b1101_0111 | (0x80203 << 10));
    assert_eq!(PageTableEntry::from_bits(leaf.to_bits()), Some(leaf));
    let kernel = PageTableEntry::leaf(0x8000_0000, XWRMode::ReadExecute, false);
    // V, R, X, G, A, D
    assert_eq!(kernel.to_bits(), 0b1110_1011 | (0x80000 << 10));
    assert_eq!(PageTableEntry::from_bits(kernel.to_bits()), Some(kernel));
    let pointer = PageTableEntry::pointer(5);
    assert_eq!(pointer.to_bits(), 1 | (5 << 10));
    assert_eq!(PageTableEntry::from_bits(pointer.to_bits()), Some(pointer));
    assert_eq!(PageTableEntry::invalid().to_bits(), 0);
    assert_eq!(PageTableEntry::from_bits(0), Some(PageTableEntry::invalid()));
    // W without R is reserved
    assert_eq!(PageTableEntry::from_bits(0b0101), None);
    assert_eq!(PageTableEntry::from_bits(0b1101), None);
    assert_eq!(XWRMode::from_bits(7), Some(XWRMode::ReadWriteExecute));
    assert_eq!(XWRMode::ExecuteOnly.bits(), 4);
    assert!(XWRMode::ReadWrite.is_writable());
    assert!(!XWRMode::ReadExecute.is_writable());
}

#[test]
fn every_hart_but_the_booting_one_is_started() {
    assert_eq!(start_other_harts(0, 4), vec![1, 2, 3]);
    assert_eq!(start_other_harts(2, 4), vec![0, 1, 3]);
    assert_eq!(start_other_harts(3, 4), vec![0, 1, 2]);
    assert_eq!(start_other_harts(0, 1), Vec::<usize>::new());
    assert_eq!(start_other_harts(7, 2), vec![0, 1]);
    assert_eq!(start_other_harts(0, 0), Vec::<usize>::new());
}

#[test]
fn closing_a_port_leaves_the_other_sockets_as_they_are() {
    let mut sockets = OpenUdpSockets::new();
    assert!(sockets.try_get_socket(1));
    assert!(sockets.try_get_socket(2));
    assert!(sockets.try_get_socket(3));
    assert!(sockets.put_data(1, 10, 11, &vec![1, 1]));
    assert!(sockets.put_data(3, 30, 31, &vec![3, 3, 3]));
    sockets.close(2);
    assert_eq!(sockets.position(1), Some(0));
    assert_eq!(sockets.position(3), Some(1));
    assert_eq!(sockets.get_from(1), Some((10, 11)));
    assert_eq!(sockets.get_from(3), Some((30, 31)));
    sockets.close(9);
    assert_eq!(sockets.get_data(3, 100), vec![3, 3, 3]);
    assert_eq!(sockets.get_data(1, 100), vec![1, 1]);
}

#[test]
fn process_to_wake_is_held_once() {
    let mut process = Process::never();
    assert!(!process.notifies(4));
    process.add_notify_on_die(4);
    process.add_notify_on_die(7);
    process.add_notify_on_die(4);
    assert!(process.notifies(4));
    assert!(process.notifies(7));
    assert_eq!(process.notify_on_die.len(), 2);
    process.remove_notify_on_die(4);
    assert!(!process.notifies(4));
    assert!(process.notifies(7));
    process.remove_notify_on_die(4);
    assert_eq!(process.notify_on_die.len(), 1);
}
