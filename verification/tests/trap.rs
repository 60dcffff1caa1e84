use kernel::interrupts::trap::{can_handle, Register, TrapFrame};
use kernel::interrupts::trap_cause::{
    get_reason, InterruptCause, ENVIRONMENT_CALL_FROM_U_MODE, INTERRUPT_BIT,
    SUPERVISOR_EXTERNAL_INTERRUPT, SUPERVISOR_TIMER_INTERRUPT,
};

#[test]
fn zero_frame_is_all_zero() {
    let frame = TrapFrame::zero();
    for register in [Register::zero, Register::ra, Register::sp, Register::a0, Register::a7, Register::t6] {
        assert_eq!(frame.get(register), 0);
    }
}

#[test]
fn set_changes_one_register() {
    let mut frame = TrapFrame::zero();
    frame.set(Register::a0, 42);
    frame.set(Register::t6, 7);
    assert_eq!(frame.get(Register::a0), 42);
    assert_eq!(frame.get(Register::t6), 7);
    assert_eq!(frame.get(Register::a1), 0);
    assert_eq!(frame.get(Register::s0_fp), 0);
}

#[test]
fn register_numbers() {
    assert_eq!(Register::zero.index(), 0);
    assert_eq!(Register::sp.index(), 2);
    assert_eq!(Register::s0_fp.index(), 8);
    assert_eq!(Register::a0.index(), 10);
    assert_eq!(Register::a7.index(), 17);
    assert_eq!(Register::s2.index(), 18);
    assert_eq!(Register::s11.index(), 27);
    assert_eq!(Register::t3.index(), 28);
    assert_eq!(Register::t6.index(), 31);
}

#[test]
fn interrupt_reasons() {
    let interrupt = |code: u64| get_reason(INTERRUPT_BIT + code);
    assert_eq!(interrupt(0), "Reserved");
    assert_eq!(interrupt(1), "Supervisor software interrupt");
    assert_eq!(interrupt(2), "Reserved");
    assert_eq!(interrupt(3), "Machine software interrupt");
    assert_eq!(interrupt(5), "Supervisor timer interrupt");
    assert_eq!(interrupt(7), "Machine timer interrupt");
    assert_eq!(interrupt(9), "Supervisor external interrupt");
    assert_eq!(interrupt(11), "Machine external interrupt");
    assert_eq!(interrupt(12), "Reserved");
    assert_eq!(interrupt(15), "Reserved");
    assert_eq!(interrupt(16), "Designated for platform use");
    assert_eq!(get_reason(u64::MAX), "Designated for platform use");
}

#[test]
fn exception_reasons() {
    assert_eq!(get_reason(0), "Instruction address misaligned");
    assert_eq!(get_reason(1), "Instruction access fault");
    assert_eq!(get_reason(2), "Illegal instruction");
    assert_eq!(get_reason(3), "Breakpoint");
    assert_eq!(get_reason(4), "Load address misaligned");
    assert_eq!(get_reason(5), "Load access fault");
    assert_eq!(get_reason(6), "Store/AMO address misaligned");
    assert_eq!(get_reason(7), "Store/AMO access fault");
    assert_eq!(get_reason(8), "Environment call from U-mode");
    assert_eq!(get_reason(9), "Environment call from S-mode");
    assert_eq!(get_reason(10), "Reserved");
    assert_eq!(get_reason(11), "Environment call from M-Mode");
    assert_eq!(get_reason(12), "Instruction page fault");
    assert_eq!(get_reason(13), "Load page fault");
    assert_eq!(get_reason(14), "Reserved");
    assert_eq!(get_reason(15), "Store/AMO page fault");
    assert_eq!(get_reason(16), "Reserved");
    assert_eq!(get_reason(23), "Reserved");
    assert_eq!(get_reason(24), "Designated for custom use");
    assert_eq!(get_reason(31), "Designated for custom use");
    assert_eq!(get_reason(32), "Reserved");
    assert_eq!(get_reason(47), "Reserved");
    assert_eq!(get_reason(48), "Designated for custom use");
    assert_eq!(get_reason(63), "Designated for custom use");
    assert_eq!(get_reason(64), "Reserved");
    assert_eq!(get_reason(INTERRUPT_BIT - 1), "Reserved");
}

#[test]
fn cause_is_split_into_kind_and_code() {
    let timer = InterruptCause::interrupt(SUPERVISOR_TIMER_INTERRUPT);
    assert!(timer.is_interrupt());
    assert_eq!(timer.get_exception_code(), 5);
    assert_eq!(timer.get_reason(), "Supervisor timer interrupt");
    let ecall = InterruptCause::exception(ENVIRONMENT_CALL_FROM_U_MODE);
    assert!(!ecall.is_interrupt());
    assert_eq!(ecall.get_exception_code(), 8);
    assert_eq!(ecall.get_reason(), "Environment call from U-mode");
}

#[test]
fn only_three_causes_are_serviced() {
    assert!(can_handle(InterruptCause::interrupt(SUPERVISOR_TIMER_INTERRUPT)));
    assert!(can_handle(InterruptCause::interrupt(SUPERVISOR_EXTERNAL_INTERRUPT)));
    assert!(can_handle(InterruptCause::exception(ENVIRONMENT_CALL_FROM_U_MODE)));
    assert!(!can_handle(InterruptCause::interrupt(ENVIRONMENT_CALL_FROM_U_MODE)));
    assert!(!can_handle(InterruptCause::exception(SUPERVISOR_TIMER_INTERRUPT)));
    assert!(!can_handle(InterruptCause::exception(13)));
    assert!(!can_handle(InterruptCause::interrupt(1)));
}
