//! Decoding of the `scause` / `mcause` register.

use vstd::prelude::*;

verus! {

/// The bit of a cause register that tells an interrupt from an exception.
pub const INTERRUPT_BIT: u64 = 0x8000_0000_0000_0000;

/// Interrupt code of the supervisor timer.
pub const SUPERVISOR_TIMER_INTERRUPT: u64 = 5;

/// Interrupt code of the supervisor external interrupt.
pub const SUPERVISOR_EXTERNAL_INTERRUPT: u64 = 9;

/// Exception code of an `ecall` made in user mode.
pub const ENVIRONMENT_CALL_FROM_U_MODE: u64 = 8;

/// The name of the interrupt with this code.
pub open spec fn interrupt_reason(code: int) -> Seq<char> {
    if code == 1 {
        "Supervisor software interrupt"@
    } else if code == 3 {
        "Machine software interrupt"@
    } else if code == 5 {
        "Supervisor timer interrupt"@
    } else if code == 7 {
        "Machine timer interrupt"@
    } else if code == 9 {
        "Supervisor external interrupt"@
    } else if code == 11 {
        "Machine external interrupt"@
    } else if 0 <= code <= 15 {
        "Reserved"@
    } else {
        "Designated for platform use"@
    }
}

/// The name of the exception with this code.
pub open spec fn exception_reason(code: int) -> Seq<char> {
    if code == 0 {
        "Instruction address misaligned"@
    } else if code == 1 {
        "Instruction access fault"@
    } else if code == 2 {
        "Illegal instruction"@
    } else if code == 3 {
        "Breakpoint"@
    } else if code == 4 {
        "Load address misaligned"@
    } else if code == 5 {
        "Load access fault"@
    } else if code == 6 {
        "Store/AMO address misaligned"@
    } else if code == 7 {
        "Store/AMO access fault"@
    } else if code == 8 {
        "Environment call from U-mode"@
    } else if code == 9 {
        "Environment call from S-mode"@
    } else if code == 11 {
        "Environment call from M-Mode"@
    } else if code == 12 {
        "Instruction page fault"@
    } else if code == 13 {
        "Load page fault"@
    } else if code == 15 {
        "Store/AMO page fault"@
    } else if 24 <= code <= 31 || 48 <= code <= 63 {
        "Designated for custom use"@
    } else {
        "Reserved"@
    }
}

/// The name of the cause held in a cause register: the top bit selects the
/// table, the other bits are the code.
pub open spec fn reason(cause: u64) -> Seq<char> {
    if cause >= INTERRUPT_BIT {
        interrupt_reason(cause - INTERRUPT_BIT)
    } else {
        exception_reason(cause as int)
    }
}

/// The value of a cause register.
#[derive(Clone, Copy, PartialEq, Eq, Debug, Structural)]
pub struct InterruptCause {
    pub cause: u64,
}

impl InterruptCause {
    /// The cause of the interrupt with this code.
    pub fn interrupt(code: u64) -> (cause: Self)
        requires
            code < INTERRUPT_BIT,
        ensures
            cause.cause == INTERRUPT_BIT + code,
            cause.spec_is_interrupt(),
            cause.spec_exception_code() == code,
    {
        Self { cause: INTERRUPT_BIT + code }
    }

    /// The cause of the exception with this code.
    pub fn exception(code: u64) -> (cause: Self)
        requires
            code < INTERRUPT_BIT,
        ensures
            cause.cause == code,
            !cause.spec_is_interrupt(),
            cause.spec_exception_code() == code,
    {
        Self { cause: code }
    }

    /// The top bit is set.
    pub open spec fn spec_is_interrupt(&self) -> bool {
        self.cause >= INTERRUPT_BIT
    }

    /// The cause without its top bit.
    pub open spec fn spec_exception_code(&self) -> u64 {
        if self.cause >= INTERRUPT_BIT {
            (self.cause - INTERRUPT_BIT) as u64
        } else {
            self.cause
        }
    }

    /// Whether the trap is an interrupt rather than an exception.
    pub fn is_interrupt(&self) -> (interrupt: bool)
        ensures
            interrupt == self.spec_is_interrupt(),
    {
        self.cause >= INTERRUPT_BIT
    }

    /// The interrupt or exception code.
    pub fn get_exception_code(&self) -> (code: u64)
        ensures
            code == self.spec_exception_code(),
            code < INTERRUPT_BIT,
    {
        if self.cause >= INTERRUPT_BIT {
            self.cause - INTERRUPT_BIT
        } else {
            self.cause
        }
    }

    /// The name of the cause.
    pub fn get_reason(&self) -> (name: &'static str)
        ensures
            name@ == reason(self.cause),
    {
        get_reason(self.cause)
    }
}

/// The name of the cause held in a cause register.
pub fn get_reason(mcause: u64) -> (name: &'static str)
    ensures
        name@ == reason(mcause),
{
    let is_interrupt = mcause >= INTERRUPT_BIT;
    if is_interrupt {
        let code: u64 = mcause - INTERRUPT_BIT;
        if code == 1 {
            "Supervisor software interrupt"
        } else if code == 3 {
            "Machine software interrupt"
        } else if code == 5 {
            "Supervisor timer interrupt"
        } else if code == 7 {
            "Machine timer interrupt"
        } else if code == 9 {
            "Supervisor external interrupt"
        } else if code == 11 {
            "Machine external interrupt"
        } else if code <= 15 {
            "Reserved"
        } else {
            "Designated for platform use"
        }
    } else {
        let code: u64 = mcause;
        if code == 0 {
            "Instruction address misaligned"
        } else if code == 1 {
            "Instruction access fault"
        } else if code == 2 {
            "Illegal instruction"
        } else if code == 3 {
            "Breakpoint"
        } else if code == 4 {
            "Load address misaligned"
        } else if code == 5 {
            "Load access fault"
        } else if code == 6 {
            "Store/AMO address misaligned"
        } else if code == 7 {
            "Store/AMO access fault"
        } else if code == 8 {
            "Environment call from U-mode"
        } else if code == 9 {
            "Environment call from S-mode"
        } else if code == 11 {
            "Environment call from M-Mode"
        } else if code == 12 {
            "Instruction page fault"
        } else if code == 13 {
            "Load page fault"
        } else if code == 15 {
            "Store/AMO page fault"
        } else if (24 <= code && code <= 31) || (48 <= code && code <= 63) {
            "Designated for custom use"
        } else {
            "Reserved"
        }
    }
}

} // verus!
