use vstd::prelude::*;

verus! {

/// Errors raised by the interpreter core and the headless driver.
///
/// Loading a ROM from disk is the host's business, so no I/O variant
/// appears here; the host reports its own read failures.
#[derive(Debug, Clone, Copy, PartialEq, Eq)]
pub enum Chip8Error {
    /// A ROM longer than the memory after the program start.
    RomTooLarge { size: usize, max: usize },
    /// A fetch past the end of memory; also used for a sprite or register
    /// transfer that would read or write past the end of memory.
    ProgramCounterOutOfBounds(usize),
    /// An opcode outside the instruction set.
    InvalidOpcode(u16),
    /// A `RET` with no active `CALL`.
    StackUnderflow,
    /// A zero argument handed to the headless driver.
    InvalidArgument(&'static str),
}

impl Chip8Error {
    /// A short description of the error, in place of a `Display` impl.
    pub fn describe(&self) -> (r: &'static str)
        ensures
            r@ == spec_describe(*self),
    {
        match self {
            Chip8Error::RomTooLarge { .. } => "ROM too large",
            Chip8Error::ProgramCounterOutOfBounds(_) => {
                "program counter exceeded program memory"
            },
            Chip8Error::InvalidOpcode(_) => "invalid opcode",
            Chip8Error::StackUnderflow => "return instruction with empty stack",
            Chip8Error::InvalidArgument(_) => "invalid argument",
        }
    }
}

/// The text that `describe` returns for each error.
pub open spec fn spec_describe(e: Chip8Error) -> Seq<char> {
    match e {
        Chip8Error::RomTooLarge { .. } => "ROM too large"@,
        Chip8Error::ProgramCounterOutOfBounds(_) => "program counter exceeded program memory"@,
        Chip8Error::InvalidOpcode(_) => "invalid opcode"@,
        Chip8Error::StackUnderflow => "return instruction with empty stack"@,
        Chip8Error::InvalidArgument(_) => "invalid argument"@,
    }
}

} // verus!
