use vstd::prelude::*;

verus! {

/// The conditions under which assembly fails.
#[derive(Debug, Clone, Copy, PartialEq, Eq, Structural)]
pub enum AsmErrorKind {
    /// A label bound twice.
    DuplicateLabel,
    /// A label that is not `[A-Za-z_][A-Za-z0-9_]*`.
    InvalidLabel,
    /// A token that is neither a numeric literal nor a known label.
    InvalidValue,
    /// A literal outside the range its position allows.
    OutOfRange,
    /// An operation given the wrong number of arguments.
    WrongArgCount,
    /// An operation that is no directive and no known instruction.
    UnknownMnemonic,
    /// An `LD`/`ADD` operand combination with no encoding.
    UnsupportedOperands,
    /// A token that should name a register `V0`..`VF` but does not.
    InvalidRegister,
    /// An `ORG` target below the origin or behind the current counter.
    OrgBackwards,
    /// A `DB` or `DW` with no argument, or a `DB` producing no bytes.
    EmptyData,
}

/// The message text for each failure condition.
pub open spec fn spec_message(kind: AsmErrorKind) -> Seq<char> {
    match kind {
        AsmErrorKind::DuplicateLabel => "duplicate label"@,
        AsmErrorKind::InvalidLabel => "invalid label"@,
        AsmErrorKind::InvalidValue => "invalid value"@,
        AsmErrorKind::OutOfRange => "literal out of range"@,
        AsmErrorKind::WrongArgCount => "wrong argument count"@,
        AsmErrorKind::UnknownMnemonic => "unknown instruction"@,
        AsmErrorKind::UnsupportedOperands => "unsupported operand combination"@,
        AsmErrorKind::InvalidRegister => "invalid register"@,
        AsmErrorKind::OrgBackwards => "ORG cannot move backwards"@,
        AsmErrorKind::EmptyData => "directive produced no bytes"@,
    }
}

/// The message text for each failure condition.
pub fn message_for(kind: AsmErrorKind) -> (r: &'static str)
    ensures
        r@ == spec_message(kind),
{
    match kind {
        AsmErrorKind::DuplicateLabel => "duplicate label",
        AsmErrorKind::InvalidLabel => "invalid label",
        AsmErrorKind::InvalidValue => "invalid value",
        AsmErrorKind::OutOfRange => "literal out of range",
        AsmErrorKind::WrongArgCount => "wrong argument count",
        AsmErrorKind::UnknownMnemonic => "unknown instruction",
        AsmErrorKind::UnsupportedOperands => "unsupported operand combination",
        AsmErrorKind::InvalidRegister => "invalid register",
        AsmErrorKind::OrgBackwards => "ORG cannot move backwards",
        AsmErrorKind::EmptyData => "directive produced no bytes",
    }
}

/// An assembly failure: its condition, a human message, and the source
/// line it arose on (1-based), where one is known.
#[derive(Debug, Clone)]
pub struct AssemblerError {
    pub kind: AsmErrorKind,
    pub message: String,
    pub line_no: Option<usize>,
}

/// That `e` reports condition `kind` on line `line_no`.
pub open spec fn is_asm_err(e: AssemblerError, kind: AsmErrorKind, line_no: Option<usize>) -> bool {
    &&& e.kind == kind
    &&& e.line_no == line_no
    &&& e.message@ == spec_message(kind)
}

impl AssemblerError {
    pub fn new(kind: AsmErrorKind, line_no: Option<usize>) -> (r: Self)
        ensures
            is_asm_err(r, kind, line_no),
    {
        AssemblerError { kind, message: message_for(kind).to_owned(), line_no }
    }
}

} // verus!
