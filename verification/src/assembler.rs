pub mod assembler;
pub mod encoding;
pub mod error;
pub mod text;

pub use assembler::{assemble_text, encode_statements, parse_origin, parse_source, Statement};
pub use encoding::{
    encode_instruction, ensure_range, is_register, parse_numeric_literal, parse_register,
    parse_value, LabelTable,
};
pub use error::{AsmErrorKind, AssemblerError};
