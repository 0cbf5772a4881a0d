use vstd::prelude::*;

use crate::assembler::text::{chars_of, lower_chars, spec_lower, spec_trim, text_is, trim_chars};

verus! {

/// The four interpreter behaviours on which historical CHIP-8 implementations
/// disagree, fixed for the duration of a run.
#[derive(Debug, Clone, Copy, PartialEq, Eq, Structural)]
pub struct Chip8Quirks {
    /// `8XY6`/`8XYE` shift `VY` into `VX` when true, else shift `VX` in place.
    pub shift_uses_vy: bool,
    /// `FX55`/`FX65` advance `I` by `X + 1` (masked to 12 bits) when true.
    pub load_store_increment_i: bool,
    /// `BNNN` jumps to `NNN + V[high nibble]` when true, else to `NNN + V0`.
    pub jump_with_vx: bool,
    /// `DXYN` wraps pixels that fall off the right/bottom edges when true,
    /// else clips them.
    pub draw_wrap: bool,
}

/// The profile of the original interpreter.
pub open spec fn spec_original_quirks() -> Chip8Quirks {
    Chip8Quirks {
        shift_uses_vy: true,
        load_store_increment_i: true,
        jump_with_vx: false,
        draw_wrap: false,
    }
}

/// The profile of modern interpreters: the negation of each original quirk.
pub open spec fn spec_modern_quirks() -> Chip8Quirks {
    Chip8Quirks {
        shift_uses_vy: false,
        load_store_increment_i: false,
        jump_with_vx: true,
        draw_wrap: true,
    }
}

pub fn original_quirks() -> (q: Chip8Quirks)
    ensures
        q == spec_original_quirks(),
{
    Chip8Quirks {
        shift_uses_vy: true,
        load_store_increment_i: true,
        jump_with_vx: false,
        draw_wrap: false,
    }
}

pub fn modern_quirks() -> (q: Chip8Quirks)
    ensures
        q == spec_modern_quirks(),
{
    Chip8Quirks {
        shift_uses_vy: false,
        load_store_increment_i: false,
        jump_with_vx: true,
        draw_wrap: true,
    }
}


/// Selects a named quirks preset: `original` or `modern`, case-insensitive
/// and ignoring surrounding whitespace; any other name is rejected.
pub fn load_quirks_profile(profile: &str) -> (r: Result<Chip8Quirks, String>)
    ensures
        ({
            let norm = spec_lower(spec_trim(profile@));
            if norm == "original"@ {
                r == Ok::<Chip8Quirks, String>(spec_original_quirks())
            } else if norm == "modern"@ {
                r == Ok::<Chip8Quirks, String>(spec_modern_quirks())
            } else {
                r matches Err(m) && m@
                    == "invalid quirks profile, expected one of: modern, original"@
            }
        }),
{
    let v = chars_of(profile);
    let t = trim_chars(&v);
    let norm = lower_chars(&t);
    if text_is(&norm, "original") {
        Ok(original_quirks())
    } else if text_is(&norm, "modern") {
        Ok(modern_quirks())
    } else {
        Err("invalid quirks profile, expected one of: modern, original".to_owned())
    }
}

} // verus!
