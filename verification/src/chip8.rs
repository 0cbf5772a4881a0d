use vstd::prelude::*;

use crate::chip8_emulator::state::spec_font;

verus! {

/// An earlier, self-contained emulator shell: one value holding memory,
/// registers, timers and framebuffer, with its font kept as a field.
pub struct Chip8Emulator {
    /// One entry per key 0x0..0xF; 1 means pressed.
    pub key_inputs: Vec<u8>,
    /// 4096 bytes of memory.
    pub memory: Vec<u8>,
    /// Byte offset of the next instruction.
    pub pc: usize,
    /// The 16-bit index register.
    pub index: u16,
    /// The sixteen 8-bit registers.
    pub registers: Vec<u8>,
    /// A fixed-depth call stack.
    pub stack: Vec<u16>,
    pub sound_timer: u8,
    pub delay_timer: u8,
    /// The 64x32 monochrome framebuffer.
    pub gfx: Vec<u8>,
    /// The 80-byte hex font, kept for loading into memory.
    pub font: Vec<u8>,
}

/// The CHIP-8 keypad value of an ASCII key code under the conventional
/// 4x4 layout (`1234`/`qwer`/`asdf`/`zxcv`).
pub open spec fn spec_key_map(key: u8) -> Option<u8> {
    if key == 0x31 {
        Some(0x01u8)  // '1'
    } else if key == 0x32 {
        Some(0x02u8)  // '2'
    } else if key == 0x33 {
        Some(0x03u8)  // '3'
    } else if key == 0x34 {
        Some(0x0Cu8)  // '4'
    } else if key == 0x71 {
        Some(0x04u8)  // 'q'
    } else if key == 0x77 {
        Some(0x05u8)  // 'w'
    } else if key == 0x65 {
        Some(0x06u8)  // 'e'
    } else if key == 0x72 {
        Some(0x0Du8)  // 'r'
    } else if key == 0x61 {
        Some(0x07u8)  // 'a'
    } else if key == 0x73 {
        Some(0x08u8)  // 's'
    } else if key == 0x64 {
        Some(0x09u8)  // 'd'
    } else if key == 0x66 {
        Some(0x0Eu8)  // 'f'
    } else if key == 0x7A {
        Some(0x0Au8)  // 'z'
    } else if key == 0x78 {
        Some(0x00u8)  // 'x'
    } else if key == 0x63 {
        Some(0x0Bu8)  // 'c'
    } else if key == 0x76 {
        Some(0x0Fu8)  // 'v'
    } else {
        None
    }
}

impl Chip8Emulator {
    /// A zeroed machine with the program counter at 0x200 and the font
    /// ready in its `font` field.
    pub fn new() -> (r: Chip8Emulator)
        ensures
            r.key_inputs@ == Seq::new(16, |i: int| 0u8),
            r.memory@ == Seq::new(4096, |i: int| 0u8),
            r.pc == 0x200,
            r.index == 0,
            r.registers@ == Seq::new(16, |i: int| 0u8),
            r.stack@ == Seq::new(16, |i: int| 0u16),
            r.sound_timer == 0,
            r.delay_timer == 0,
            r.gfx@ == Seq::new(2048, |i: int| 0u8),
            r.font@ == spec_font(),
    {
        let r = Chip8Emulator {
            key_inputs: vec![0u8; 16],
            memory: vec![0u8; 4096],
            pc: 0x200,
            index: 0,
            registers: vec![0u8; 16],
            stack: vec![0u16; 16],
            sound_timer: 0,
            delay_timer: 0,
            gfx: vec![0u8; 2048],
            font: crate::chip8_emulator::state::font_data(),
        };
        r
    }

    /// The keypad value of an ASCII key code; see `spec_key_map`.
    pub fn key_map(key: u8) -> (r: Option<u8>)
        ensures
            r == spec_key_map(key),
    {
        if key == 0x31 {
            Some(0x01)
        } else if key == 0x32 {
            Some(0x02)
        } else if key == 0x33 {
            Some(0x03)
        } else if key == 0x34 {
            Some(0x0C)
        } else if key == 0x71 {
            Some(0x04)
        } else if key == 0x77 {
            Some(0x05)
        } else if key == 0x65 {
            Some(0x06)
        } else if key == 0x72 {
            Some(0x0D)
        } else if key == 0x61 {
            Some(0x07)
        } else if key == 0x73 {
            Some(0x08)
        } else if key == 0x64 {
            Some(0x09)
        } else if key == 0x66 {
            Some(0x0E)
        } else if key == 0x7A {
            Some(0x0A)
        } else if key == 0x78 {
            Some(0x00)
        } else if key == 0x63 {
            Some(0x0B)
        } else if key == 0x76 {
            Some(0x0F)
        } else {
            None
        }
    }

    /// Copies the 80 font bytes to the start of memory.
    pub fn load_font(&mut self)
        requires
            old(self).memory@.len() == 4096,
            old(self).font@.len() == 80,
        ensures
            final(self).memory@ == Seq::new(
                4096,
                |i: int| if 0 <= i < 80 {
                    old(self).font@[i]
                } else {
                    old(self).memory@[i]
                },
            ),
            final(self).key_inputs == old(self).key_inputs,
            final(self).pc == old(self).pc,
            final(self).index == old(self).index,
            final(self).registers == old(self).registers,
            final(self).stack == old(self).stack,
            final(self).sound_timer == old(self).sound_timer,
            final(self).delay_timer == old(self).delay_timer,
            final(self).gfx == old(self).gfx,
            final(self).font == old(self).font,
    {
        let mut i: usize = 0;
        while i < 80
            invariant
                i <= 80,
                self.memory@.len() == 4096,
                self.font@.len() == 80,
                self.font == old(self).font,
                self.key_inputs == old(self).key_inputs,
                self.pc == old(self).pc,
                self.index == old(self).index,
                self.registers == old(self).registers,
                self.stack == old(self).stack,
                self.sound_timer == old(self).sound_timer,
                self.delay_timer == old(self).delay_timer,
                self.gfx == old(self).gfx,
                forall|j: int| 0 <= j < i ==> self.memory@[j] == old(self).font@[j],
                forall|j: int| i <= j < 4096 ==> self.memory@[j] == old(self).memory@[j],
            decreases 80 - i,
        {
            self.memory[i] = self.font[i];
            i += 1;
        }
        proof {
            assert(self.memory@ =~= Seq::new(
                4096,
                |i: int| if 0 <= i < 80 {
                    old(self).font@[i]
                } else {
                    old(self).memory@[i]
                },
            ));
        }
    }

    /// Advances the program counter one instruction.  The counter must
    /// still be inside memory when called.
    pub fn inc_pc(&mut self)
        requires
            old(self).pc < 4096,
        ensures
            *final(self) == (Chip8Emulator { pc: (old(self).pc + 2) as usize, ..*old(self) }),
    {
        self.pc = self.pc + 2;
    }

    /// Rewinds the program counter one instruction, wrapping below zero.
    pub fn dec_pc(&mut self)
        ensures
            old(self).pc >= 2 ==> *final(self) == (Chip8Emulator {
                pc: (old(self).pc - 2) as usize,
                ..*old(self)
            }),
            old(self).pc < 2 ==> *final(self) == (Chip8Emulator {
                pc: (usize::MAX - 1 + old(self).pc) as usize,
                ..*old(self)
            }),
    {
        if self.pc >= 2 {
            self.pc = self.pc - 2;
        } else {
            self.pc = usize::MAX - 1 + self.pc;
        }
    }

    /// The audio hook; this shell has no sound device, so it is a no-op.
    pub fn play_tone(&mut self)
        ensures
            *final(self) == *old(self),
    {
    }
}

} // verus!
