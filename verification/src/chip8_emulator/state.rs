use vstd::prelude::*;

use crate::chip8_emulator::error::Chip8Error;

verus! {

pub const MEMORY_SIZE: usize = 4096;

pub const PROGRAM_START: usize = 0x200;

pub const REGISTER_COUNT: usize = 16;

pub const KEY_COUNT: usize = 16;

pub const SCREEN_WIDTH: usize = 64;

pub const SCREEN_HEIGHT: usize = 32;

pub const SCREEN_SIZE: usize = 2048;

/// The largest ROM that fits in memory after the program start.
pub const MAX_ROM_SIZE: usize = 3584;

/// The complete machine state of one CHIP-8 run.
///
/// The fields are public so that a host (or a test) can inspect and adjust
/// them between cycles; the interpreter itself relies only on `wf`.
#[derive(Debug, Clone)]
pub struct EmulatorState {
    /// 4096 bytes of memory; the font sits at 0, ROMs normally at 0x200.
    pub memory: Vec<u8>,
    /// The sixteen 8-bit registers `V0`..`VF`.
    pub registers: Vec<u8>,
    /// Return addresses of active `CALL`s, innermost last.
    pub stack: Vec<u16>,
    /// One entry per key 0x0..0xF; 1 means pressed.
    pub key_inputs: Vec<u8>,
    /// The 64x32 monochrome framebuffer, row-major, each byte 0 or 1.
    pub screen_buffer: Vec<u8>,
    /// Byte offset of the next instruction to fetch.
    pub pc: usize,
    /// The index register `I`, masked to 12 bits after arithmetic updates.
    pub index: usize,
    pub delay_timer: u8,
    pub sound_timer: u8,
    /// Raised by `DXYN` and `CLS` as a redraw hint for the host.
    pub should_draw: bool,
    /// Raised by opcode `00FD`; cleared only by a full reset.
    pub exited: bool,
    /// The last opcode executed, kept for observability.
    pub op: u16,
}

/// The mathematical model of an `EmulatorState`.
#[verifier::ext_equal]
pub struct StateView {
    pub memory: Seq<u8>,
    pub registers: Seq<u8>,
    pub stack: Seq<u16>,
    pub key_inputs: Seq<u8>,
    pub screen: Seq<u8>,
    pub pc: int,
    pub index: int,
    pub delay_timer: u8,
    pub sound_timer: u8,
    pub should_draw: bool,
    pub exited: bool,
    pub op: u16,
}

impl View for EmulatorState {
    type V = StateView;

    open spec fn view(&self) -> StateView {
        StateView {
            memory: self.memory@,
            registers: self.registers@,
            stack: self.stack@,
            key_inputs: self.key_inputs@,
            screen: self.screen_buffer@,
            pc: self.pc as int,
            index: self.index as int,
            delay_timer: self.delay_timer,
            sound_timer: self.sound_timer,
            should_draw: self.should_draw,
            exited: self.exited,
            op: self.op,
        }
    }
}

/// Well-formedness of a machine state: the invariant that holds between
/// instructions.  Every register is 8-bit by type; the screen holds only
/// 0 or 1; the index register fits in 12 bits.
pub open spec fn wf(v: StateView) -> bool {
    &&& v.memory.len() == MEMORY_SIZE
    &&& v.registers.len() == REGISTER_COUNT
    &&& v.key_inputs.len() == KEY_COUNT
    &&& v.screen.len() == SCREEN_SIZE
    &&& forall|i: int| 0 <= i < v.screen.len() ==> v.screen[i] <= 1
    &&& 0 <= v.index <= 0xFFF
    &&& 0 <= v.pc
}

/// The canonical 5-byte-per-glyph sprite font for hex digits 0..F.
pub open spec fn spec_font() -> Seq<u8> {
    seq![
        0xF0u8, 0x90, 0x90, 0x90, 0xF0,  // 0
        0x20, 0x60, 0x20, 0x20, 0x70,  // 1
        0xF0, 0x10, 0xF0, 0x80, 0xF0,  // 2
        0xF0, 0x10, 0xF0, 0x10, 0xF0,  // 3
        0x90, 0x90, 0xF0, 0x10, 0x10,  // 4
        0xF0, 0x80, 0xF0, 0x10, 0xF0,  // 5
        0xF0, 0x80, 0xF0, 0x90, 0xF0,  // 6
        0xF0, 0x10, 0x20, 0x40, 0x40,  // 7
        0xF0, 0x90, 0xF0, 0x90, 0xF0,  // 8
        0xF0, 0x90, 0xF0, 0x10, 0xF0,  // 9
        0xF0, 0x90, 0xF0, 0x90, 0x90,  // A
        0xE0, 0x90, 0xE0, 0x90, 0xE0,  // B
        0xF0, 0x80, 0x80, 0x80, 0xF0,  // C
        0xE0, 0x90, 0x90, 0x90, 0xE0,  // D
        0xF0, 0x80, 0xF0, 0x80, 0xF0,  // E
        0xF0, 0x80, 0xF0, 0x80, 0x80,  // F
    ]
}

/// The font, as bytes.
pub fn font_data() -> (r: Vec<u8>)
    ensures
        r@ == spec_font(),
{
    let r: Vec<u8> = vec![
        0xF0u8, 0x90, 0x90, 0x90, 0xF0, 0x20, 0x60, 0x20, 0x20, 0x70, 0xF0, 0x10, 0xF0, 0x80,
        0xF0, 0xF0, 0x10, 0xF0, 0x10, 0xF0, 0x90, 0x90, 0xF0, 0x10, 0x10, 0xF0, 0x80, 0xF0,
        0x10, 0xF0, 0xF0, 0x80, 0xF0, 0x90, 0xF0, 0xF0, 0x10, 0x20, 0x40, 0x40, 0xF0, 0x90,
        0xF0, 0x90, 0xF0, 0xF0, 0x90, 0xF0, 0x10, 0xF0, 0xF0, 0x90, 0xF0, 0x90, 0x90, 0xE0,
        0x90, 0xE0, 0x90, 0xE0, 0xF0, 0x80, 0x80, 0x80, 0xF0, 0xE0, 0x90, 0x90, 0x90, 0xE0,
        0xF0, 0x80, 0xF0, 0x80, 0xF0, 0xF0, 0x80, 0xF0, 0x80, 0x80,
    ];
    proof {
        assert(r@ =~= spec_font());
    }
    r
}

/// One byte of a freshly reset memory: the font at 0..80, the ROM (if any)
/// from 0x200, zero elsewhere.
pub open spec fn spec_fresh_byte(rom: Option<Seq<u8>>, i: int) -> u8 {
    if 0 <= i < 80 {
        spec_font()[i]
    } else {
        match rom {
            Some(r) => if 0x200 <= i < 0x200 + r.len() {
                r[i - 0x200]
            } else {
                0u8
            },
            None => 0u8,
        }
    }
}

pub open spec fn spec_fresh_memory(rom: Option<Seq<u8>>) -> Seq<u8> {
    Seq::new(MEMORY_SIZE as nat, |i: int| spec_fresh_byte(rom, i))
}

/// The state produced by a reset: everything zeroed, font written,
/// `pc` at the program start, the ROM (if any) copied to 0x200.
pub open spec fn spec_fresh_view(rom: Option<Seq<u8>>) -> StateView {
    StateView {
        memory: spec_fresh_memory(rom),
        registers: Seq::new(REGISTER_COUNT as nat, |i: int| 0u8),
        stack: Seq::<u16>::empty(),
        key_inputs: Seq::new(KEY_COUNT as nat, |i: int| 0u8),
        screen: Seq::new(SCREEN_SIZE as nat, |i: int| 0u8),
        pc: PROGRAM_START as int,
        index: 0,
        delay_timer: 0,
        sound_timer: 0,
        should_draw: true,
        exited: false,
        op: 0,
    }
}

impl Default for EmulatorState {
    /// An all-zero state (no font, no ROM) with `pc` at the program start.
    fn default() -> (s: Self)
        ensures
            s@ == (StateView {
                memory: Seq::new(MEMORY_SIZE as nat, |i: int| 0u8),
                registers: Seq::new(REGISTER_COUNT as nat, |i: int| 0u8),
                stack: Seq::<u16>::empty(),
                key_inputs: Seq::new(KEY_COUNT as nat, |i: int| 0u8),
                screen: Seq::new(SCREEN_SIZE as nat, |i: int| 0u8),
                pc: PROGRAM_START as int,
                index: 0,
                delay_timer: 0,
                sound_timer: 0,
                should_draw: true,
                exited: false,
                op: 0,
            }),
    {
        let s = EmulatorState {
            memory: vec![0u8; MEMORY_SIZE],
            registers: vec![0u8; REGISTER_COUNT],
            stack: Vec::new(),
            key_inputs: vec![0u8; KEY_COUNT],
            screen_buffer: vec![0u8; SCREEN_SIZE],
            pc: PROGRAM_START,
            index: 0,
            delay_timer: 0,
            sound_timer: 0,
            should_draw: true,
            exited: false,
            op: 0,
        };
        proof {
            assert(s@.stack =~= Seq::<u16>::empty());
        }
        s
    }
}

/// Creates a reset state, loading `rom` at 0x200 if one is supplied.
/// Fails exactly when the ROM is longer than `MAX_ROM_SIZE` bytes.
pub fn create_state(rom: Option<&Vec<u8>>) -> (r: Result<EmulatorState, Chip8Error>)
    ensures
        match rom {
            None => r matches Ok(s) && s@ == spec_fresh_view(None),
            Some(ro) => if ro@.len() <= MAX_ROM_SIZE {
                r matches Ok(s) && s@ == spec_fresh_view(Some(ro@))
            } else {
                r == Err::<EmulatorState, Chip8Error>(
                    Chip8Error::RomTooLarge { size: ro@.len() as usize, max: MAX_ROM_SIZE },
                )
            },
        },
{
    let mut state = EmulatorState::default();
    match reset_state(&mut state, rom) {
        Ok(()) => Ok(state),
        Err(e) => Err(e),
    }
}

/// Zeroes every part of the state, writes the font, sets `pc` to the
/// program start, and copies `rom` (if any) to 0x200.  Fails exactly when
/// the ROM is too large; the state is then left freshly reset, unloaded.
pub fn reset_state(state: &mut EmulatorState, rom: Option<&Vec<u8>>) -> (r: Result<
    (),
    Chip8Error,
>)
    ensures
        match rom {
            None => r matches Ok(()) && final(state)@ == spec_fresh_view(None),
            Some(ro) => if ro@.len() <= MAX_ROM_SIZE {
                r matches Ok(()) && final(state)@ == spec_fresh_view(Some(ro@))
            } else {
                r == Err::<(), Chip8Error>(
                    Chip8Error::RomTooLarge { size: ro@.len() as usize, max: MAX_ROM_SIZE },
                ) && final(state)@ == spec_fresh_view(None)
            },
        },
{
    state.memory = vec![0u8; MEMORY_SIZE];
    state.registers = vec![0u8; REGISTER_COUNT];
    state.stack = Vec::new();
    state.key_inputs = vec![0u8; KEY_COUNT];
    clear_display(state);

    state.pc = PROGRAM_START;
    state.index = 0;
    state.delay_timer = 0;
    state.sound_timer = 0;
    state.exited = false;
    state.op = 0;

    load_font(state);

    proof {
        assert(state@.stack =~= Seq::<u16>::empty());
        assert(state@.memory =~= spec_fresh_memory(None));
        assert(state@ =~= spec_fresh_view(None));
    }

    match rom {
        None => Ok(()),
        Some(ro) => {
            let r = load_rom(state, ro);
            proof {
                if ro@.len() <= MAX_ROM_SIZE {
                    assert(state@.memory =~= spec_fresh_memory(Some(ro@)));
                    assert(state@ =~= spec_fresh_view(Some(ro@)));
                }
            }
            r
        },
    }
}

/// Clears the framebuffer and raises the redraw hint.
pub fn clear_display(state: &mut EmulatorState)
    ensures
        final(state)@ == (StateView {
            screen: Seq::new(SCREEN_SIZE as nat, |i: int| 0u8),
            should_draw: true,
            ..old(state)@
        }),
{
    state.screen_buffer = vec![0u8; SCREEN_SIZE];
    state.should_draw = true;
    proof {
        assert(state@ =~= (StateView {
            screen: Seq::new(SCREEN_SIZE as nat, |i: int| 0u8),
            should_draw: true,
            ..old(state)@
        }));
    }
}

/// Writes the 80-byte hex font at the start of memory.
pub fn load_font(state: &mut EmulatorState)
    requires
        old(state)@.memory.len() == MEMORY_SIZE,
    ensures
        final(state)@ == (StateView {
            memory: Seq::new(
                MEMORY_SIZE as nat,
                |i: int| if 0 <= i < 80 {
                    spec_font()[i]
                } else {
                    old(state)@.memory[i]
                },
            ),
            ..old(state)@
        }),
{
    let font = font_data();
    let mut i: usize = 0;
    while i < 80
        invariant
            old(state)@.memory.len() == MEMORY_SIZE,
            state@ == (StateView {
                memory: state@.memory,
                ..old(state)@
            }),
            state@.memory.len() == MEMORY_SIZE,
            font@ == spec_font(),
            i <= 80,
            forall|j: int| 0 <= j < i ==> state@.memory[j] == spec_font()[j],
            forall|j: int| i <= j < MEMORY_SIZE ==> state@.memory[j] == old(state)@.memory[j],
        decreases 80 - i,
    {
        state.memory[i] = font[i];
        i += 1;
    }
    proof {
        assert(state@.memory =~= Seq::new(
            MEMORY_SIZE as nat,
            |i: int| if 0 <= i < 80 {
                spec_font()[i]
            } else {
                old(state)@.memory[i]
            },
        ));
        assert(state@ =~= (StateView {
            memory: Seq::new(
                MEMORY_SIZE as nat,
                |i: int| if 0 <= i < 80 {
                    spec_font()[i]
                } else {
                    old(state)@.memory[i]
                },
            ),
            ..old(state)@
        }));
    }
}

/// Copies `rom` into memory starting at the program start.  Fails exactly
/// when the ROM is longer than `MAX_ROM_SIZE` bytes; memory is then
/// unchanged.
pub fn load_rom(state: &mut EmulatorState, rom: &Vec<u8>) -> (r: Result<(), Chip8Error>)
    requires
        old(state)@.memory.len() == MEMORY_SIZE,
    ensures
        rom@.len() > MAX_ROM_SIZE ==> r == Err::<(), Chip8Error>(
            Chip8Error::RomTooLarge { size: rom@.len() as usize, max: MAX_ROM_SIZE },
        ) && final(state)@ == old(state)@,
        rom@.len() <= MAX_ROM_SIZE ==> (r matches Ok(())) && final(state)@ == (StateView {
            memory: Seq::new(
                MEMORY_SIZE as nat,
                |i: int| if PROGRAM_START <= i < PROGRAM_START + rom@.len() {
                    rom@[i - PROGRAM_START]
                } else {
                    old(state)@.memory[i]
                },
            ),
            ..old(state)@
        }),
{
    if rom.len() > MAX_ROM_SIZE {
        return Err(Chip8Error::RomTooLarge { size: rom.len(), max: MAX_ROM_SIZE });
    }

    let mut i: usize = 0;
    while i < rom.len()
        invariant
            rom@.len() <= MAX_ROM_SIZE,
            i <= rom@.len(),
            state@ == (StateView {
                memory: state@.memory,
                ..old(state)@
            }),
            state@.memory.len() == MEMORY_SIZE,
            forall|j: int| 0 <= j < i ==> state@.memory[PROGRAM_START + j] == rom@[j],
            forall|j: int|
                0 <= j < MEMORY_SIZE && !(PROGRAM_START <= j < PROGRAM_START + i)
                    ==> state@.memory[j] == old(state)@.memory[j],
        decreases rom@.len() - i,
    {
        state.memory[PROGRAM_START + i] = rom[i];
        i += 1;
    }
    proof {
        assert(state@.memory =~= Seq::new(
            MEMORY_SIZE as nat,
            |i: int| if PROGRAM_START <= i < PROGRAM_START + rom@.len() {
                rom@[i - PROGRAM_START]
            } else {
                old(state)@.memory[i]
            },
        ));
        assert(state@ =~= (StateView {
            memory: Seq::new(
                MEMORY_SIZE as nat,
                |i: int| if PROGRAM_START <= i < PROGRAM_START + rom@.len() {
                    rom@[i - PROGRAM_START]
                } else {
                    old(state)@.memory[i]
                },
            ),
            ..old(state)@
        }));
    }
    Ok(())
}

/// The lowest pressed key from index `i` on, if any.
pub open spec fn spec_first_key_from(keys: Seq<u8>, i: int) -> Option<u8>
    decreases keys.len() - i,
{
    if i < 0 || i >= keys.len() {
        None
    } else if keys[i] == 1 {
        Some(i as u8)
    } else {
        spec_first_key_from(keys, i + 1)
    }
}

/// The lowest pressed key, if any.
pub open spec fn spec_first_key(keys: Seq<u8>) -> Option<u8> {
    spec_first_key_from(keys, 0)
}

/// The lowest key index currently pressed, if any.
pub fn first_pressed_key(state: &EmulatorState) -> (r: Option<u8>)
    requires
        state@.key_inputs.len() == KEY_COUNT,
    ensures
        r == spec_first_key(state@.key_inputs),
{
    let mut i: usize = 0;
    while i < KEY_COUNT
        invariant
            i <= KEY_COUNT,
            state@.key_inputs.len() == KEY_COUNT,
            spec_first_key(state@.key_inputs) == spec_first_key_from(state@.key_inputs, i as int),
        decreases KEY_COUNT - i,
    {
        if state.key_inputs[i] == 1 {
            return Some(i as u8);
        }
        i += 1;
    }
    None
}

/// Records a key press or release; indices past 0xF are ignored.
pub fn set_key_state(state: &mut EmulatorState, key_index: usize, is_pressed: bool)
    requires
        old(state)@.key_inputs.len() == KEY_COUNT,
    ensures
        key_index >= KEY_COUNT ==> final(state)@ == old(state)@,
        key_index < KEY_COUNT ==> final(state)@ == (StateView {
            key_inputs: old(state)@.key_inputs.update(
                key_index as int,
                if is_pressed {
                    1u8
                } else {
                    0u8
                },
            ),
            ..old(state)@
        }),
{
    if key_index >= KEY_COUNT {
        return ;
    }
    state.key_inputs[key_index] = if is_pressed {
        1
    } else {
        0
    };
}

} // verus!
