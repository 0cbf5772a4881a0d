use vstd::prelude::*;

use crate::chip8_emulator::error::Chip8Error;
use crate::chip8_emulator::quirks::Chip8Quirks;
use crate::chip8_emulator::state::{
    clear_display, first_pressed_key, spec_first_key, EmulatorState, StateView, wf, KEY_COUNT,
    MEMORY_SIZE, REGISTER_COUNT, SCREEN_HEIGHT, SCREEN_SIZE, SCREEN_WIDTH,
};

verus! {

// ---------------------------------------------------------------------------
// Opcode fields
// ---------------------------------------------------------------------------
/// The top nibble, selecting the instruction family.
pub open spec fn op_fam(op: u16) -> int {
    op as int / 0x1000
}

/// The `X` register index (bits 8..12).
pub open spec fn op_x(op: u16) -> int {
    (op as int / 0x100) % 0x10
}

/// The `Y` register index (bits 4..8).
pub open spec fn op_y(op: u16) -> int {
    (op as int / 0x10) % 0x10
}

/// The 12-bit address field.
pub open spec fn op_nnn(op: u16) -> int {
    op as int % 0x1000
}

/// The low byte.
pub open spec fn op_nn(op: u16) -> u8 {
    (op as int % 0x100) as u8
}

/// The low nibble.
pub open spec fn op_n(op: u16) -> int {
    op as int % 0x10
}

pub fn x_register_index(opcode: u16) -> (r: usize)
    ensures
        r == op_x(opcode),
        r < 16,
{
    ((opcode / 0x100) % 0x10) as usize
}

pub fn y_register_index(opcode: u16) -> (r: usize)
    ensures
        r == op_y(opcode),
        r < 16,
{
    ((opcode / 0x10) % 0x10) as usize
}

pub fn address_nnn(opcode: u16) -> (r: usize)
    ensures
        r == op_nnn(opcode),
        r < 0x1000,
{
    (opcode % 0x1000) as usize
}

pub fn byte_nn(opcode: u16) -> (r: u8)
    ensures
        r == op_nn(opcode),
{
    (opcode % 0x100) as u8
}

pub fn nibble_n(opcode: u16) -> (r: u8)
    ensures
        r == op_n(opcode),
        r < 16,
{
    (opcode % 0x10) as u8
}

// ---------------------------------------------------------------------------
// Byte arithmetic
// ---------------------------------------------------------------------------
/// `(a + b) mod 256`.
pub open spec fn spec_wrap_add(a: u8, b: u8) -> u8 {
    ((a + b) % 256) as u8
}

/// `(a - b) mod 256`.
pub open spec fn spec_wrap_sub(a: u8, b: u8) -> u8 {
    if a >= b {
        (a - b) as u8
    } else {
        (a + 256 - b) as u8
    }
}

// ---------------------------------------------------------------------------
// The step function: what one instruction does to the machine state
// ---------------------------------------------------------------------------
/// The outcome of one instruction: the next state, or an error together
/// with the state as the failing instruction left it.
pub enum StepOut {
    Next(StateView),
    Fail(Chip8Error, StateView),
}

impl StepOut {
    /// The state carried by either outcome.
    pub open spec fn state(self) -> StateView {
        match self {
            StepOut::Next(v) => v,
            StepOut::Fail(_, v) => v,
        }
    }
}

/// How an executable result and final state realise a spec outcome.
pub open spec fn step_matches(out: StepOut, post: StateView, r: Result<(), Chip8Error>) -> bool {
    match out {
        StepOut::Next(v) => r == Ok::<(), Chip8Error>(()) && post == v,
        StepOut::Fail(e, v) => r == Err::<(), Chip8Error>(e) && post == v,
    }
}

/// Family 0: clear screen, return, exit; other machine-code calls are
/// silently ignored.
pub open spec fn spec_step_family0(v: StateView, op: u16) -> StepOut {
    if op == 0x00E0 {
        StepOut::Next(
            StateView {
                screen: Seq::new(SCREEN_SIZE as nat, |i: int| 0u8),
                should_draw: true,
                ..v
            },
        )
    } else if op == 0x00EE {
        if v.stack.len() == 0 {
            StepOut::Fail(Chip8Error::StackUnderflow, v)
        } else {
            StepOut::Next(
                StateView { stack: v.stack.drop_last(), pc: v.stack.last() as int, ..v },
            )
        }
    } else if op == 0x00FD {
        StepOut::Next(StateView { exited: true, ..v })
    } else {
        StepOut::Next(v)
    }
}

/// Family 8: register-to-register arithmetic and shifts.  The flag write
/// to `VF` is the last mutation, so with `X = F` the flag survives.
pub open spec fn spec_step_family8(v: StateView, op: u16, q: Chip8Quirks) -> StepOut {
    let x = op_x(op);
    let y = op_y(op);
    let vx = v.registers[x];
    let vy = v.registers[y];
    let n = op_n(op);
    if n == 0x0 {
        StepOut::Next(StateView { registers: v.registers.update(x, vy), ..v })
    } else if n == 0x1 {
        StepOut::Next(StateView { registers: v.registers.update(x, vx | vy), ..v })
    } else if n == 0x2 {
        StepOut::Next(StateView { registers: v.registers.update(x, vx & vy), ..v })
    } else if n == 0x3 {
        StepOut::Next(StateView { registers: v.registers.update(x, vx ^ vy), ..v })
    } else if n == 0x4 {
        let flag: u8 = if vx + vy > 255 {
            1
        } else {
            0
        };
        StepOut::Next(
            StateView {
                registers: v.registers.update(x, spec_wrap_add(vx, vy)).update(0xF, flag),
                ..v
            },
        )
    } else if n == 0x5 {
        let flag: u8 = if vx >= vy {
            1
        } else {
            0
        };
        StepOut::Next(
            StateView {
                registers: v.registers.update(x, spec_wrap_sub(vx, vy)).update(0xF, flag),
                ..v
            },
        )
    } else if n == 0x6 {
        let s = if q.shift_uses_vy {
            vy
        } else {
            vx
        };
        StepOut::Next(
            StateView {
                registers: v.registers.update(x, s / 2).update(0xF, s % 2),
                ..v
            },
        )
    } else if n == 0x7 {
        let flag: u8 = if vy >= vx {
            1
        } else {
            0
        };
        StepOut::Next(
            StateView {
                registers: v.registers.update(x, spec_wrap_sub(vy, vx)).update(0xF, flag),
                ..v
            },
        )
    } else if n == 0xE {
        let s = if q.shift_uses_vy {
            vy
        } else {
            vx
        };
        StepOut::Next(
            StateView {
                registers: v.registers.update(x, ((s * 2) % 256) as u8).update(0xF, s / 128),
                ..v
            },
        )
    } else {
        StepOut::Fail(Chip8Error::InvalidOpcode(op), v)
    }
}

/// The outcome of an XOR sprite draw: the new screen and whether a lit
/// pixel was erased, or an out-of-bounds sprite read with the screen as
/// drawn so far.
pub enum DrawRes {
    Done { screen: Seq<u8>, hit: bool },
    OutOfBounds { screen: Seq<u8>, addr: int },
}

/// The power of two that selects sprite bit `bit` (bit 0 is leftmost).
pub open spec fn spec_bit_divisor(bit: int) -> u8 {
    if bit == 0 {
        128
    } else if bit == 1 {
        64
    } else if bit == 2 {
        32
    } else if bit == 3 {
        16
    } else if bit == 4 {
        8
    } else if bit == 5 {
        4
    } else if bit == 6 {
        2
    } else {
        1
    }
}

/// XOR-draws the bits of one sprite row from `bit` on, left to right.
/// Without wrapping, drawing stops at the right edge.
pub open spec fn spec_draw_bits(
    screen: Seq<u8>,
    row_byte: u8,
    x0: int,
    y: int,
    wrap: bool,
    bit: int,
) -> (Seq<u8>, bool)
    decreases 8 - bit,
{
    if bit < 0 || bit >= 8 {
        (screen, false)
    } else {
        let xp = x0 + bit;
        if !wrap && xp >= SCREEN_WIDTH {
            (screen, false)
        } else {
            let x = if wrap {
                xp % (SCREEN_WIDTH as int)
            } else {
                xp
            };
            let pixel = (row_byte / spec_bit_divisor(bit)) % 2;
            if pixel == 0 {
                spec_draw_bits(screen, row_byte, x0, y, wrap, bit + 1)
            } else {
                let loc = x + SCREEN_WIDTH * y;
                let prev = screen[loc];
                let rest = spec_draw_bits(screen.update(loc, prev ^ 1), row_byte, x0, y, wrap, bit + 1);
                (rest.0, rest.1 || prev == 1)
            }
        }
    }
}

/// XOR-draws sprite rows from `row` on.  Without wrapping, drawing stops
/// at the bottom edge; a sprite byte outside memory aborts the draw.
pub open spec fn spec_draw_rows(
    mem: Seq<u8>,
    screen: Seq<u8>,
    index: int,
    x0: int,
    y0: int,
    height: int,
    wrap: bool,
    row: int,
) -> DrawRes
    decreases height - row,
{
    if row < 0 || row >= height {
        DrawRes::Done { screen, hit: false }
    } else {
        let yp = y0 + row;
        if !wrap && yp >= SCREEN_HEIGHT {
            DrawRes::Done { screen, hit: false }
        } else {
            let y = if wrap {
                yp % (SCREEN_HEIGHT as int)
            } else {
                yp
            };
            if index + row >= MEMORY_SIZE {
                DrawRes::OutOfBounds { screen, addr: index + row }
            } else {
                let drawn = spec_draw_bits(screen, mem[index + row], x0, y, wrap, 0);
                match spec_draw_rows(mem, drawn.0, index, x0, y0, height, wrap, row + 1) {
                    DrawRes::Done { screen: s, hit } => DrawRes::Done {
                        screen: s,
                        hit: hit || drawn.1,
                    },
                    DrawRes::OutOfBounds { screen: s, addr } => DrawRes::OutOfBounds {
                        screen: s,
                        addr,
                    },
                }
            }
        }
    }
}

/// `DXYN`: draw an `N`-row sprite from `memory[I..]` at `(VX mod 64, VY mod 32)`.
pub open spec fn spec_step_draw(v: StateView, op: u16, q: Chip8Quirks) -> StepOut {
    let x0 = v.registers[op_x(op)] as int % (SCREEN_WIDTH as int);
    let y0 = v.registers[op_y(op)] as int % (SCREEN_HEIGHT as int);
    match spec_draw_rows(v.memory, v.screen, v.index, x0, y0, op_n(op), q.draw_wrap, 0) {
        DrawRes::Done { screen, hit } => StepOut::Next(
            StateView {
                screen,
                registers: v.registers.update(
                    0xF,
                    if hit {
                        1u8
                    } else {
                        0u8
                    },
                ),
                should_draw: true,
                ..v
            },
        ),
        DrawRes::OutOfBounds { screen, addr } => StepOut::Fail(
            Chip8Error::ProgramCounterOutOfBounds(addr as usize),
            StateView { screen, ..v },
        ),
    }
}

/// Family E: skip on key pressed / not pressed.
pub open spec fn spec_step_familye(v: StateView, op: u16) -> StepOut {
    let key = v.registers[op_x(op)] as int % 16;
    let nn = op_nn(op);
    if nn == 0x9E {
        StepOut::Next(
            if v.key_inputs[key] == 1 {
                StateView { pc: v.pc + 2, ..v }
            } else {
                v
            },
        )
    } else if nn == 0xA1 {
        StepOut::Next(
            if v.key_inputs[key] == 0 {
                StateView { pc: v.pc + 2, ..v }
            } else {
                v
            },
        )
    } else {
        StepOut::Fail(Chip8Error::InvalidOpcode(op), v)
    }
}

/// `FX55`: memory with `V0..VX` stored at `I..I+X`.
pub open spec fn spec_store_regs(mem: Seq<u8>, regs: Seq<u8>, index: int, x: int) -> Seq<u8> {
    Seq::new(
        MEMORY_SIZE as nat,
        |i: int| if index <= i <= index + x {
            regs[i - index]
        } else {
            mem[i]
        },
    )
}

/// `FX65`: registers with `V0..VX` loaded from `I..I+X`.
pub open spec fn spec_load_regs(mem: Seq<u8>, regs: Seq<u8>, index: int, x: int) -> Seq<u8> {
    Seq::new(
        REGISTER_COUNT as nat,
        |i: int| if 0 <= i <= x {
            mem[index + i]
        } else {
            regs[i]
        },
    )
}

/// Family F: timers, input wait, index arithmetic, BCD, register transfer.
pub open spec fn spec_step_familyf(v: StateView, op: u16, q: Chip8Quirks) -> StepOut {
    let x = op_x(op);
    let vx = v.registers[x];
    let nn = op_nn(op);
    if nn == 0x07 {
        StepOut::Next(StateView { registers: v.registers.update(x, v.delay_timer), ..v })
    } else if nn == 0x0A {
        match spec_first_key(v.key_inputs) {
            Some(k) => StepOut::Next(StateView { registers: v.registers.update(x, k), ..v }),
            None => StepOut::Next(
                StateView {
                    pc: if v.pc >= 2 {
                        v.pc - 2
                    } else {
                        0
                    },
                    ..v
                },
            ),
        }
    } else if nn == 0x15 {
        StepOut::Next(StateView { delay_timer: vx, ..v })
    } else if nn == 0x18 {
        StepOut::Next(StateView { sound_timer: vx, ..v })
    } else if nn == 0x1E {
        StepOut::Next(StateView { index: (v.index + vx) % 0x1000, ..v })
    } else if nn == 0x29 {
        StepOut::Next(StateView { index: (vx as int % 16) * 5, ..v })
    } else if nn == 0x33 {
        if v.index + 3 > MEMORY_SIZE {
            StepOut::Fail(Chip8Error::ProgramCounterOutOfBounds((v.index + 2) as usize), v)
        } else {
            StepOut::Next(
                StateView {
                    memory: v.memory.update(v.index, vx / 100).update(
                        v.index + 1,
                        (vx % 100) / 10,
                    ).update(v.index + 2, vx % 10),
                    ..v
                },
            )
        }
    } else if nn == 0x55 {
        if v.index + x + 1 > MEMORY_SIZE {
            StepOut::Fail(Chip8Error::ProgramCounterOutOfBounds((v.index + x) as usize), v)
        } else {
            StepOut::Next(
                StateView {
                    memory: spec_store_regs(v.memory, v.registers, v.index, x),
                    index: if q.load_store_increment_i {
                        (v.index + x + 1) % 0x1000
                    } else {
                        v.index
                    },
                    ..v
                },
            )
        }
    } else if nn == 0x65 {
        if v.index + x + 1 > MEMORY_SIZE {
            StepOut::Fail(Chip8Error::ProgramCounterOutOfBounds((v.index + x) as usize), v)
        } else {
            StepOut::Next(
                StateView {
                    registers: spec_load_regs(v.memory, v.registers, v.index, x),
                    index: if q.load_store_increment_i {
                        (v.index + x + 1) % 0x1000
                    } else {
                        v.index
                    },
                    ..v
                },
            )
        }
    } else {
        StepOut::Fail(Chip8Error::InvalidOpcode(op), v)
    }
}

/// What executing `opcode` on state `pre` does, under `quirks`, with `rnd`
/// the byte the random source would hand a `CXKK` instruction.  The opcode
/// is recorded in `op` first; everything else follows the per-family
/// definitions.
pub open spec fn spec_step(pre: StateView, opcode: u16, quirks: Chip8Quirks, rnd: u8) -> StepOut {
    let v = StateView { op: opcode, ..pre };
    let fam = op_fam(opcode);
    let x = op_x(opcode);
    let nnn = op_nnn(opcode);
    let nn = op_nn(opcode);
    if fam == 0x0 {
        spec_step_family0(v, opcode)
    } else if fam == 0x1 {
        StepOut::Next(StateView { pc: nnn, ..v })
    } else if fam == 0x2 {
        StepOut::Next(
            StateView { stack: v.stack.push((v.pc % 0x10000) as u16), pc: nnn, ..v },
        )
    } else if fam == 0x3 {
        StepOut::Next(
            if v.registers[x] == nn {
                StateView { pc: v.pc + 2, ..v }
            } else {
                v
            },
        )
    } else if fam == 0x4 {
        StepOut::Next(
            if v.registers[x] != nn {
                StateView { pc: v.pc + 2, ..v }
            } else {
                v
            },
        )
    } else if fam == 0x5 {
        if op_n(opcode) != 0 {
            StepOut::Fail(Chip8Error::InvalidOpcode(opcode), v)
        } else {
            StepOut::Next(
                if v.registers[x] == v.registers[op_y(opcode)] {
                    StateView { pc: v.pc + 2, ..v }
                } else {
                    v
                },
            )
        }
    } else if fam == 0x6 {
        StepOut::Next(StateView { registers: v.registers.update(x, nn), ..v })
    } else if fam == 0x7 {
        StepOut::Next(
            StateView { registers: v.registers.update(x, spec_wrap_add(v.registers[x], nn)), ..v },
        )
    } else if fam == 0x8 {
        spec_step_family8(v, opcode, quirks)
    } else if fam == 0x9 {
        if op_n(opcode) != 0 {
            StepOut::Fail(Chip8Error::InvalidOpcode(opcode), v)
        } else {
            StepOut::Next(
                if v.registers[x] != v.registers[op_y(opcode)] {
                    StateView { pc: v.pc + 2, ..v }
                } else {
                    v
                },
            )
        }
    } else if fam == 0xA {
        StepOut::Next(StateView { index: nnn, ..v })
    } else if fam == 0xB {
        let jr = if quirks.jump_with_vx {
            x
        } else {
            0
        };
        StepOut::Next(StateView { pc: (nnn + v.registers[jr]) % 0x1000, ..v })
    } else if fam == 0xC {
        StepOut::Next(StateView { registers: v.registers.update(x, rnd & nn), ..v })
    } else if fam == 0xD {
        spec_step_draw(v, opcode, quirks)
    } else if fam == 0xE {
        spec_step_familye(v, opcode)
    } else {
        spec_step_familyf(v, opcode, quirks)
    }
}

/// The big-endian opcode at the program counter.
pub open spec fn spec_fetched_opcode(v: StateView) -> u16 {
    (v.memory[v.pc] as int * 256 + v.memory[v.pc + 1] as int) as u16
}

/// One fetch-decode-execute cycle: fail if the program counter cannot
/// address two bytes, else fetch big-endian, advance `pc` by 2, execute.
#[verifier::opaque]
pub open spec fn spec_cycle(v: StateView, quirks: Chip8Quirks, rnd: u8) -> StepOut {
    if v.pc > MEMORY_SIZE - 2 {
        StepOut::Fail(Chip8Error::ProgramCounterOutOfBounds(v.pc as usize), v)
    } else {
        spec_step(StateView { pc: v.pc + 2, ..v }, spec_fetched_opcode(v), quirks, rnd)
    }
}

// ---------------------------------------------------------------------------
// Trusted randomness
// ---------------------------------------------------------------------------
/// Relies on rand::random: a uniformly random byte from the thread-local
/// generator.  Nothing can be promised of the value.
#[verifier::external_body]
fn random_byte() -> u8 {
    rand::random::<u8>()
}

// ---------------------------------------------------------------------------
// The executable interpreter
// ---------------------------------------------------------------------------
/// Fetches and executes one instruction.  The relation to the machine
/// model is exact up to the byte the random source hands `CXKK`.
pub fn execute_cycle(state: &mut EmulatorState, quirks: Chip8Quirks) -> (r: Result<
    (),
    Chip8Error,
>)
    requires
        wf(old(state)@),
    ensures
        wf(final(state)@),
        exists|rnd: u8| step_matches(spec_cycle(old(state)@, quirks, rnd), final(state)@, r),
{
    if state.pc > MEMORY_SIZE - 2 {
        proof {
            reveal(spec_cycle);
            assert(step_matches(
                spec_cycle(old(state)@, quirks, 0u8),
                state@,
                Err::<(), Chip8Error>(Chip8Error::ProgramCounterOutOfBounds(state.pc)),
            ));
        }
        return Err(Chip8Error::ProgramCounterOutOfBounds(state.pc));
    }

    let opcode: u16 = (state.memory[state.pc] as u16) * 256 + (state.memory[state.pc + 1] as u16);
    state.pc = state.pc + 2;
    let ghost mid = state@;
    proof {
        assert(mid =~= (StateView { pc: old(state)@.pc + 2, ..old(state)@ }));
    }
    let r = execute_opcode(state, opcode, quirks);
    proof {
        reveal(spec_cycle);
        let rnd = choose|rnd: u8| step_matches(spec_step(mid, opcode, quirks, rnd), state@, r);
        assert(step_matches(spec_cycle(old(state)@, quirks, rnd), state@, r));
    }
    r
}

/// Ticks the 60 Hz timers: both saturate at zero.  Returns whether the
/// sound timer was running, i.e. whether the host should beep now.
/// Nothing else of the state changes: no flag, no memory, no `pc`.
pub fn tick_timers(state: &mut EmulatorState) -> (beep: bool)
    ensures
        final(state)@ == (StateView {
            delay_timer: if old(state)@.delay_timer > 0 {
                (old(state)@.delay_timer - 1) as u8
            } else {
                0u8
            },
            sound_timer: if old(state)@.sound_timer > 0 {
                (old(state)@.sound_timer - 1) as u8
            } else {
                0u8
            },
            ..old(state)@
        }),
        beep == (old(state)@.sound_timer > 0),
{
    state.delay_timer = if state.delay_timer > 0 {
        state.delay_timer - 1
    } else {
        0
    };
    let beep = state.sound_timer > 0;
    if state.sound_timer > 0 {
        state.sound_timer = state.sound_timer - 1;
    }
    proof {
        assert(state@ =~= (StateView {
            delay_timer: if old(state)@.delay_timer > 0 {
                (old(state)@.delay_timer - 1) as u8
            } else {
                0u8
            },
            sound_timer: if old(state)@.sound_timer > 0 {
                (old(state)@.sound_timer - 1) as u8
            } else {
                0u8
            },
            ..old(state)@
        }));
    }
    beep
}

/// Executes one already-fetched opcode against the state.  The relation to
/// the machine model is exact up to the byte the random source hands
/// `CXKK`: for every other opcode the model ignores that byte.
pub fn execute_opcode(state: &mut EmulatorState, opcode: u16, quirks: Chip8Quirks) -> (r: Result<
    (),
    Chip8Error,
>)
    requires
        wf(old(state)@),
        old(state)@.pc + 2 <= usize::MAX,
    ensures
        wf(final(state)@),
        exists|rnd: u8| step_matches(spec_step(old(state)@, opcode, quirks, rnd), final(state)@, r),
{
    state.op = opcode;
    let ghost v = state@;
    proof {
        assert(v =~= (StateView { op: opcode, ..old(state)@ }));
    }

    let fam = opcode / 0x1000;
    let x = x_register_index(opcode);
    let nn = byte_nn(opcode);

    let r: Result<(), Chip8Error> = match fam {
        0x0 => {
            let r = handle_family_0(state, opcode);
            proof {
                assert(step_matches(spec_step(old(state)@, opcode, quirks, 0u8), state@, r));
            }
            r
        },
        0x1 => {
            state.pc = address_nnn(opcode);
            proof {
                assert(state@ =~= (StateView { pc: op_nnn(opcode), ..v }));
                assert(step_matches(
                    spec_step(old(state)@, opcode, quirks, 0u8),
                    state@,
                    Ok::<(), Chip8Error>(()),
                ));
            }
            Ok(())
        },
        0x2 => {
            state.stack.push((state.pc % 0x10000) as u16);
            state.pc = address_nnn(opcode);
            proof {
                assert(state@ =~= (StateView {
                    stack: v.stack.push((v.pc % 0x10000) as u16),
                    pc: op_nnn(opcode),
                    ..v
                }));
                assert(step_matches(
                    spec_step(old(state)@, opcode, quirks, 0u8),
                    state@,
                    Ok::<(), Chip8Error>(()),
                ));
            }
            Ok(())
        },
        0x3 => {
            if state.registers[x] == nn {
                state.pc = state.pc + 2;
                proof {
                    assert(state@ =~= (StateView { pc: v.pc + 2, ..v }));
                }
            }
            proof {
                assert(step_matches(
                    spec_step(old(state)@, opcode, quirks, 0u8),
                    state@,
                    Ok::<(), Chip8Error>(()),
                ));
            }
            Ok(())
        },
        0x4 => {
            if state.registers[x] != nn {
                state.pc = state.pc + 2;
                proof {
                    assert(state@ =~= (StateView { pc: v.pc + 2, ..v }));
                }
            }
            proof {
                assert(step_matches(
                    spec_step(old(state)@, opcode, quirks, 0u8),
                    state@,
                    Ok::<(), Chip8Error>(()),
                ));
            }
            Ok(())
        },
        0x5 => {
            let r = handle_opcode_5xy0_skip_eq_register(state, opcode);
            proof {
                assert(step_matches(spec_step(old(state)@, opcode, quirks, 0u8), state@, r));
            }
            r
        },
        0x6 => {
            state.registers[x] = nn;
            proof {
                assert(state@ =~= (StateView {
                    registers: v.registers.update(x as int, op_nn(opcode)),
                    ..v
                }));
                assert(step_matches(
                    spec_step(old(state)@, opcode, quirks, 0u8),
                    state@,
                    Ok::<(), Chip8Error>(()),
                ));
            }
            Ok(())
        },
        0x7 => {
            let sum: u16 = state.registers[x] as u16 + nn as u16;
            state.registers[x] = (sum % 256) as u8;
            proof {
                assert(state@ =~= (StateView {
                    registers: v.registers.update(
                        x as int,
                        spec_wrap_add(v.registers[x as int], op_nn(opcode)),
                    ),
                    ..v
                }));
                assert(step_matches(
                    spec_step(old(state)@, opcode, quirks, 0u8),
                    state@,
                    Ok::<(), Chip8Error>(()),
                ));
            }
            Ok(())
        },
        0x8 => {
            let r = handle_family_8(state, opcode, quirks);
            proof {
                assert(step_matches(spec_step(old(state)@, opcode, quirks, 0u8), state@, r));
            }
            r
        },
        0x9 => {
            let r = handle_opcode_9xy0_skip_neq_register(state, opcode);
            proof {
                assert(step_matches(spec_step(old(state)@, opcode, quirks, 0u8), state@, r));
            }
            r
        },
        0xA => {
            state.index = address_nnn(opcode);
            proof {
                assert(state@ =~= (StateView { index: op_nnn(opcode), ..v }));
                assert(step_matches(
                    spec_step(old(state)@, opcode, quirks, 0u8),
                    state@,
                    Ok::<(), Chip8Error>(()),
                ));
            }
            Ok(())
        },
        0xB => {
            let jump_register = if quirks.jump_with_vx {
                x
            } else {
                0
            };
            state.pc = (address_nnn(opcode) + state.registers[jump_register] as usize) % 0x1000;
            proof {
                assert(state@ =~= (StateView {
                    pc: (op_nnn(opcode) + v.registers[if quirks.jump_with_vx {
                        op_x(opcode)
                    } else {
                        0int
                    }]) % 0x1000,
                    ..v
                }));
                assert(step_matches(
                    spec_step(old(state)@, opcode, quirks, 0u8),
                    state@,
                    Ok::<(), Chip8Error>(()),
                ));
            }
            Ok(())
        },
        0xC => {
            let b = random_byte();
            state.registers[x] = b & nn;
            proof {
                assert(state@ =~= (StateView {
                    registers: v.registers.update(x as int, b & op_nn(opcode)),
                    ..v
                }));
                assert(step_matches(
                    spec_step(old(state)@, opcode, quirks, b),
                    state@,
                    Ok::<(), Chip8Error>(()),
                ));
            }
            Ok(())
        },
        0xD => {
            let r = handle_opcode_dxyn_draw(state, opcode, quirks);
            proof {
                assert(step_matches(spec_step(old(state)@, opcode, quirks, 0u8), state@, r));
            }
            r
        },
        0xE => {
            let r = handle_family_e(state, opcode);
            proof {
                assert(step_matches(spec_step(old(state)@, opcode, quirks, 0u8), state@, r));
            }
            r
        },
        _ => {
            proof {
                assert(op_fam(opcode) == 0xF);
            }
            let r = handle_family_f(state, opcode, quirks);
            proof {
                assert(step_matches(spec_step(old(state)@, opcode, quirks, 0u8), state@, r));
            }
            r
        },
    };
    r
}

/// `00E0` clear, `00EE` return, `00FD` exit; other `0XXX` are ignored.
fn handle_family_0(state: &mut EmulatorState, opcode: u16) -> (r: Result<(), Chip8Error>)
    requires
        wf(old(state)@),
        op_fam(opcode) == 0,
    ensures
        wf(final(state)@),
        step_matches(spec_step_family0(old(state)@, opcode), final(state)@, r),
{
    if opcode == 0x00E0 {
        clear_display(state);
        Ok(())
    } else if opcode == 0x00EE {
        match state.stack.pop() {
            Some(ret) => {
                state.pc = ret as usize;
                proof {
                    assert(state@ =~= (StateView {
                        stack: old(state)@.stack.drop_last(),
                        pc: old(state)@.stack.last() as int,
                        ..old(state)@
                    }));
                }
                Ok(())
            },
            None => Err(Chip8Error::StackUnderflow),
        }
    } else if opcode == 0x00FD {
        state.exited = true;
        proof {
            assert(state@ =~= (StateView { exited: true, ..old(state)@ }));
        }
        Ok(())
    } else {
        Ok(())
    }
}

/// `5XY0`: skip the next instruction if `VX == VY`; a nonzero low nibble
/// is an invalid opcode.
fn handle_opcode_5xy0_skip_eq_register(state: &mut EmulatorState, opcode: u16) -> (r: Result<
    (),
    Chip8Error,
>)
    requires
        wf(old(state)@),
        op_fam(opcode) == 5,
        old(state)@.pc + 2 <= usize::MAX,
    ensures
        wf(final(state)@),
        step_matches(
            if op_n(opcode) != 0 {
                StepOut::Fail(Chip8Error::InvalidOpcode(opcode), old(state)@)
            } else {
                StepOut::Next(
                    if old(state)@.registers[op_x(opcode)] == old(state)@.registers[op_y(opcode)] {
                        StateView { pc: old(state)@.pc + 2, ..old(state)@ }
                    } else {
                        old(state)@
                    },
                )
            },
            final(state)@,
            r,
        ),
{
    if nibble_n(opcode) != 0 {
        return Err(Chip8Error::InvalidOpcode(opcode));
    }
    if state.registers[x_register_index(opcode)] == state.registers[y_register_index(opcode)] {
        state.pc = state.pc + 2;
        proof {
            assert(state@ =~= (StateView { pc: old(state)@.pc + 2, ..old(state)@ }));
        }
    }
    Ok(())
}

/// `9XY0`: skip the next instruction if `VX != VY`; a nonzero low nibble
/// is an invalid opcode.
fn handle_opcode_9xy0_skip_neq_register(state: &mut EmulatorState, opcode: u16) -> (r: Result<
    (),
    Chip8Error,
>)
    requires
        wf(old(state)@),
        op_fam(opcode) == 9,
        old(state)@.pc + 2 <= usize::MAX,
    ensures
        wf(final(state)@),
        step_matches(
            if op_n(opcode) != 0 {
                StepOut::Fail(Chip8Error::InvalidOpcode(opcode), old(state)@)
            } else {
                StepOut::Next(
                    if old(state)@.registers[op_x(opcode)] != old(state)@.registers[op_y(opcode)] {
                        StateView { pc: old(state)@.pc + 2, ..old(state)@ }
                    } else {
                        old(state)@
                    },
                )
            },
            final(state)@,
            r,
        ),
{
    if nibble_n(opcode) != 0 {
        return Err(Chip8Error::InvalidOpcode(opcode));
    }
    if state.registers[x_register_index(opcode)] != state.registers[y_register_index(opcode)] {
        state.pc = state.pc + 2;
        proof {
            assert(state@ =~= (StateView { pc: old(state)@.pc + 2, ..old(state)@ }));
        }
    }
    Ok(())
}

/// Register-to-register arithmetic; see `spec_step_family8`.
fn handle_family_8(state: &mut EmulatorState, opcode: u16, quirks: Chip8Quirks) -> (r: Result<
    (),
    Chip8Error,
>)
    requires
        wf(old(state)@),
        op_fam(opcode) == 8,
    ensures
        wf(final(state)@),
        step_matches(spec_step_family8(old(state)@, opcode, quirks), final(state)@, r),
{
    let x = x_register_index(opcode);
    let y = y_register_index(opcode);
    let vx = state.registers[x];
    let vy = state.registers[y];
    let n = nibble_n(opcode);
    let ghost v = old(state)@;

    match n {
        0x0 => {
            state.registers[x] = vy;
            proof {
                assert(state@ =~= (StateView { registers: v.registers.update(x as int, vy), ..v }));
            }
            Ok(())
        },
        0x1 => {
            state.registers[x] = vx | vy;
            proof {
                assert(state@ =~= (StateView {
                    registers: v.registers.update(x as int, vx | vy),
                    ..v
                }));
            }
            Ok(())
        },
        0x2 => {
            state.registers[x] = vx & vy;
            proof {
                assert(state@ =~= (StateView {
                    registers: v.registers.update(x as int, vx & vy),
                    ..v
                }));
            }
            Ok(())
        },
        0x3 => {
            state.registers[x] = vx ^ vy;
            proof {
                assert(state@ =~= (StateView {
                    registers: v.registers.update(x as int, vx ^ vy),
                    ..v
                }));
            }
            Ok(())
        },
        0x4 => {
            let sum: u16 = vx as u16 + vy as u16;
            let result: u8 = (sum % 256) as u8;
            let flag: u8 = if sum > 255 {
                1
            } else {
                0
            };
            state.registers[x] = result;
            state.registers[0xF] = flag;
            proof {
                assert(state@ =~= (StateView {
                    registers: v.registers.update(x as int, spec_wrap_add(vx, vy)).update(
                        0xF,
                        flag,
                    ),
                    ..v
                }));
            }
            Ok(())
        },
        0x5 => {
            let flag: u8 = if vx >= vy {
                1
            } else {
                0
            };
            let result: u8 = if vx >= vy {
                vx - vy
            } else {
                ((vx as u16 + 256 - vy as u16) % 256) as u8
            };
            state.registers[x] = result;
            state.registers[0xF] = flag;
            proof {
                assert(state@ =~= (StateView {
                    registers: v.registers.update(x as int, spec_wrap_sub(vx, vy)).update(
                        0xF,
                        flag,
                    ),
                    ..v
                }));
            }
            Ok(())
        },
        0x6 => {
            let source = if quirks.shift_uses_vy {
                vy
            } else {
                vx
            };
            state.registers[x] = source / 2;
            state.registers[0xF] = source % 2;
            proof {
                assert(state@ =~= (StateView {
                    registers: v.registers.update(x as int, source / 2).update(0xF, source % 2),
                    ..v
                }));
            }
            Ok(())
        },
        0x7 => {
            let flag: u8 = if vy >= vx {
                1
            } else {
                0
            };
            let result: u8 = if vy >= vx {
                vy - vx
            } else {
                ((vy as u16 + 256 - vx as u16) % 256) as u8
            };
            state.registers[x] = result;
            state.registers[0xF] = flag;
            proof {
                assert(state@ =~= (StateView {
                    registers: v.registers.update(x as int, spec_wrap_sub(vy, vx)).update(
                        0xF,
                        flag,
                    ),
                    ..v
                }));
            }
            Ok(())
        },
        0xE => {
            let source = if quirks.shift_uses_vy {
                vy
            } else {
                vx
            };
            let shifted: u8 = ((source as u16 * 2) % 256) as u8;
            let flag: u8 = source / 128;
            state.registers[x] = shifted;
            state.registers[0xF] = flag;
            proof {
                assert(state@ =~= (StateView {
                    registers: v.registers.update(x as int, ((source * 2) % 256) as u8).update(
                        0xF,
                        source / 128,
                    ),
                    ..v
                }));
            }
            Ok(())
        },
        _ => Err(Chip8Error::InvalidOpcode(opcode)),
    }
}

/// `EX9E`/`EXA1`: skip on the state of key `VX & 0x0F`.
fn handle_family_e(state: &mut EmulatorState, opcode: u16) -> (r: Result<(), Chip8Error>)
    requires
        wf(old(state)@),
        op_fam(opcode) == 0xE,
        old(state)@.pc + 2 <= usize::MAX,
    ensures
        wf(final(state)@),
        step_matches(spec_step_familye(old(state)@, opcode), final(state)@, r),
{
    let x = x_register_index(opcode);
    let key = (state.registers[x] % 16) as usize;
    let nn = byte_nn(opcode);

    if nn == 0x9E {
        if state.key_inputs[key] == 1 {
            state.pc = state.pc + 2;
            proof {
                assert(state@ =~= (StateView { pc: old(state)@.pc + 2, ..old(state)@ }));
            }
        }
        Ok(())
    } else if nn == 0xA1 {
        if state.key_inputs[key] == 0 {
            state.pc = state.pc + 2;
            proof {
                assert(state@ =~= (StateView { pc: old(state)@.pc + 2, ..old(state)@ }));
            }
        }
        Ok(())
    } else {
        Err(Chip8Error::InvalidOpcode(opcode))
    }
}

/// `DXYN`; see `spec_step_draw`.
fn handle_opcode_dxyn_draw(state: &mut EmulatorState, opcode: u16, quirks: Chip8Quirks) -> (r:
    Result<(), Chip8Error>)
    requires
        wf(old(state)@),
        op_fam(opcode) == 0xD,
    ensures
        wf(final(state)@),
        step_matches(spec_step_draw(old(state)@, opcode, quirks), final(state)@, r),
{
    let ghost v = old(state)@;
    let x_start = (state.registers[x_register_index(opcode)] as usize) % SCREEN_WIDTH;
    let y_start = (state.registers[y_register_index(opcode)] as usize) % SCREEN_HEIGHT;
    let height = nibble_n(opcode) as usize;
    let wrap = quirks.draw_wrap;
    let ghost x0 = x_start as int;
    let ghost y0 = y_start as int;
    let ghost h = height as int;

    let mut collision: bool = false;
    let mut row: usize = 0;
    let mut res: Result<(), Chip8Error> = Ok(());

    loop
        invariant_except_break
            res == Ok::<(), Chip8Error>(()),
            row <= height,
        invariant
            wf(state@),
            state@ == (StateView { screen: state@.screen, ..v }),
            height < 16,
            x_start < SCREEN_WIDTH,
            y_start < SCREEN_HEIGHT,
            x0 == x_start as int,
            y0 == y_start as int,
            h == height as int,
            wrap == quirks.draw_wrap,
            spec_draw_rows(v.memory, v.screen, v.index, x0, y0, h, wrap, 0) == merge_draw(
                spec_draw_rows(v.memory, state@.screen, v.index, x0, y0, h, wrap, row as int),
                collision,
            ),
        ensures
            res matches Ok(()) ==> spec_draw_rows(v.memory, v.screen, v.index, x0, y0, h, wrap, 0)
                == (DrawRes::Done { screen: state@.screen, hit: collision }),
            res matches Err(e) ==> spec_draw_rows(v.memory, v.screen, v.index, x0, y0, h, wrap, 0)
                == (DrawRes::OutOfBounds {
                screen: state@.screen,
                addr: v.index + row,
            }) && e == Chip8Error::ProgramCounterOutOfBounds((v.index + row) as usize),
        decreases height - row,
    {
        if row >= height {
            proof {
                assert(spec_draw_rows(v.memory, state@.screen, v.index, x0, y0, h, wrap,
                    row as int) == (DrawRes::Done { screen: state@.screen, hit: false }));
            }
            break ;
        }

        let yp = y_start + row;
        let y_pos: usize;
        if wrap {
            y_pos = yp % SCREEN_HEIGHT;
        } else {
            if yp >= SCREEN_HEIGHT {
                proof {
                    assert(spec_draw_rows(v.memory, state@.screen, v.index, x0, y0, h, wrap,
                        row as int) == (DrawRes::Done { screen: state@.screen, hit: false }));
                }
                break ;
            }
            y_pos = yp;
        }

        let sprite_address = state.index + row;
        if sprite_address >= MEMORY_SIZE {
            res = Err(Chip8Error::ProgramCounterOutOfBounds(sprite_address));
            proof {
                assert(spec_draw_rows(v.memory, state@.screen, v.index, x0, y0, h, wrap,
                    row as int) == (DrawRes::OutOfBounds {
                    screen: state@.screen,
                    addr: v.index + row,
                }));
            }
            break ;
        }

        let sprite_row = state.memory[sprite_address];
        let ghost screen_at_row = state@.screen;
        let ghost yc = y_pos as int;

        let mut bit: usize = 0;
        let mut row_hit: bool = false;

        loop
            invariant
                wf(state@),
                state@ == (StateView { screen: state@.screen, ..v }),
                bit <= 8,
                x_start < SCREEN_WIDTH,
                y_pos < SCREEN_HEIGHT,
                x0 == x_start as int,
                yc == y_pos as int,
                wrap == quirks.draw_wrap,
                spec_draw_bits(screen_at_row, sprite_row, x0, yc, wrap, 0).0 == spec_draw_bits(
                    state@.screen,
                    sprite_row,
                    x0,
                    yc,
                    wrap,
                    bit as int,
                ).0,
                spec_draw_bits(screen_at_row, sprite_row, x0, yc, wrap, 0).1 == (spec_draw_bits(
                    state@.screen,
                    sprite_row,
                    x0,
                    yc,
                    wrap,
                    bit as int,
                ).1 || row_hit),
            ensures
                wf(state@),
                state@ == (StateView { screen: state@.screen, ..v }),
                spec_draw_bits(screen_at_row, sprite_row, x0, yc, wrap, 0).0 == state@.screen,
                spec_draw_bits(screen_at_row, sprite_row, x0, yc, wrap, 0).1 == row_hit,
            decreases 8 - bit,
        {
            if bit >= 8 {
                proof {
                    assert(spec_draw_bits(state@.screen, sprite_row, x0, yc, wrap, bit as int)
                        == (state@.screen, false));
                }
                break ;
            }
            let xp = x_start + bit;
            let x_pos: usize;
            if wrap {
                x_pos = xp % SCREEN_WIDTH;
            } else {
                if xp >= SCREEN_WIDTH {
                    proof {
                        assert(spec_draw_bits(state@.screen, sprite_row, x0, yc, wrap, bit as int)
                            == (state@.screen, false));
                    }
                    break ;
                }
                x_pos = xp;
            }

            let ghost s_before = state@.screen;
            let divisor = bit_divisor(bit);
            let pixel = (sprite_row / divisor) % 2;
            if pixel == 1 {
                let location = x_pos + y_pos * SCREEN_WIDTH;
                let prev = state.screen_buffer[location];
                if prev == 1 {
                    row_hit = true;
                }
                state.screen_buffer[location] = prev ^ 1;
                proof {
                    assert(prev ^ 1 <= 1) by (bit_vector)
                        requires
                            prev <= 1,
                    ;
                    assert(state@.screen == s_before.update(
                        x_pos + y_pos * SCREEN_WIDTH,
                        prev ^ 1,
                    ));
                    assert(spec_draw_bits(s_before, sprite_row, x0, yc, wrap, bit as int).0
                        == spec_draw_bits(state@.screen, sprite_row, x0, yc, wrap, bit + 1).0);
                    assert(spec_draw_bits(s_before, sprite_row, x0, yc, wrap, bit as int).1
                        == (spec_draw_bits(state@.screen, sprite_row, x0, yc, wrap, bit + 1).1
                        || prev == 1));
                }
            } else {
                proof {
                    assert(spec_draw_bits(s_before, sprite_row, x0, yc, wrap, bit as int)
                        == spec_draw_bits(state@.screen, sprite_row, x0, yc, wrap, bit + 1));
                }
            }
            bit = bit + 1;
        }

        let ghost collision_before = collision;
        if row_hit {
            collision = true;
        }
        proof {
            assert(spec_draw_rows(v.memory, screen_at_row, v.index, x0, y0, h, wrap, row as int)
                == merge_draw(
                spec_draw_rows(v.memory, state@.screen, v.index, x0, y0, h, wrap, row + 1),
                row_hit,
            ));
            lemma_merge_draw(
                spec_draw_rows(v.memory, state@.screen, v.index, x0, y0, h, wrap, row + 1),
                row_hit,
                collision_before,
            );
            assert(collision == (row_hit || collision_before));
        }
        row = row + 1;
    }

    match res {
        Ok(()) => {
            state.registers[0xF] = if collision {
                1
            } else {
                0
            };
            state.should_draw = true;
            proof {
                assert(state@ =~= (StateView {
                    screen: state@.screen,
                    registers: v.registers.update(
                        0xF,
                        if collision {
                            1u8
                        } else {
                            0u8
                        },
                    ),
                    should_draw: true,
                    ..v
                }));
            }
            Ok(())
        },
        Err(e) => {
            proof {
                assert(state@ =~= (StateView { screen: state@.screen, ..v }));
            }
            Err(e)
        },
    }
}

/// The divisor selecting sprite bit `bit`.
fn bit_divisor(bit: usize) -> (r: u8)
    requires
        bit < 8,
    ensures
        r == spec_bit_divisor(bit as int),
{
    if bit == 0 {
        128
    } else if bit == 1 {
        64
    } else if bit == 2 {
        32
    } else if bit == 3 {
        16
    } else if bit == 4 {
        8
    } else if bit == 5 {
        4
    } else if bit == 6 {
        2
    } else {
        1
    }
}

/// Merging commutes with accumulating collisions.
proof fn lemma_merge_draw(res: DrawRes, a: bool, b: bool)
    ensures
        merge_draw(merge_draw(res, a), b) == merge_draw(res, a || b),
{
    match res {
        DrawRes::Done { screen, hit } => {},
        DrawRes::OutOfBounds { screen, addr } => {},
    }
}

/// Merges a sub-draw with the collision seen so far.
pub open spec fn merge_draw(res: DrawRes, hit0: bool) -> DrawRes {
    match res {
        DrawRes::Done { screen, hit } => DrawRes::Done { screen, hit: hit || hit0 },
        DrawRes::OutOfBounds { screen, addr } => DrawRes::OutOfBounds { screen, addr },
    }
}

/// Timers, input wait, index arithmetic, BCD, register transfer; see
/// `spec_step_familyf`.
fn handle_family_f(state: &mut EmulatorState, opcode: u16, quirks: Chip8Quirks) -> (r: Result<
    (),
    Chip8Error,
>)
    requires
        wf(old(state)@),
        op_fam(opcode) == 0xF,
    ensures
        wf(final(state)@),
        step_matches(spec_step_familyf(old(state)@, opcode, quirks), final(state)@, r),
{
    let ghost v = old(state)@;
    let x = x_register_index(opcode);
    let vx = state.registers[x];
    let nn = byte_nn(opcode);

    if nn == 0x07 {
        state.registers[x] = state.delay_timer;
        proof {
            assert(state@ =~= (StateView {
                registers: v.registers.update(x as int, v.delay_timer),
                ..v
            }));
        }
        Ok(())
    } else if nn == 0x0A {
        match first_pressed_key(state) {
            Some(key) => {
                state.registers[x] = key;
                proof {
                    assert(state@ =~= (StateView {
                        registers: v.registers.update(x as int, key),
                        ..v
                    }));
                }
            },
            None => {
                state.pc = if state.pc >= 2 {
                    state.pc - 2
                } else {
                    0
                };
                proof {
                    assert(state@ =~= (StateView {
                        pc: if v.pc >= 2 {
                            v.pc - 2
                        } else {
                            0
                        },
                        ..v
                    }));
                }
            },
        }
        Ok(())
    } else if nn == 0x15 {
        state.delay_timer = vx;
        proof {
            assert(state@ =~= (StateView { delay_timer: vx, ..v }));
        }
        Ok(())
    } else if nn == 0x18 {
        state.sound_timer = vx;
        proof {
            assert(state@ =~= (StateView { sound_timer: vx, ..v }));
        }
        Ok(())
    } else if nn == 0x1E {
        state.index = (state.index + vx as usize) % 0x1000;
        proof {
            assert(state@ =~= (StateView { index: (v.index + vx) % 0x1000, ..v }));
        }
        Ok(())
    } else if nn == 0x29 {
        state.index = ((vx % 16) as usize) * 5;
        proof {
            assert(state@ =~= (StateView { index: (vx as int % 16) * 5, ..v }));
        }
        Ok(())
    } else if nn == 0x33 {
        if state.index + 3 > MEMORY_SIZE {
            return Err(Chip8Error::ProgramCounterOutOfBounds(state.index + 2));
        }
        let idx = state.index;
        state.memory[idx] = vx / 100;
        state.memory[idx + 1] = (vx % 100) / 10;
        state.memory[idx + 2] = vx % 10;
        proof {
            assert(state@ =~= (StateView {
                memory: v.memory.update(v.index, vx / 100).update(
                    v.index + 1,
                    (vx % 100) / 10,
                ).update(v.index + 2, vx % 10),
                ..v
            }));
        }
        Ok(())
    } else if nn == 0x55 {
        if state.index + x + 1 > MEMORY_SIZE {
            return Err(Chip8Error::ProgramCounterOutOfBounds(state.index + x));
        }
        let idx = state.index;
        let mut j: usize = 0;
        while j <= x
            invariant
                wf(state@),
                x < 16,
                idx == v.index,
                idx + x + 1 <= MEMORY_SIZE,
                j <= x + 1,
                state@ == (StateView { memory: state@.memory, ..v }),
                state@.memory.len() == MEMORY_SIZE,
                forall|i: int|
                    0 <= i < MEMORY_SIZE ==> state@.memory[i] == if idx <= i < idx + j {
                        v.registers[i - idx]
                    } else {
                        v.memory[i]
                    },
            decreases x + 1 - j,
        {
            state.memory[idx + j] = state.registers[j];
            j = j + 1;
        }
        if quirks.load_store_increment_i {
            state.index = (state.index + x + 1) % 0x1000;
        }
        proof {
            assert(state@.memory =~= spec_store_regs(v.memory, v.registers, v.index, x as int));
            assert(state@ =~= (StateView {
                memory: spec_store_regs(v.memory, v.registers, v.index, x as int),
                index: if quirks.load_store_increment_i {
                    (v.index + x + 1) % 0x1000
                } else {
                    v.index
                },
                ..v
            }));
        }
        Ok(())
    } else if nn == 0x65 {
        if state.index + x + 1 > MEMORY_SIZE {
            return Err(Chip8Error::ProgramCounterOutOfBounds(state.index + x));
        }
        let idx = state.index;
        let mut j: usize = 0;
        while j <= x
            invariant
                wf(state@),
                x < 16,
                idx == v.index,
                idx + x + 1 <= MEMORY_SIZE,
                j <= x + 1,
                state@ == (StateView { registers: state@.registers, ..v }),
                state@.registers.len() == REGISTER_COUNT,
                forall|i: int|
                    0 <= i < REGISTER_COUNT ==> state@.registers[i] == if 0 <= i < j {
                        v.memory[idx + i]
                    } else {
                        v.registers[i]
                    },
            decreases x + 1 - j,
        {
            state.registers[j] = state.memory[idx + j];
            j = j + 1;
        }
        if quirks.load_store_increment_i {
            state.index = (state.index + x + 1) % 0x1000;
        }
        proof {
            assert(state@.registers =~= spec_load_regs(v.memory, v.registers, v.index, x as int));
            assert(state@ =~= (StateView {
                registers: spec_load_regs(v.memory, v.registers, v.index, x as int),
                index: if quirks.load_store_increment_i {
                    (v.index + x + 1) % 0x1000
                } else {
                    v.index
                },
                ..v
            }));
        }
        Ok(())
    } else {
        Err(Chip8Error::InvalidOpcode(opcode))
    }
}

// ---------------------------------------------------------------------------
// Laws of the machine model
// ---------------------------------------------------------------------------
/// Every return address on the stack points into memory (or just past its
/// end, for a `CALL` fetched from the last addressable pair).
pub open spec fn stack_ok(v: StateView) -> bool {
    forall|i: int| 0 <= i < v.stack.len() ==> v.stack[i] <= MEMORY_SIZE
}

proof fn lemma_draw_bits_props(screen: Seq<u8>, b: u8, x0: int, y: int, wrap: bool, bit: int)
    requires
        screen.len() == SCREEN_SIZE,
        forall|i: int| 0 <= i < screen.len() ==> screen[i] <= 1,
        0 <= x0 < SCREEN_WIDTH,
        0 <= y < SCREEN_HEIGHT,
    ensures
        spec_draw_bits(screen, b, x0, y, wrap, bit).0.len() == SCREEN_SIZE,
        forall|i: int|
            0 <= i < SCREEN_SIZE ==> spec_draw_bits(screen, b, x0, y, wrap, bit).0[i] <= 1,
    decreases 8 - bit,
{
    if bit < 0 || bit >= 8 {
    } else {
        let xp = x0 + bit;
        if !wrap && xp >= SCREEN_WIDTH {
        } else {
            let x = if wrap {
                xp % (SCREEN_WIDTH as int)
            } else {
                xp
            };
            let pixel = (b / spec_bit_divisor(bit)) % 2;
            if pixel == 0 {
                lemma_draw_bits_props(screen, b, x0, y, wrap, bit + 1);
            } else {
                let loc = x + SCREEN_WIDTH * y;
                let prev = screen[loc];
                assert(prev ^ 1 <= 1) by (bit_vector)
                    requires
                        prev <= 1,
                ;
                lemma_draw_bits_props(screen.update(loc, prev ^ 1), b, x0, y, wrap, bit + 1);
            }
        }
    }
}

proof fn lemma_draw_rows_props(
    mem: Seq<u8>,
    screen: Seq<u8>,
    index: int,
    x0: int,
    y0: int,
    height: int,
    wrap: bool,
    row: int,
)
    requires
        screen.len() == SCREEN_SIZE,
        forall|i: int| 0 <= i < screen.len() ==> screen[i] <= 1,
        0 <= x0 < SCREEN_WIDTH,
        0 <= y0 < SCREEN_HEIGHT,
        height <= 16,
    ensures
        spec_draw_rows(mem, screen, index, x0, y0, height, wrap, row).state_screen().len()
            == SCREEN_SIZE,
        forall|i: int|
            0 <= i < SCREEN_SIZE ==> spec_draw_rows(mem, screen, index, x0, y0, height, wrap,
                row,
            ).state_screen()[i] <= 1,
    decreases height - row,
{
    if row < 0 || row >= height {
    } else {
        let yp = y0 + row;
        if !wrap && yp >= SCREEN_HEIGHT {
        } else {
            let y = if wrap {
                yp % (SCREEN_HEIGHT as int)
            } else {
                yp
            };
            if index + row >= MEMORY_SIZE {
            } else {
                lemma_draw_bits_props(screen, mem[index + row], x0, y, wrap, 0);
                let drawn = spec_draw_bits(screen, mem[index + row], x0, y, wrap, 0);
                lemma_draw_rows_props(mem, drawn.0, index, x0, y0, height, wrap, row + 1);
            }
        }
    }
}

impl DrawRes {
    /// The screen carried by either outcome.
    pub open spec fn state_screen(self) -> Seq<u8> {
        match self {
            DrawRes::Done { screen, .. } => screen,
            DrawRes::OutOfBounds { screen, .. } => screen,
        }
    }
}

/// Executing one instruction preserves well-formedness: every register
/// stays 8-bit, the index register stays within 12 bits, and every
/// framebuffer byte stays 0 or 1 — whichever quirks profile is active
/// and whether or not the instruction succeeds.
pub proof fn lemma_step_wf(v: StateView, op: u16, q: Chip8Quirks, rnd: u8)
    requires
        wf(v),
    ensures
        wf(spec_step(v, op, q, rnd).state()),
{
    let fam = op_fam(op);
    if fam == 0xD {
        let w = StateView { op, ..v };
        let x0 = v.registers[op_x(op)] as int % (SCREEN_WIDTH as int);
        let y0 = v.registers[op_y(op)] as int % (SCREEN_HEIGHT as int);
        lemma_draw_rows_props(v.memory, v.screen, v.index, x0, y0, op_n(op), q.draw_wrap, 0);
    }
}

/// After any instruction the program counter stays within `MEMORY_SIZE + 2`
/// and every stacked return address within `MEMORY_SIZE`, provided the
/// instruction was fetched from within memory — the invariant that, with
/// `wf`, holds of every state a run can reach.  (A skip taken at the very
/// end of memory can leave `pc` at `MEMORY_SIZE + 2`, and a jump target may
/// be odd, so the tighter bound `pc < MEMORY_SIZE`, and evenness, do not
/// hold of every reachable state.)
pub proof fn lemma_step_bounds(v: StateView, op: u16, q: Chip8Quirks, rnd: u8)
    requires
        wf(v),
        stack_ok(v),
        0 <= v.pc <= MEMORY_SIZE,
    ensures
        stack_ok(spec_step(v, op, q, rnd).state()),
        0 <= spec_step(v, op, q, rnd).state().pc <= MEMORY_SIZE + 2,
{
    let out = spec_step(v, op, q, rnd);
    let fam = op_fam(op);
    if fam == 0x2 {
        assert(out.state().stack == v.stack.push((v.pc % 0x10000) as u16));
        assert(forall|i: int|
            0 <= i < out.state().stack.len() ==> out.state().stack[i] <= MEMORY_SIZE);
    } else if fam == 0x0 {
        if op == 0x00EE && v.stack.len() > 0 {
            assert(v.stack.last() <= MEMORY_SIZE);
            assert(forall|i: int|
                0 <= i < v.stack.drop_last().len() ==> v.stack.drop_last()[i] == v.stack[i]);
        }
    }
}

/// One full cycle preserves the machine invariant: well-formedness, the
/// stack bound, and the program-counter bound.
pub proof fn lemma_cycle_preserves_invariants(v: StateView, q: Chip8Quirks, rnd: u8)
    requires
        wf(v),
        stack_ok(v),
        0 <= v.pc <= MEMORY_SIZE + 2,
    ensures
        wf(spec_cycle(v, q, rnd).state()),
        stack_ok(spec_cycle(v, q, rnd).state()),
        0 <= spec_cycle(v, q, rnd).state().pc <= MEMORY_SIZE + 2,
{
    reveal(spec_cycle);
    if v.pc > MEMORY_SIZE - 2 {
    } else {
        let w = StateView { pc: v.pc + 2, ..v };
        let op = spec_fetched_opcode(v);
        lemma_step_wf(w, op, q, rnd);
        lemma_step_bounds(w, op, q, rnd);
    }
}

/// Only `CXKK` consults the random source: every other instruction's
/// outcome is the same whatever byte it is handed.
pub proof fn lemma_step_ignores_rnd(v: StateView, op: u16, q: Chip8Quirks, r1: u8, r2: u8)
    ensures
        op_fam(op) != 0xC ==> spec_step(v, op, q, r1) == spec_step(v, op, q, r2),
{
}

/// `execute_cycle` never ticks the timers: no instruction but `FX15`
/// changes the delay timer, and none but `FX18` changes the sound timer.
pub proof fn lemma_step_preserves_timers(v: StateView, op: u16, q: Chip8Quirks, rnd: u8)
    ensures
        !(op_fam(op) == 0xF && op_nn(op) == 0x15) ==> spec_step(v, op, q, rnd).state().delay_timer
            == v.delay_timer,
        !(op_fam(op) == 0xF && op_nn(op) == 0x18) ==> spec_step(v, op, q, rnd).state().sound_timer
            == v.sound_timer,
{
}

/// The fetch-execute cycle touches a timer only through `FX15`/`FX18`.
pub proof fn lemma_cycle_preserves_timers(v: StateView, q: Chip8Quirks, rnd: u8)
    ensures
        v.pc <= MEMORY_SIZE - 2 ==> {
            let op = spec_fetched_opcode(v);
            &&& !(op_fam(op) == 0xF && op_nn(op) == 0x15) ==> spec_cycle(
                v,
                q,
                rnd,
            ).state().delay_timer == v.delay_timer
            &&& !(op_fam(op) == 0xF && op_nn(op) == 0x18) ==> spec_cycle(
                v,
                q,
                rnd,
            ).state().sound_timer == v.sound_timer
        },
        v.pc > MEMORY_SIZE - 2 ==> spec_cycle(v, q, rnd).state() == v,
{
    reveal(spec_cycle);
    if v.pc <= MEMORY_SIZE - 2 {
        lemma_step_preserves_timers(
            StateView { pc: v.pc + 2, ..v },
            spec_fetched_opcode(v),
            q,
            rnd,
        );
    }
}

} // verus!
