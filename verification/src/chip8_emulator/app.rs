use vstd::prelude::*;

use crate::chip8_emulator::cpu::{execute_cycle, spec_cycle, step_matches, tick_timers, StepOut};
use crate::chip8_emulator::error::Chip8Error;
use crate::chip8_emulator::quirks::Chip8Quirks;
use crate::chip8_emulator::state::{
    create_state, spec_fresh_view, wf, EmulatorState, StateView, MAX_ROM_SIZE,
};

verus! {

/// The outcome of a headless run: the state it stopped in, or the error
/// that aborted it.
pub enum RunOut {
    Done(StateView),
    Failed(Chip8Error),
}

/// One timer tick: both timers decrement, saturating at zero.
pub open spec fn spec_tick(v: StateView) -> StateView {
    StateView {
        delay_timer: if v.delay_timer > 0 {
            (v.delay_timer - 1) as u8
        } else {
            0u8
        },
        sound_timer: if v.sound_timer > 0 {
            (v.sound_timer - 1) as u8
        } else {
            0u8
        },
        ..v
    }
}

/// `max(1, cpu_hz / 60)`: how many cycles run between timer ticks.
pub open spec fn spec_cycles_per_tick(cpu_hz: int) -> int {
    if cpu_hz / 60 == 0 {
        1
    } else {
        cpu_hz / 60
    }
}

/// What the headless loop does from iteration `i` on: stop at `max`
/// cycles or on the exit flag; otherwise run one cycle — `rnds[i]` standing
/// in for the random source — tick the timers every `cpt` cycles, and go
/// on.  A failing cycle aborts the run with its error.
pub open spec fn spec_run_from(
    v: StateView,
    quirks: Chip8Quirks,
    i: int,
    max: int,
    cpt: int,
    rnds: Seq<u8>,
) -> RunOut
    decreases max - i,
{
    if i >= max || v.exited {
        RunOut::Done(v)
    } else {
        match spec_cycle(v, quirks, rnds[i]) {
            StepOut::Fail(e, _) => RunOut::Failed(e),
            StepOut::Next(v1) => {
                let v2 = if (i + 1) % cpt == 0 {
                    spec_tick(v1)
                } else {
                    v1
                };
                spec_run_from(v2, quirks, i + 1, max, cpt, rnds)
            },
        }
    }
}

/// Runs a ROM without a display: a fresh state executes up to `max_cycles`
/// cycles, ticking the timers at `cpu_hz / 60` cycle intervals, stopping
/// early on the exit opcode or on the first failing cycle.  The result is
/// exact up to the bytes the random source hands `CXKK` instructions.
#[verifier::rlimit(100)]
pub fn run_emulator_headless(
    quirks: Chip8Quirks,
    rom: &Vec<u8>,
    max_cycles: usize,
    cpu_hz: usize,
) -> (r: Result<EmulatorState, Chip8Error>)
    ensures
        max_cycles == 0 ==> r == Err::<EmulatorState, Chip8Error>(
            Chip8Error::InvalidArgument("max_cycles must be > 0"),
        ),
        max_cycles > 0 && cpu_hz == 0 ==> r == Err::<EmulatorState, Chip8Error>(
            Chip8Error::InvalidArgument("cpu_hz must be > 0"),
        ),
        max_cycles > 0 && cpu_hz > 0 && rom@.len() > MAX_ROM_SIZE ==> r == Err::<
            EmulatorState,
            Chip8Error,
        >(Chip8Error::RomTooLarge { size: rom@.len() as usize, max: MAX_ROM_SIZE }),
        max_cycles > 0 && cpu_hz > 0 && rom@.len() <= MAX_ROM_SIZE ==> match r {
            Ok(s) => wf(s@) && exists|rnds: Seq<u8>|
                spec_run_from(
                    spec_fresh_view(Some(rom@)),
                    quirks,
                    0,
                    max_cycles as int,
                    spec_cycles_per_tick(cpu_hz as int),
                    rnds,
                ) == RunOut::Done(s@),
            Err(e) => exists|rnds: Seq<u8>|
                spec_run_from(
                    spec_fresh_view(Some(rom@)),
                    quirks,
                    0,
                    max_cycles as int,
                    spec_cycles_per_tick(cpu_hz as int),
                    rnds,
                ) == RunOut::Failed(e),
        },
{
    if max_cycles == 0 {
        return Err(Chip8Error::InvalidArgument("max_cycles must be > 0"));
    }
    if cpu_hz == 0 {
        return Err(Chip8Error::InvalidArgument("cpu_hz must be > 0"));
    }

    let mut state = match create_state(Some(rom)) {
        Ok(s) => s,
        Err(e) => {
            return Err(e);
        },
    };

    let cycles_per_timer_tick = if cpu_hz / 60 == 0 {
        1
    } else {
        cpu_hz / 60
    };

    let ghost init = state@;
    let ghost maxi = max_cycles as int;
    let ghost cpt = cycles_per_timer_tick as int;
    let ghost mut rnds: Seq<u8> = Seq::empty();
    let mut i: usize = 0;

    proof {
        assert forall|rest: Seq<u8>| #[trigger] spec_run_from(init, quirks, 0, maxi, cpt,
            rnds + rest) == spec_run_from(state@, quirks, 0, maxi, cpt, rnds + rest) by {
            assert(rnds + rest =~= rest);
        }
    }

    while i < max_cycles
        invariant
            i <= max_cycles,
            rnds.len() == i,
            wf(state@),
            max_cycles > 0,
            cpu_hz > 0,
            rom@.len() <= MAX_ROM_SIZE,
            init == spec_fresh_view(Some(rom@)),
            maxi == max_cycles as int,
            cpt == cycles_per_timer_tick as int,
            cpt == spec_cycles_per_tick(cpu_hz as int),
            cycles_per_timer_tick >= 1,
            forall|rest: Seq<u8>| #[trigger] spec_run_from(init, quirks, 0, maxi, cpt,
                rnds + rest) == spec_run_from(state@, quirks, i as int, maxi, cpt, rnds + rest),
        ensures
            i == max_cycles || state@.exited,
        decreases max_cycles - i,
    {
        if state.exited {
            break ;
        }
        let ghost prev = state@;

        let cycle_result = execute_cycle(&mut state, quirks);
        let ghost b = choose|rnd: u8|
            step_matches(spec_cycle(prev, quirks, rnd), state@, cycle_result);
        proof {
            assert(step_matches(spec_cycle(prev, quirks, b), state@, cycle_result));
        }

        match cycle_result {
            Err(e) => {
                proof {
                    let w = rnds + seq![b];
                    assert(w[i as int] == b);
                    assert(spec_run_from(init, quirks, 0, maxi, cpt, w) == spec_run_from(prev, quirks, i as int, maxi, cpt, w));
                    assert(spec_run_from(prev, quirks, i as int, maxi, cpt, w) == RunOut::Failed(e));
                }
                return Err(e);
            },
            Ok(()) => {},
        }
        let ghost mid = state@;

        if ((i + 1) % cycles_per_timer_tick) == 0 {
            tick_timers(&mut state);
            proof {
                assert(state@ =~= spec_tick(mid));
            }
        }

        proof {
            let ghost rnds2 = rnds + seq![b];
            assert forall|rest: Seq<u8>| #[trigger] spec_run_from(init, quirks, 0, maxi, cpt,
                rnds2 + rest) == spec_run_from(state@, quirks, i + 1, maxi, cpt, rnds2 + rest) by {
                let w = rnds + (seq![b] + rest);
                assert(rnds2 + rest =~= w);
                assert(spec_run_from(init, quirks, 0, maxi, cpt, w) == spec_run_from(prev, quirks, i as int, maxi, cpt, w));
                assert(w[i as int] == b);
                assert(spec_run_from(prev, quirks, i as int, maxi, cpt, w) == spec_run_from(
                    state@,
                    quirks,
                    i + 1,
                    maxi,
                    cpt,
                    w,
                ));
            }
            rnds = rnds2;
        }
        i = i + 1;
    }

    proof {
        assert(rnds + Seq::<u8>::empty() =~= rnds);
        assert(spec_run_from(init, quirks, 0, maxi, cpt, rnds) == spec_run_from(state@, quirks, i as int, maxi, cpt, rnds));
        assert(spec_run_from(state@, quirks, i as int, maxi, cpt, rnds) == RunOut::Done(state@));
    }
    Ok(state)
}

} // verus!
