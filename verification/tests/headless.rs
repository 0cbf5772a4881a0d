use chip8_emulator_rs::{original_quirks, run_emulator_headless, Chip8Error};

#[test]
fn headless_stops_on_exit_opcode() {
    let rom = vec![0x00, 0xFD];

    let state = run_emulator_headless(original_quirks(), &rom, 10, 700).unwrap();

    assert!(state.exited);
}

#[test]
fn headless_rejects_zero_cycles() {
    let rom = vec![0x00, 0xFD];
    let result = run_emulator_headless(original_quirks(), &rom, 0, 700);
    assert!(matches!(result, Err(Chip8Error::InvalidArgument(_))));
}

#[test]
fn headless_rejects_zero_hz() {
    let rom = vec![0x00, 0xFD];
    let result = run_emulator_headless(original_quirks(), &rom, 10, 0);
    assert!(matches!(result, Err(Chip8Error::InvalidArgument(_))));
}

#[test]
fn headless_rejects_oversized_rom() {
    let rom = vec![0u8; 3585];
    let result = run_emulator_headless(original_quirks(), &rom, 10, 700);
    assert_eq!(result.unwrap_err(), Chip8Error::RomTooLarge { size: 3585, max: 3584 });
}

#[test]
fn headless_draws_a_dot() {
    // LD V0, 2; LD V1, 3; LD I, 0x20A; DRW V0, V1, 1; EXIT; then the sprite.
    let rom = vec![0x60, 0x02, 0x61, 0x03, 0xA2, 0x0A, 0xD0, 0x11, 0x00, 0xFD, 0x80];

    let state = run_emulator_headless(original_quirks(), &rom, 64, 700).unwrap();

    assert!(state.exited);
    assert_eq!(state.screen_buffer[2 + 3 * 64], 1);
    assert!(state.should_draw);
}

#[test]
fn headless_ticks_timers_at_cycle_interval() {
    // LD V0, 9; LD DT, V0; then spin: JP 0x204.
    let rom = vec![0x60, 0x09, 0xF0, 0x15, 0x12, 0x04];

    // 60 cycles at 120 Hz ticks the timers every 2 cycles: 30 ticks.
    let state = run_emulator_headless(original_quirks(), &rom, 60, 120).unwrap();

    assert_eq!(state.delay_timer, 0);
}
