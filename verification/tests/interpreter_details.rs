use chip8_emulator_rs::{
    create_state, execute_cycle, execute_opcode, first_pressed_key, load_quirks_profile,
    modern_quirks, original_quirks, reset_state, set_key_state, tick_timers, Chip8Error,
};

#[test]
fn fresh_state_has_font_and_program_start() {
    let state = create_state(None).unwrap();
    assert_eq!(state.pc, 0x200);
    assert_eq!(state.memory[0], 0xF0);
    assert_eq!(state.memory[79], 0x80);
    assert_eq!(state.memory[80], 0x00);
    assert_eq!(state.index, 0);
    assert!(state.stack.is_empty());
    assert!(!state.exited);
}

#[test]
fn create_state_loads_rom_at_program_start() {
    let rom = vec![0x01, 0x23, 0x45, 0x67, 0x89, 0xAB, 0xCD, 0xEF];
    let state = create_state(Some(&rom)).unwrap();
    for (i, &byte) in rom.iter().enumerate() {
        assert_eq!(state.memory[0x200 + i], byte);
    }
}

#[test]
fn create_state_rejects_an_oversized_rom() {
    let rom = vec![0u8; 3585];
    let err = create_state(Some(&rom)).unwrap_err();
    assert_eq!(err, Chip8Error::RomTooLarge { size: 3585, max: 3584 });
    assert!(create_state(Some(&vec![0u8; 3584])).is_ok());
}

#[test]
fn reset_state_clears_a_dirty_machine() {
    let mut state = create_state(None).unwrap();
    state.registers[3] = 9;
    state.exited = true;
    state.stack.push(0x222);
    reset_state(&mut state, None).unwrap();
    assert_eq!(state.registers[3], 0);
    assert!(!state.exited);
    assert!(state.stack.is_empty());
    assert_eq!(state.pc, 0x200);
}

#[test]
fn fx0a_blocks_until_a_key_arrives() {
    let mut state = create_state(None).unwrap();
    state.memory[0x200] = 0xF0;
    state.memory[0x201] = 0x0A;
    state.memory[0x202] = 0xF0;
    state.memory[0x203] = 0x0A;

    execute_cycle(&mut state, original_quirks()).unwrap();
    assert_eq!(state.pc, 0x200);
    assert_eq!(state.registers[0], 0);

    set_key_state(&mut state, 0x5, true);
    execute_cycle(&mut state, original_quirks()).unwrap();
    assert_eq!(state.registers[0], 5);
    assert_eq!(state.pc, 0x202);
}

#[test]
fn first_pressed_key_reports_the_lowest() {
    let mut state = create_state(None).unwrap();
    assert_eq!(first_pressed_key(&state), None);
    set_key_state(&mut state, 0xB, true);
    set_key_state(&mut state, 0x4, true);
    assert_eq!(first_pressed_key(&state), Some(0x4));
    set_key_state(&mut state, 99, true);
    assert_eq!(first_pressed_key(&state), Some(0x4));
}

#[test]
fn cls_clears_the_screen() {
    let mut state = create_state(None).unwrap();
    state.screen_buffer[77] = 1;
    state.should_draw = false;
    execute_opcode(&mut state, 0x00E0, original_quirks()).unwrap();
    assert_eq!(state.screen_buffer[77], 0);
    assert!(state.should_draw);
}

#[test]
fn call_and_ret_balance_the_stack() {
    let mut state = create_state(None).unwrap();
    execute_opcode(&mut state, 0x2400, original_quirks()).unwrap();
    assert_eq!(state.pc, 0x400);
    assert_eq!(state.stack, vec![0x200]);
    execute_opcode(&mut state, 0x00EE, original_quirks()).unwrap();
    assert_eq!(state.pc, 0x200);
    assert!(state.stack.is_empty());
}

#[test]
fn ret_with_empty_stack_underflows() {
    let mut state = create_state(None).unwrap();
    let err = execute_opcode(&mut state, 0x00EE, original_quirks()).unwrap_err();
    assert_eq!(err, Chip8Error::StackUnderflow);
}

#[test]
fn unknown_opcodes_are_invalid() {
    let mut state = create_state(None).unwrap();
    let err = execute_opcode(&mut state, 0x5001, original_quirks()).unwrap_err();
    assert_eq!(err, Chip8Error::InvalidOpcode(0x5001));
    let err = execute_opcode(&mut state, 0xF0FF, original_quirks()).unwrap_err();
    assert_eq!(err, Chip8Error::InvalidOpcode(0xF0FF));
    let err = execute_opcode(&mut state, 0xE000, original_quirks()).unwrap_err();
    assert_eq!(err, Chip8Error::InvalidOpcode(0xE000));
}

#[test]
fn machine_code_calls_are_ignored() {
    let mut state = create_state(None).unwrap();
    execute_opcode(&mut state, 0x0123, original_quirks()).unwrap();
    assert_eq!(state.pc, 0x200);
    assert_eq!(state.op, 0x0123);
}

#[test]
fn fetch_past_memory_end_fails() {
    let mut state = create_state(None).unwrap();
    state.pc = 4095;
    let err = execute_cycle(&mut state, original_quirks()).unwrap_err();
    assert_eq!(err, Chip8Error::ProgramCounterOutOfBounds(4095));
}

#[test]
fn eight_xy4_sets_the_carry_flag() {
    let mut state = create_state(None).unwrap();
    state.registers[0] = 200;
    state.registers[1] = 100;
    execute_opcode(&mut state, 0x8014, original_quirks()).unwrap();
    assert_eq!(state.registers[0], 44);
    assert_eq!(state.registers[0xF], 1);
}

#[test]
fn eight_xy5_sets_the_borrow_flag() {
    let mut state = create_state(None).unwrap();
    state.registers[0] = 10;
    state.registers[1] = 20;
    execute_opcode(&mut state, 0x8015, original_quirks()).unwrap();
    assert_eq!(state.registers[0], 246);
    assert_eq!(state.registers[0xF], 0);
}

#[test]
fn eight_xy7_subtracts_the_other_way() {
    let mut state = create_state(None).unwrap();
    state.registers[0] = 10;
    state.registers[1] = 20;
    execute_opcode(&mut state, 0x8017, original_quirks()).unwrap();
    assert_eq!(state.registers[0], 10);
    assert_eq!(state.registers[0xF], 1);
}

#[test]
fn bnnn_uses_v0_in_the_original_profile() {
    let mut state = create_state(None).unwrap();
    state.registers[0] = 0x05;
    state.registers[1] = 0x10;
    execute_opcode(&mut state, 0xB123, original_quirks()).unwrap();
    assert_eq!(state.pc, 0x128);
}

#[test]
fn fx29_points_at_a_font_glyph() {
    let mut state = create_state(None).unwrap();
    state.registers[0] = 0x1A;
    execute_opcode(&mut state, 0xF029, original_quirks()).unwrap();
    assert_eq!(state.index, 10 * 5);
}

#[test]
fn fx1e_masks_the_index_to_twelve_bits() {
    let mut state = create_state(None).unwrap();
    state.index = 0xFFF;
    state.registers[0] = 5;
    execute_opcode(&mut state, 0xF01E, original_quirks()).unwrap();
    assert_eq!(state.index, 4);
}

#[test]
fn fx07_and_fx15_move_the_delay_timer() {
    let mut state = create_state(None).unwrap();
    state.registers[1] = 42;
    execute_opcode(&mut state, 0xF115, original_quirks()).unwrap();
    assert_eq!(state.delay_timer, 42);
    execute_opcode(&mut state, 0xF207, original_quirks()).unwrap();
    assert_eq!(state.registers[2], 42);
}

#[test]
fn fx18_sets_the_sound_timer() {
    let mut state = create_state(None).unwrap();
    state.registers[1] = 7;
    execute_opcode(&mut state, 0xF118, original_quirks()).unwrap();
    assert_eq!(state.sound_timer, 7);
}

#[test]
fn fx55_register_store_past_memory_end_fails() {
    let mut state = create_state(None).unwrap();
    state.index = 0xFFF;
    let err = execute_opcode(&mut state, 0xF155, original_quirks()).unwrap_err();
    assert_eq!(err, Chip8Error::ProgramCounterOutOfBounds(0x1000));
}

#[test]
fn cxkk_masks_the_random_byte() {
    let mut state = create_state(None).unwrap();
    execute_opcode(&mut state, 0xC003, original_quirks()).unwrap();
    assert!(state.registers[0] <= 3);
    execute_opcode(&mut state, 0xC100, original_quirks()).unwrap();
    assert_eq!(state.registers[1], 0);
}

#[test]
fn timers_saturate_at_zero() {
    let mut state = create_state(None).unwrap();
    let beep = tick_timers(&mut state);
    assert!(!beep);
    assert_eq!(state.delay_timer, 0);
    assert_eq!(state.sound_timer, 0);
}

#[test]
fn quirks_profiles_parse_by_name() {
    assert_eq!(load_quirks_profile("original").unwrap(), original_quirks());
    assert_eq!(load_quirks_profile("  MODERN ").unwrap(), modern_quirks());
    assert!(load_quirks_profile("fast").is_err());
    let q = original_quirks();
    assert!(q.shift_uses_vy && q.load_store_increment_i);
    assert!(!q.jump_with_vx && !q.draw_wrap);
    let m = modern_quirks();
    assert!(!m.shift_uses_vy && !m.load_store_increment_i);
    assert!(m.jump_with_vx && m.draw_wrap);
}

#[test]
fn an_assembled_program_runs_headless() {
    let source = "
        ORG 0x200
        LD V0, 2
        LD V1, 3
        LD I, dot
        DRW V0, V1, 1
        EXIT
    dot:
        DB 0x80
    ";
    let rom = chip8_emulator_rs::assembler::assemble_text(source, 0x200).unwrap();
    let state =
        chip8_emulator_rs::run_emulator_headless(original_quirks(), &rom, 100, 700).unwrap();
    assert!(state.exited);
    assert_eq!(state.screen_buffer[2 + 3 * 64], 1);
}
