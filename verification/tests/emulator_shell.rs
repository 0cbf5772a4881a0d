use chip8_emulator_rs::Chip8Emulator;

#[test]
fn test_initialization() {
    let emu = Chip8Emulator::new();
    assert_eq!(emu.pc, 0x200);
}

#[test]
fn shell_key_map_follows_qwerty_layout() {
    assert_eq!(Chip8Emulator::key_map(b'1'), Some(0x01));
    assert_eq!(Chip8Emulator::key_map(b'4'), Some(0x0C));
    assert_eq!(Chip8Emulator::key_map(b'x'), Some(0x00));
    assert_eq!(Chip8Emulator::key_map(b'v'), Some(0x0F));
    assert_eq!(Chip8Emulator::key_map(b'9'), None);
}

#[test]
fn shell_load_font_copies_the_glyphs() {
    let mut emu = Chip8Emulator::new();
    emu.load_font();
    assert_eq!(emu.memory[0], 0xF0);
    assert_eq!(emu.memory[79], 0x80);
    assert_eq!(emu.memory[80], 0x00);
}

#[test]
fn shell_pc_steps_by_instruction() {
    let mut emu = Chip8Emulator::new();
    emu.inc_pc();
    assert_eq!(emu.pc, 0x202);
    emu.dec_pc();
    assert_eq!(emu.pc, 0x200);
}
