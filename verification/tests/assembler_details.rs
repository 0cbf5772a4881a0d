use chip8_emulator_rs::assembler::{
    assemble_text, encode_instruction, encode_statements, is_register, parse_numeric_literal,
    parse_origin, parse_register, parse_source, parse_value, AsmErrorKind, LabelTable,
};

#[test]
fn numeric_literals_cover_every_radix() {
    assert_eq!(parse_numeric_literal("$FF", 1).unwrap(), 255);
    assert_eq!(parse_numeric_literal("0x1F", 1).unwrap(), 0x1F);
    assert_eq!(parse_numeric_literal("0X1f", 1).unwrap(), 0x1F);
    assert_eq!(parse_numeric_literal("0b101", 1).unwrap(), 5);
    assert_eq!(parse_numeric_literal("0o17", 1).unwrap(), 15);
    assert_eq!(parse_numeric_literal("42", 1).unwrap(), 42);
    assert_eq!(parse_numeric_literal("-5", 1).unwrap(), -5);
    assert_eq!(parse_numeric_literal("'A'", 1).unwrap(), 65);
    assert_eq!(parse_numeric_literal("  7 ", 1).unwrap(), 7);
}

#[test]
fn numeric_literal_rejects_garbage() {
    let e = parse_numeric_literal("zz", 3).unwrap_err();
    assert_eq!(e.kind, AsmErrorKind::InvalidValue);
    assert_eq!(e.line_no, Some(3));
    assert!(parse_numeric_literal("0x", 1).is_err());
    assert!(parse_numeric_literal("''", 1).is_err());
    assert!(parse_numeric_literal("'ab'", 1).is_err());
    assert!(parse_numeric_literal("99999999999", 1).is_err());
}

#[test]
fn registers_parse_in_both_spellings() {
    assert_eq!(parse_register("V0", 1).unwrap(), 0);
    assert_eq!(parse_register("vF", 1).unwrap(), 15);
    assert_eq!(parse_register("Va", 1).unwrap(), 10);
    assert_eq!(parse_register("V15", 1).unwrap(), 15);
    assert_eq!(parse_register(" v9 ", 1).unwrap(), 9);
    assert!(is_register("V3"));
    assert!(!is_register("W3"));
    let e = parse_register("V16", 2).unwrap_err();
    assert_eq!(e.kind, AsmErrorKind::InvalidRegister);
    assert!(parse_register("VG", 1).is_err());
    assert!(parse_register("V", 1).is_err());
}

#[test]
fn labels_resolve_through_parse_value() {
    let mut table = LabelTable::new();
    table.insert("loop".chars().collect(), 0x208);
    assert_eq!(parse_value("loop", &table, 1).unwrap(), 0x208);
    assert_eq!(parse_value("0x30", &table, 1).unwrap(), 0x30);
    let e = parse_value("missing", &table, 9).unwrap_err();
    assert_eq!(e.kind, AsmErrorKind::InvalidValue);
    assert_eq!(e.line_no, Some(9));
}

#[test]
fn encoder_emits_each_form() {
    let table = LabelTable::new();
    let no_args: Vec<String> = vec![];
    let args = |xs: &[&str]| xs.iter().map(|s| s.to_string()).collect::<Vec<String>>();

    assert_eq!(encode_instruction("CLS", &no_args, &table, 1).unwrap(), 0x00E0);
    assert_eq!(encode_instruction("ret", &no_args, &table, 1).unwrap(), 0x00EE);
    assert_eq!(encode_instruction("EXIT", &no_args, &table, 1).unwrap(), 0x00FD);
    assert_eq!(encode_instruction("JP", &args(&["0x123"]), &table, 1).unwrap(), 0x1123);
    assert_eq!(encode_instruction("JP", &args(&["V1", "0x23"]), &table, 1).unwrap(), 0xB123);
    assert_eq!(encode_instruction("CALL", &args(&["0x345"]), &table, 1).unwrap(), 0x2345);
    assert_eq!(encode_instruction("SE", &args(&["V1", "0x22"]), &table, 1).unwrap(), 0x3122);
    assert_eq!(encode_instruction("SE", &args(&["V1", "V2"]), &table, 1).unwrap(), 0x5120);
    assert_eq!(encode_instruction("SNE", &args(&["V1", "0x22"]), &table, 1).unwrap(), 0x4122);
    assert_eq!(encode_instruction("SNE", &args(&["V1", "V2"]), &table, 1).unwrap(), 0x9120);
    assert_eq!(encode_instruction("LD", &args(&["V1", "0x44"]), &table, 1).unwrap(), 0x6144);
    assert_eq!(encode_instruction("LD", &args(&["V1", "V2"]), &table, 1).unwrap(), 0x8120);
    assert_eq!(encode_instruction("ADD", &args(&["V1", "0x44"]), &table, 1).unwrap(), 0x7144);
    assert_eq!(encode_instruction("ADD", &args(&["V1", "V2"]), &table, 1).unwrap(), 0x8124);
    assert_eq!(encode_instruction("ADD", &args(&["I", "V3"]), &table, 1).unwrap(), 0xF31E);
    assert_eq!(encode_instruction("OR", &args(&["V1", "V2"]), &table, 1).unwrap(), 0x8121);
    assert_eq!(encode_instruction("AND", &args(&["V1", "V2"]), &table, 1).unwrap(), 0x8122);
    assert_eq!(encode_instruction("XOR", &args(&["V1", "V2"]), &table, 1).unwrap(), 0x8123);
    assert_eq!(encode_instruction("SUB", &args(&["V1", "V2"]), &table, 1).unwrap(), 0x8125);
    assert_eq!(encode_instruction("SUBN", &args(&["V1", "V2"]), &table, 1).unwrap(), 0x8127);
    assert_eq!(encode_instruction("SHR", &args(&["V1"]), &table, 1).unwrap(), 0x8116);
    assert_eq!(encode_instruction("SHR", &args(&["V1", "V2"]), &table, 1).unwrap(), 0x8126);
    assert_eq!(encode_instruction("SHL", &args(&["V1"]), &table, 1).unwrap(), 0x811E);
    assert_eq!(encode_instruction("RND", &args(&["V2", "0x0F"]), &table, 1).unwrap(), 0xC20F);
    assert_eq!(encode_instruction("DRW", &args(&["V1", "V2", "5"]), &table, 1).unwrap(), 0xD125);
    assert_eq!(encode_instruction("SKP", &args(&["V3"]), &table, 1).unwrap(), 0xE39E);
    assert_eq!(encode_instruction("SKNP", &args(&["V3"]), &table, 1).unwrap(), 0xE3A1);
}

#[test]
fn encoder_rejects_bad_inputs() {
    let table = LabelTable::new();
    let args = |xs: &[&str]| xs.iter().map(|s| s.to_string()).collect::<Vec<String>>();

    let e = encode_instruction("FOO", &args(&["V1"]), &table, 7).unwrap_err();
    assert_eq!(e.kind, AsmErrorKind::UnknownMnemonic);
    assert_eq!(e.line_no, Some(7));

    let e = encode_instruction("CLS", &args(&["V1"]), &table, 7).unwrap_err();
    assert_eq!(e.kind, AsmErrorKind::WrongArgCount);

    let e = encode_instruction("JP", &args(&["0x1000"]), &table, 7).unwrap_err();
    assert_eq!(e.kind, AsmErrorKind::OutOfRange);

    let e = encode_instruction("LD", &args(&["Q", "1"]), &table, 7).unwrap_err();
    assert_eq!(e.kind, AsmErrorKind::UnsupportedOperands);

    let e = encode_instruction("SE", &args(&["V1", "0x100"]), &table, 7).unwrap_err();
    assert_eq!(e.kind, AsmErrorKind::OutOfRange);

    let e = encode_instruction("DRW", &args(&["V1", "V2", "16"]), &table, 7).unwrap_err();
    assert_eq!(e.kind, AsmErrorKind::OutOfRange);
}

#[test]
fn assembly_reports_each_failure_kind() {
    let dup = assemble_text("a: RET\na: RET", 0x200).unwrap_err();
    assert_eq!(dup.kind, AsmErrorKind::DuplicateLabel);
    assert_eq!(dup.line_no, Some(2));

    let bad_label = assemble_text("1abc: RET", 0x200).unwrap_err();
    assert_eq!(bad_label.kind, AsmErrorKind::InvalidLabel);

    let below = assemble_text("ORG 0x100", 0x200).unwrap_err();
    assert_eq!(below.kind, AsmErrorKind::OrgBackwards);

    let backwards = assemble_text("ORG 0x300\nRET\nORG 0x300", 0x200).unwrap_err();
    assert_eq!(backwards.kind, AsmErrorKind::OrgBackwards);

    let empty_db = assemble_text("DB", 0x200).unwrap_err();
    assert_eq!(empty_db.kind, AsmErrorKind::EmptyData);

    let empty_dw = assemble_text("DW", 0x200).unwrap_err();
    assert_eq!(empty_dw.kind, AsmErrorKind::EmptyData);

    let word = assemble_text("DW 0x10000", 0x200).unwrap_err();
    assert_eq!(word.kind, AsmErrorKind::OutOfRange);

    let byte = assemble_text("DB 256", 0x200).unwrap_err();
    assert_eq!(byte.kind, AsmErrorKind::OutOfRange);

    let value = assemble_text("JP nowhere", 0x200).unwrap_err();
    assert_eq!(value.kind, AsmErrorKind::InvalidValue);
}

#[test]
fn comments_and_dotted_directives_are_accepted() {
    let source = "
        .org 0x200   ; set the origin
        db 'A'       # one byte
    ";
    let rom = assemble_text(source, 0x200).unwrap();
    assert_eq!(rom, vec![0x41]);
}

#[test]
fn quoted_semicolons_do_not_start_comments() {
    let rom = assemble_text("DB ';'", 0x200).unwrap();
    assert_eq!(rom, vec![0x3B]);
}

#[test]
fn rerunning_pass_two_reproduces_the_bytes() {
    let source = "
        ORG 0x200
    start:
        LD V0, 1
        JP start
        DW start
    ";
    let (statements, labels) = parse_source(source, 0x200).unwrap();
    let first = encode_statements(&statements, &labels, 0x200).unwrap();
    let second = encode_statements(&statements, &labels, 0x200).unwrap();
    assert_eq!(first, second);
    assert_eq!(first, vec![0x60, 0x01, 0x12, 0x00, 0x02, 0x00]);
}

#[test]
fn output_length_matches_the_final_counter() {
    // Three records: two instructions, padding to 0x206, one final byte.
    let rom = assemble_text("ORG 0x200\nRET\nRET\nORG 0x206\nDB 1", 0x200).unwrap();
    assert_eq!(rom.len(), 0x207 - 0x200);
}

#[test]
fn origin_option_accepts_hex_and_decimal() {
    assert_eq!(parse_origin("0x200").unwrap(), 0x200);
    assert_eq!(parse_origin("768").unwrap(), 768);
    let e = parse_origin("21st").unwrap_err();
    assert_eq!(e.kind, AsmErrorKind::InvalidValue);
    assert_eq!(e.line_no, None);
}

#[test]
fn multiple_labels_share_one_address() {
    let rom = assemble_text("a: b: RET\nJP b", 0x200).unwrap();
    assert_eq!(rom, vec![0x00, 0xEE, 0x12, 0x00]);
}
