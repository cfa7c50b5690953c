use hack_assembler::assemble;
use hack_assembler::assembler::assemble_checked;
use hack_assembler::ast::AsmError;

fn assembled(source: &str) -> String {
    let bytes = source.as_bytes().to_vec();
    let out = assemble(&bytes).expect("assembly should succeed");
    String::from_utf8(out).expect("output should be ASCII")
}

fn assembly_error(source: &str) -> AsmError {
    let bytes = source.as_bytes().to_vec();
    assemble(&bytes).expect_err("assembly should fail")
}

#[test]
fn pure_number() {
    assert_eq!(assembled("@5"), "0000000000000101\n");
}

#[test]
fn predefined_r3_and_screen() {
    assert_eq!(assembled("@R3"), "0000000000000011\n");
    assert_eq!(assembled("@SCREEN"), "0100000000000000\n");
}

#[test]
fn new_variables_in_order() {
    assert_eq!(
        assembled("@foo\n@foo\n@bar\n"),
        "0000000000010000\n0000000000010000\n0000000000010001\n"
    );
}

#[test]
fn c_command_all_fields() {
    assert_eq!(assembled("MD=D+1;JGT"), "1110011111011001\n");
}

#[test]
fn label_and_forward_reference() {
    assert_eq!(
        assembled("@LOOP\n(LOOP)\n@LOOP\n"),
        "0000000000000001\n0000000000000001\n"
    );
}

#[test]
fn comment_and_blank_stripping() {
    let source = "// header\n@2        // load 2\n\nD=A\n";
    assert_eq!(assembled(source), "0000000000000010\n1110110000010000\n");
}

#[test]
fn comments_and_blanks_do_not_change_output() {
    let bare = "@2\nD=A\n@3\nD=D+A\n@0\nM=D\n";
    let commented = "// adds up\n\n@2   // two\nD=A\n\n\n@3 // three\nD=D+A\n@0\nM=D // store\n\n";
    assert_eq!(assembled(bare), assembled(commented));
}

#[test]
fn whitespace_inside_c_command() {
    assert_eq!(assembled("D =M+1 ; JGT"), assembled("D=M+1;JGT"));
    assert_eq!(assembled("\tD\t=\tM+1\t;\tJGT\t"), assembled("D=M+1;JGT"));
}

#[test]
fn all_predefined_symbols() {
    let source = "@SP\n@LCL\n@ARG\n@THIS\n@THAT\n@KBD\n";
    assert_eq!(
        assembled(source),
        "0000000000000000\n0000000000000001\n0000000000000010\n0000000000000011\n0000000000000100\n0110000000000000\n"
    );
    let registers: Vec<String> = (0..16).map(|i| format!("@R{i}")).collect();
    let out = assembled(&registers.join("\n"));
    let lines: Vec<&str> = out.lines().collect();
    assert_eq!(lines.len(), 16);
    for (i, line) in lines.iter().enumerate() {
        assert_eq!(*line, format!("{:016b}", i));
    }
}

#[test]
fn numeral_edges() {
    assert_eq!(assembled("@0"), "0000000000000000\n");
    assert_eq!(assembled("@32767"), "0111111111111111\n");
    assert_eq!(assembled("@007"), "0000000000000111\n");
    // one past the 15-bit range is a variable name, not a number
    assert_eq!(assembled("@32768"), "0000000000010000\n");
}

#[test]
fn label_after_variable_allocation() {
    // i gets 16, sum gets 17; LOOP and END are labels, not variables
    let source = "@i\nM=1\n@sum\nM=0\n(LOOP)\n@i\nD=M\n@100\nD=D-A\n@END\nD;JGT\n(END)\n@END\n0;JMP\n";
    let out = assembled(source);
    let lines: Vec<&str> = out.lines().collect();
    assert_eq!(lines[0], "0000000000010000"); // @i
    assert_eq!(lines[2], "0000000000010001"); // @sum
    assert_eq!(lines[4], "0000000000010000"); // @i again
    assert_eq!(lines[8], "0000000000001010"); // @END: ROM index 10
    assert_eq!(lines[10], "0000000000001010"); // @END after (END)
}

#[test]
fn empty_and_blank_sources() {
    assert_eq!(assembled(""), "");
    assert_eq!(assembled("\n\n   \n// only a comment\n\t\n"), "");
}

#[test]
fn carriage_returns_are_chomped() {
    assert_eq!(assembled("@5\r\nD=A\r\n"), assembled("@5\nD=A\n"));
}

#[test]
fn missing_newline_at_end() {
    assert_eq!(assembled("@5\nD=A"), "0000000000000101\n1110110000010000\n");
}

#[test]
fn malformed_bare_at_sign() {
    assert_eq!(assembly_error("@"), AsmError::MalformedLine);
}

#[test]
fn unknown_mnemonics() {
    assert_eq!(assembly_error("D=X"), AsmError::UnknownMnemonic);
    assert_eq!(assembly_error("Q=D"), AsmError::UnknownMnemonic);
    assert_eq!(assembly_error("D;JXX"), AsmError::UnknownMnemonic);
    // an unclosed label line falls through to the C-command parser
    assert_eq!(assembly_error("(foo"), AsmError::UnknownMnemonic);
}

#[test]
fn missing_comp() {
    assert_eq!(assembly_error(";JMP"), AsmError::MissingComp);
    assert_eq!(assembly_error("D=;JGT"), AsmError::MissingComp);
    assert_eq!(assembly_error("D="), AsmError::MissingComp);
}

#[test]
fn first_error_wins() {
    // the malformed line comes before the unknown mnemonic
    assert_eq!(assembly_error("@5\n@\nD=X\n"), AsmError::MalformedLine);
    assert_eq!(assembly_error("@5\nD=X\n@\n"), AsmError::UnknownMnemonic);
}

#[test]
fn every_line_is_sixteen_binary_digits() {
    let out = assembled("@1\n@foo\n(L)\nAMD=D|M;JNE\n@L\n0;JMP\n");
    for line in out.lines() {
        assert_eq!(line.len(), 16);
        assert!(line.bytes().all(|b| b == b'0' || b == b'1'));
    }
    assert_eq!(out.lines().count(), 5);
}

#[test]
fn checked_assembly_accepts_small_and_declines_huge() {
    let bytes = b"@5\nD=A\n".to_vec();
    match assemble_checked(&bytes) {
        Some(Ok(out)) => assert_eq!(out, b"0000000000000101\n1110110000010000\n".to_vec()),
        _ => panic!("small program should assemble"),
    }
    let mut huge = Vec::new();
    for _ in 0..32752 {
        huge.extend_from_slice(b"0;JMP\n");
    }
    assert!(assemble_checked(&huge).is_none());
    let mut largest = Vec::new();
    for _ in 0..32751 {
        largest.extend_from_slice(b"0;JMP\n");
    }
    match assemble_checked(&largest) {
        Some(Ok(out)) => assert_eq!(out.len(), 17 * 32751),
        _ => panic!("a program at the bound should assemble"),
    }
}
