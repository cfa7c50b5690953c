use hack_assembler::assembler::count_instructions;
use hack_assembler::ast::{Command, CommandKind};
use hack_assembler::bytes::{clean_line_bytes, trim_bytes};
use hack_assembler::parse::parse_source;
use hack_assembler::symbols::{gen_symbol_table, handle_a_symbol, SymbolTable};
use hack_assembler::tables::{parse_address_numeral, parse_comp, parse_dest, parse_jump, to_binary16};

fn v(s: &str) -> Vec<u8> {
    s.as_bytes().to_vec()
}

#[test]
fn dest_table() {
    let cases = [
        ("M", 0b001),
        ("D", 0b010),
        ("MD", 0b011),
        ("A", 0b100),
        ("AM", 0b101),
        ("AD", 0b110),
        ("AMD", 0b111),
    ];
    for (mnemonic, bits) in cases {
        assert_eq!(parse_dest(&v(mnemonic)), Some(bits), "dest {mnemonic}");
    }
    assert_eq!(parse_dest(&v("")), None);
    assert_eq!(parse_dest(&v("DM")), None);
}

#[test]
fn jump_table() {
    let cases = [
        ("JGT", 0b001),
        ("JEQ", 0b010),
        ("JGE", 0b011),
        ("JLT", 0b100),
        ("JNE", 0b101),
        ("JLE", 0b110),
        ("JMP", 0b111),
    ];
    for (mnemonic, bits) in cases {
        assert_eq!(parse_jump(&v(mnemonic)), Some(bits), "jump {mnemonic}");
    }
    assert_eq!(parse_jump(&v("JG")), None);
}

#[test]
fn comp_table() {
    let cases = [
        ("0", 0b0101010),
        ("1", 0b0111111),
        ("-1", 0b0111010),
        ("D", 0b0001100),
        ("A", 0b0110000),
        ("!D", 0b0001101),
        ("!A", 0b0110001),
        ("-D", 0b0001111),
        ("-A", 0b0110011),
        ("D+1", 0b0011111),
        ("A+1", 0b0110111),
        ("D-1", 0b0001110),
        ("A-1", 0b0110010),
        ("D+A", 0b0000010),
        ("D-A", 0b0010011),
        ("A-D", 0b0000111),
        ("D&A", 0b0000000),
        ("D|A", 0b0010101),
        ("M", 0b1110000),
        ("!M", 0b1110001),
        ("-M", 0b1110011),
        ("M+1", 0b1110111),
        ("M-1", 0b1110010),
        ("D+M", 0b1000010),
        ("D-M", 0b1010011),
        ("M-D", 0b1000111),
        ("D&M", 0b1000000),
        ("D|M", 0b1010101),
    ];
    assert_eq!(cases.len(), 28);
    for (mnemonic, bits) in cases {
        assert_eq!(parse_comp(&v(mnemonic)), Some(bits), "comp {mnemonic}");
    }
    assert_eq!(parse_comp(&v("1+D")), None);
}

#[test]
fn binary_formatting() {
    assert_eq!(to_binary16(0), v("0000000000000000"));
    assert_eq!(to_binary16(5), v("0000000000000101"));
    assert_eq!(to_binary16(65535), v("1111111111111111"));
    assert_eq!(to_binary16(16384), v("0100000000000000"));
}

#[test]
fn address_numerals() {
    assert_eq!(parse_address_numeral(&v("5")), Some(5));
    assert_eq!(parse_address_numeral(&v("32767")), Some(32767));
    assert_eq!(parse_address_numeral(&v("00016")), Some(16));
    assert_eq!(parse_address_numeral(&v("")), None);
    assert_eq!(parse_address_numeral(&v("32768")), None);
    assert_eq!(parse_address_numeral(&v("99999999999999999999")), None);
    assert_eq!(parse_address_numeral(&v("12a")), None);
    assert_eq!(parse_address_numeral(&v("-5")), None);
    assert_eq!(parse_address_numeral(&v("+5")), None);
}

#[test]
fn line_cleaning() {
    assert_eq!(clean_line_bytes(&v("  @5  // load\r")), v("@5"));
    assert_eq!(clean_line_bytes(&v("// only")), v(""));
    assert_eq!(clean_line_bytes(&v("\t D = A \t")), v("D = A"));
    assert_eq!(clean_line_bytes(&v("a/b//c//d")), v("a/b"));
    assert_eq!(trim_bytes(&v("  x  ")), v("x"));
    assert_eq!(trim_bytes(&v(" \t ")), v(""));
}

#[test]
fn symbol_table_basics() {
    let mut table = SymbolTable::new();
    assert_eq!(table.next_ram_idx, 16);
    assert_eq!(table.get(&v("x")), None);
    table.insert(v("x"), 7);
    assert_eq!(table.get(&v("x")), Some(7));
    table.insert(v("x"), 9);
    assert_eq!(table.get(&v("x")), Some(9));
    assert!(table.contains(&v("x")));
    assert!(!table.contains(&v("y")));
}

#[test]
fn variable_allocation() {
    let mut table = SymbolTable::new();
    let first = handle_a_symbol(&v("a"), &mut table);
    let again = handle_a_symbol(&v("a"), &mut table);
    let second = handle_a_symbol(&v("b"), &mut table);
    assert_eq!(first, 16);
    assert_eq!(again, 16);
    assert_eq!(second, 17);
    assert_eq!(table.next_ram_idx, 18);
}

#[test]
fn pass_one_records_labels() {
    let commands = parse_source(&v("@9\n(HERE)\nD=A\n(THERE)\n")).expect("parses");
    let table = gen_symbol_table(&commands);
    assert_eq!(table.get(&v("HERE")), Some(1));
    assert_eq!(table.get(&v("THERE")), Some(2));
    assert_eq!(table.get(&v("SP")), Some(0));
    assert_eq!(table.get(&v("KBD")), Some(24576));
    assert_eq!(table.get(&v("R15")), Some(15));
}

#[test]
fn parsed_commands_carry_rom_indices() {
    let commands = parse_source(&v("@1\n(L)\n@2\nD=A\n(M)\n")).expect("parses");
    assert_eq!(commands.len(), 5);
    let indices: Vec<usize> = commands.iter().map(|c| c.rom_idx).collect();
    assert_eq!(indices, vec![0, 1, 1, 2, 3]);
    assert_eq!(count_instructions(&commands), 3);
    match &commands[1].kind {
        CommandKind::L { label } => assert_eq!(label, &v("L")),
        _ => panic!("expected a label"),
    }
    match &commands[3].kind {
        CommandKind::C { dest, comp, jump } => {
            assert_eq!(dest.as_ref(), Some(&v("D")));
            assert_eq!(comp, &v("A"));
            assert_eq!(jump.as_ref(), None);
        },
        _ => panic!("expected a C-command"),
    }
    let c: &Command = &commands[0];
    match &c.kind {
        CommandKind::A { symbol } => assert_eq!(symbol, &v("1")),
        _ => panic!("expected an A-command"),
    }
}

#[test]
fn split_on_first_separator_only() {
    // the spec splits on the first `;` and the first `=`; the remainders are
    // field text and fail the vocabulary check
    let commands = parse_source(&v("D;JGT;JMP"));
    assert!(commands.is_err());
    let commands = parse_source(&v("A=D=1"));
    assert!(commands.is_err());
}
