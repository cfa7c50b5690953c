//! Pass 2: walking the command table in ROM order, resolving A-command
//! symbols, encoding C-commands, and emitting one binary line per
//! instruction.
use vstd::prelude::*;
use crate::ast::{kinds_of, Command, CommandKind, SpecCmd};
use crate::bytes::{is_numeric_symbol, numeral_value};
use crate::parse::{parse_line_spec, parse_lines_spec};
use crate::symbols::{handle_a_symbol, SymbolTable};
use crate::tables::{bits16, comp_code, dest_code, jump_code};
use crate::tables::{parse_address_numeral, parse_comp, parse_dest, parse_jump, to_binary16};

verus! {

pub open spec fn dest_bits(d: Option<Seq<u8>>) -> u16 {
    match d {
        Option::Some(s) => match dest_code(s) {
            Option::Some(v) => v,
            Option::None => 0,
        },
        Option::None => 0,
    }
}

pub open spec fn jump_bits(j: Option<Seq<u8>>) -> u16 {
    match j {
        Option::Some(s) => match jump_code(s) {
            Option::Some(v) => v,
            Option::None => 0,
        },
        Option::None => 0,
    }
}

pub open spec fn comp_bits(c: Seq<u8>) -> u16 {
    match comp_code(c) {
        Option::Some(v) => v,
        Option::None => 0,
    }
}

/// The 16-bit word of a C-instruction: `111`, the seven comp bits, the three
/// dest bits, and the three jump bits.
pub open spec fn c_value(dest: Option<Seq<u8>>, comp: Seq<u8>, jump: Option<Seq<u8>>) -> u16 {
    (57344 + comp_bits(comp) * 64 + dest_bits(dest) * 8 + jump_bits(jump)) as u16
}

pub open spec fn c_word(dest: Option<Seq<u8>>, comp: Seq<u8>, jump: Option<Seq<u8>>) -> Seq<u8> {
    bits16(c_value(dest, comp, jump))
}

/// One A-command under a symbol state: the emitted word, and the map and RAM
/// cursor after it. A numeric symbol is its own address; a known name keeps
/// its binding; an unknown name is allocated the cursor address.
pub open spec fn a_step(symbol: Seq<u8>, m: Map<Seq<u8>, u16>, next: int) -> (Seq<u8>, Map<
    Seq<u8>,
    u16,
>, int) {
    if is_numeric_symbol(symbol) {
        (bits16(numeral_value(symbol) as u16), m, next)
    } else if m.contains_key(symbol) {
        (bits16(m[symbol]), m, next)
    } else {
        (bits16(next as u16), m.insert(symbol, next as u16), next + 1)
    }
}

/// Pass 2 at the specification level: the 16-character words emitted for the
/// A- and C-commands in order, and the symbol state when it is done.
pub open spec fn pass2_rec(cs: Seq<SpecCmd>, m: Map<Seq<u8>, u16>, next: int) -> (Seq<Seq<u8>>, Map<
    Seq<u8>,
    u16,
>, int)
    decreases cs.len(),
{
    if cs.len() == 0 {
        (Seq::empty(), m, next)
    } else {
        match cs[0] {
            SpecCmd::L { .. } => pass2_rec(cs.drop_first(), m, next),
            SpecCmd::A { symbol } => {
                let (w, m2, n2) = a_step(symbol, m, next);
                let (ws, m3, n3) = pass2_rec(cs.drop_first(), m2, n2);
                (seq![w] + ws, m3, n3)
            },
            SpecCmd::C { dest, comp, jump } => {
                let (ws, m2, n2) = pass2_rec(cs.drop_first(), m, next);
                (seq![c_word(dest, comp, jump)] + ws, m2, n2)
            },
        }
    }
}

/// Words joined into the output text, each followed by a newline.
pub open spec fn join_lines(ws: Seq<Seq<u8>>) -> Seq<u8>
    decreases ws.len(),
{
    if ws.len() == 0 {
        Seq::empty()
    } else {
        ws[0] + seq!['\n' as u8] + join_lines(ws.drop_first())
    }
}

pub proof fn lemma_join_lines_push(ws: Seq<Seq<u8>>, w: Seq<u8>)
    ensures
        join_lines(ws.push(w)) == join_lines(ws) + w + seq!['\n' as u8],
    decreases ws.len(),
{
    if ws.len() == 0 {
        assert(ws.push(w)[0] == w);
        assert(ws.push(w).drop_first() =~= Seq::<Seq<u8>>::empty());
        assert(w + seq!['\n' as u8] + join_lines(Seq::<Seq<u8>>::empty()) =~= join_lines(ws) + w
            + seq!['\n' as u8]);
    } else {
        assert(ws.push(w)[0] == ws[0]);
        assert(ws.push(w).drop_first() =~= ws.drop_first().push(w));
        lemma_join_lines_push(ws.drop_first(), w);
        assert(ws[0] + seq!['\n' as u8] + (join_lines(ws.drop_first()) + w + seq!['\n' as u8])
            =~= (ws[0] + seq!['\n' as u8] + join_lines(ws.drop_first())) + w + seq!['\n' as u8]);
    }
}

/// The RAM cursor never moves backwards.
pub proof fn lemma_pass2_next_mono(cs: Seq<SpecCmd>, m: Map<Seq<u8>, u16>, next: int)
    ensures
        pass2_rec(cs, m, next).2 >= next,
    decreases cs.len(),
{
    if cs.len() > 0 {
        match cs[0] {
            SpecCmd::L { .. } => {
                lemma_pass2_next_mono(cs.drop_first(), m, next);
            },
            SpecCmd::A { symbol } => {
                let (w, m2, n2) = a_step(symbol, m, next);
                lemma_pass2_next_mono(cs.drop_first(), m2, n2);
            },
            SpecCmd::C { .. } => {
                lemma_pass2_next_mono(cs.drop_first(), m, next);
            },
        }
    }
}

/// A C-command whose fields are drawn from the vocabularies.
pub open spec fn c_valid(c: SpecCmd) -> bool {
    match c {
        SpecCmd::C { dest, comp, jump } => {
            &&& comp_code(comp) != Option::<u16>::None
            &&& (match dest {
                Option::Some(d) => dest_code(d) != Option::<u16>::None,
                Option::None => true,
            })
            &&& (match jump {
                Option::Some(j) => jump_code(j) != Option::<u16>::None,
                Option::None => true,
            })
        },
        _ => false,
    }
}

pub open spec fn c_commands_valid(cs: Seq<SpecCmd>) -> bool {
    forall|i: int|
        0 <= i < cs.len() ==> match #[trigger] cs[i] {
            SpecCmd::C { .. } => c_valid(cs[i]),
            _ => true,
        }
}

/// What the parser hands on: every C-command in a parsed program carries
/// vocabulary mnemonics.
pub proof fn lemma_parsed_c_valid(lines: Seq<Seq<u8>>)
    ensures
        match parse_lines_spec(lines) {
            Result::Ok(cs) => c_commands_valid(cs),
            Result::Err(_) => true,
        },
    decreases lines.len(),
{
    if lines.len() > 0 {
        lemma_parsed_c_valid(lines.drop_first());
        match parse_line_spec(lines[0]) {
            Result::Err(_) => {},
            Result::Ok(c) => {
                match parse_lines_spec(lines.drop_first()) {
                    Result::Err(_) => {},
                    Result::Ok(cs) => {
                        assert forall|i: int| 0 <= i < (seq![c] + cs).len() implies match #[trigger] (
                        seq![c] + cs)[i] {
                            SpecCmd::C { .. } => c_valid((seq![c] + cs)[i]),
                            _ => true,
                        } by {
                            if i == 0 {
                                assert((seq![c] + cs)[0] == c);
                            } else {
                                assert((seq![c] + cs)[i] == cs[i - 1]);
                            }
                        }
                    },
                }
            },
        }
    }
}

/// Encodes one A-command as its 16-character address line, allocating a RAM
/// address if the symbol is an unknown name.
pub fn parse_a_command(command: &Command, symbol_table: &mut SymbolTable) -> (r: Vec<u8>)
    requires
        old(symbol_table).wf(),
        (match command.kind@ {
            SpecCmd::A { symbol } => is_numeric_symbol(symbol) || old(symbol_table)@.contains_key(
                symbol,
            ) || old(symbol_table).next_ram_idx < 32767,
            _ => false,
        }),
    ensures
        final(symbol_table).wf(),
        (match command.kind@ {
            SpecCmd::A { symbol } => {
                let (w, m2, n2) = a_step(
                    symbol,
                    old(symbol_table)@,
                    old(symbol_table).next_ram_idx as int,
                );
                &&& r@ == w + seq!['\n' as u8]
                &&& final(symbol_table)@ == m2
                &&& final(symbol_table).next_ram_idx == n2
            },
            _ => false,
        }),
{
    let symbol: &Vec<u8> = match &command.kind {
        CommandKind::A { symbol } => symbol,
        _ => vstd::pervasive::unreached(),
    };
    let addr: u16 = match parse_address_numeral(symbol) {
        Some(v) => v,
        None => handle_a_symbol(symbol, symbol_table),
    };
    let mut line = to_binary16(addr);
    line.push('\n' as u8);
    proof {
        assert(line@ =~= bits16(addr) + seq!['\n' as u8]);
    }
    line
}

/// Encodes one C-command as `111` plus its comp, dest and jump bits.
pub fn parse_c_command(command: &Command) -> (r: Vec<u8>)
    requires
        c_valid(command.kind@),
    ensures
        (match command.kind@ {
            SpecCmd::C { dest, comp, jump } => r@ == c_word(dest, comp, jump) + seq!['\n' as u8],
            _ => false,
        }),
{
    match &command.kind {
        CommandKind::C { dest, comp, jump } => {
            let c: u16 = match parse_comp(comp) {
                Some(v) => v,
                None => vstd::pervasive::unreached(),
            };
            let d: u16 = match dest {
                Some(ds) => match parse_dest(ds) {
                    Some(v) => v,
                    None => vstd::pervasive::unreached(),
                },
                None => 0,
            };
            let j: u16 = match jump {
                Some(js) => match parse_jump(js) {
                    Some(v) => v,
                    None => vstd::pervasive::unreached(),
                },
                None => 0,
            };
            assert(c <= 127);
            assert(d <= 7);
            assert(j <= 7);
            let value: u16 = 57344 + c * 64 + d * 8 + j;
            let mut line = to_binary16(value);
            line.push('\n' as u8);
            proof {
                assert(line@ =~= bits16(value) + seq!['\n' as u8]);
            }
            line
        },
        _ => vstd::pervasive::unreached(),
    }
}

/// Pass 2 over the whole command table: one line per A/C command, in ROM
/// order, under the symbol table that Pass 1 built.
pub fn parse_command_table(command_table: &Vec<Command>, symbol_table: &mut SymbolTable) -> (out:
    Vec<u8>)
    requires
        old(symbol_table).wf(),
        c_commands_valid(kinds_of(command_table@)),
        pass2_rec(
            kinds_of(command_table@),
            old(symbol_table)@,
            old(symbol_table).next_ram_idx as int,
        ).2 <= 32767,
    ensures
        final(symbol_table).wf(),
        ({
            let (ws, m2, n2) = pass2_rec(
                kinds_of(command_table@),
                old(symbol_table)@,
                old(symbol_table).next_ram_idx as int,
            );
            &&& out@ == join_lines(ws)
            &&& final(symbol_table)@ == m2
            &&& final(symbol_table).next_ram_idx == n2
        }),
{
    let ghost cs = kinds_of(command_table@);
    let ghost m0 = old(symbol_table)@;
    let ghost n0 = old(symbol_table).next_ram_idx as int;
    let mut out: Vec<u8> = Vec::new();
    let ghost mut words: Seq<Seq<u8>> = Seq::empty();
    let mut idx: usize = 0;
    proof {
        assert(cs.skip(0) =~= cs);
        assert(words + pass2_rec(cs, m0, n0).0 =~= pass2_rec(cs, m0, n0).0);
    }
    while idx < command_table.len()
        invariant
            symbol_table.wf(),
            0 <= idx <= command_table.len(),
            cs == kinds_of(command_table@),
            c_commands_valid(cs),
            pass2_rec(cs, m0, n0).2 <= 32767,
            out@ == join_lines(words),
            pass2_rec(cs, m0, n0).0 == words + pass2_rec(
                cs.skip(idx as int),
                symbol_table@,
                symbol_table.next_ram_idx as int,
            ).0,
            pass2_rec(cs, m0, n0).1 == pass2_rec(
                cs.skip(idx as int),
                symbol_table@,
                symbol_table.next_ram_idx as int,
            ).1,
            pass2_rec(cs, m0, n0).2 == pass2_rec(
                cs.skip(idx as int),
                symbol_table@,
                symbol_table.next_ram_idx as int,
            ).2,
        decreases command_table.len() - idx,
    {
        let ghost rest = cs.skip(idx as int);
        let ghost st_m = symbol_table@;
        let ghost st_n = symbol_table.next_ram_idx as int;
        proof {
            assert(rest.drop_first() =~= cs.skip(idx + 1));
            assert(rest[0] == cs[idx as int]);
        }
        let command = &command_table[idx];
        match &command.kind {
            CommandKind::A { symbol: _ } => {
                proof {
                    match cs[idx as int] {
                        SpecCmd::A { symbol } => {
                            if !is_numeric_symbol(symbol) && !st_m.contains_key(symbol) {
                                let (w, m2, n2) = a_step(symbol, st_m, st_n);
                                lemma_pass2_next_mono(cs.skip(idx + 1), m2, n2);
                            }
                        },
                        _ => {},
                    }
                }
                let mut line = parse_a_command(command, symbol_table);
                let ghost w = a_step(
                    match cs[idx as int] {
                        SpecCmd::A { symbol } => symbol,
                        _ => Seq::empty(),
                    },
                    st_m,
                    st_n,
                ).0;
                proof {
                    lemma_join_lines_push(words, w);
                }
                out.append(&mut line);
                proof {
                    words = words.push(w);
                    assert(out@ =~= join_lines(words));
                    assert(words + pass2_rec(
                        cs.skip(idx + 1),
                        symbol_table@,
                        symbol_table.next_ram_idx as int,
                    ).0 =~= (words.drop_last() + (seq![w] + pass2_rec(
                        cs.skip(idx + 1),
                        symbol_table@,
                        symbol_table.next_ram_idx as int,
                    ).0)));
                }
            },
            CommandKind::C { .. } => {
                let mut line = parse_c_command(command);
                let ghost w = match cs[idx as int] {
                    SpecCmd::C { dest, comp, jump } => c_word(dest, comp, jump),
                    _ => Seq::empty(),
                };
                proof {
                    lemma_join_lines_push(words, w);
                }
                out.append(&mut line);
                proof {
                    words = words.push(w);
                    assert(out@ =~= join_lines(words));
                    assert(words + pass2_rec(
                        cs.skip(idx + 1),
                        symbol_table@,
                        symbol_table.next_ram_idx as int,
                    ).0 =~= (words.drop_last() + (seq![w] + pass2_rec(
                        cs.skip(idx + 1),
                        symbol_table@,
                        symbol_table.next_ram_idx as int,
                    ).0)));
                }
            },
            CommandKind::L { .. } => {},
        }
        idx += 1;
    }
    proof {
        assert(cs.skip(command_table@.len() as int) =~= Seq::<SpecCmd>::empty());
        assert(words + Seq::<Seq<u8>>::empty() =~= words);
    }
    out
}

} // verus!
