//! The driver: Pass 0 builds the command table, Pass 1 the symbol table, and
//! Pass 2 emits the binary text.
use vstd::prelude::*;
use crate::ast::{ac_count, kinds_of, lemma_ac_count_front, AsmError, Command, SpecCmd};
use crate::bytes::split_lines;
use crate::encode::{a_step, join_lines, lemma_parsed_c_valid, parse_command_table, pass2_rec};
use crate::parse::{cleaned, parse_source, parse_source_spec};
use crate::symbols::{gen_symbol_table, pass1};

verus! {

/// The output text for a parsed program: Pass 2 under the symbol table that
/// Pass 1 built, with the RAM cursor starting at 16.
pub open spec fn assemble_commands_spec(cs: Seq<SpecCmd>) -> Seq<u8> {
    join_lines(pass2_rec(cs, pass1(cs), 16).0)
}

/// What the assembler makes of a sequence of raw lines: the binary lines,
/// or the first error.
pub open spec fn assemble_lines_spec(lines: Seq<Seq<u8>>) -> Result<Seq<u8>, AsmError> {
    match crate::parse::parse_lines_spec(crate::parse::cleaned(lines)) {
        Result::Ok(cs) => Result::Ok(assemble_commands_spec(cs)),
        Result::Err(e) => Result::Err(e),
    }
}

/// What the assembler makes of a source text: the binary lines, or the first
/// error.
pub open spec fn assemble_spec(src: Seq<u8>) -> Result<Seq<u8>, AsmError> {
    assemble_lines_spec(split_lines(src))
}

/// A program whose ROM indices and allocated RAM addresses all stay within
/// the 15-bit address space.
pub open spec fn fits(cs: Seq<SpecCmd>) -> bool {
    &&& ac_count(cs) <= 32767
    &&& pass2_rec(cs, pass1(cs), 16).2 <= 32767
}

/// `fits` lifted to the raw source; a source the parser refuses is not
/// constrained.
pub open spec fn source_fits(src: Seq<u8>) -> bool {
    match parse_source_spec(src) {
        Result::Ok(cs) => fits(cs),
        Result::Err(_) => true,
    }
}

/// Pass 2 allocates at most one RAM address per A-command.
pub proof fn lemma_pass2_next_bound(cs: Seq<SpecCmd>, m: Map<Seq<u8>, u16>, next: int)
    ensures
        pass2_rec(cs, m, next).2 <= next + ac_count(cs),
    decreases cs.len(),
{
    if cs.len() > 0 {
        lemma_ac_count_front(cs);
        match cs[0] {
            SpecCmd::L { .. } => {
                lemma_pass2_next_bound(cs.drop_first(), m, next);
            },
            SpecCmd::A { symbol } => {
                let (w, m2, n2) = a_step(symbol, m, next);
                lemma_pass2_next_bound(cs.drop_first(), m2, n2);
            },
            SpecCmd::C { .. } => {
                lemma_pass2_next_bound(cs.drop_first(), m, next);
            },
        }
    }
}

/// A program of at most 32751 instructions always fits: even if every one of
/// them allocated a variable, the cursor would stay at or below 32767.
pub proof fn lemma_small_program_fits(cs: Seq<SpecCmd>)
    requires
        ac_count(cs) <= 32751,
    ensures
        fits(cs),
{
    lemma_pass2_next_bound(cs, pass1(cs), 16);
}

/// How many ROM slots a command table occupies.
pub fn count_instructions(command_table: &Vec<Command>) -> (n: usize)
    ensures
        n == ac_count(kinds_of(command_table@)),
{
    let ghost cs = kinds_of(command_table@);
    let mut n: usize = 0;
    let mut idx: usize = 0;
    proof {
        assert(cs.take(0) =~= Seq::<SpecCmd>::empty());
    }
    while idx < command_table.len()
        invariant
            0 <= idx <= command_table.len(),
            cs == kinds_of(command_table@),
            n == ac_count(cs.take(idx as int)),
            n <= idx,
        decreases command_table.len() - idx,
    {
        proof {
            assert(cs.take(idx + 1).drop_last() =~= cs.take(idx as int));
            assert(cs.take(idx + 1).last() == cs[idx as int]);
        }
        match &command_table[idx].kind {
            crate::ast::CommandKind::L { .. } => {},
            _ => {
                n += 1;
            },
        }
        idx += 1;
    }
    proof {
        assert(cs.take(command_table@.len() as int) =~= cs);
    }
    n
}

/// Assembles a source text: cleans and classifies the lines, resolves the
/// symbols in two passes, and returns one 16-character binary line per
/// instruction, or the first error.
pub fn assemble(source: &Vec<u8>) -> (r: Result<Vec<u8>, AsmError>)
    requires
        source_fits(source@),
    ensures
        (match r {
            Result::Ok(out) => assemble_spec(source@) == Result::Ok::<Seq<u8>, AsmError>(out@),
            Result::Err(e) => assemble_spec(source@) == Result::Err::<Seq<u8>, AsmError>(e),
        }),
{
    let command_table = match parse_source(source) {
        Ok(t) => t,
        Err(e) => {
            return Err(e);
        },
    };
    proof {
        lemma_parsed_c_valid(cleaned(split_lines(source@)));
    }
    let mut symbol_table = gen_symbol_table(&command_table);
    let out = parse_command_table(&command_table, &mut symbol_table);
    Ok(out)
}

/// Assembles after checking the size bound that `assemble` asks for: a
/// program of more than 32751 instructions is declined rather than
/// assembled.
pub fn assemble_checked(source: &Vec<u8>) -> (r: Option<Result<Vec<u8>, AsmError>>)
    ensures
        (match r {
            Option::Some(res) => match res {
                Result::Ok(out) => assemble_spec(source@) == Result::Ok::<Seq<u8>, AsmError>(out@),
                Result::Err(e) => assemble_spec(source@) == Result::Err::<Seq<u8>, AsmError>(e),
            },
            Option::None => match parse_source_spec(source@) {
                Result::Ok(cs) => ac_count(cs) > 32751,
                Result::Err(_) => false,
            },
        }),
{
    match parse_source(source) {
        Err(_) => Some(assemble(source)),
        Ok(command_table) => {
            let n = count_instructions(&command_table);
            if n <= 32751 {
                proof {
                    lemma_small_program_fits(kinds_of(command_table@));
                }
                Some(assemble(source))
            } else {
                None
            }
        },
    }
}

} // verus!
