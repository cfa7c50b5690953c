//! The lexer and line classifier: cleaning raw lines, classifying each one
//! as an A-, C- or L-command, and building the command table with its ROM
//! indices.
use vstd::prelude::*;
use crate::ast::{ac_count, is_label, kinds_of, rom_index_at, wf_rom, AsmError, Command, CommandKind, SpecCmd};
use crate::bytes::{chomp_cr, find_byte, split_lines, strip_comment, trim};
use crate::bytes::{clean_line_bytes, copy_bytes, find_byte_from, lemma_find_byte, subvec, trim_bytes};
use crate::tables::{comp_code, dest_code, jump_code};
use crate::tables::{parse_comp, parse_dest, parse_jump};

verus! {

/// What remains of a raw source line after cleaning: the trailing carriage
/// return, everything from the first `//` on, and surrounding whitespace
/// removed.
pub open spec fn clean_line(l: Seq<u8>) -> Seq<u8> {
    trim(strip_comment(chomp_cr(l)))
}

/// The cleaned lines of a source, the empty ones discarded.
pub open spec fn cleaned(lines: Seq<Seq<u8>>) -> Seq<Seq<u8>>
    decreases lines.len(),
{
    if lines.len() == 0 {
        Seq::empty()
    } else {
        let c = clean_line(lines[0]);
        let rest = cleaned(lines.drop_first());
        if c.len() > 0 {
            seq![c] + rest
        } else {
            rest
        }
    }
}

/// The three raw fields of a C-command line: the text before the first `=`
/// (if any), the comp text, and the text after the first `;` (if any), none
/// of them trimmed yet.
pub open spec fn c_fields(l: Seq<u8>) -> (Option<Seq<u8>>, Seq<u8>, Option<Seq<u8>>) {
    let (left, jump) = match find_byte(l, ';' as u8) {
        Option::Some(i) => (l.take(i), Option::Some(l.skip(i + 1))),
        Option::None => (l, Option::<Seq<u8>>::None),
    };
    match find_byte(left, '=' as u8) {
        Option::Some(j) => (Option::Some(left.take(j)), left.skip(j + 1), jump),
        Option::None => (Option::<Seq<u8>>::None, left, jump),
    }
}

/// Checks the three trimmed fields against the fixed vocabularies.
pub open spec fn validate_c(dest: Option<Seq<u8>>, comp: Seq<u8>, jump: Option<Seq<u8>>) -> Result<
    SpecCmd,
    AsmError,
> {
    if comp.len() == 0 {
        Result::Err(AsmError::MissingComp)
    } else if comp_code(comp) == Option::<u16>::None {
        Result::Err(AsmError::UnknownMnemonic)
    } else if (match dest {
        Option::Some(d) => dest_code(d) == Option::<u16>::None,
        Option::None => false,
    }) {
        Result::Err(AsmError::UnknownMnemonic)
    } else if (match jump {
        Option::Some(j) => jump_code(j) == Option::<u16>::None,
        Option::None => false,
    }) {
        Result::Err(AsmError::UnknownMnemonic)
    } else {
        Result::Ok(SpecCmd::C { dest, comp, jump })
    }
}

pub open spec fn trim_opt(o: Option<Seq<u8>>) -> Option<Seq<u8>> {
    match o {
        Option::Some(s) => Option::Some(trim(s)),
        Option::None => Option::None,
    }
}

/// A cleaned line read as a C-command: split on the first `;` and the first
/// `=`, each field trimmed and checked against its vocabulary.
pub open spec fn parse_c_spec(l: Seq<u8>) -> Result<SpecCmd, AsmError> {
    let (dest, comp, jump) = c_fields(l);
    validate_c(trim_opt(dest), trim(comp), trim_opt(jump))
}

/// A non-empty cleaned line classified by its shape.
pub open spec fn parse_line_spec(l: Seq<u8>) -> Result<SpecCmd, AsmError> {
    if l.len() > 0 && l[0] == ('@' as u8) {
        if l.len() >= 2 {
            Result::Ok(SpecCmd::A { symbol: l.skip(1) })
        } else {
            Result::Err(AsmError::MalformedLine)
        }
    } else if l.len() >= 2 && l[0] == ('(' as u8) && l.last() == (')' as u8) {
        Result::Ok(SpecCmd::L { label: l.subrange(1, l.len() - 1) })
    } else {
        parse_c_spec(l)
    }
}

/// All cleaned lines parsed in order; the first failure aborts.
pub open spec fn parse_lines_spec(lines: Seq<Seq<u8>>) -> Result<Seq<SpecCmd>, AsmError>
    decreases lines.len(),
{
    if lines.len() == 0 {
        Result::Ok(Seq::empty())
    } else {
        match parse_line_spec(lines[0]) {
            Result::Err(e) => Result::Err(e),
            Result::Ok(c) => match parse_lines_spec(lines.drop_first()) {
                Result::Err(e) => Result::Err(e),
                Result::Ok(cs) => Result::Ok(seq![c] + cs),
            },
        }
    }
}

/// The whole front end: the source split into lines, cleaned, and parsed.
pub open spec fn parse_source_spec(src: Seq<u8>) -> Result<Seq<SpecCmd>, AsmError> {
    parse_lines_spec(cleaned(split_lines(src)))
}

/// The source text as a vector of lines, split on `\n`.
pub fn split_into_lines(source: &Vec<u8>) -> (lines: Vec<Vec<u8>>)
    ensures
        lines@.map_values(|l: Vec<u8>| l@) == split_lines(source@),
{
    let mut lines: Vec<Vec<u8>> = Vec::new();
    let mut pos: usize = 0;
    let mut done: bool = false;
    proof {
        assert(source@.skip(0) =~= source@);
        assert(lines@.map_values(|l: Vec<u8>| l@) =~= Seq::<Seq<u8>>::empty());
    }
    while !done
        invariant
            0 <= pos <= source.len(),
            !done ==> split_lines(source@) == lines@.map_values(|l: Vec<u8>| l@) + split_lines(
                source@.skip(pos as int),
            ),
            done ==> split_lines(source@) == lines@.map_values(|l: Vec<u8>| l@),
        decreases source.len() - pos, if done {
            0int
        } else {
            1int
        },
    {
        let ghost rest = source@.skip(pos as int);
        let ghost old_views = lines@.map_values(|l: Vec<u8>| l@);
        proof {
            lemma_find_byte(rest, '\n' as u8);
        }
        match find_byte_from(source, '\n' as u8, pos) {
            Some(i) => {
                proof {
                    assert(rest[i - pos] == ('\n' as u8));
                    assert forall|j: int| 0 <= j < i - pos implies rest[j] != ('\n' as u8) by {
                        assert(source@[pos + j] != ('\n' as u8));
                    }
                    match find_byte(rest, '\n' as u8) {
                        Option::Some(k) => {
                            if k < i - pos {
                                assert(rest[k] != ('\n' as u8));
                            }
                            if k > i - pos {
                                assert(rest[i - pos] != ('\n' as u8));
                            }
                            assert(k == i - pos);
                        },
                        Option::None => {
                            assert(rest[i - pos] != ('\n' as u8));
                        },
                    }
                    assert(split_lines(rest) == seq![rest.take(i - pos)] + split_lines(
                        rest.skip(i - pos + 1),
                    ));
                    assert(rest.take(i - pos) =~= source@.subrange(pos as int, i as int));
                    assert(rest.skip(i - pos + 1) =~= source@.skip(i + 1));
                }
                let line = subvec(source, pos, i);
                lines.push(line);
                proof {
                    assert(lines@.map_values(|l: Vec<u8>| l@) =~= old_views.push(
                        source@.subrange(pos as int, i as int),
                    ));
                    assert(old_views + (seq![source@.subrange(pos as int, i as int)]
                        + split_lines(source@.skip(i + 1))) =~= lines@.map_values(
                        |l: Vec<u8>| l@,
                    ) + split_lines(source@.skip(i + 1)));
                }
                pos = i + 1;
            },
            None => {
                proof {
                    match find_byte(rest, '\n' as u8) {
                        Option::Some(k) => {
                            assert(source@[pos + k] == ('\n' as u8));
                        },
                        Option::None => {},
                    }
                    assert(split_lines(rest) == seq![rest]);
                    assert(rest =~= source@.subrange(pos as int, source@.len() as int));
                }
                let line = subvec(source, pos, source.len());
                lines.push(line);
                proof {
                    assert(lines@.map_values(|l: Vec<u8>| l@) =~= old_views.push(rest));
                    assert(old_views + seq![rest] =~= old_views.push(rest));
                }
                done = true;
            },
        }
    }
    lines
}

/// One cleaned, non-empty line classified as an A-, C- or L-command; A- and
/// C-commands take the current ROM slot and advance the cursor.
pub fn parse_line(line: &Vec<u8>, rom_idx: &mut usize) -> (r: Result<Command, AsmError>)
    requires
        line@.len() > 0,
        *old(rom_idx) < usize::MAX,
    ensures
        match r {
            Result::Ok(cmd) => {
                &&& parse_line_spec(line@) == Result::Ok::<SpecCmd, AsmError>(cmd.kind@)
                &&& cmd.rom_idx == *old(rom_idx)
                &&& is_label(cmd.kind@) ==> *final(rom_idx) == *old(rom_idx)
                &&& !is_label(cmd.kind@) ==> *final(rom_idx) == *old(rom_idx) + 1
            },
            Result::Err(e) => {
                &&& parse_line_spec(line@) == Result::Err::<SpecCmd, AsmError>(e)
                &&& *final(rom_idx) == *old(rom_idx)
            },
        },
{
    if line[0] == ('@' as u8) {
        if line.len() >= 2 {
            let symbol = subvec(line, 1, line.len());
            proof {
                assert(line@.subrange(1, line@.len() as int) =~= line@.skip(1));
            }
            let command = Command { rom_idx: *rom_idx, kind: CommandKind::A { symbol } };
            *rom_idx += 1;
            Ok(command)
        } else {
            Err(AsmError::MalformedLine)
        }
    } else if line.len() >= 2 && line[0] == ('(' as u8) && line[line.len() - 1] == (')' as u8) {
        let label = subvec(line, 1, line.len() - 1);
        let command = Command { rom_idx: *rom_idx, kind: CommandKind::L { label } };
        Ok(command)
    } else {
        parse_c_line(line, rom_idx)
    }
}

/// A cleaned line read as a C-command: `dest=comp;jump` with `dest=` and
/// `;jump` optional, each field trimmed and checked against its vocabulary.
pub fn parse_c_line(line: &Vec<u8>, rom_idx: &mut usize) -> (r: Result<Command, AsmError>)
    requires
        *old(rom_idx) < usize::MAX,
    ensures
        match r {
            Result::Ok(cmd) => {
                &&& parse_c_spec(line@) == Result::Ok::<SpecCmd, AsmError>(cmd.kind@)
                &&& !is_label(cmd.kind@)
                &&& cmd.rom_idx == *old(rom_idx)
                &&& *final(rom_idx) == *old(rom_idx) + 1
            },
            Result::Err(e) => {
                &&& parse_c_spec(line@) == Result::Err::<SpecCmd, AsmError>(e)
                &&& *final(rom_idx) == *old(rom_idx)
            },
        },
{
    proof {
        lemma_find_byte(line@, ';' as u8);
    }
    let semi = find_byte_from(line, ';' as u8, 0);
    let (left, jump): (Vec<u8>, Option<Vec<u8>>) = match semi {
        Some(i) => {
            proof {
                match find_byte(line@, ';' as u8) {
                    Option::Some(k) => {
                        if k < i {
                            assert(line@[k] != (';' as u8));
                        }
                        if k > i {
                            assert(line@[i as int] != (';' as u8));
                        }
                    },
                    Option::None => {
                        assert(line@[i as int] != (';' as u8));
                    },
                }
                assert(find_byte(line@, ';' as u8) == Option::Some(i as int));
                assert(line@.subrange(0, i as int) =~= line@.take(i as int));
                assert(line@.subrange(i + 1, line@.len() as int) =~= line@.skip(i + 1));
            }
            let jump_field = trim_bytes(&subvec(line, i + 1, line.len()));
            (subvec(line, 0, i), Some(jump_field))
        },
        None => {
            proof {
                match find_byte(line@, ';' as u8) {
                    Option::Some(k) => {
                        assert(line@[k] == (';' as u8));
                    },
                    Option::None => {},
                }
                assert(find_byte(line@, ';' as u8) == Option::<int>::None);
            }
            (copy_bytes(line), None)
        },
    };
    proof {
        lemma_find_byte(left@, '=' as u8);
    }
    let eq = find_byte_from(&left, '=' as u8, 0);
    let (dest, comp): (Option<Vec<u8>>, Vec<u8>) = match eq {
        Some(j) => {
            proof {
                match find_byte(left@, '=' as u8) {
                    Option::Some(k) => {
                        if k < j {
                            assert(left@[k] != ('=' as u8));
                        }
                        if k > j {
                            assert(left@[j as int] != ('=' as u8));
                        }
                    },
                    Option::None => {
                        assert(left@[j as int] != ('=' as u8));
                    },
                }
                assert(find_byte(left@, '=' as u8) == Option::Some(j as int));
                assert(left@.subrange(0, j as int) =~= left@.take(j as int));
                assert(left@.subrange(j + 1, left@.len() as int) =~= left@.skip(j + 1));
            }
            let dest_field = trim_bytes(&subvec(&left, 0, j));
            let comp_field = trim_bytes(&subvec(&left, j + 1, left.len()));
            (Some(dest_field), comp_field)
        },
        None => {
            proof {
                match find_byte(left@, '=' as u8) {
                    Option::Some(k) => {
                        assert(left@[k] == ('=' as u8));
                    },
                    Option::None => {},
                }
                assert(find_byte(left@, '=' as u8) == Option::<int>::None);
            }
            (None, trim_bytes(&left))
        },
    };
    if comp.len() == 0 {
        return Err(AsmError::MissingComp);
    }
    if parse_comp(&comp).is_none() {
        return Err(AsmError::UnknownMnemonic);
    }
    match &dest {
        Some(d) => {
            if parse_dest(d).is_none() {
                return Err(AsmError::UnknownMnemonic);
            }
        },
        None => {},
    }
    match &jump {
        Some(j) => {
            if parse_jump(j).is_none() {
                return Err(AsmError::UnknownMnemonic);
            }
        },
        None => {},
    }
    let command = Command {
        rom_idx: *rom_idx,
        kind: CommandKind::C { dest, comp, jump },
    };
    *rom_idx += 1;
    Ok(command)
}

/// Pass 0: the source split into lines, each line cleaned, the empty ones
/// dropped, and every remaining line classified, with ROM indices assigned
/// in order to the A- and C-commands.
pub fn parse_source(source: &Vec<u8>) -> (r: Result<Vec<Command>, AsmError>)
    ensures
        match r {
            Result::Ok(cmds) => {
                &&& parse_source_spec(source@) == Result::Ok::<Seq<SpecCmd>, AsmError>(
                    kinds_of(cmds@),
                )
                &&& wf_rom(cmds@)
            },
            Result::Err(e) => parse_source_spec(source@) == Result::Err::<Seq<SpecCmd>, AsmError>(
                e,
            ),
        },
{
    let lines = split_into_lines(source);
    let ghost lviews = split_lines(source@);
    let mut commands: Vec<Command> = Vec::new();
    let mut rom_idx: usize = 0;
    let mut i: usize = 0;
    proof {
        assert(lviews.skip(0) =~= lviews);
        assert(kinds_of(commands@) =~= Seq::<SpecCmd>::empty());
        match parse_lines_spec(cleaned(lviews)) {
            Result::Ok(cs) => {
                assert(kinds_of(commands@) + cs =~= cs);
            },
            Result::Err(e) => {},
        }
    }
    while i < lines.len()
        invariant
            0 <= i <= lines.len(),
            lviews == split_lines(source@),
            lines@.map_values(|l: Vec<u8>| l@) == lviews,
            commands@.len() <= i,
            rom_idx == ac_count(kinds_of(commands@)),
            wf_rom(commands@),
            parse_lines_spec(cleaned(lviews)) == (match parse_lines_spec(
                cleaned(lviews.skip(i as int)),
            ) {
                Result::Ok(cs) => Result::Ok::<Seq<SpecCmd>, AsmError>(kinds_of(commands@) + cs),
                Result::Err(e) => Result::Err::<Seq<SpecCmd>, AsmError>(e),
            }),
        decreases lines.len() - i,
    {
        let ghost ks = kinds_of(commands@);
        proof {
            assert(lviews.skip(i as int).drop_first() =~= lviews.skip(i + 1));
            assert(lviews.skip(i as int)[0] == lviews[i as int]);
            crate::ast::lemma_ac_count_bounds(ks);
        }
        let cleaned_line = clean_line_bytes(&lines[i]);
        if cleaned_line.len() > 0 {
            proof {
                assert(cleaned(lviews.skip(i as int)) == seq![clean_line(lviews[i as int])]
                    + cleaned(lviews.skip(i + 1)));
                assert((seq![cleaned_line@] + cleaned(lviews.skip(i + 1)))[0] == cleaned_line@);
                assert((seq![cleaned_line@] + cleaned(lviews.skip(i + 1))).drop_first() =~= cleaned(
                    lviews.skip(i + 1),
                ));
            }
            match parse_line(&cleaned_line, &mut rom_idx) {
                Ok(command) => {
                    let ghost k = command.kind@;
                    proof {
                        assert(parse_lines_spec(cleaned(lviews.skip(i as int))) == (
                        match parse_lines_spec(cleaned(lviews.skip(i + 1))) {
                            Result::Ok(cs) => Result::Ok::<Seq<SpecCmd>, AsmError>(seq![k] + cs),
                            Result::Err(e) => Result::Err::<Seq<SpecCmd>, AsmError>(e),
                        }));
                    }
                    commands.push(command);
                    proof {
                        assert(kinds_of(commands@) =~= ks.push(k));
                        assert(kinds_of(commands@).drop_last() =~= ks);
                        assert(kinds_of(commands@).take(commands@.len() - 1) =~= ks);
                        match parse_lines_spec(cleaned(lviews.skip(i + 1))) {
                            Result::Ok(cs) => {
                                assert(ks + (seq![k] + cs) =~= kinds_of(commands@) + cs);
                            },
                            Result::Err(e) => {},
                        }
                        assert forall|j: int| 0 <= j < commands@.len() implies (
                        #[trigger] commands@[j].rom_idx) == rom_index_at(
                            kinds_of(commands@),
                            j,
                        ) by {
                            if j < commands@.len() - 1 {
                                assert(commands@[j].rom_idx == rom_index_at(ks, j));
                                assert(kinds_of(commands@).take(j) =~= ks.take(j));
                            } else {
                                assert(kinds_of(commands@).take(j) =~= ks);
                            }
                        }
                    }
                },
                Err(e) => {
                    proof {
                        assert(parse_line_spec(cleaned_line@) == Result::Err::<SpecCmd, AsmError>(
                            e,
                        ));
                        assert(parse_lines_spec(cleaned(lviews.skip(i as int)))
                            == Result::Err::<Seq<SpecCmd>, AsmError>(e));
                        assert(parse_lines_spec(cleaned(lviews)) == Result::Err::<
                            Seq<SpecCmd>,
                            AsmError,
                        >(e));
                        assert(lviews == split_lines(source@));
                        assert(parse_source_spec(source@) == Result::Err::<
                            Seq<SpecCmd>,
                            AsmError,
                        >(e));
                    }
                    return Err(e);
                },
            }
        } else {
            proof {
                assert(cleaned(lviews.skip(i as int)) == cleaned(lviews.skip(i + 1)));
            }
        }
        i += 1;
    }
    proof {
        assert(lviews.skip(lines@.len() as int) =~= Seq::<Seq<u8>>::empty());
        assert(cleaned(Seq::<Seq<u8>>::empty()) =~= Seq::<Seq<u8>>::empty());
        assert(kinds_of(commands@) + Seq::<SpecCmd>::empty() =~= kinds_of(commands@));
    }
    Ok(commands)
}

} // verus!
