//! The laws the assembler obeys, stated over the specification pipeline and
//! proved once and for all.
use vstd::prelude::*;
use crate::assembler::{assemble_lines_spec, assemble_spec, fits};
use crate::ast::{
    ac_count, is_a_named, is_label, is_label_named, lemma_ac_count_bounds, lemma_ac_count_front,
    SpecCmd,
};
use crate::bytes::is_numeric_symbol;
use crate::encode::{a_step, c_word, join_lines, lemma_pass2_next_mono, pass2_rec};
use crate::symbols::{pass1, pass1_rec, predefined};
use crate::ast::AsmError;
use crate::parse::{c_fields, clean_line, cleaned, parse_c_spec, parse_source_spec, trim_opt};
use crate::tables::{bit_ch, bits16};

verus! {

/// Pass 2 emits exactly one word per A/C command.
pub proof fn lemma_pass2_len(cs: Seq<SpecCmd>, m: Map<Seq<u8>, u16>, next: int)
    ensures
        pass2_rec(cs, m, next).0.len() == ac_count(cs),
    decreases cs.len(),
{
    if cs.len() > 0 {
        lemma_ac_count_front(cs);
        match cs[0] {
            SpecCmd::L { .. } => {
                lemma_pass2_len(cs.drop_first(), m, next);
            },
            SpecCmd::A { symbol } => {
                let (w, m2, n2) = a_step(symbol, m, next);
                lemma_pass2_len(cs.drop_first(), m2, n2);
            },
            SpecCmd::C { .. } => {
                lemma_pass2_len(cs.drop_first(), m, next);
            },
        }
    }
}

/// Pass 2 over a sequence is Pass 2 over a prefix followed by Pass 2 over
/// the rest, started in the state the prefix left behind.
pub proof fn lemma_pass2_split(cs: Seq<SpecCmd>, m: Map<Seq<u8>, u16>, next: int, i: int)
    requires
        0 <= i <= cs.len(),
    ensures
        ({
            let p = pass2_rec(cs.take(i), m, next);
            let s = pass2_rec(cs.skip(i), p.1, p.2);
            &&& pass2_rec(cs, m, next).0 == p.0 + s.0
            &&& pass2_rec(cs, m, next).1 == s.1
            &&& pass2_rec(cs, m, next).2 == s.2
        }),
    decreases i,
{
    if i == 0 {
        assert(cs.take(0) =~= Seq::<SpecCmd>::empty());
        assert(cs.skip(0) =~= cs);
        assert(Seq::<Seq<u8>>::empty() + pass2_rec(cs, m, next).0 =~= pass2_rec(cs, m, next).0);
    } else {
        assert(cs.take(i)[0] == cs[0]);
        assert(cs.take(i).drop_first() =~= cs.drop_first().take(i - 1));
        assert(cs.skip(i) =~= cs.drop_first().skip(i - 1));
        match cs[0] {
            SpecCmd::L { .. } => {
                lemma_pass2_split(cs.drop_first(), m, next, i - 1);
            },
            SpecCmd::A { symbol } => {
                let (w, m2, n2) = a_step(symbol, m, next);
                lemma_pass2_split(cs.drop_first(), m2, n2, i - 1);
                let p = pass2_rec(cs.drop_first().take(i - 1), m2, n2);
                let s = pass2_rec(cs.drop_first().skip(i - 1), p.1, p.2);
                assert(seq![w] + (p.0 + s.0) =~= (seq![w] + p.0) + s.0);
            },
            SpecCmd::C { dest, comp, jump } => {
                lemma_pass2_split(cs.drop_first(), m, next, i - 1);
                let p = pass2_rec(cs.drop_first().take(i - 1), m, next);
                let s = pass2_rec(cs.drop_first().skip(i - 1), p.1, p.2);
                assert(seq![c_word(dest, comp, jump)] + (p.0 + s.0) =~= (seq![c_word(
                    dest,
                    comp,
                    jump,
                )] + p.0) + s.0);
            },
        }
    }
}

/// The k-th emitted word belongs to the k-th A/C command in source order:
/// the command at position `i` is encoded as the word numbered by the ROM
/// slots before it, under the symbol state the commands before it left.
pub proof fn lemma_rom_order(cs: Seq<SpecCmd>, m: Map<Seq<u8>, u16>, next: int, i: int)
    requires
        0 <= i < cs.len(),
        !is_label(cs[i]),
    ensures
        pass2_rec(cs, m, next).0.len() == ac_count(cs),
        0 <= ac_count(cs.take(i)) < ac_count(cs),
        ({
            let st = pass2_rec(cs.take(i), m, next);
            pass2_rec(cs, m, next).0[ac_count(cs.take(i))] == (match cs[i] {
                SpecCmd::A { symbol } => a_step(symbol, st.1, st.2).0,
                SpecCmd::C { dest, comp, jump } => c_word(dest, comp, jump),
                SpecCmd::L { .. } => Seq::<u8>::empty(),
            })
        }),
{
    lemma_pass2_len(cs, m, next);
    lemma_pass2_split(cs, m, next, i);
    lemma_ac_count_bounds(cs.take(i));
    let p = pass2_rec(cs.take(i), m, next);
    let s = pass2_rec(cs.skip(i), p.1, p.2);
    lemma_pass2_len(cs.take(i), m, next);
    lemma_pass2_len(cs.skip(i), p.1, p.2);
    assert(cs.skip(i)[0] == cs[i]);
    lemma_ac_count_front(cs.skip(i));
    match cs[i] {
        SpecCmd::A { symbol } => {
            assert(s.0[0] == a_step(symbol, p.1, p.2).0);
            assert(pass2_rec(cs, m, next).0[p.0.len() as int] == s.0[0]);
        },
        SpecCmd::C { dest, comp, jump } => {
            assert(s.0[0] == c_word(dest, comp, jump));
            assert(pass2_rec(cs, m, next).0[p.0.len() as int] == s.0[0]);
        },
        SpecCmd::L { .. } => {},
    }
    assert(ac_count(cs.take(i)) < ac_count(cs)) by {
        assert(ac_count(cs) == p.0.len() + s.0.len());
        assert(s.0.len() >= 1);
    }
}

/// Every emitted word is exactly sixteen characters, each `'0'` or `'1'`.
pub proof fn lemma_line_width(cs: Seq<SpecCmd>, m: Map<Seq<u8>, u16>, next: int)
    ensures
        forall|k: int|
            0 <= k < pass2_rec(cs, m, next).0.len() ==> {
                &&& (#[trigger] pass2_rec(cs, m, next).0[k]).len() == 16
                &&& forall|j: int|
                    0 <= j < 16 ==> (pass2_rec(cs, m, next).0[k][j] == ('0' as u8)
                        || pass2_rec(cs, m, next).0[k][j] == ('1' as u8))
            },
    decreases cs.len(),
{
    if cs.len() > 0 {
        match cs[0] {
            SpecCmd::L { .. } => {
                lemma_line_width(cs.drop_first(), m, next);
                assert(pass2_rec(cs, m, next).0 == pass2_rec(cs.drop_first(), m, next).0);
            },
            SpecCmd::A { symbol } => {
                let (w, m2, n2) = a_step(symbol, m, next);
                lemma_line_width(cs.drop_first(), m2, n2);
                let ws = pass2_rec(cs, m, next).0;
                let rest = pass2_rec(cs.drop_first(), m2, n2).0;
                assert forall|k: int| 0 <= k < ws.len() implies {
                    &&& (#[trigger] ws[k]).len() == 16
                    &&& forall|j: int|
                        0 <= j < 16 ==> (ws[k][j] == ('0' as u8) || ws[k][j] == ('1' as u8))
                } by {
                    if k == 0 {
                        assert(ws[0] == w);
                        assert forall|j: int| 0 <= j < 16 implies (ws[0][j] == ('0' as u8) || ws[0][j]
                            == ('1' as u8)) by {
                            assert(ws[0][j] == bit_ch(a_value_of(symbol, m, next), j));
                        }
                    } else {
                        assert(ws[k] == rest[k - 1]);
                    }
                }
            },
            SpecCmd::C { dest, comp, jump } => {
                lemma_line_width(cs.drop_first(), m, next);
                let ws = pass2_rec(cs, m, next).0;
                let rest = pass2_rec(cs.drop_first(), m, next).0;
                assert forall|k: int| 0 <= k < ws.len() implies {
                    &&& (#[trigger] ws[k]).len() == 16
                    &&& forall|j: int|
                        0 <= j < 16 ==> (ws[k][j] == ('0' as u8) || ws[k][j] == ('1' as u8))
                } by {
                    if k == 0 {
                        assert(ws[0] == c_word(dest, comp, jump));
                        assert forall|j: int| 0 <= j < 16 implies (ws[0][j] == ('0' as u8) || ws[0][j]
                            == ('1' as u8)) by {
                            assert(ws[0][j] == bit_ch(crate::encode::c_value(dest, comp, jump), j));
                        }
                    } else {
                        assert(ws[k] == rest[k - 1]);
                    }
                }
            },
        }
    }
}

/// The word an A-command emits, as a value.
pub open spec fn a_value_of(symbol: Seq<u8>, m: Map<Seq<u8>, u16>, next: int) -> u16 {
    if crate::bytes::is_numeric_symbol(symbol) {
        crate::bytes::numeral_value(symbol) as u16
    } else if m.contains_key(symbol) {
        m[symbol]
    } else {
        next as u16
    }
}

/// Cleaning a concatenation cleans the parts.
pub proof fn lemma_cleaned_concat(a: Seq<Seq<u8>>, b: Seq<Seq<u8>>)
    ensures
        cleaned(a + b) == cleaned(a) + cleaned(b),
    decreases a.len(),
{
    if a.len() == 0 {
        assert(a + b =~= b);
        assert(cleaned(a) + cleaned(b) =~= cleaned(b));
    } else {
        assert((a + b)[0] == a[0]);
        assert((a + b).drop_first() =~= a.drop_first() + b);
        lemma_cleaned_concat(a.drop_first(), b);
        let c = clean_line(a[0]);
        if c.len() > 0 {
            assert(seq![c] + (cleaned(a.drop_first()) + cleaned(b)) =~= (seq![c] + cleaned(
                a.drop_first(),
            )) + cleaned(b));
        }
    }
}

/// Adding or removing a line that cleans to nothing — a blank line or a
/// pure `//` comment line — does not change the output.
pub proof fn lemma_comment_blank_invariance(pre: Seq<Seq<u8>>, extra: Seq<u8>, post: Seq<Seq<u8>>)
    requires
        clean_line(extra).len() == 0,
    ensures
        assemble_lines_spec(pre + seq![extra] + post) == assemble_lines_spec(pre + post),
{
    lemma_cleaned_concat(pre + seq![extra], post);
    lemma_cleaned_concat(pre, seq![extra]);
    lemma_cleaned_concat(pre, post);
    assert(cleaned(Seq::<Seq<u8>>::empty()) =~= Seq::<Seq<u8>>::empty());
    assert(seq![extra].drop_first() =~= Seq::<Seq<u8>>::empty());
    assert(seq![extra][0] == extra);
    assert(cleaned(seq![extra]) =~= Seq::<Seq<u8>>::empty());
    assert(cleaned(pre) + cleaned(seq![extra]) =~= cleaned(pre));
    assert(cleaned(pre + seq![extra] + post) =~= cleaned(pre + post));
}

/// Whitespace around the fields of a C-command does not matter: two lines
/// whose `dest`, `comp` and `jump` fields agree once trimmed parse the same
/// way.
pub proof fn lemma_whitespace_idempotence(l1: Seq<u8>, l2: Seq<u8>)
    requires
        trim_opt(c_fields(l1).0) == trim_opt(c_fields(l2).0),
        crate::bytes::trim(c_fields(l1).1) == crate::bytes::trim(c_fields(l2).1),
        trim_opt(c_fields(l1).2) == trim_opt(c_fields(l2).2),
    ensures
        parse_c_spec(l1) == parse_c_spec(l2),
{
}

/// The k-th 17-byte chunk of the output text.
pub open spec fn output_line(o: Seq<u8>, k: int) -> Seq<u8> {
    o.subrange(17 * k, 17 * k + 17)
}

/// The output text itself comes in 17-byte chunks: each emitted word, then
/// a newline.
pub proof fn lemma_join_lines_bytes(ws: Seq<Seq<u8>>)
    requires
        forall|k: int| 0 <= k < ws.len() ==> (#[trigger] ws[k]).len() == 16,
    ensures
        join_lines(ws).len() == 17 * ws.len(),
        forall|k: int|
            0 <= k < ws.len() ==> #[trigger] output_line(join_lines(ws), k) == ws[k].push(
                '\n' as u8,
            ),
    decreases ws.len(),
{
    if ws.len() > 0 {
        assert forall|k: int| 0 <= k < ws.drop_first().len() implies (#[trigger] ws.drop_first()[k]).len()
            == 16 by {
            assert(ws.drop_first()[k] == ws[k + 1]);
        }
        lemma_join_lines_bytes(ws.drop_first());
        let out = join_lines(ws);
        let rest = join_lines(ws.drop_first());
        assert(out == ws[0] + seq!['\n' as u8] + rest);
        assert(out.len() == 17 + rest.len());
        assert forall|k: int| 0 <= k < ws.len() implies #[trigger] output_line(out, k) == ws[k].push(
            '\n' as u8,
        ) by {
            if k == 0 {
                assert(output_line(out, 0) =~= ws[0].push('\n' as u8));
            } else {
                assert(ws[k] == ws.drop_first()[k - 1]);
                assert(output_line(rest, k - 1) == ws.drop_first()[k - 1].push('\n' as u8));
                assert(output_line(out, k) =~= output_line(rest, k - 1));
            }
        }
    }
}


/// The line-width law at the source level: whenever assembly succeeds, the
/// output is the emitted words joined by newlines, one 17-byte chunk per
/// ROM slot, each sixteen binary digits and a newline.
pub proof fn lemma_output_line_width(src: Seq<u8>)
    ensures
        (match parse_source_spec(src) {
            Result::Ok(cs) => ({
                let ws = pass2_rec(cs, pass1(cs), 16).0;
                &&& assemble_spec(src) == Result::Ok::<Seq<u8>, AsmError>(join_lines(ws))
                &&& ws.len() == ac_count(cs)
                &&& join_lines(ws).len() == 17 * ws.len()
                &&& forall|k: int|
                    0 <= k < ws.len() ==> {
                        &&& #[trigger] output_line(join_lines(ws), k) == ws[k].push('\n' as u8)
                        &&& ws[k].len() == 16
                        &&& forall|j: int|
                            0 <= j < 16 ==> (ws[k][j] == ('0' as u8) || ws[k][j] == ('1' as u8))
                    }
            }),
            Result::Err(e) => assemble_spec(src) == Result::Err::<Seq<u8>, AsmError>(e),
        }),
{
    match parse_source_spec(src) {
        Result::Ok(cs) => {
            lemma_line_width(cs, pass1(cs), 16);
            lemma_pass2_len(cs, pass1(cs), 16);
            lemma_join_lines_bytes(pass2_rec(cs, pass1(cs), 16).0);
        },
        Result::Err(_) => {},
    }
}

/// Pass 1 does not touch a name that no L-command defines.
pub proof fn lemma_pass1_frame(cs: Seq<SpecCmd>, m: Map<Seq<u8>, u16>, rom: int, k: Seq<u8>)
    requires
        forall|i: int| 0 <= i < cs.len() ==> !is_label_named(#[trigger] cs[i], k),
    ensures
        pass1_rec(cs, m, rom).contains_key(k) == m.contains_key(k),
        m.contains_key(k) ==> pass1_rec(cs, m, rom)[k] == m[k],
    decreases cs.len(),
{
    if cs.len() > 0 {
        assert forall|i: int| 0 <= i < cs.drop_first().len() implies !is_label_named(
            #[trigger] cs.drop_first()[i],
            k,
        ) by {
            assert(cs.drop_first()[i] == cs[i + 1]);
            assert(!is_label_named(cs[i + 1], k));
        }
        match cs[0] {
            SpecCmd::L { label } => {
                assert(!is_label_named(cs[0], k));
                lemma_pass1_frame(cs.drop_first(), m.insert(label, rom as u16), rom, k);
            },
            _ => {
                lemma_pass1_frame(cs.drop_first(), m, rom + 1, k);
            },
        }
    }
}

/// The last L-command that defines a label wins, and it binds the label to
/// the ROM index of the next instruction.
pub proof fn lemma_pass1_label(cs: Seq<SpecCmd>, m: Map<Seq<u8>, u16>, rom: int, lbl: Seq<u8>, i: int)
    requires
        0 <= i < cs.len(),
        is_label_named(cs[i], lbl),
        forall|j: int| i < j < cs.len() ==> !is_label_named(#[trigger] cs[j], lbl),
    ensures
        pass1_rec(cs, m, rom).contains_key(lbl),
        pass1_rec(cs, m, rom)[lbl] == ((rom + ac_count(cs.take(i))) as u16),
    decreases i,
{
    if i == 0 {
        assert(cs.take(0) =~= Seq::<SpecCmd>::empty());
        match cs[0] {
            SpecCmd::L { label } => {
                assert(label == lbl);
                assert forall|j: int| 0 <= j < cs.drop_first().len() implies !is_label_named(
                    #[trigger] cs.drop_first()[j],
                    lbl,
                ) by {
                    assert(cs.drop_first()[j] == cs[j + 1]);
                    assert(!is_label_named(cs[j + 1], lbl));
                }
                lemma_pass1_frame(cs.drop_first(), m.insert(lbl, rom as u16), rom, lbl);
            },
            _ => {},
        }
    } else {
        assert(cs.take(i)[0] == cs[0]);
        assert(cs.take(i).drop_first() =~= cs.drop_first().take(i - 1));
        lemma_ac_count_front(cs.take(i));
        assert forall|j: int| i - 1 < j < cs.drop_first().len() implies !is_label_named(
            #[trigger] cs.drop_first()[j],
            lbl,
        ) by {
            assert(cs.drop_first()[j] == cs[j + 1]);
            assert(!is_label_named(cs[j + 1], lbl));
        }
        assert(cs.drop_first()[i - 1] == cs[i]);
        match cs[0] {
            SpecCmd::L { label } => {
                lemma_pass1_label(cs.drop_first(), m.insert(label, rom as u16), rom, lbl, i - 1);
            },
            _ => {
                lemma_pass1_label(cs.drop_first(), m, rom + 1, lbl, i - 1);
            },
        }
    }
}

/// Pass 2 never changes an existing binding.
pub proof fn lemma_pass2_preserves(cs: Seq<SpecCmd>, m: Map<Seq<u8>, u16>, next: int, k: Seq<u8>)
    requires
        m.contains_key(k),
    ensures
        pass2_rec(cs, m, next).1.contains_key(k),
        pass2_rec(cs, m, next).1[k] == m[k],
    decreases cs.len(),
{
    if cs.len() > 0 {
        match cs[0] {
            SpecCmd::L { .. } => {
                lemma_pass2_preserves(cs.drop_first(), m, next, k);
            },
            SpecCmd::A { symbol } => {
                let (w, m2, n2) = a_step(symbol, m, next);
                lemma_pass2_preserves(cs.drop_first(), m2, n2, k);
            },
            SpecCmd::C { .. } => {
                lemma_pass2_preserves(cs.drop_first(), m, next, k);
            },
        }
    }
}

/// Pass 2 binds no name that no A-command carries.
pub proof fn lemma_pass2_no_new(cs: Seq<SpecCmd>, m: Map<Seq<u8>, u16>, next: int, k: Seq<u8>)
    requires
        !m.contains_key(k),
        forall|i: int| 0 <= i < cs.len() ==> !is_a_named(#[trigger] cs[i], k),
    ensures
        !pass2_rec(cs, m, next).1.contains_key(k),
    decreases cs.len(),
{
    if cs.len() > 0 {
        assert forall|i: int| 0 <= i < cs.drop_first().len() implies !is_a_named(
            #[trigger] cs.drop_first()[i],
            k,
        ) by {
            assert(cs.drop_first()[i] == cs[i + 1]);
            assert(!is_a_named(cs[i + 1], k));
        }
        match cs[0] {
            SpecCmd::L { .. } => {
                lemma_pass2_no_new(cs.drop_first(), m, next, k);
            },
            SpecCmd::A { symbol } => {
                assert(!is_a_named(cs[0], k));
                let (w, m2, n2) = a_step(symbol, m, next);
                lemma_pass2_no_new(cs.drop_first(), m2, n2, k);
            },
            SpecCmd::C { .. } => {
                lemma_pass2_no_new(cs.drop_first(), m, next, k);
            },
        }
    }
}

/// A label resolves to the ROM index of the instruction after its last
/// definition, wherever the reference stands — before the definition
/// included.
pub proof fn lemma_label_forward_reference(cs: Seq<SpecCmd>, lbl: Seq<u8>, i: int, j: int)
    requires
        0 <= i < cs.len(),
        0 <= j < cs.len(),
        is_label_named(cs[i], lbl),
        forall|k: int| i < k < cs.len() ==> !is_label_named(#[trigger] cs[k], lbl),
        cs[j] == (SpecCmd::A { symbol: lbl }),
        !is_numeric_symbol(lbl),
    ensures
        pass2_rec(cs, pass1(cs), 16).0[ac_count(cs.take(j))] == bits16(
            (ac_count(cs.take(i))) as u16,
        ),
{
    lemma_pass1_label(cs, predefined(), 0, lbl, i);
    lemma_pass2_preserves(cs.take(j), pass1(cs), 16, lbl);
    lemma_rom_order(cs, pass1(cs), 16, j);
    let st = pass2_rec(cs.take(j), pass1(cs), 16);
    assert(a_step(lbl, st.1, st.2).0 == bits16(st.1[lbl]));
}

/// A predefined name that no label shadows always resolves to its fixed
/// address.
pub proof fn lemma_predefined_priority(cs: Seq<SpecCmd>, name: Seq<u8>, j: int)
    requires
        predefined().contains_key(name),
        forall|i: int| 0 <= i < cs.len() ==> !is_label_named(#[trigger] cs[i], name),
        0 <= j < cs.len(),
        cs[j] == (SpecCmd::A { symbol: name }),
        !is_numeric_symbol(name),
    ensures
        pass2_rec(cs, pass1(cs), 16).0[ac_count(cs.take(j))] == bits16(predefined()[name]),
{
    lemma_pass1_frame(cs, predefined(), 0, name);
    lemma_pass2_preserves(cs.take(j), pass1(cs), 16, name);
    lemma_rom_order(cs, pass1(cs), 16, j);
    let st = pass2_rec(cs.take(j), pass1(cs), 16);
    assert(a_step(name, st.1, st.2).0 == bits16(st.1[name]));
}

/// Variables are allocated RAM addresses from 16 up in the order of their
/// first occurrence: each one gets the cursor value standing at its first
/// occurrence, so an earlier first occurrence gets the strictly smaller
/// address.
pub proof fn lemma_variable_allocation_order(
    cs: Seq<SpecCmd>,
    v1: Seq<u8>,
    v2: Seq<u8>,
    f1: int,
    f2: int,
)
    requires
        fits(cs),
        0 <= f1 < f2 < cs.len(),
        cs[f1] == (SpecCmd::A { symbol: v1 }),
        cs[f2] == (SpecCmd::A { symbol: v2 }),
        !is_numeric_symbol(v1),
        !is_numeric_symbol(v2),
        !pass1(cs).contains_key(v1),
        !pass1(cs).contains_key(v2),
        forall|k: int| 0 <= k < f1 ==> !is_a_named(#[trigger] cs[k], v1),
        forall|k: int| 0 <= k < f2 ==> !is_a_named(#[trigger] cs[k], v2),
    ensures
        ({
            let mf = pass2_rec(cs, pass1(cs), 16).1;
            &&& mf.contains_key(v1)
            &&& mf.contains_key(v2)
            &&& 16 <= mf[v1] < mf[v2] <= 32767
            &&& mf[v1] == pass2_rec(cs.take(f1), pass1(cs), 16).2
            &&& mf[v2] == pass2_rec(cs.take(f2), pass1(cs), 16).2
        }),
{
    let m0 = pass1(cs);
    assert(v1 != v2) by {
        if v1 == v2 {
            assert(is_a_named(cs[f1], v2));
        }
    }
    // the state just before each first occurrence
    lemma_pass2_split(cs, m0, 16, f1);
    let p1s = pass2_rec(cs.take(f1), m0, 16);
    assert forall|k: int| 0 <= k < cs.take(f1).len() implies !is_a_named(
        #[trigger] cs.take(f1)[k],
        v1,
    ) by {
        assert(cs.take(f1)[k] == cs[k]);
        assert(!is_a_named(cs[k], v1));
    }
    lemma_pass2_no_new(cs.take(f1), m0, 16, v1);
    lemma_pass2_split(cs, m0, 16, f2);
    let p2s = pass2_rec(cs.take(f2), m0, 16);
    assert forall|k: int| 0 <= k < cs.take(f2).len() implies !is_a_named(
        #[trigger] cs.take(f2)[k],
        v2,
    ) by {
        assert(cs.take(f2)[k] == cs[k]);
        assert(!is_a_named(cs[k], v2));
    }
    lemma_pass2_no_new(cs.take(f2), m0, 16, v2);
    // each first occurrence allocates the cursor address
    assert(cs.skip(f1)[0] == cs[f1]);
    assert(cs.skip(f1).drop_first() =~= cs.skip(f1 + 1));
    let a1 = a_step(v1, p1s.1, p1s.2);
    lemma_pass2_preserves(cs.skip(f1 + 1), a1.1, a1.2, v1);
    assert(cs.skip(f2)[0] == cs[f2]);
    assert(cs.skip(f2).drop_first() =~= cs.skip(f2 + 1));
    let a2 = a_step(v2, p2s.1, p2s.2);
    lemma_pass2_preserves(cs.skip(f2 + 1), a2.1, a2.2, v2);
    let mf = pass2_rec(cs, m0, 16).1;
    assert(mf[v1] == (p1s.2 as u16));
    assert(mf[v2] == (p2s.2 as u16));
    // the cursor moves strictly between the two occurrences
    lemma_pass2_split(cs.take(f2), m0, 16, f1 + 1);
    assert(cs.take(f2).take(f1 + 1) =~= cs.take(f1 + 1));
    assert(cs.take(f2).skip(f1 + 1) =~= cs.subrange(f1 + 1, f2));
    lemma_pass2_split(cs.take(f1 + 1), m0, 16, f1);
    assert(cs.take(f1 + 1).take(f1) =~= cs.take(f1));
    assert(cs.take(f1 + 1).skip(f1) =~= seq![cs[f1]]);
    assert(seq![cs[f1]].drop_first() =~= Seq::<SpecCmd>::empty());
    assert(seq![cs[f1]][0] == cs[f1]);
    let q = pass2_rec(cs.take(f1 + 1), m0, 16);
    assert(pass2_rec(Seq::<SpecCmd>::empty(), a1.1, a1.2).2 == a1.2);
    assert(pass2_rec(seq![cs[f1]], p1s.1, p1s.2).2 == a1.2);
    assert(a1.2 == p1s.2 + 1);
    assert(q.2 == p1s.2 + 1);
    lemma_pass2_next_mono(cs.subrange(f1 + 1, f2), q.1, q.2);
    assert(p2s.2 >= p1s.2 + 1);
    // bounds, so the 16-bit casts are exact
    lemma_pass2_next_mono(cs.take(f1), m0, 16);
    lemma_pass2_next_mono(cs.skip(f2), p2s.1, p2s.2);
    assert(p2s.2 <= pass2_rec(cs, m0, 16).2);
    assert(16 <= p1s.2 < p2s.2 <= 32767);
}

} // verus!
