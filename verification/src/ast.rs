//! The command records the parser produces and the errors that abort
//! assembly.
use vstd::prelude::*;

verus! {

/// Why assembly was refused.
#[derive(Clone, Copy, Debug, PartialEq, Eq)]
pub enum AsmError {
    /// A cleaned line matches none of the three statement shapes.
    MalformedLine,
    /// A C-command field is not in the legal vocabulary.
    UnknownMnemonic,
    /// A C-command has no comp part.
    MissingComp,
}

/// The shape of one cleaned line, at the specification level.
pub enum SpecCmd {
    A { symbol: Seq<u8> },
    C { dest: Option<Seq<u8>>, comp: Seq<u8>, jump: Option<Seq<u8>> },
    L { label: Seq<u8> },
}

/// The shape of one cleaned line: an address, a computation, or a label.
pub enum CommandKind {
    A { symbol: Vec<u8> },
    C { dest: Option<Vec<u8>>, comp: Vec<u8>, jump: Option<Vec<u8>> },
    L { label: Vec<u8> },
}

/// One parsed statement together with the ROM index that applies to it: for
/// an A- or C-command the slot it occupies, for an L-command the slot the
/// next instruction will occupy.
pub struct Command {
    pub rom_idx: usize,
    pub kind: CommandKind,
}

pub open spec fn opt_bytes_view(o: Option<Vec<u8>>) -> Option<Seq<u8>> {
    match o {
        Option::Some(v) => Option::Some(v@),
        Option::None => Option::None,
    }
}

impl View for CommandKind {
    type V = SpecCmd;

    open spec fn view(&self) -> SpecCmd {
        match self {
            CommandKind::A { symbol } => SpecCmd::A { symbol: symbol@ },
            CommandKind::C { dest, comp, jump } => SpecCmd::C {
                dest: opt_bytes_view(*dest),
                comp: comp@,
                jump: opt_bytes_view(*jump),
            },
            CommandKind::L { label } => SpecCmd::L { label: label@ },
        }
    }
}

pub open spec fn is_label(c: SpecCmd) -> bool {
    match c {
        SpecCmd::L { .. } => true,
        _ => false,
    }
}

/// Whether `c` is an L-command defining `name`.
pub open spec fn is_label_named(c: SpecCmd, name: Seq<u8>) -> bool {
    match c {
        SpecCmd::L { label } => label == name,
        _ => false,
    }
}

/// Whether `c` is an A-command whose symbol is `name`.
pub open spec fn is_a_named(c: SpecCmd, name: Seq<u8>) -> bool {
    match c {
        SpecCmd::A { symbol } => symbol == name,
        _ => false,
    }
}

/// How many ROM slots the commands occupy: one per A- or C-command.
pub open spec fn ac_count(cs: Seq<SpecCmd>) -> int
    decreases cs.len(),
{
    if cs.len() == 0 {
        0
    } else {
        ac_count(cs.drop_last()) + if is_label(cs.last()) {
            0int
        } else {
            1int
        }
    }
}

/// The ROM index that applies to the command at position `i`.
pub open spec fn rom_index_at(cs: Seq<SpecCmd>, i: int) -> int {
    ac_count(cs.take(i))
}

/// The shapes of a parsed command sequence.
pub open spec fn kinds_of(cs: Seq<Command>) -> Seq<SpecCmd> {
    cs.map_values(|c: Command| c.kind@)
}

/// Every command carries the ROM index its position gives it.
pub open spec fn wf_rom(cs: Seq<Command>) -> bool {
    forall|i: int| 0 <= i < cs.len() ==> (#[trigger] cs[i].rom_idx) == rom_index_at(kinds_of(cs), i)
}

/// `ac_count` unfolded at the front instead of the back.
pub proof fn lemma_ac_count_front(cs: Seq<SpecCmd>)
    requires
        cs.len() > 0,
    ensures
        ac_count(cs) == (if is_label(cs[0]) {
            0int
        } else {
            1int
        }) + ac_count(cs.drop_first()),
    decreases cs.len(),
{
    if cs.len() == 1 {
        assert(cs.drop_first() =~= Seq::<SpecCmd>::empty());
        assert(cs.drop_last() =~= Seq::<SpecCmd>::empty());
    } else {
        lemma_ac_count_front(cs.drop_last());
        assert(cs.drop_last().drop_first() =~= cs.drop_first().drop_last());
        assert(cs.drop_last()[0] == cs[0]);
        assert(cs.drop_first().last() == cs.last());
    }
}

pub proof fn lemma_ac_count_bounds(cs: Seq<SpecCmd>)
    ensures
        0 <= ac_count(cs) <= cs.len(),
    decreases cs.len(),
{
    if cs.len() > 0 {
        lemma_ac_count_bounds(cs.drop_last());
    }
}

/// A prefix occupies no more ROM slots than the whole sequence.
pub proof fn lemma_ac_count_prefix(cs: Seq<SpecCmd>, i: int)
    requires
        0 <= i <= cs.len(),
    ensures
        ac_count(cs.take(i)) <= ac_count(cs),
    decreases cs.len() - i,
{
    if i == cs.len() {
        assert(cs.take(i) =~= cs);
    } else {
        assert(cs.take(i + 1).drop_last() =~= cs.take(i));
        assert(cs.take(i + 1).last() == cs[i]);
        lemma_ac_count_prefix(cs, i + 1);
    }
}

} // verus!
