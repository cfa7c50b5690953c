//! The symbol table: name-to-address bindings plus the cursor for the next
//! free RAM address, and Pass 1, which records every label.
use vstd::prelude::*;
use crate::ast::{ac_count, kinds_of, rom_index_at, wf_rom, Command, CommandKind, SpecCmd};
use crate::bytes::{bytes_eq, copy_bytes};

verus! {

/// The bindings that a list of (name, address) pairs makes, a later pair
/// shadowing an earlier one with the same name.
pub open spec fn bindings(names: Seq<Seq<u8>>, addrs: Seq<u16>) -> Map<Seq<u8>, u16>
    decreases names.len(),
{
    if names.len() == 0 || addrs.len() == 0 {
        Map::empty()
    } else {
        bindings(names.drop_last(), addrs.drop_last()).insert(names.last(), addrs.last())
    }
}

proof fn lemma_bindings_at(names: Seq<Seq<u8>>, addrs: Seq<u16>, i: int)
    requires
        names.len() == addrs.len(),
        0 <= i < names.len(),
        forall|j: int| i < j < names.len() ==> names[j] != names[i],
    ensures
        bindings(names, addrs).contains_key(names[i]),
        bindings(names, addrs)[names[i]] == addrs[i],
    decreases names.len(),
{
    if i < names.len() - 1 {
        lemma_bindings_at(names.drop_last(), addrs.drop_last(), i);
    }
}

proof fn lemma_bindings_absent(names: Seq<Seq<u8>>, addrs: Seq<u16>, k: Seq<u8>)
    requires
        names.len() == addrs.len(),
        forall|j: int| 0 <= j < names.len() ==> names[j] != k,
    ensures
        !bindings(names, addrs).contains_key(k),
    decreases names.len(),
{
    if names.len() > 0 {
        lemma_bindings_absent(names.drop_last(), addrs.drop_last(), k);
    }
}

/// A mapping from names to 16-bit addresses together with the cursor that
/// hands out RAM addresses to variables, starting at 16.
pub struct SymbolTable {
    pub names: Vec<Vec<u8>>,
    pub addrs: Vec<u16>,
    pub next_ram_idx: u16,
}

impl View for SymbolTable {
    type V = Map<Seq<u8>, u16>;

    closed spec fn view(&self) -> Map<Seq<u8>, u16> {
        bindings(self.names@.map_values(|n: Vec<u8>| n@), self.addrs@)
    }
}

impl SymbolTable {
    /// The two columns of the table stay in step.
    pub closed spec fn wf(&self) -> bool {
        self.names@.len() == self.addrs@.len()
    }

    /// An empty table with the RAM cursor at the first variable address.
    pub fn new() -> (t: SymbolTable)
        ensures
            t.wf(),
            t@ == Map::<Seq<u8>, u16>::empty(),
            t.next_ram_idx == 16,
    {
        let t = SymbolTable { names: Vec::new(), addrs: Vec::new(), next_ram_idx: 16 };
        proof {
            assert(t.names@.map_values(|n: Vec<u8>| n@) =~= Seq::<Seq<u8>>::empty());
        }
        t
    }

    /// Binds `name` to `addr`, replacing any earlier binding.
    pub fn insert(&mut self, name: Vec<u8>, addr: u16)
        requires
            old(self).wf(),
        ensures
            final(self).wf(),
            final(self)@ == old(self)@.insert(name@, addr),
            final(self).next_ram_idx == old(self).next_ram_idx,
    {
        let ghost old_names = self.names@.map_values(|n: Vec<u8>| n@);
        self.names.push(name);
        self.addrs.push(addr);
        proof {
            assert(self.names@.map_values(|n: Vec<u8>| n@) =~= old_names.push(name@));
            assert(self.names@.map_values(|n: Vec<u8>| n@).drop_last() =~= old_names);
            assert(self.addrs@.drop_last() =~= old(self).addrs@);
        }
    }

    /// The address bound to `name`, if any.
    pub fn get(&self, name: &Vec<u8>) -> (r: Option<u16>)
        requires
            self.wf(),
        ensures
            match r {
                Option::Some(a) => self@.contains_key(name@) && self@[name@] == a,
                Option::None => !self@.contains_key(name@),
            },
    {
        let ghost ns = self.names@.map_values(|n: Vec<u8>| n@);
        let mut i: usize = self.names.len();
        while i > 0
            invariant
                self.wf(),
                0 <= i <= self.names.len(),
                ns == self.names@.map_values(|n: Vec<u8>| n@),
                forall|j: int| i <= j < ns.len() ==> ns[j] != name@,
            decreases i,
        {
            i -= 1;
            if bytes_eq(&self.names[i], name) {
                proof {
                    lemma_bindings_at(ns, self.addrs@, i as int);
                }
                return Some(self.addrs[i]);
            }
        }
        proof {
            lemma_bindings_absent(ns, self.addrs@, name@);
        }
        None
    }

    /// Whether `name` is bound.
    pub fn contains(&self, name: &Vec<u8>) -> (r: bool)
        requires
            self.wf(),
        ensures
            r == self@.contains_key(name@),
    {
        self.get(name).is_some()
    }
}

/// The predefined symbols: the virtual-machine pointers, the sixteen
/// registers, and the two device addresses.
pub open spec fn predefined() -> Map<Seq<u8>, u16> {
    Map::<Seq<u8>, u16>::empty().insert(seq!['S' as u8, 'P' as u8], 0).insert(
        seq!['L' as u8, 'C' as u8, 'L' as u8],
        1,
    ).insert(seq!['A' as u8, 'R' as u8, 'G' as u8], 2).insert(
        seq!['T' as u8, 'H' as u8, 'I' as u8, 'S' as u8],
        3,
    ).insert(seq!['T' as u8, 'H' as u8, 'A' as u8, 'T' as u8], 4).insert(
        seq!['S' as u8, 'C' as u8, 'R' as u8, 'E' as u8, 'E' as u8, 'N' as u8],
        16384,
    ).insert(seq!['K' as u8, 'B' as u8, 'D' as u8], 24576).insert(
        seq!['R' as u8, '0' as u8],
        0,
    ).insert(seq!['R' as u8, '1' as u8], 1).insert(seq!['R' as u8, '2' as u8], 2).insert(
        seq!['R' as u8, '3' as u8],
        3,
    ).insert(seq!['R' as u8, '4' as u8], 4).insert(seq!['R' as u8, '5' as u8], 5).insert(
        seq!['R' as u8, '6' as u8],
        6,
    ).insert(seq!['R' as u8, '7' as u8], 7).insert(seq!['R' as u8, '8' as u8], 8).insert(
        seq!['R' as u8, '9' as u8],
        9,
    ).insert(seq!['R' as u8, '1' as u8, '0' as u8], 10).insert(
        seq!['R' as u8, '1' as u8, '1' as u8],
        11,
    ).insert(seq!['R' as u8, '1' as u8, '2' as u8], 12).insert(
        seq!['R' as u8, '1' as u8, '3' as u8],
        13,
    ).insert(seq!['R' as u8, '1' as u8, '4' as u8], 14).insert(
        seq!['R' as u8, '1' as u8, '5' as u8],
        15,
    )
}

/// Seeds the table with the predefined symbols.
pub fn add_default_symbols(symbol_table: &mut SymbolTable)
    requires
        old(symbol_table).wf(),
    ensures
        final(symbol_table).wf(),
        final(symbol_table)@ == old(symbol_table)@.insert(seq!['S' as u8, 'P' as u8], 0).insert(
            seq!['L' as u8, 'C' as u8, 'L' as u8],
            1,
        ).insert(seq!['A' as u8, 'R' as u8, 'G' as u8], 2).insert(
            seq!['T' as u8, 'H' as u8, 'I' as u8, 'S' as u8],
            3,
        ).insert(seq!['T' as u8, 'H' as u8, 'A' as u8, 'T' as u8], 4).insert(
            seq!['S' as u8, 'C' as u8, 'R' as u8, 'E' as u8, 'E' as u8, 'N' as u8],
            16384,
        ).insert(seq!['K' as u8, 'B' as u8, 'D' as u8], 24576).insert(
            seq!['R' as u8, '0' as u8],
            0,
        ).insert(seq!['R' as u8, '1' as u8], 1).insert(seq!['R' as u8, '2' as u8], 2).insert(
            seq!['R' as u8, '3' as u8],
            3,
        ).insert(seq!['R' as u8, '4' as u8], 4).insert(seq!['R' as u8, '5' as u8], 5).insert(
            seq!['R' as u8, '6' as u8],
            6,
        ).insert(seq!['R' as u8, '7' as u8], 7).insert(seq!['R' as u8, '8' as u8], 8).insert(
            seq!['R' as u8, '9' as u8],
            9,
        ).insert(seq!['R' as u8, '1' as u8, '0' as u8], 10).insert(
            seq!['R' as u8, '1' as u8, '1' as u8],
            11,
        ).insert(seq!['R' as u8, '1' as u8, '2' as u8], 12).insert(
            seq!['R' as u8, '1' as u8, '3' as u8],
            13,
        ).insert(seq!['R' as u8, '1' as u8, '4' as u8], 14).insert(
            seq!['R' as u8, '1' as u8, '5' as u8],
            15,
        ),
        final(symbol_table).next_ram_idx == old(symbol_table).next_ram_idx,
{
    symbol_table.insert(vec!['S' as u8, 'P' as u8], 0);
    symbol_table.insert(vec!['L' as u8, 'C' as u8, 'L' as u8], 1);
    symbol_table.insert(vec!['A' as u8, 'R' as u8, 'G' as u8], 2);
    symbol_table.insert(vec!['T' as u8, 'H' as u8, 'I' as u8, 'S' as u8], 3);
    symbol_table.insert(vec!['T' as u8, 'H' as u8, 'A' as u8, 'T' as u8], 4);
    symbol_table.insert(vec!['S' as u8, 'C' as u8, 'R' as u8, 'E' as u8, 'E' as u8, 'N' as u8], 16384);
    symbol_table.insert(vec!['K' as u8, 'B' as u8, 'D' as u8], 24576);
    symbol_table.insert(vec!['R' as u8, '0' as u8], 0);
    symbol_table.insert(vec!['R' as u8, '1' as u8], 1);
    symbol_table.insert(vec!['R' as u8, '2' as u8], 2);
    symbol_table.insert(vec!['R' as u8, '3' as u8], 3);
    symbol_table.insert(vec!['R' as u8, '4' as u8], 4);
    symbol_table.insert(vec!['R' as u8, '5' as u8], 5);
    symbol_table.insert(vec!['R' as u8, '6' as u8], 6);
    symbol_table.insert(vec!['R' as u8, '7' as u8], 7);
    symbol_table.insert(vec!['R' as u8, '8' as u8], 8);
    symbol_table.insert(vec!['R' as u8, '9' as u8], 9);
    symbol_table.insert(vec!['R' as u8, '1' as u8, '0' as u8], 10);
    symbol_table.insert(vec!['R' as u8, '1' as u8, '1' as u8], 11);
    symbol_table.insert(vec!['R' as u8, '1' as u8, '2' as u8], 12);
    symbol_table.insert(vec!['R' as u8, '1' as u8, '3' as u8], 13);
    symbol_table.insert(vec!['R' as u8, '1' as u8, '4' as u8], 14);
    symbol_table.insert(vec!['R' as u8, '1' as u8, '5' as u8], 15);
}

/// Pass 1 at the specification level: every label bound to the ROM index of
/// the next instruction, over an initial map and ROM cursor.
pub open spec fn pass1_rec(cs: Seq<SpecCmd>, m: Map<Seq<u8>, u16>, rom: int) -> Map<Seq<u8>, u16>
    decreases cs.len(),
{
    if cs.len() == 0 {
        m
    } else {
        match cs[0] {
            SpecCmd::L { label } => pass1_rec(cs.drop_first(), m.insert(label, rom as u16), rom),
            _ => pass1_rec(cs.drop_first(), m, rom + 1),
        }
    }
}

/// The symbol table after Pass 1: predefined symbols plus all labels.
pub open spec fn pass1(cs: Seq<SpecCmd>) -> Map<Seq<u8>, u16> {
    pass1_rec(cs, predefined(), 0)
}

/// Builds the symbol table for a parsed program: the predefined symbols,
/// then one binding per label at its ROM index.
pub fn gen_symbol_table(command_table: &Vec<Command>) -> (t: SymbolTable)
    requires
        wf_rom(command_table@),
        ac_count(kinds_of(command_table@)) <= 32767,
    ensures
        t.wf(),
        t@ == pass1(kinds_of(command_table@)),
        t.next_ram_idx == 16,
{
    let ghost cs = kinds_of(command_table@);
    let mut symbol_table = SymbolTable::new();
    add_default_symbols(&mut symbol_table);
    proof {
        assert(symbol_table@ =~= predefined());
        assert(cs.skip(0) =~= cs);
        assert(cs.take(0) =~= Seq::<SpecCmd>::empty());
    }
    let mut idx: usize = 0;
    while idx < command_table.len()
        invariant
            symbol_table.wf(),
            symbol_table.next_ram_idx == 16,
            0 <= idx <= command_table.len(),
            cs == kinds_of(command_table@),
            wf_rom(command_table@),
            ac_count(cs) <= 32767,
            pass1(cs) == pass1_rec(
                cs.skip(idx as int),
                symbol_table@,
                ac_count(cs.take(idx as int)),
            ),
        decreases command_table.len() - idx,
    {
        proof {
            assert(cs.skip(idx as int).drop_first() =~= cs.skip(idx + 1));
            assert(cs.skip(idx as int)[0] == cs[idx as int]);
            assert(cs.take(idx + 1).drop_last() =~= cs.take(idx as int));
            assert(cs.take(idx + 1).last() == cs[idx as int]);
            crate::ast::lemma_ac_count_bounds(cs.take(idx as int));
            crate::ast::lemma_ac_count_prefix(cs, idx as int);
        }
        let command = &command_table[idx];
        match &command.kind {
            CommandKind::L { label } => {
                let addr: u16 = command.rom_idx as u16;
                symbol_table.insert(copy_bytes(label), addr);
                proof {
                    assert(command_table@[idx as int].rom_idx == rom_index_at(cs, idx as int));
                }
            },
            _ => {},
        }
        idx += 1;
    }
    proof {
        assert(cs.skip(command_table@.len() as int) =~= Seq::<SpecCmd>::empty());
        assert(cs.take(command_table@.len() as int) =~= cs);
    }
    symbol_table
}

/// The address for a non-numeric A-command symbol: the existing binding if
/// there is one, else the next free RAM address, which is allocated to the
/// name.
pub fn handle_a_symbol(symbol: &Vec<u8>, symbol_table: &mut SymbolTable) -> (addr: u16)
    requires
        old(symbol_table).wf(),
        old(symbol_table)@.contains_key(symbol@) || old(symbol_table).next_ram_idx < 32767,
    ensures
        final(symbol_table).wf(),
        old(symbol_table)@.contains_key(symbol@) ==> {
            &&& addr == old(symbol_table)@[symbol@]
            &&& final(symbol_table)@ == old(symbol_table)@
            &&& final(symbol_table).next_ram_idx == old(symbol_table).next_ram_idx
        },
        !old(symbol_table)@.contains_key(symbol@) ==> {
            &&& addr == old(symbol_table).next_ram_idx
            &&& final(symbol_table)@ == old(symbol_table)@.insert(symbol@, addr)
            &&& final(symbol_table).next_ram_idx == old(symbol_table).next_ram_idx + 1
        },
{
    match symbol_table.get(symbol) {
        Some(addr) => addr,
        None => {
            let addr = symbol_table.next_ram_idx;
            symbol_table.insert(copy_bytes(symbol), addr);
            symbol_table.next_ram_idx = addr + 1;
            addr
        },
    }
}

} // verus!
