//! Names: the symbols and labels that a database declares, each interned as
//! an atom, and where each was declared first.

use crate::diag::Diagnostic;
use crate::name_index::NameIndex;
use crate::names::forgotten;
use crate::names::interned;
use crate::names::name_place;
use crate::names::names_of;
use crate::names::with_float;
use crate::names::with_label;
use crate::names::with_note;
use crate::names::with_segments;
use crate::names::with_statement;
use crate::names::with_statements;
use crate::names::with_symbol;
use crate::names::with_symbols;
use crate::names::NamesView;
use crate::parser::bytes_eq;
use crate::parser::copy_range;
use crate::parser::StatementAddress;
use crate::parser::StatementType;
use crate::parser::Token;
use crate::segment_set::SegmentSet;
use crate::source::words;
use vstd::prelude::*;

verus! {

/// An interned identifier for a token, symbol or label alike. Atom 0 names
/// nothing.
pub type Atom = u32;

/// The two kinds of math symbol.
#[derive(Clone, Copy, Debug, PartialEq, Eq, Structural)]
pub enum SymbolType {
    /// Declared by `$v`.
    Variable,
    /// Declared by `$c`.
    Constant,
}

/// What is known of a math symbol.
#[derive(Clone, Copy, Debug, PartialEq, Eq, Structural)]
pub struct LookupSymbol {
    /// Its kind.
    pub stype: SymbolType,
    /// Its atom.
    pub atom: Atom,
    /// The statement that declares it.
    pub address: StatementAddress,
}

/// What is known of a label.
#[derive(Clone, Copy, Debug, PartialEq, Eq, Structural)]
pub struct LookupLabel {
    /// Its atom.
    pub atom: Atom,
    /// The statement that carries it.
    pub address: StatementAddress,
}

/// What is known of the floating hypothesis of a variable.
#[derive(Clone, Copy, Debug, PartialEq, Eq, Structural)]
pub struct LookupFloat {
    /// The atom of the hypothesis' label.
    pub atom: Atom,
    /// The hypothesis.
    pub address: StatementAddress,
    /// The atom of the typecode that it gives the variable.
    pub typecode_atom: Atom,
}

/// Whether the statement declares symbols: a `$c` or a `$v`.
pub open spec fn declares_symbols(st: &crate::parser::Statement) -> bool {
    st.stype == StatementType::Constant || st.stype == StatementType::Variable
}

/// Whether the statement carries a label that it declares: a `$f`, `$e`,
/// `$a` or `$p` with a label.
pub open spec fn declares_label(st: &crate::parser::Statement) -> bool {
    (st.stype == StatementType::Floating || st.stype == StatementType::Essential || st.stype
        == StatementType::Axiom || st.stype == StatementType::Provable) && st.label@.len() > 0
}

/// Whether `address` is the address of a statement that stands at or before
/// statement `k` of segment `i`, in logical order.
pub open spec fn at_or_before(sset: &SegmentSet, address: StatementAddress, i: int, k: int) -> bool {
    exists|i0: int|
        0 <= i0 <= i && i0 < sset.entries().len() && (#[trigger] sset.entries()[i0]).id
            == address.segment_id && address.index < sset.entries()[i0].segment.statements@.len()
            && (i0 < i || address.index <= k)
}

/// What stands at or before a statement stands at or before every later
/// one.
pub proof fn lemma_at_or_before(
    sset: &SegmentSet,
    address: StatementAddress,
    i: int,
    k: int,
    i2: int,
    k2: int,
)
    requires
        at_or_before(sset, address, i, k),
        i < i2 || (i == i2 && k <= k2),
    ensures
        at_or_before(sset, address, i2, k2),
{
    let i0 = choose|i0: int|
        0 <= i0 <= i && i0 < sset.entries().len() && (#[trigger] sset.entries()[i0]).id
            == address.segment_id && address.index < sset.entries()[i0].segment.statements@.len()
            && (i0 < i || address.index <= k);
    assert(0 <= i0 <= i2 && sset.entries()[i0].id == address.segment_id);
}

/// The names of a database.
pub struct Nameset {
    names: Vec<Token>,
    index: NameIndex,
    symbols: Vec<Option<LookupSymbol>>,
    labels: Vec<Option<LookupLabel>>,
    floats: Vec<Option<LookupFloat>>,
    diagnostics: Vec<(StatementAddress, Diagnostic)>,
}

/// The name that stands at `a` and nowhere from `i` to `a` is first found
/// at `a`.
proof fn lemma_place_from(names: Seq<Seq<u8>>, name: Seq<u8>, i: int, a: int)
    requires
        0 <= i <= a < names.len(),
        names[a] == name,
        forall|k: int| i <= k < a ==> (#[trigger] names[k]) != name,
    ensures
        name_place(names, name, i) == Some(a),
    decreases a - i,
{
    if i < a {
        lemma_place_from(names, name, i + 1, a);
    }
}

/// A name that stands nowhere from `i` on is not found.
proof fn lemma_place_none(names: Seq<Seq<u8>>, name: Seq<u8>, i: int)
    requires
        0 <= i,
        forall|k: int| i <= k < names.len() ==> (#[trigger] names[k]) != name,
    ensures
        name_place(names, name, i) is None,
    decreases names.len() - i,
{
    if i < names.len() {
        lemma_place_none(names, name, i + 1);
    }
}

impl View for Nameset {
    type V = NamesView;

    closed spec fn view(&self) -> NamesView {
        NamesView {
            names: words(&self.names),
            symbols: self.symbols@,
            labels: self.labels@,
            floats: self.floats@,
            diagnostics: self.diagnostics@,
        }
    }
}

impl Nameset {
    /// What the view is made of.
    pub proof fn lemma_view(&self)
        ensures
            self@.names.len() == self.atom_count(),
            forall|a: Atom| a < self.atom_count() ==> #[trigger] self@.names[a as int] == self.name_of(a),
            forall|a: Atom|
                a < self.atom_count() ==> #[trigger] self@.symbols[a as int] == self.symbol_at(a),
            forall|a: Atom|
                a < self.atom_count() ==> #[trigger] self@.labels[a as int] == self.label_at(a),
            forall|a: Atom|
                a < self.atom_count() ==> #[trigger] self@.floats[a as int] == self.float_at(a),
            self@.diagnostics == self.found(),
    {
    }

    /// The number of atoms, atom 0 included.
    pub closed spec fn atom_count(&self) -> nat {
        self.names@.len()
    }

    /// The name of an atom.
    pub closed spec fn name_of(&self, atom: Atom) -> Seq<u8> {
        self.names@[atom as int]@
    }

    /// The symbol that an atom names, if it names one.
    pub closed spec fn symbol_at(&self, atom: Atom) -> Option<LookupSymbol> {
        self.symbols@[atom as int]
    }

    /// The label that an atom names, if it names one.
    pub closed spec fn label_at(&self, atom: Atom) -> Option<LookupLabel> {
        self.labels@[atom as int]
    }

    /// The floating hypothesis of the variable that an atom names.
    pub closed spec fn float_at(&self, atom: Atom) -> Option<LookupFloat> {
        self.floats@[atom as int]
    }

    /// The invariant of a name set: no two atoms share a name, atom 0 has the
    /// empty name, and every entry carries the atom under which it stands.
    pub closed spec fn wf(&self) -> bool {
        &&& 0 < self.names@.len() <= u32::MAX
        &&& self.names@[0]@.len() == 0
        &&& self.index.leads_to(words(&self.names))
        &&& self.symbols@.len() == self.names@.len()
        &&& self.labels@.len() == self.names@.len()
        &&& self.floats@.len() == self.names@.len()
        &&& forall|a: int, b: int|
            0 <= a < b < self.names@.len() ==> (#[trigger] self.names@[a])@ != (
            #[trigger] self.names@[b])@
        &&& forall|a: int|
            0 <= a < self.names@.len() ==> match #[trigger] self.symbols@[a] {
                Some(s) => s.atom == a,
                None => true,
            }
        &&& forall|a: int|
            0 <= a < self.names@.len() ==> match #[trigger] self.labels@[a] {
                Some(l) => l.atom == a,
                None => true,
            }
        &&& forall|a: int|
            0 <= a < self.names@.len() ==> match #[trigger] self.floats@[a] {
                Some(f) => f.atom < self.names@.len() && f.typecode_atom < self.names@.len(),
                None => true,
            }
    }

    /// The name that an atom is shown by: its name, or nothing for an atom
    /// that names nothing.
    pub open spec fn shown(&self, atom: Atom) -> Seq<u8> {
        if atom < self.atom_count() {
            self.name_of(atom)
        } else {
            Seq::empty()
        }
    }

    /// The atom of a name, if the name is interned.
    pub open spec fn atom_of(&self, name: Seq<u8>) -> Option<Atom> {
        if exists|a: Atom| a < self.atom_count() && self.name_of(a) == name {
            Some(choose|a: Atom| a < self.atom_count() && self.name_of(a) == name)
        } else {
            None
        }
    }

    /// The symbol of a name.
    pub open spec fn symbol(&self, name: Seq<u8>) -> Option<LookupSymbol> {
        match self.atom_of(name) {
            Some(a) => self.symbol_at(a),
            None => None,
        }
    }

    /// The label of a name.
    pub open spec fn label(&self, name: Seq<u8>) -> Option<LookupLabel> {
        match self.atom_of(name) {
            Some(a) => self.label_at(a),
            None => None,
        }
    }

    /// The floating hypothesis of the variable of a name.
    pub open spec fn float(&self, name: Seq<u8>) -> Option<LookupFloat> {
        match self.atom_of(name) {
            Some(a) => self.float_at(a),
            None => None,
        }
    }

    /// In a well-formed name set a name has one atom at most, and every
    /// entry carries the atom of its name.
    pub proof fn lemma_wf(&self)
        requires
            self.wf(),
        ensures
            0 < self.atom_count() <= u32::MAX,
            forall|a: Atom, b: Atom|
                a < self.atom_count() && b < self.atom_count() && self.name_of(a) == self.name_of(b)
                    ==> a == b,
            forall|a: Atom|
                a < self.atom_count() ==> #[trigger] self.atom_of(self.name_of(a)) == Some(a),
            forall|a: Atom|
                a < self.atom_count() && self.symbol_at(a) is Some ==> (#[trigger] self.symbol_at(
                    a,
                ))->0.atom == a,
            forall|a: Atom|
                a < self.atom_count() && self.label_at(a) is Some ==> (#[trigger] self.label_at(
                    a,
                ))->0.atom == a,
            forall|a: Atom|
                a < self.atom_count() && self.float_at(a) is Some ==> (#[trigger] self.float_at(
                    a,
                ))->0.atom < self.atom_count() && self.float_at(a)->0.typecode_atom
                    < self.atom_count(),
    {
        assert forall|a: Atom, b: Atom|
            a < self.atom_count() && b < self.atom_count() && self.name_of(a) == self.name_of(
                b,
            ) implies a == b by {
            if a < b {
                assert(self.names@[a as int]@ != self.names@[b as int]@);
            } else if b < a {
                assert(self.names@[b as int]@ != self.names@[a as int]@);
            }
        }
        assert forall|a: Atom| a < self.atom_count() implies #[trigger] self.atom_of(
            self.name_of(a),
        ) == Some(a) by {
            let n = self.name_of(a);
            let c = choose|c: Atom| c < self.atom_count() && self.name_of(c) == n;
        }
        assert forall|a: Atom|
            a < self.atom_count() && self.symbol_at(a) is Some implies (#[trigger] self.symbol_at(
            a,
        ))->0.atom == a by {
            assert(self.symbols@[a as int] is Some);
        }
        assert forall|a: Atom|
            a < self.atom_count() && self.label_at(a) is Some implies (#[trigger] self.label_at(
            a,
        ))->0.atom == a by {
            assert(self.labels@[a as int] is Some);
        }
        assert forall|a: Atom|
            a < self.atom_count() && self.float_at(a) is Some implies (#[trigger] self.float_at(
            a,
        ))->0.atom < self.atom_count() && self.float_at(a)->0.typecode_atom
            < self.atom_count() by {
            assert(self.floats@[a as int] is Some);
        }
    }

    /// A name set that knows no name.
    pub fn new() -> (n: Nameset)
        ensures
            n.wf(),
            n.atom_count() == 1,
            n@ == forgotten(seq![Seq::<u8>::empty()]),
    {
        let mut names: Vec<Token> = Vec::new();
        let mut index = NameIndex::new();
        let nothing: Token = Vec::new();
        index.add(nothing.as_slice(), 0);
        names.push(nothing);
        let mut symbols: Vec<Option<LookupSymbol>> = Vec::new();
        symbols.push(None);
        let mut labels: Vec<Option<LookupLabel>> = Vec::new();
        labels.push(None);
        let mut floats: Vec<Option<LookupFloat>> = Vec::new();
        floats.push(None);
        let n = Nameset { names, index, symbols, labels, floats, diagnostics: Vec::new() };
        proof {
            assert(words(&n.names) =~= Seq::<Seq<u8>>::empty().push(nothing@));
            let f = forgotten(seq![Seq::<u8>::empty()]);
            assert(n@.names =~= f.names);
            assert(n@.symbols =~= f.symbols);
            assert(n@.labels =~= f.labels);
            assert(n@.floats =~= f.floats);
        }
        n
    }

    /// A name set with the atoms of this one, of which nothing else is
    /// known.
    pub fn seed(&self) -> (n: Nameset)
        requires
            self.wf(),
        ensures
            n.wf(),
            n.keeps_atoms(self),
            n.atom_count() == self.atom_count(),
            n@ == forgotten(self@.names),
    {
        let mut names: Vec<Token> = Vec::new();
        let mut index = NameIndex::new();
        let mut symbols: Vec<Option<LookupSymbol>> = Vec::new();
        let mut labels: Vec<Option<LookupLabel>> = Vec::new();
        let mut floats: Vec<Option<LookupFloat>> = Vec::new();
        let mut i: usize = 0;
        proof {
            assert(words(&names) =~= Seq::<Seq<u8>>::empty());
        }
        while i < self.names.len()
            invariant
                0 <= i <= self.names@.len() <= u32::MAX,
                index.leads_to(words(&names)),
                names@.len() == i,
                symbols@.len() == i,
                labels@.len() == i,
                floats@.len() == i,
                forall|a: int| 0 <= a < i ==> (#[trigger] names@[a])@ == self.names@[a]@,
                forall|a: int| 0 <= a < i ==> symbols@[a] is None,
                forall|a: int| 0 <= a < i ==> labels@[a] is None,
                forall|a: int| 0 <= a < i ==> floats@[a] is None,
            decreases self.names@.len() - i,
        {
            let name = copy_range(self.names[i].as_slice(), 0, self.names[i].len());
            let ghost before = words(&names);
            index.add(name.as_slice(), i as Atom);
            names.push(name);
            assert(self.names@[i as int]@.subrange(0, self.names@[i as int]@.len() as int)
                =~= self.names@[i as int]@);
            assert(words(&names) =~= before.push(name@));
            symbols.push(None);
            labels.push(None);
            floats.push(None);
            i += 1;
        }
        let n = Nameset { names, index, symbols, labels, floats, diagnostics: Vec::new() };
        proof {
            let f = forgotten(self@.names);
            assert(n@.names =~= f.names);
            assert(n@.symbols =~= f.symbols);
            assert(n@.labels =~= f.labels);
            assert(n@.floats =~= f.floats);
            assert forall|a: int, b: int| 0 <= a < b < n.names@.len() implies (
            #[trigger] n.names@[a])@ != (#[trigger] n.names@[b])@ by {
                assert(self.names@[a]@ != self.names@[b]@);
            }
        }
        n
    }

    /// The atom of `name`, if the name is interned.
    pub fn get_atom(&self, name: &[u8]) -> (r: Option<Atom>)
        requires
            self.wf(),
        ensures
            r == self.atom_of(name@),
            r matches Some(a) ==> a < self.atom_count() && self.name_of(a) == name@,
            r is None ==> forall|a: Atom| a < self.atom_count() ==> self.name_of(a) != name@,
            match r {
                Some(a) => name_place(self@.names, name@, 0) == Some(a as int),
                None => name_place(self@.names, name@, 0) is None,
            },
    {
        let bucket = self.index.candidates(name);
        let mut j: usize = 0;
        while j < bucket.len()
            invariant
                self.wf(),
                0 <= j <= bucket@.len(),
                forall|k: int| 0 <= k < bucket@.len() ==> (#[trigger] bucket@[k]) < self.names@.len(),
                forall|k: int| 0 <= k < j ==> self.names@[(#[trigger] bucket@[k]) as int]@ != name@,
            decreases bucket@.len() - j,
        {
            let a = bucket[j];
            if bytes_eq(self.names[a as usize].as_slice(), name) {
                proof {
                    self.lemma_wf();
                    assert(self.name_of(a) == name@);
                    assert forall|k: int| 0 <= k < a implies (#[trigger] self@.names[k]) != name@ by {
                        assert(self.names@[k]@ != self.names@[a as int]@);
                    }
                    lemma_place_from(self@.names, name@, 0, a as int);
                }
                return Some(a);
            }
            j += 1;
        }
        proof {
            assert forall|a: int| 0 <= a < self.names@.len() implies (#[trigger] words(
                &self.names,
            )[a]) != name@ by {
                if words(&self.names)[a] == name@ {
                    assert(bucket@.contains(a as Atom));
                    let k = choose|k: int| 0 <= k < bucket@.len() && bucket@[k] == a as Atom;
                    assert(self.names@[bucket@[k] as int]@ != name@);
                }
            }
            lemma_place_none(self@.names, name@, 0);
            if exists|a: Atom| a < self.atom_count() && self.name_of(a) == name@ {
                let a = choose|a: Atom| a < self.atom_count() && self.name_of(a) == name@;
                assert(words(&self.names)[a as int] == name@);
            }
        }
        None
    }

    /// The name of `atom`; the empty name for an atom that names nothing.
    pub fn atom_name(&self, atom: Atom) -> (name: &[u8])
        requires
            self.wf(),
        ensures
            name@ == self.shown(atom),
    {
        if (atom as usize) < self.names.len() {
            self.names[atom as usize].as_slice()
        } else {
            self.names[0].as_slice()
        }
    }

    /// What is known of the symbol `name`.
    pub fn lookup_symbol(&self, name: &[u8]) -> (r: Option<LookupSymbol>)
        requires
            self.wf(),
        ensures
            r == self.symbol(name@),
    {
        match self.get_atom(name) {
            Some(a) => self.symbols[a as usize],
            None => None,
        }
    }

    /// What is known of the label `name`.
    pub fn lookup_label(&self, name: &[u8]) -> (r: Option<LookupLabel>)
        requires
            self.wf(),
        ensures
            r == self.label(name@),
    {
        match self.get_atom(name) {
            Some(a) => self.labels[a as usize],
            None => None,
        }
    }

    /// What is known of the floating hypothesis of the variable `name`.
    pub fn lookup_float(&self, name: &[u8]) -> (r: Option<LookupFloat>)
        requires
            self.wf(),
        ensures
            r == self.float(name@),
    {
        match self.get_atom(name) {
            Some(a) => self.floats[a as usize],
            None => None,
        }
    }

    /// What is known of the symbol that `atom` names.
    pub fn symbol_by_atom(&self, atom: Atom) -> (r: Option<LookupSymbol>)
        requires
            self.wf(),
        ensures
            r == if atom < self.atom_count() {
                self.symbol_at(atom)
            } else {
                None
            },
    {
        if (atom as usize) < self.symbols.len() {
            self.symbols[atom as usize]
        } else {
            None
        }
    }

    /// What is known of the label that `atom` names.
    pub fn label_by_atom(&self, atom: Atom) -> (r: Option<LookupLabel>)
        requires
            self.wf(),
        ensures
            r == if atom < self.atom_count() {
                self.label_at(atom)
            } else {
                None
            },
    {
        if (atom as usize) < self.labels.len() {
            self.labels[atom as usize]
        } else {
            None
        }
    }

    /// What is known of the floating hypothesis of the variable that `atom`
    /// names.
    pub fn float_by_atom(&self, atom: Atom) -> (r: Option<LookupFloat>)
        requires
            self.wf(),
        ensures
            r == if atom < self.atom_count() {
                self.float_at(atom)
            } else {
                None
            },
    {
        if (atom as usize) < self.floats.len() {
            self.floats[atom as usize]
        } else {
            None
        }
    }

    /// The problems found with the names.
    pub closed spec fn found(&self) -> Seq<(StatementAddress, Diagnostic)> {
        self.diagnostics@
    }

    /// The problems found with the names.
    pub fn diagnostics(&self) -> (r: &Vec<(StatementAddress, Diagnostic)>)
        ensures
            r@ == self.found(),
    {
        &self.diagnostics
    }

    /// Interns `name`. `None` when there is no atom left.
    fn intern(&mut self, name: &[u8]) -> (r: Option<Atom>)
        requires
            old(self).wf(),
        ensures
            final(self).wf(),
            final(self).keeps(old(self)),
            final(self).diagnostics@ == old(self).diagnostics@,
            r matches Some(a) ==> a < final(self).atom_count() && final(self).name_of(a) == name@,
            r is None ==> final(self).atom_count() >= u32::MAX,
            (final(self)@, r) == interned(old(self)@, name@),
    {
        match self.get_atom(name) {
            Some(a) => Some(a),
            None => {
                let n = self.names.len();
                if n >= 0xffff_ffff {
                    return None;
                }
                self.index.add(name, n as Atom);
                self.names.push(copy_range(name, 0, name.len()));
                self.symbols.push(None);
                self.labels.push(None);
                self.floats.push(None);
                proof {
                    assert(name@.subrange(0, name@.len() as int) =~= name@);
                    assert(self@.names =~= old(self)@.names.push(name@));
                    assert(words(&self.names) =~= words(&old(self).names).push(name@));
                    assert forall|a: int, b: int| 0 <= a < b < self.names@.len() implies (
                    #[trigger] self.names@[a])@ != (#[trigger] self.names@[b])@ by {
                        if b == n {
                            assert(old(self).name_of(a as Atom) != name@);
                        } else {
                            assert(old(self).names@[a]@ != old(self).names@[b]@);
                        }
                    }
                }
                Some(n as Atom)
            },
        }
    }

    /// Every atom of `before` names the same here, and what it names is
    /// known here as it was there; of any other atom nothing is known.
    pub closed spec fn keeps(&self, before: &Nameset) -> bool {
        &&& before.names@.len() <= self.names@.len()
        &&& forall|a: int| 0 <= a < before.names@.len() ==> self.names@[a]@ == before.names@[a]@
        &&& forall|a: int| 0 <= a < before.names@.len() ==> self.symbols@[a] == before.symbols@[a]
        &&& forall|a: int| 0 <= a < before.names@.len() ==> self.labels@[a] == before.labels@[a]
        &&& forall|a: int| 0 <= a < before.names@.len() ==> self.floats@[a] == before.floats@[a]
        &&& forall|a: int| before.names@.len() <= a < self.names@.len() ==> self.symbols@[a] is None
        &&& forall|a: int| before.names@.len() <= a < self.names@.len() ==> self.labels@[a] is None
        &&& forall|a: int| before.names@.len() <= a < self.names@.len() ==> self.floats@[a] is None
    }

    /// Every atom of `before` is an atom here, with the same name.
    pub closed spec fn keeps_atoms(&self, before: &Nameset) -> bool {
        &&& before.names@.len() <= self.names@.len()
        &&& forall|a: int| 0 <= a < before.names@.len() ==> self.names@[a]@ == before.names@[a]@
    }

    /// A name set keeps its own atoms.
    pub proof fn lemma_keeps_atoms_self(&self)
        ensures
            self.keeps_atoms(self),
    {
    }

    /// A name set that keeps the atoms of one that keeps the atoms of a
    /// third keeps the atoms of the third.
    pub proof fn lemma_keeps_atoms_trans(&self, mid: &Nameset, before: &Nameset)
        requires
            self.keeps_atoms(mid),
            mid.keeps_atoms(before),
        ensures
            self.keeps_atoms(before),
    {
    }

    /// What `keeps_atoms` says, in terms of atoms and their names.
    pub proof fn lemma_keeps_atoms(&self, before: &Nameset)
        requires
            self.keeps_atoms(before),
        ensures
            before.atom_count() <= self.atom_count(),
            forall|a: Atom| a < before.atom_count() ==> self.name_of(a) == before.name_of(a),
    {
    }

    /// Every symbol stands for a `$c` or `$v` of `sset` that lists its name.
    pub open spec fn symbols_in(&self, sset: &SegmentSet) -> bool {
        forall|a: Atom|
            a < self.atom_count() ==> match #[trigger] self.symbol_at(a) {
                Some(s) => match sset.statement_at(s.address) {
                    Some(st) => st.stype == (match s.stype {
                        SymbolType::Constant => StatementType::Constant,
                        SymbolType::Variable => StatementType::Variable,
                    }) && exists|t: int| 0 <= t < st.math@.len() && st.math@[t]@ == self.name_of(a),
                    None => false,
                },
                None => true,
            }
    }

    /// Every label stands for the statement of `sset` that carries it.
    pub open spec fn labels_in(&self, sset: &SegmentSet) -> bool {
        forall|a: Atom|
            a < self.atom_count() ==> match #[trigger] self.label_at(a) {
                Some(l) => match sset.statement_at(l.address) {
                    Some(st) => st.label@ == self.name_of(a) && st.label@.len() > 0,
                    None => false,
                },
                None => true,
            }
    }

    /// Every floating hypothesis stands for a `$f` of `sset` that gives its
    /// variable a typecode, under its label.
    pub open spec fn floats_in(&self, sset: &SegmentSet) -> bool {
        forall|a: Atom|
            a < self.atom_count() ==> match #[trigger] self.float_at(a) {
                Some(f) => match sset.statement_at(f.address) {
                    Some(st) => {
                        &&& st.stype == StatementType::Floating
                        &&& st.math@.len() == 2
                        &&& st.math@[1]@ == self.name_of(a)
                        &&& f.typecode_atom < self.atom_count()
                        &&& st.math@[0]@ == self.name_of(f.typecode_atom)
                        &&& f.atom < self.atom_count()
                        &&& st.label@ == self.name_of(f.atom)
                        &&& self.label_at(f.atom) == Some(
                            LookupLabel { atom: f.atom, address: f.address },
                        )
                    },
                    None => false,
                },
                None => true,
            }
    }

    /// Every entry stands for a statement of `sset` that declares its name.
    pub open spec fn names_in(&self, sset: &SegmentSet) -> bool {
        self.symbols_in(sset) && self.labels_in(sset) && self.floats_in(sset)
    }

    /// A name set that keeps another and knows nothing of the atoms that it
    /// adds stands for the same statements.
    proof fn lemma_keeps(&self, before: &Nameset, sset: &SegmentSet)
        requires
            before.names_in(sset),
            self.keeps(before),
        ensures
            self.names_in(sset),
            self.keeps_atoms(before),
    {
        assert forall|a: Atom| a < self.atom_count() implies match #[trigger] self.symbol_at(a) {
            Some(s) => match sset.statement_at(s.address) {
                Some(st) => st.stype == (match s.stype {
                    SymbolType::Constant => StatementType::Constant,
                    SymbolType::Variable => StatementType::Variable,
                }) && exists|t: int| 0 <= t < st.math@.len() && st.math@[t]@ == self.name_of(a),
                None => false,
            },
            None => true,
        } by {
            if a < before.atom_count() {
                assert(self.symbol_at(a) == before.symbol_at(a));
                assert(self.name_of(a) == before.name_of(a));
            }
        }
        assert forall|a: Atom| a < self.atom_count() implies match #[trigger] self.label_at(a) {
            Some(l) => match sset.statement_at(l.address) {
                Some(st) => st.label@ == self.name_of(a) && st.label@.len() > 0,
                None => false,
            },
            None => true,
        } by {
            if a < before.atom_count() {
                assert(self.label_at(a) == before.label_at(a));
                assert(self.name_of(a) == before.name_of(a));
            }
        }
        assert forall|a: Atom| a < self.atom_count() implies match #[trigger] self.float_at(a) {
            Some(f) => match sset.statement_at(f.address) {
                Some(st) => {
                    &&& st.stype == StatementType::Floating
                    &&& st.math@.len() == 2
                    &&& st.math@[1]@ == self.name_of(a)
                    &&& f.typecode_atom < self.atom_count()
                    &&& st.math@[0]@ == self.name_of(f.typecode_atom)
                    &&& f.atom < self.atom_count()
                    &&& st.label@ == self.name_of(f.atom)
                    &&& self.label_at(f.atom) == Some(
                        LookupLabel { atom: f.atom, address: f.address },
                    )
                },
                None => false,
            },
            None => true,
        } by {
            if a < before.atom_count() {
                assert(self.float_at(a) == before.float_at(a));
                assert(self.name_of(a) == before.name_of(a));
                if before.float_at(a) is Some {
                    let f = before.float_at(a)->0;
                    assert(self.name_of(f.atom) == before.name_of(f.atom));
                    assert(self.name_of(f.typecode_atom) == before.name_of(f.typecode_atom));
                    assert(self.label_at(f.atom) == before.label_at(f.atom));
                }
            }
        }
    }

    /// Every atom of `before` names the same here, and what was known of it
    /// there is known of it here.
    pub closed spec fn grows(&self, before: &Nameset) -> bool {
        &&& before.names@.len() <= self.names@.len()
        &&& forall|a: int| 0 <= a < before.names@.len() ==> self.names@[a]@ == before.names@[a]@
        &&& forall|a: int|
            0 <= a < before.names@.len() && before.symbols@[a] is Some ==> self.symbols@[a]
                == before.symbols@[a]
        &&& forall|a: int|
            0 <= a < before.names@.len() && before.labels@[a] is Some ==> self.labels@[a]
                == before.labels@[a]
        &&& forall|a: int|
            0 <= a < before.names@.len() && before.floats@[a] is Some ==> self.floats@[a]
                == before.floats@[a]
    }

    /// What `grows` says, in terms of atoms.
    pub proof fn lemma_grows(&self, before: &Nameset)
        requires
            self.grows(before),
        ensures
            before.atom_count() <= self.atom_count(),
            forall|a: Atom| a < before.atom_count() ==> self.name_of(a) == before.name_of(a),
            forall|a: Atom|
                a < before.atom_count() && (#[trigger] before.symbol_at(a)) is Some
                    ==> self.symbol_at(a) == before.symbol_at(a),
            forall|a: Atom|
                a < before.atom_count() && (#[trigger] before.label_at(a)) is Some ==> self.label_at(
                    a,
                ) == before.label_at(a),
            forall|a: Atom|
                a < before.atom_count() && (#[trigger] before.float_at(a)) is Some ==> self.float_at(
                    a,
                ) == before.float_at(a),
    {
    }

    /// The symbol `name` is known, from a statement at or before statement
    /// `k` of segment `i`.
    pub open spec fn knows_symbol(&self, sset: &SegmentSet, name: Seq<u8>, i: int, k: int) -> bool {
        exists|a: Atom|
            a < self.atom_count() && self.name_of(a) == name && (#[trigger] self.symbol_at(a)) is Some
                && at_or_before(sset, self.symbol_at(a)->0.address, i, k)
    }

    /// The label `name` is known, from a statement at or before statement
    /// `k` of segment `i`.
    pub open spec fn knows_label(&self, sset: &SegmentSet, name: Seq<u8>, i: int, k: int) -> bool {
        exists|a: Atom|
            a < self.atom_count() && self.name_of(a) == name && (#[trigger] self.label_at(a)) is Some
                && at_or_before(sset, self.label_at(a)->0.address, i, k)
    }

    /// Whatever is known is known from a statement at or before statement
    /// `k` of segment `i`.
    pub open spec fn known_before(&self, sset: &SegmentSet, i: int, k: int) -> bool {
        &&& forall|a: Atom|
            a < self.atom_count() && (#[trigger] self.symbol_at(a)) is Some ==> at_or_before(
                sset,
                self.symbol_at(a)->0.address,
                i,
                k,
            )
        &&& forall|a: Atom|
            a < self.atom_count() && (#[trigger] self.label_at(a)) is Some ==> at_or_before(
                sset,
                self.label_at(a)->0.address,
                i,
                k,
            )
    }

    /// What statement `k` of segment `i` declares is known, from that
    /// statement or one before it: the symbols of a `$c` or `$v`, the label
    /// of a statement that carries one.
    pub open spec fn declared(&self, sset: &SegmentSet, i: int, k: int) -> bool {
        let st = sset.entries()[i].segment.statements@[k];
        &&& declares_symbols(&st) ==> forall|t: int|
            0 <= t < st.math@.len() ==> self.knows_symbol(sset, #[trigger] st.math@[t]@, i, k)
        &&& declares_label(&st) ==> self.knows_label(sset, st.label@, i, k)
    }

    /// What the statements before statement `k` of segment `i` declare is
    /// known, each from the first statement that declares it.
    pub open spec fn declared_upto(&self, sset: &SegmentSet, i: int, k: int) -> bool {
        forall|i2: int, k2: int|
            #![trigger sset.entries()[i2].segment.statements@[k2]]
            0 <= i2 < sset.entries().len() && 0 <= k2 < sset.entries()[i2].segment.statements@.len()
                && (i2 < i || (i2 == i && k2 < k)) ==> self.declared(sset, i2, k2)
    }

    /// What is known stays known when the name set grows.
    pub proof fn lemma_grows_knows(&self, before: &Nameset, sset: &SegmentSet)
        requires
            self.grows(before),
        ensures
            forall|name: Seq<u8>, i: int, k: int|
                before.knows_symbol(sset, name, i, k) ==> self.knows_symbol(sset, name, i, k),
            forall|name: Seq<u8>, i: int, k: int|
                before.knows_label(sset, name, i, k) ==> self.knows_label(sset, name, i, k),
            forall|i: int, k: int| before.declared(sset, i, k) ==> self.declared(sset, i, k),
            forall|i: int, k: int| before.declared_upto(sset, i, k) ==> self.declared_upto(sset, i, k),
    {
        self.lemma_grows(before);
        assert forall|name: Seq<u8>, i: int, k: int|
            before.knows_symbol(sset, name, i, k) implies self.knows_symbol(sset, name, i, k) by {
            let a = choose|a: Atom|
                a < before.atom_count() && before.name_of(a) == name && (#[trigger] before.symbol_at(
                    a,
                )) is Some && at_or_before(sset, before.symbol_at(a)->0.address, i, k);
            assert(self.symbol_at(a) == before.symbol_at(a));
        }
        assert forall|name: Seq<u8>, i: int, k: int|
            before.knows_label(sset, name, i, k) implies self.knows_label(sset, name, i, k) by {
            let a = choose|a: Atom|
                a < before.atom_count() && before.name_of(a) == name && (#[trigger] before.label_at(
                    a,
                )) is Some && at_or_before(sset, before.label_at(a)->0.address, i, k);
            assert(self.label_at(a) == before.label_at(a));
        }
        assert forall|i: int, k: int| before.declared(sset, i, k) implies self.declared(
            sset,
            i,
            k,
        ) by {
            let st = sset.entries()[i].segment.statements@[k];
            if declares_symbols(&st) {
                assert forall|t: int| 0 <= t < st.math@.len() implies self.knows_symbol(
                    sset,
                    #[trigger] st.math@[t]@,
                    i,
                    k,
                ) by {
                    assert(before.knows_symbol(sset, st.math@[t]@, i, k));
                }
            }
        }
        assert forall|i: int, k: int| before.declared_upto(sset, i, k) implies self.declared_upto(
            sset,
            i,
            k,
        ) by {
            assert forall|i2: int, k2: int|
                #![trigger sset.entries()[i2].segment.statements@[k2]]
                0 <= i2 < sset.entries().len() && 0 <= k2
                    < sset.entries()[i2].segment.statements@.len() && (i2 < i || (i2 == i && k2
                    < k)) implies self.declared(sset, i2, k2) by {
                assert(before.declared(sset, i2, k2));
            }
        }
    }

    /// A name set grows from itself, from what it keeps, and from what a
    /// name set grew from that it grows from.
    proof fn lemma_grows_steps(&self, mid: &Nameset, before: &Nameset)
        ensures
            self.grows(self),
            self.keeps(before) ==> self.grows(before),
            self.grows(mid) && mid.grows(before) ==> self.grows(before),
    {
    }

    /// The symbol of a name that a statement declares is known from the
    /// first statement that declares the name, and so is the label of a name
    /// that a statement carries.
    pub proof fn lemma_first_declaration(&self, sset: &SegmentSet, i: int, k: int)
        requires
            self.wf(),
            0 <= i < sset.entries().len(),
            0 <= k < sset.entries()[i].segment.statements@.len(),
            self.declared_upto(sset, sset.entries().len() as int, 0),
        ensures
            declares_symbols(&sset.entries()[i].segment.statements@[k]) ==> forall|t: int|
                0 <= t < sset.entries()[i].segment.statements@[k].math@.len() ==> {
                    let found = self.symbol(
                        #[trigger] sset.entries()[i].segment.statements@[k].math@[t]@,
                    );
                    found is Some && at_or_before(sset, found->0.address, i, k)
                },
            declares_label(&sset.entries()[i].segment.statements@[k]) ==> {
                let found = self.label(sset.entries()[i].segment.statements@[k].label@);
                found is Some && at_or_before(sset, found->0.address, i, k)
            },
    {
        self.lemma_wf();
        let st = sset.entries()[i].segment.statements@[k];
        assert(self.declared(sset, i, k));
        if declares_symbols(&st) {
            assert forall|t: int| 0 <= t < st.math@.len() implies {
                let found = self.symbol(#[trigger] st.math@[t]@);
                found is Some && at_or_before(sset, found->0.address, i, k)
            } by {
                let name = st.math@[t]@;
                assert(self.knows_symbol(sset, name, i, k));
                let a = choose|a: Atom|
                    a < self.atom_count() && self.name_of(a) == name && (#[trigger] self.symbol_at(
                        a,
                    )) is Some && at_or_before(sset, self.symbol_at(a)->0.address, i, k);
                assert(self.atom_of(self.name_of(a)) == Some(a));
            }
        }
        if declares_label(&st) {
            let name = st.label@;
            assert(self.knows_label(sset, name, i, k));
            let a = choose|a: Atom|
                a < self.atom_count() && self.name_of(a) == name && (#[trigger] self.label_at(a)) is Some
                    && at_or_before(sset, self.label_at(a)->0.address, i, k);
            assert(self.atom_of(self.name_of(a)) == Some(a));
        }
    }

    fn note(&mut self, address: StatementAddress, diagnostic: Diagnostic)
        ensures
            final(self).names == old(self).names,
            final(self).symbols == old(self).symbols,
            final(self).labels == old(self).labels,
            final(self).floats == old(self).floats,
            final(self).index == old(self).index,
            final(self)@ == with_note(old(self)@, address, diagnostic),
    {
        self.diagnostics.push((address, diagnostic));
    }

    /// Records that the statement at `address` declares the symbol `name`
    /// as token `t` of its math string.
    fn add_symbol(
        &mut self,
        name: &[u8],
        stype: SymbolType,
        address: StatementAddress,
        t: usize,
        Ghost(sset): Ghost<&SegmentSet>,
        Ghost(i): Ghost<int>,
    )
        requires
            old(self).wf(),
            old(self).names_in(sset),
            0 <= i < sset.entries().len(),
            address.segment_id == sset.entries()[i].id,
            address.index < sset.entries()[i].segment.statements@.len(),
            old(self).known_before(sset, i, address.index as int),
            sset.statement_at(address) is Some,
            sset.statement_at(address)->0.stype == (match stype {
                SymbolType::Constant => StatementType::Constant,
                SymbolType::Variable => StatementType::Variable,
            }),
            t < sset.statement_at(address)->0.math@.len(),
            sset.statement_at(address)->0.math@[t as int]@ == name@,
        ensures
            final(self).wf(),
            final(self).keeps_atoms(old(self)),
            final(self).names_in(sset),
            final(self).grows(old(self)),
            final(self).known_before(sset, i, address.index as int),
            final(self).atom_count() < u32::MAX ==> final(self).knows_symbol(
                sset,
                name@,
                i,
                address.index as int,
            ),
            final(self)@ == with_symbol(old(self)@, name@, stype, address, t),
    {
        let a = match self.intern(name) {
            Some(a) => a,
            None => {
                proof {
                    self.lemma_keeps(old(self), sset);
                    self.lemma_grows_steps(old(self), old(self));
                    self.lemma_known_before(old(self), sset, i, address.index as int);
                }
                return ;
            },
        };
        proof {
            self.lemma_keeps(old(self), sset);
            self.lemma_grows_steps(old(self), old(self));
            self.lemma_known_before(old(self), sset, i, address.index as int);
        }
        let ghost mid = *self;
        match self.symbols[a as usize] {
            Some(previous) => {
                self.note(address, Diagnostic::SymbolRedeclared(t, previous.address));
                proof {
                    self.lemma_same(&mid, sset);
                    self.lemma_known_same(&mid, sset, i, address.index as int);
                    assert(self.symbol_at(a) == mid.symbol_at(a));
                    assert(self.name_of(a) == name@);
                    assert(mid.symbol_at(a) is Some);
                }
            },
            None => {
                self.symbols[a as usize] = Some(LookupSymbol { stype, atom: a, address });
                proof {
                    assert(at_or_before(sset, address, i, address.index as int)) by {
                        assert(sset.entries()[i].id == address.segment_id);
                    }
                    assert(self.symbol_at(a) is Some);
                    assert(self.name_of(a) == name@);
                    assert forall|b: Atom|
                        b < self.atom_count() && (#[trigger] self.symbol_at(b)) is Some implies at_or_before(
                        sset,
                        self.symbol_at(b)->0.address,
                        i,
                        address.index as int,
                    ) by {
                        if b != a {
                            assert(self.symbol_at(b) == mid.symbol_at(b));
                        }
                    }
                    assert forall|b: Atom|
                        b < self.atom_count() && (#[trigger] self.label_at(b)) is Some implies at_or_before(
                        sset,
                        self.label_at(b)->0.address,
                        i,
                        address.index as int,
                    ) by {
                        assert(self.label_at(b) == mid.label_at(b));
                    }
                    assert forall|b: Atom| b < self.atom_count() implies match #[trigger] self.symbol_at(
                        b,
                    ) {
                        Some(s) => match sset.statement_at(s.address) {
                            Some(st) => st.stype == (match s.stype {
                                SymbolType::Constant => StatementType::Constant,
                                SymbolType::Variable => StatementType::Variable,
                            }) && exists|t: int|
                                0 <= t < st.math@.len() && st.math@[t]@ == self.name_of(b),
                            None => false,
                        },
                        None => true,
                    } by {
                        if b == a {
                            let st = sset.statement_at(address)->0;
                            assert(st.math@[t as int]@ == self.name_of(b));
                        } else {
                            assert(self.symbol_at(b) == mid.symbol_at(b));
                            assert(self.name_of(b) == mid.name_of(b));
                        }
                    }
                    assert forall|b: Atom| b < self.atom_count() implies match #[trigger] self.label_at(
                        b,
                    ) {
                        Some(l) => match sset.statement_at(l.address) {
                            Some(st) => st.label@ == self.name_of(b) && st.label@.len() > 0,
                            None => false,
                        },
                        None => true,
                    } by {
                        assert(self.label_at(b) == mid.label_at(b));
                        assert(self.name_of(b) == mid.name_of(b));
                    }
                    self.lemma_floats_same(&mid, sset);
                }
            },
        }
    }

    /// A name set that keeps another knows nothing from a later statement
    /// than the other does.
    proof fn lemma_known_before(&self, before: &Nameset, sset: &SegmentSet, i: int, k: int)
        requires
            self.keeps(before),
            before.known_before(sset, i, k),
        ensures
            self.known_before(sset, i, k),
    {
        assert forall|a: Atom|
            a < self.atom_count() && (#[trigger] self.symbol_at(a)) is Some implies at_or_before(
            sset,
            self.symbol_at(a)->0.address,
            i,
            k,
        ) by {
            assert(a < before.atom_count());
            assert(self.symbol_at(a) == before.symbol_at(a));
        }
        assert forall|a: Atom|
            a < self.atom_count() && (#[trigger] self.label_at(a)) is Some implies at_or_before(
            sset,
            self.label_at(a)->0.address,
            i,
            k,
        ) by {
            assert(a < before.atom_count());
            assert(self.label_at(a) == before.label_at(a));
        }
    }

    /// With the same tables as `before`, nothing is known from a later
    /// statement.
    proof fn lemma_known_same(&self, before: &Nameset, sset: &SegmentSet, i: int, k: int)
        requires
            self.names == before.names,
            self.symbols == before.symbols,
            self.labels == before.labels,
            before.known_before(sset, i, k),
        ensures
            self.known_before(sset, i, k),
    {
        assert forall|a: Atom|
            a < self.atom_count() && (#[trigger] self.symbol_at(a)) is Some implies at_or_before(
            sset,
            self.symbol_at(a)->0.address,
            i,
            k,
        ) by {
            assert(self.symbol_at(a) == before.symbol_at(a));
        }
        assert forall|a: Atom|
            a < self.atom_count() && (#[trigger] self.label_at(a)) is Some implies at_or_before(
            sset,
            self.label_at(a)->0.address,
            i,
            k,
        ) by {
            assert(self.label_at(a) == before.label_at(a));
        }
    }

    /// With the same names, labels and floating hypotheses as `before`, the
    /// floating hypotheses stand for the same statements.
    proof fn lemma_floats_same(&self, before: &Nameset, sset: &SegmentSet)
        requires
            before.floats_in(sset),
            self.names == before.names,
            self.labels == before.labels,
            self.floats == before.floats,
        ensures
            self.floats_in(sset),
    {
        assert forall|a: Atom| a < self.atom_count() implies match #[trigger] self.float_at(a) {
            Some(f) => match sset.statement_at(f.address) {
                Some(st) => {
                    &&& st.stype == StatementType::Floating
                    &&& st.math@.len() == 2
                    &&& st.math@[1]@ == self.name_of(a)
                    &&& f.typecode_atom < self.atom_count()
                    &&& st.math@[0]@ == self.name_of(f.typecode_atom)
                    &&& f.atom < self.atom_count()
                    &&& st.label@ == self.name_of(f.atom)
                    &&& self.label_at(f.atom) == Some(
                        LookupLabel { atom: f.atom, address: f.address },
                    )
                },
                None => false,
            },
            None => true,
        } by {
            assert(self.float_at(a) == before.float_at(a));
            assert(self.name_of(a) == before.name_of(a));
            if before.float_at(a) is Some {
                let f = before.float_at(a)->0;
                assert(self.name_of(f.atom) == before.name_of(f.atom));
                assert(self.name_of(f.typecode_atom) == before.name_of(f.typecode_atom));
                assert(self.label_at(f.atom) == before.label_at(f.atom));
            }
        }
    }

    /// With the same tables as `before`, every entry stands for the same
    /// statement.
    proof fn lemma_same(&self, before: &Nameset, sset: &SegmentSet)
        requires
            before.names_in(sset),
            self.names == before.names,
            self.symbols == before.symbols,
            self.labels == before.labels,
            self.floats == before.floats,
        ensures
            self.names_in(sset),
    {
        assert forall|a: Atom| a < self.atom_count() implies match #[trigger] self.symbol_at(a) {
            Some(s) => match sset.statement_at(s.address) {
                Some(st) => st.stype == (match s.stype {
                    SymbolType::Constant => StatementType::Constant,
                    SymbolType::Variable => StatementType::Variable,
                }) && exists|t: int| 0 <= t < st.math@.len() && st.math@[t]@ == self.name_of(a),
                None => false,
            },
            None => true,
        } by {
            assert(self.symbol_at(a) == before.symbol_at(a));
            assert(self.name_of(a) == before.name_of(a));
        }
        assert forall|a: Atom| a < self.atom_count() implies match #[trigger] self.label_at(a) {
            Some(l) => match sset.statement_at(l.address) {
                Some(st) => st.label@ == self.name_of(a) && st.label@.len() > 0,
                None => false,
            },
            None => true,
        } by {
            assert(self.label_at(a) == before.label_at(a));
            assert(self.name_of(a) == before.name_of(a));
        }
        self.lemma_floats_same(before, sset);
    }

    /// Records that the statement at `address`, which is `st`, carries its
    /// label, and the floating hypothesis that it makes.
    fn add_label(
        &mut self,
        st: &crate::parser::Statement,
        address: StatementAddress,
        Ghost(sset): Ghost<&SegmentSet>,
        Ghost(i): Ghost<int>,
    )
        requires
            old(self).wf(),
            old(self).names_in(sset),
            0 <= i < sset.entries().len(),
            address.segment_id == sset.entries()[i].id,
            address.index < sset.entries()[i].segment.statements@.len(),
            old(self).known_before(sset, i, address.index as int),
            sset.statement_at(address) == Some(*st),
            st.label@.len() > 0,
        ensures
            final(self).wf(),
            final(self).keeps_atoms(old(self)),
            final(self).names_in(sset),
            final(self).grows(old(self)),
            final(self).known_before(sset, i, address.index as int),
            final(self).atom_count() < u32::MAX ==> final(self).knows_label(
                sset,
                st.label@,
                i,
                address.index as int,
            ),
            final(self)@ == with_label(old(self)@, st, address),
    {
        let a = match self.intern(st.label.as_slice()) {
            Some(a) => a,
            None => {
                proof {
                    self.lemma_keeps(old(self), sset);
                    self.lemma_grows_steps(old(self), old(self));
                    self.lemma_known_before(old(self), sset, i, address.index as int);
                }
                return ;
            },
        };
        proof {
            self.lemma_keeps(old(self), sset);
            self.lemma_grows_steps(old(self), old(self));
            self.lemma_known_before(old(self), sset, i, address.index as int);
        }
        let ghost mid = *self;
        match self.labels[a as usize] {
            Some(previous) => {
                self.note(address, Diagnostic::DuplicateLabel(previous.address));
                proof {
                    self.lemma_same(&mid, sset);
                    self.lemma_known_same(&mid, sset, i, address.index as int);
                    assert(self.label_at(a) == mid.label_at(a));
                    assert(self.name_of(a) == st.label@);
                    assert(mid.label_at(a) is Some);
                }
                return ;
            },
            None => {},
        }
        self.labels[a as usize] = Some(LookupLabel { atom: a, address });
        proof {
            assert(at_or_before(sset, address, i, address.index as int)) by {
                assert(sset.entries()[i].id == address.segment_id);
            }
            assert(self.label_at(a) is Some);
            assert(self.name_of(a) == st.label@);
            assert forall|b: Atom|
                b < self.atom_count() && (#[trigger] self.symbol_at(b)) is Some implies at_or_before(
                sset,
                self.symbol_at(b)->0.address,
                i,
                address.index as int,
            ) by {
                assert(self.symbol_at(b) == mid.symbol_at(b));
            }
            assert forall|b: Atom|
                b < self.atom_count() && (#[trigger] self.label_at(b)) is Some implies at_or_before(
                sset,
                self.label_at(b)->0.address,
                i,
                address.index as int,
            ) by {
                if b != a {
                    assert(self.label_at(b) == mid.label_at(b));
                }
            }
            assert(self.knows_label(sset, st.label@, i, address.index as int));
            assert forall|b: Atom| b < self.atom_count() implies match #[trigger] self.symbol_at(b) {
                Some(s) => match sset.statement_at(s.address) {
                    Some(st) => st.stype == (match s.stype {
                        SymbolType::Constant => StatementType::Constant,
                        SymbolType::Variable => StatementType::Variable,
                    }) && exists|t: int| 0 <= t < st.math@.len() && st.math@[t]@ == self.name_of(b),
                    None => false,
                },
                None => true,
            } by {
                assert(self.symbol_at(b) == mid.symbol_at(b));
                assert(self.name_of(b) == mid.name_of(b));
            }
            assert forall|b: Atom| b < self.atom_count() implies match #[trigger] self.label_at(b) {
                Some(l) => match sset.statement_at(l.address) {
                    Some(st) => st.label@ == self.name_of(b) && st.label@.len() > 0,
                    None => false,
                },
                None => true,
            } by {
                if b != a {
                    assert(self.label_at(b) == mid.label_at(b));
                }
                assert(self.name_of(b) == mid.name_of(b));
            }
            assert forall|b: Atom| b < self.atom_count() implies match #[trigger] self.float_at(b) {
                Some(f) => match sset.statement_at(f.address) {
                    Some(st) => {
                        &&& st.stype == StatementType::Floating
                        &&& st.math@.len() == 2
                        &&& st.math@[1]@ == self.name_of(b)
                        &&& f.typecode_atom < self.atom_count()
                        &&& st.math@[0]@ == self.name_of(f.typecode_atom)
                        &&& f.atom < self.atom_count()
                        &&& st.label@ == self.name_of(f.atom)
                        &&& self.label_at(f.atom) == Some(
                            LookupLabel { atom: f.atom, address: f.address },
                        )
                    },
                    None => false,
                },
                None => true,
            } by {
                assert(self.float_at(b) == mid.float_at(b));
                assert(self.name_of(b) == mid.name_of(b));
                if mid.float_at(b) is Some {
                    let f = mid.float_at(b)->0;
                    assert(self.name_of(f.atom) == mid.name_of(f.atom));
                    assert(self.name_of(f.typecode_atom) == mid.name_of(f.typecode_atom));
                    assert(mid.label_at(f.atom) is Some);
                    assert(f.atom != a);
                    assert(self.label_at(f.atom) == mid.label_at(f.atom));
                }
            }
        }
        let ghost labelled = *self;
        if st.stype == StatementType::Floating && st.math.len() == 2 {
            self.add_float(a, address, st, Ghost(sset), Ghost(i));
            proof {
                self.lemma_grows_knows(&labelled, sset);
                self.lemma_grows_steps(&labelled, old(self));
            }
        }
    }

    /// Records the floating hypothesis `st`, whose label has atom `label`.
    fn add_float(
        &mut self,
        label: Atom,
        address: StatementAddress,
        st: &crate::parser::Statement,
        Ghost(sset): Ghost<&SegmentSet>,
        Ghost(i): Ghost<int>,
    )
        requires
            old(self).wf(),
            old(self).names_in(sset),
            old(self).known_before(sset, i, address.index as int),
            sset.statement_at(address) == Some(*st),
            st.stype == StatementType::Floating,
            st.math@.len() == 2,
            label < old(self).atom_count(),
            old(self).name_of(label) == st.label@,
            old(self).label_at(label) == Some(LookupLabel { atom: label, address }),
        ensures
            final(self).wf(),
            final(self).keeps_atoms(old(self)),
            final(self).names_in(sset),
            final(self).grows(old(self)),
            final(self).known_before(sset, i, address.index as int),
            final(self)@ == with_float(old(self)@, words(&st.math), address, label),
    {
        let typecode = match self.intern(st.math[0].as_slice()) {
            Some(a) => a,
            None => {
                proof {
                    self.lemma_keeps(old(self), sset);
                    self.lemma_grows_steps(old(self), old(self));
                    self.lemma_known_before(old(self), sset, i, address.index as int);
                }
                return ;
            },
        };
        proof {
            self.lemma_keeps(old(self), sset);
            self.lemma_grows_steps(old(self), old(self));
            self.lemma_known_before(old(self), sset, i, address.index as int);
        }
        let ghost first = *self;
        let variable = match self.intern(st.math[1].as_slice()) {
            Some(a) => a,
            None => {
                proof {
                    self.lemma_keeps(&first, sset);
                    self.lemma_grows_steps(&first, &first);
                    self.lemma_grows_steps(&first, old(self));
                    self.lemma_known_before(&first, sset, i, address.index as int);
                }
                return ;
            },
        };
        proof {
            self.lemma_keeps(&first, sset);
            self.lemma_grows_steps(&first, &first);
            self.lemma_grows_steps(&first, old(self));
            self.lemma_known_before(&first, sset, i, address.index as int);
        }
        let ghost mid = *self;
        match self.symbols[variable as usize] {
            Some(s) => {
                if s.stype == SymbolType::Variable {
                    match self.floats[variable as usize] {
                        // The variable keeps its first floating hypothesis.
                        // Whether a second one is in order depends on what
                        // is in force where it stands.
                        Some(_) => {},
                        None => {
                            self.floats[variable as usize] = Some(
                                LookupFloat { atom: label, address, typecode_atom: typecode },
                            );
                            proof {
                                self.lemma_known_same(&mid, sset, i, address.index as int);
                                self.lemma_grows_steps(&mid, old(self));
                                assert forall|b: Atom|
                                    b < self.atom_count() implies match #[trigger] self.symbol_at(b) {
                                    Some(s) => match sset.statement_at(s.address) {
                                        Some(st) => st.stype == (match s.stype {
                                            SymbolType::Constant => StatementType::Constant,
                                            SymbolType::Variable => StatementType::Variable,
                                        }) && exists|t: int|
                                            0 <= t < st.math@.len() && st.math@[t]@ == self.name_of(
                                                b,
                                            ),
                                        None => false,
                                    },
                                    None => true,
                                } by {
                                    assert(self.symbol_at(b) == mid.symbol_at(b));
                                    assert(self.name_of(b) == mid.name_of(b));
                                }
                                assert forall|b: Atom|
                                    b < self.atom_count() implies match #[trigger] self.label_at(b) {
                                    Some(l) => match sset.statement_at(l.address) {
                                        Some(st) => st.label@ == self.name_of(b) && st.label@.len()
                                            > 0,
                                        None => false,
                                    },
                                    None => true,
                                } by {
                                    assert(self.label_at(b) == mid.label_at(b));
                                    assert(self.name_of(b) == mid.name_of(b));
                                }
                                assert forall|b: Atom|
                                    b < self.atom_count() implies match #[trigger] self.float_at(b) {
                                    Some(f) => match sset.statement_at(f.address) {
                                        Some(st) => {
                                            &&& st.stype == StatementType::Floating
                                            &&& st.math@.len() == 2
                                            &&& st.math@[1]@ == self.name_of(b)
                                            &&& f.typecode_atom < self.atom_count()
                                            &&& st.math@[0]@ == self.name_of(f.typecode_atom)
                                            &&& f.atom < self.atom_count()
                                            &&& st.label@ == self.name_of(f.atom)
                                            &&& self.label_at(f.atom) == Some(
                                                LookupLabel { atom: f.atom, address: f.address },
                                            )
                                        },
                                        None => false,
                                    },
                                    None => true,
                                } by {
                                    assert(self.name_of(b) == mid.name_of(b));
                                    if b == variable {
                                        assert(self.name_of(label) == old(self).name_of(label));
                                        assert(self.label_at(label) == old(self).label_at(label));
                                    } else {
                                        assert(self.float_at(b) == mid.float_at(b));
                                        if mid.float_at(b) is Some {
                                            let f = mid.float_at(b)->0;
                                            assert(self.name_of(f.atom) == mid.name_of(f.atom));
                                            assert(self.name_of(f.typecode_atom) == mid.name_of(
                                                f.typecode_atom,
                                            ));
                                            assert(self.label_at(f.atom) == mid.label_at(f.atom));
                                        }
                                    }
                                }
                            }
                        },
                    }
                }
            },
            None => {},
        }
    }

    /// Brings the name set up to date with `sset`. The atoms that were
    /// interned keep their names; everything else is found anew: a symbol
    /// or a label belongs to the first statement that declares it, and
    /// each later declaration earns a diagnostic; a variable belongs to its
    /// first floating hypothesis. As long as there are atoms left,
    /// every symbol and every label that a statement declares is known.
    pub fn update(&mut self, sset: &SegmentSet)
        requires
            old(self).wf(),
            sset.wf(),
        ensures
            final(self).wf(),
            final(self).keeps_atoms(old(self)),
            final(self).names_in(sset),
            final(self).atom_count() < u32::MAX ==> final(self).declared_upto(
                sset,
                sset.entries().len() as int,
                0,
            ),
            final(self)@ == names_of(old(self)@.names, sset),
    {
        // Forget what the atoms named.
        let count = self.names.len();
        self.symbols = Vec::new();
        self.labels = Vec::new();
        self.floats = Vec::new();
        self.diagnostics = Vec::new();
        let mut n: usize = 0;
        while n < count
            invariant
                0 <= n <= count == self.names@.len(),
                self.names == old(self).names,
                self.index == old(self).index,
                self.diagnostics@.len() == 0,
                self.symbols@.len() == n,
                self.labels@.len() == n,
                self.floats@.len() == n,
                forall|a: int| 0 <= a < n ==> self.symbols@[a] is None,
                forall|a: int| 0 <= a < n ==> self.labels@[a] is None,
                forall|a: int| 0 <= a < n ==> self.floats@[a] is None,
            decreases count - n,
        {
            self.symbols.push(None);
            self.labels.push(None);
            self.floats.push(None);
            n += 1;
        }
        assert(self.wf());
        assert(self.names_in(sset));
        assert(self.known_before(sset, 0, 0));
        let ghost seed = forgotten(old(self)@.names);
        proof {
            assert(self@.names =~= seed.names);
            assert(self@.symbols =~= seed.symbols);
            assert(self@.labels =~= seed.labels);
            assert(self@.floats =~= seed.floats);
            assert(self@.diagnostics =~= seed.diagnostics);
            assert(self@ == seed);
        }
        let segments = sset.segments();
        let mut i: usize = 0;
        while i < segments.len()
            invariant
                0 <= i <= segments@.len(),
                segments@ == sset.entries(),
                sset.wf(),
                self.wf(),
                self.keeps_atoms(old(self)),
                self.names_in(sset),
                self.known_before(sset, i as int, 0),
                self.atom_count() < u32::MAX ==> self.declared_upto(sset, i as int, 0),
                seed == forgotten(old(self)@.names),
                self@ == with_segments(seed, sset, i as int),
            decreases segments@.len() - i,
        {
            let entry = &segments[i];
            let mut k: usize = 0;
            while k < entry.segment.statements.len()
                invariant
                    0 <= i < segments@.len(),
                    segments@ == sset.entries(),
                    *entry == segments@[i as int],
                    0 <= k <= entry.segment.statements@.len(),
                    sset.wf(),
                    self.wf(),
                    self.keeps_atoms(old(self)),
                    self.names_in(sset),
                    self.known_before(sset, i as int, k as int),
                    self.atom_count() < u32::MAX ==> self.declared_upto(sset, i as int, k as int),
                    self@ == with_statements(
                        with_segments(seed, sset, i as int),
                        sset,
                        i as int,
                        k as int,
                    ),
                decreases entry.segment.statements@.len() - k,
            {
                let st = &entry.segment.statements[k];
                let address = StatementAddress { segment_id: entry.id, index: k };
                let ghost start = *self;
                proof {
                    sset.lemma_statement_at(i as int, k);
                }
                match st.stype {
                    StatementType::Constant | StatementType::Variable => {
                        let stype = if st.stype == StatementType::Constant {
                            SymbolType::Constant
                        } else {
                            SymbolType::Variable
                        };
                        let mut t: usize = 0;
                        while t < st.math.len()
                            invariant
                                0 <= i < segments@.len(),
                                segments@ == sset.entries(),
                                *entry == segments@[i as int],
                                k < entry.segment.statements@.len(),
                                *st == entry.segment.statements@[k as int],
                                address == (StatementAddress { segment_id: entry.id, index: k }),
                                0 <= t <= st.math@.len(),
                                sset.statement_at(address) == Some(*st),
                                st.stype == (match stype {
                                    SymbolType::Constant => StatementType::Constant,
                                    SymbolType::Variable => StatementType::Variable,
                                }),
                                self.wf(),
                                self.keeps_atoms(old(self)),
                                self.names_in(sset),
                                self.grows(&start),
                                self.known_before(sset, i as int, k as int),
                                self@ == with_symbols(
                                    start@,
                                    words(&st.math),
                                    stype,
                                    address,
                                    t as int,
                                ),
                                self.atom_count() < u32::MAX ==> forall|u: int|
                                    0 <= u < t ==> self.knows_symbol(
                                        sset,
                                        #[trigger] st.math@[u]@,
                                        i as int,
                                        k as int,
                                    ),
                            decreases st.math@.len() - t,
                        {
                            let ghost before = *self;
                            self.add_symbol(
                                st.math[t].as_slice(),
                                stype,
                                address,
                                t,
                                Ghost(sset),
                                Ghost(i as int),
                            );
                            proof {
                                self.lemma_grows_knows(&before, sset);
                                self.lemma_grows_steps(&before, &start);
                                self.lemma_grows(&before);
                                if self.atom_count() < u32::MAX {
                                    assert forall|u: int| 0 <= u < t + 1 implies self.knows_symbol(
                                        sset,
                                        #[trigger] st.math@[u]@,
                                        i as int,
                                        k as int,
                                    ) by {
                                        if u < t {
                                            assert(before.knows_symbol(
                                                sset,
                                                st.math@[u]@,
                                                i as int,
                                                k as int,
                                            ));
                                        }
                                    }
                                }
                            }
                            t += 1;
                        }
                    },
                    StatementType::Floating
                    | StatementType::Essential
                    | StatementType::Axiom
                    | StatementType::Provable => {
                        if st.label.len() > 0 {
                            self.add_label(st, address, Ghost(sset), Ghost(i as int));
                        } else {
                            proof {
                                self.lemma_grows_steps(&start, &start);
                            }
                        }
                    },
                    _ => {
                        proof {
                            self.lemma_grows_steps(&start, &start);
                        }
                    },
                }
                proof {
                    assert(self@ == with_statement(start@, st, address));
                    // What this statement declares is known, and what was
                    // known before still is.
                    assert(self.grows(&start));
                    self.lemma_grows_knows(&start, sset);
                    self.lemma_grows(&start);
                    assert forall|a: Atom|
                        a < self.atom_count() && (#[trigger] self.symbol_at(a)) is Some implies at_or_before(
                        sset,
                        self.symbol_at(a)->0.address,
                        i as int,
                        k + 1,
                    ) by {
                        lemma_at_or_before(
                            sset,
                            self.symbol_at(a)->0.address,
                            i as int,
                            k as int,
                            i as int,
                            k + 1,
                        );
                    }
                    assert forall|a: Atom|
                        a < self.atom_count() && (#[trigger] self.label_at(a)) is Some implies at_or_before(
                        sset,
                        self.label_at(a)->0.address,
                        i as int,
                        k + 1,
                    ) by {
                        lemma_at_or_before(
                            sset,
                            self.label_at(a)->0.address,
                            i as int,
                            k as int,
                            i as int,
                            k + 1,
                        );
                    }
                    if self.atom_count() < u32::MAX {
                        assert(start.declared_upto(sset, i as int, k as int));
                        assert(self.declared(sset, i as int, k as int));
                        assert forall|i2: int, k2: int|
                            #![trigger sset.entries()[i2].segment.statements@[k2]]
                            0 <= i2 < sset.entries().len() && 0 <= k2
                                < sset.entries()[i2].segment.statements@.len() && (i2 < i || (i2
                                == i && k2 < k + 1)) implies self.declared(sset, i2, k2) by {
                            if i2 == i && k2 == k {
                            } else {
                                assert(start.declared(sset, i2, k2));
                            }
                        }
                    }
                }
                k += 1;
            }
            proof {
                assert forall|a: Atom|
                    a < self.atom_count() && (#[trigger] self.symbol_at(a)) is Some implies at_or_before(
                    sset,
                    self.symbol_at(a)->0.address,
                    i + 1,
                    0,
                ) by {
                    lemma_at_or_before(
                        sset,
                        self.symbol_at(a)->0.address,
                        i as int,
                        k as int,
                        i + 1,
                        0,
                    );
                }
                assert forall|a: Atom|
                    a < self.atom_count() && (#[trigger] self.label_at(a)) is Some implies at_or_before(
                    sset,
                    self.label_at(a)->0.address,
                    i + 1,
                    0,
                ) by {
                    lemma_at_or_before(
                        sset,
                        self.label_at(a)->0.address,
                        i as int,
                        k as int,
                        i + 1,
                        0,
                    );
                }
            }
            i += 1;
        }
    }
}

} // verus!
