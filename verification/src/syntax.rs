//! The surface syntax of labels: for each label the math symbols of its
//! statement behind the typecode, which is what a formula node with that
//! label stands for when the formula is written out.

use crate::formula::Label;
use crate::formula::Symbol;
use crate::nameck::Nameset;
use crate::nameck::SymbolType;
use crate::parser::Token;
use crate::segment_set::SegmentSet;
use vstd::prelude::*;

verus! {

/// One symbol of a math string.
#[derive(Clone, Copy, Debug, PartialEq, Eq, Structural)]
pub struct MathSymbol {
    /// The atom of the symbol.
    pub atom: Symbol,
    /// Whether the symbol is a variable.
    pub is_variable: bool,
}

/// For each label that has one, its syntax.
pub type Syntax = Map<Label, Seq<MathSymbol>>;

/// The symbols of `math` from position `from` on, if the name set knows all
/// of them.
pub open spec fn resolve(nset: &Nameset, math: &Vec<Token>, from: int) -> Option<Seq<MathSymbol>> {
    if forall|i: int| from <= i < math@.len() ==> nset.symbol(#[trigger] math@[i]@) is Some {
        Some(
            Seq::new(
                if math@.len() >= from {
                    (math@.len() - from) as nat
                } else {
                    0
                },
                |i: int|
                    MathSymbol {
                        atom: nset.symbol(math@[from + i]@)->0.atom,
                        is_variable: nset.symbol(math@[from + i]@)->0.stype == SymbolType::Variable,
                    },
            ),
        )
    } else {
        None
    }
}

/// The syntax of `label`: the symbols of its statement behind the typecode.
/// `None` where no statement carries the label, or one of its symbols is not
/// declared.
pub open spec fn syntax_at(sset: &SegmentSet, nset: &Nameset, label: Label) -> Option<
    Seq<MathSymbol>,
> {
    if label < nset.atom_count() {
        match nset.label_at(label) {
            Some(l) => match sset.statement_at(l.address) {
                Some(st) => resolve(nset, &st.math, 1),
                None => None,
            },
            None => None,
        }
    } else {
        None
    }
}

/// The syntax of every label of the database.
pub open spec fn syntax_of(sset: &SegmentSet, nset: &Nameset) -> Syntax {
    Map::new(
        |l: Label| syntax_at(sset, nset, l) is Some,
        |l: Label| syntax_at(sset, nset, l)->0,
    )
}

/// Resolves the symbols of `math` from position `from` on.
pub fn resolve_symbols(nset: &Nameset, math: &Vec<Token>, from: usize) -> (r: Option<
    Vec<MathSymbol>,
>)
    requires
        nset.wf(),
    ensures
        match r {
            Some(v) => resolve(nset, math, from as int) == Some(v@),
            None => resolve(nset, math, from as int) is None,
        },
{
    let mut v: Vec<MathSymbol> = Vec::new();
    let mut i: usize = from;
    while i < math.len()
        invariant
            nset.wf(),
            from <= i,
            i <= math@.len() || from >= math@.len(),
            v@.len() == if i <= math@.len() {
                i - from
            } else {
                0
            },
            forall|k: int| from <= k < i && k < math@.len() ==> nset.symbol(#[trigger] math@[k]@) is Some,
            forall|k: int|
                0 <= k < v@.len() ==> #[trigger] v@[k] == (MathSymbol {
                    atom: nset.symbol(math@[from + k]@)->0.atom,
                    is_variable: nset.symbol(math@[from + k]@)->0.stype == SymbolType::Variable,
                }),
        decreases math@.len() - i,
    {
        match nset.lookup_symbol(math[i].as_slice()) {
            Some(s) => {
                v.push(MathSymbol { atom: s.atom, is_variable: s.stype == SymbolType::Variable });
            },
            None => {
                return None;
            },
        }
        i += 1;
    }
    proof {
        let want = resolve(nset, math, from as int);
        assert(want is Some);
        assert(v@ =~= want->0);
    }
    Some(v)
}

/// The syntax of `label`.
pub fn statement_syntax(sset: &SegmentSet, nset: &Nameset, label: Label) -> (r: Option<
    Vec<MathSymbol>,
>)
    requires
        sset.wf(),
        nset.wf(),
    ensures
        match r {
            Some(v) => syntax_at(sset, nset, label) == Some(v@),
            None => syntax_at(sset, nset, label) is None,
        },
{
    match nset.label_by_atom(label) {
        Some(l) => match sset.statement(l.address) {
            Some(sref) => resolve_symbols(nset, &sref.statement.math, 1),
            None => None,
        },
        None => None,
    }
}

} // verus!
