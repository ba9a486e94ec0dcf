//! What the names of a database are: how the statements, one after the
//! other, make the symbols, the labels and the floating hypotheses known.

use crate::diag::Diagnostic;
use crate::nameck::Atom;
use crate::nameck::LookupFloat;
use crate::nameck::LookupLabel;
use crate::nameck::LookupSymbol;
use crate::nameck::SymbolType;
use crate::parser::Statement;
use crate::parser::StatementAddress;
use crate::parser::StatementType;
use crate::segment_set::SegmentSet;
use crate::source::words;
use vstd::prelude::*;

verus! {

/// A name set as a value: the name of each atom, what each atom is known to
/// be as a symbol, as a label and as a variable with a floating hypothesis,
/// and the problems found.
pub ghost struct NamesView {
    pub names: Seq<Seq<u8>>,
    pub symbols: Seq<Option<LookupSymbol>>,
    pub labels: Seq<Option<LookupLabel>>,
    pub floats: Seq<Option<LookupFloat>>,
    pub diagnostics: Seq<(StatementAddress, Diagnostic)>,
}

/// The place of the first of the names from `i` on that is `name`.
pub open spec fn name_place(names: Seq<Seq<u8>>, name: Seq<u8>, i: int) -> Option<int>
    decreases names.len() - i,
{
    if i < 0 || i >= names.len() {
        None
    } else if names[i] == name {
        Some(i)
    } else {
        name_place(names, name, i + 1)
    }
}

/// The name set that has the names and knows nothing of them.
pub open spec fn forgotten(names: Seq<Seq<u8>>) -> NamesView {
    NamesView {
        names,
        symbols: Seq::new(names.len(), |a: int| None),
        labels: Seq::new(names.len(), |a: int| None),
        floats: Seq::new(names.len(), |a: int| None),
        diagnostics: Seq::empty(),
    }
}

/// The name set once `name` has been interned, and the atom of the name: a
/// name that has no atom yet gets the next one, as long as there is one.
pub open spec fn interned(v: NamesView, name: Seq<u8>) -> (NamesView, Option<Atom>) {
    match name_place(v.names, name, 0) {
        Some(a) => (v, Some(a as Atom)),
        None => if v.names.len() >= u32::MAX {
            (v, None)
        } else {
            (
                NamesView {
                    names: v.names.push(name),
                    symbols: v.symbols.push(None),
                    labels: v.labels.push(None),
                    floats: v.floats.push(None),
                    diagnostics: v.diagnostics,
                },
                Some(v.names.len() as Atom),
            )
        },
    }
}

/// The name set with one more problem.
pub open spec fn with_note(v: NamesView, address: StatementAddress, diagnostic: Diagnostic) -> NamesView {
    NamesView { diagnostics: v.diagnostics.push((address, diagnostic)), ..v }
}

/// The name set once the statement at `address` has declared the symbol
/// `name` as token `t` of its math string: the symbol belongs to the first
/// statement that declares it, and a later declaration is a problem.
pub open spec fn with_symbol(
    v: NamesView,
    name: Seq<u8>,
    stype: SymbolType,
    address: StatementAddress,
    t: usize,
) -> NamesView {
    let w = interned(v, name).0;
    match interned(v, name).1 {
        None => w,
        Some(a) => match w.symbols[a as int] {
            Some(previous) => with_note(w, address, Diagnostic::SymbolRedeclared(t, previous.address)),
            None => NamesView {
                symbols: w.symbols.update(a as int, Some(LookupSymbol { stype, atom: a, address })),
                ..w
            },
        },
    }
}

/// The name set once the statement at `address` has declared the first `t`
/// of the symbols `math`.
pub open spec fn with_symbols(
    v: NamesView,
    math: Seq<Seq<u8>>,
    stype: SymbolType,
    address: StatementAddress,
    t: int,
) -> NamesView
    decreases t,
{
    if t <= 0 {
        v
    } else {
        with_symbol(
            with_symbols(v, math, stype, address, t - 1),
            math[t - 1],
            stype,
            address,
            (t - 1) as usize,
        )
    }
}

/// The name set once the floating hypothesis at `address`, whose label has
/// the atom `label` and whose math string is the typecode `math[0]` and the
/// variable `math[1]`, has been recorded: a variable belongs to its first
/// floating hypothesis. Nothing is recorded for a symbol that is not known
/// as a variable.
pub open spec fn with_float(
    v: NamesView,
    math: Seq<Seq<u8>>,
    address: StatementAddress,
    label: Atom,
) -> NamesView {
    let first = interned(v, math[0]).0;
    match interned(v, math[0]).1 {
        None => first,
        Some(typecode) => {
            let w = interned(first, math[1]).0;
            match interned(first, math[1]).1 {
                None => w,
                Some(variable) => match w.symbols[variable as int] {
                    Some(s) => if s.stype == SymbolType::Variable {
                        match w.floats[variable as int] {
                            Some(_) => w,
                            None => NamesView {
                                floats: w.floats.update(
                                    variable as int,
                                    Some(
                                        LookupFloat { atom: label, address, typecode_atom: typecode },
                                    ),
                                ),
                                ..w
                            },
                        }
                    } else {
                        w
                    },
                    None => w,
                },
            }
        },
    }
}

/// The name set once the statement `st` at `address` has declared its
/// label: the label belongs to the first statement that carries it, and a
/// later statement with that label is a problem. A `$f` of a typecode and
/// a variable that gets its label is recorded as a floating hypothesis.
pub open spec fn with_label(v: NamesView, st: &Statement, address: StatementAddress) -> NamesView {
    let w = interned(v, st.label@).0;
    match interned(v, st.label@).1 {
        None => w,
        Some(a) => match w.labels[a as int] {
            Some(previous) => with_note(w, address, Diagnostic::DuplicateLabel(previous.address)),
            None => {
                let labelled = NamesView {
                    labels: w.labels.update(a as int, Some(LookupLabel { atom: a, address })),
                    ..w
                };
                if st.stype == StatementType::Floating && st.math@.len() == 2 {
                    with_float(labelled, words(&st.math), address, a)
                } else {
                    labelled
                }
            },
        },
    }
}

/// The name set once the statement `st` at `address` has been read: a `$c`
/// or `$v` declares its symbols, a `$f`, `$e`, `$a` or `$p` its label, if
/// it has one.
pub open spec fn with_statement(v: NamesView, st: &Statement, address: StatementAddress) -> NamesView {
    match st.stype {
        StatementType::Constant => with_symbols(
            v,
            words(&st.math),
            SymbolType::Constant,
            address,
            st.math@.len() as int,
        ),
        StatementType::Variable => with_symbols(
            v,
            words(&st.math),
            SymbolType::Variable,
            address,
            st.math@.len() as int,
        ),
        StatementType::Floating
        | StatementType::Essential
        | StatementType::Axiom
        | StatementType::Provable => if st.label@.len() > 0 {
            with_label(v, st, address)
        } else {
            v
        },
        _ => v,
    }
}

/// The name set once the first `k` statements of segment `i` have been
/// read.
pub open spec fn with_statements(v: NamesView, sset: &SegmentSet, i: int, k: int) -> NamesView
    decreases k,
{
    if k <= 0 {
        v
    } else {
        with_statement(
            with_statements(v, sset, i, k - 1),
            &sset.entries()[i].segment.statements@[k - 1],
            StatementAddress { segment_id: sset.entries()[i].id, index: (k - 1) as usize },
        )
    }
}

/// The name set once the first `n` segments have been read, starting from
/// `v`.
pub open spec fn with_segments(v: NamesView, sset: &SegmentSet, n: int) -> NamesView
    decreases n,
{
    if n <= 0 {
        v
    } else {
        with_statements(
            with_segments(v, sset, n - 1),
            sset,
            n - 1,
            sset.entries()[n - 1].segment.statements@.len() as int,
        )
    }
}

/// The names of the database `sset`, found by a name set that had interned
/// `names` before: the atoms keep their names, everything else is found
/// from the statements in their order.
pub open spec fn names_of(names: Seq<Seq<u8>>, sset: &SegmentSet) -> NamesView {
    with_segments(forgotten(names), sset, sset.entries().len() as int)
}

} // verus!
