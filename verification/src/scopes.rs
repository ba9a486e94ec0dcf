//! What is in force where: how each statement changes the variables, the
//! hypotheses and the distinct-variable conditions that are in force, and
//! which frame an assertion has.

use crate::diag::Diagnostic;
use crate::nameck::Atom;
use crate::nameck::Nameset;
use crate::nameck::SymbolType;
use crate::parser::Statement;
use crate::parser::StatementAddress;
use crate::parser::StatementType;
use crate::parser::Token;
use crate::scopeck::Frame;
use crate::scopeck::Hyp;
use crate::segment_set::SegmentSet;
use vstd::prelude::*;

verus! {

/// A hypothesis, with its math string as a sequence.
pub ghost struct HypView {
    pub label: Atom,
    pub is_float: bool,
    pub expr: Seq<Atom>,
    pub address: StatementAddress,
}

/// A frame, with its parts as sequences.
pub ghost struct FrameView {
    pub address: StatementAddress,
    pub label: Atom,
    pub provable: bool,
    pub expr: Seq<Atom>,
    pub hyps: Seq<HypView>,
    pub dv: Seq<(Atom, Atom)>,
    pub scope_hyps: Seq<HypView>,
    pub scope_dv: Seq<(Atom, Atom)>,
}

/// What is in force at a point of the source: the variables, the
/// hypotheses and the pairs of distinct variables, each in the order of the
/// source, and for each open group how many of each there were when it was
/// opened.
pub ghost struct ScopeView {
    pub variables: Seq<Atom>,
    pub hyps: Seq<HypView>,
    pub dv: Seq<(Atom, Atom)>,
    pub marks: Seq<(usize, usize, usize)>,
}

/// The frames and the diagnostics of a database.
pub ghost struct ScopesView {
    pub frames: Seq<FrameView>,
    pub diagnostics: Seq<(StatementAddress, Diagnostic)>,
}

/// The view of a hypothesis.
pub open spec fn hyp_view(h: &Hyp) -> HypView {
    HypView { label: h.label, is_float: h.is_float, expr: h.expr@, address: h.address }
}

/// The views of hypotheses.
pub open spec fn hyp_views(hyps: Seq<Hyp>) -> Seq<HypView> {
    Seq::new(hyps.len(), |i: int| hyp_view(&hyps[i]))
}

/// The view of a frame.
pub open spec fn frame_view(f: &Frame) -> FrameView {
    FrameView {
        address: f.address,
        label: f.label,
        provable: f.provable,
        expr: f.expr@,
        hyps: hyp_views(f.hyps@),
        dv: f.dv@,
        scope_hyps: hyp_views(f.scope_hyps@),
        scope_dv: f.scope_dv@,
    }
}

/// The views of frames.
pub open spec fn frame_views(frames: Seq<Frame>) -> Seq<FrameView> {
    Seq::new(frames.len(), |i: int| frame_view(&frames[i]))
}

/// Whether the atom names a variable.
pub open spec fn names_variable(nset: &Nameset, atom: Atom) -> bool {
    atom < nset.atom_count() && nset.symbol_at(atom) is Some && nset.symbol_at(atom)->0.stype
        == SymbolType::Variable
}

/// The place of the first floating hypothesis from `i` on that is for the
/// variable.
pub open spec fn first_float(hyps: Seq<HypView>, variable: Atom, i: int) -> Option<int>
    decreases hyps.len() - i,
{
    if i < 0 || i >= hyps.len() {
        None
    } else if hyps[i].is_float && hyps[i].expr.len() == 2 && hyps[i].expr[1] == variable {
        Some(i)
    } else {
        first_float(hyps, variable, i + 1)
    }
}

/// The first `n` of the elements, or all if there are fewer.
pub open spec fn first_n<A>(s: Seq<A>, n: usize) -> Seq<A> {
    if n < s.len() {
        s.subrange(0, n as int)
    } else {
        s
    }
}

/// What is in force once a group has been opened.
pub open spec fn opened(s: ScopeView) -> ScopeView {
    ScopeView {
        marks: s.marks.push((s.variables.len() as usize, s.hyps.len() as usize, s.dv.len() as usize)),
        ..s
    }
}

/// What is in force once the innermost group has been closed: what it
/// brought is in force no longer. Without an open group nothing changes.
pub open spec fn closed_group(s: ScopeView) -> ScopeView {
    if s.marks.len() == 0 {
        s
    } else {
        let mark = s.marks.last();
        ScopeView {
            variables: first_n(s.variables, mark.0),
            hyps: first_n(s.hyps, mark.1),
            dv: first_n(s.dv, mark.2),
            marks: s.marks.drop_last(),
        }
    }
}

/// What is in force once every open group has been closed.
pub open spec fn closed_all(s: ScopeView) -> ScopeView
    decreases s.marks.len(),
{
    if s.marks.len() == 0 {
        s
    } else {
        closed_all(closed_group(s))
    }
}

/// The math string of a statement as atoms, from symbol `i` on, behind the
/// atoms `read`; or the diagnostic that the first symbol earns that is not
/// in order: every symbol has to be declared, the first has to be a
/// constant, a variable has to be in force and, where `typed` asks for it,
/// to have a floating hypothesis in force.
pub open spec fn atoms_from(
    nset: &Nameset,
    scope: ScopeView,
    math: &Vec<Token>,
    typed: bool,
    i: int,
    read: Seq<Atom>,
) -> Result<Seq<Atom>, Diagnostic>
    decreases math@.len() - i,
{
    if i < 0 || i >= math@.len() {
        Ok(read)
    } else {
        match nset.symbol(math@[i]@) {
            None => Err(Diagnostic::UndeclaredSymbol(i as usize)),
            Some(s) => if s.stype == SymbolType::Variable && i == 0 {
                Err(Diagnostic::TypecodeNotConstant)
            } else if s.stype == SymbolType::Variable && !scope.variables.contains(s.atom) {
                Err(Diagnostic::UndeclaredSymbol(i as usize))
            } else if s.stype == SymbolType::Variable && typed && first_float(
                scope.hyps,
                s.atom,
                0,
            ) is None {
                Err(Diagnostic::VariableMissingFloat(i as usize))
            } else {
                atoms_from(nset, scope, math, typed, i + 1, read.push(s.atom))
            },
        }
    }
}

/// The math string of a statement as atoms, or the diagnostic that it
/// earns.
pub open spec fn math_atoms_of(nset: &Nameset, scope: ScopeView, st: &Statement, typed: bool) -> Result<
    Seq<Atom>,
    Diagnostic,
> {
    if st.math@.len() == 0 {
        Err(Diagnostic::EmptyMathString)
    } else {
        atoms_from(nset, scope, &st.math, typed, 0, Seq::empty())
    }
}

/// The variables `used` and behind them the variables of `expr` from symbol
/// `i` on that are not among them, each once.
pub open spec fn with_variables(nset: &Nameset, expr: Seq<Atom>, i: int, used: Seq<Atom>) -> Seq<Atom>
    decreases expr.len() - i,
{
    if i < 1 || i >= expr.len() {
        used
    } else if names_variable(nset, expr[i]) && !used.contains(expr[i]) {
        with_variables(nset, expr, i + 1, used.push(expr[i]))
    } else {
        with_variables(nset, expr, i + 1, used)
    }
}

/// The variables `used` and behind them those of the essential hypotheses
/// from hypothesis `i` on.
pub open spec fn with_essential_variables(
    nset: &Nameset,
    hyps: Seq<HypView>,
    i: int,
    used: Seq<Atom>,
) -> Seq<Atom>
    decreases hyps.len() - i,
{
    if i < 0 || i >= hyps.len() {
        used
    } else if !hyps[i].is_float {
        with_essential_variables(nset, hyps, i + 1, with_variables(nset, hyps[i].expr, 1, used))
    } else {
        with_essential_variables(nset, hyps, i + 1, used)
    }
}

/// Whether a hypothesis is mandatory for an assertion with the variables
/// `used`: every essential hypothesis is, and a floating hypothesis if its
/// variable is among them.
pub open spec fn mandatory(h: HypView, used: Seq<Atom>) -> bool {
    if h.is_float {
        h.expr.len() == 2 && used.contains(h.expr[1])
    } else {
        true
    }
}

/// The mandatory hypotheses among the first `i`.
pub open spec fn mandatory_hyps(hyps: Seq<HypView>, used: Seq<Atom>, i: int) -> Seq<HypView>
    decreases i,
{
    if i <= 0 || i > hyps.len() {
        Seq::empty()
    } else if mandatory(hyps[i - 1], used) {
        mandatory_hyps(hyps, used, i - 1).push(hyps[i - 1])
    } else {
        mandatory_hyps(hyps, used, i - 1)
    }
}

/// The pairs among the first `i` of which both variables are among `used`.
pub open spec fn mandatory_dv(dv: Seq<(Atom, Atom)>, used: Seq<Atom>, i: int) -> Seq<(Atom, Atom)>
    decreases i,
{
    if i <= 0 || i > dv.len() {
        Seq::empty()
    } else if used.contains(dv[i - 1].0) && used.contains(dv[i - 1].1) {
        mandatory_dv(dv, used, i - 1).push(dv[i - 1])
    } else {
        mandatory_dv(dv, used, i - 1)
    }
}

/// The variables of an assertion with the math string `expr`: its own and
/// those of the essential hypotheses in force.
pub open spec fn used_variables(nset: &Nameset, scope: ScopeView, expr: Seq<Atom>) -> Seq<Atom> {
    with_essential_variables(nset, scope.hyps, 0, with_variables(nset, expr, 1, Seq::empty()))
}

/// The frame of an assertion: its mandatory hypotheses are the essential
/// hypotheses in force and the floating hypotheses in force of its
/// variables, in the order of the source; its distinct-variable conditions
/// are those in force between its variables. The frame of a `$p` holds all
/// that is in force besides.
pub open spec fn frame_of(
    nset: &Nameset,
    scope: ScopeView,
    provable: bool,
    address: StatementAddress,
    label: Atom,
    expr: Seq<Atom>,
) -> FrameView {
    let used = used_variables(nset, scope, expr);
    FrameView {
        address,
        label,
        provable,
        expr,
        hyps: mandatory_hyps(scope.hyps, used, scope.hyps.len() as int),
        dv: mandatory_dv(scope.dv, used, scope.dv.len() as int),
        scope_hyps: if provable {
            scope.hyps
        } else {
            Seq::empty()
        },
        scope_dv: if provable {
            scope.dv
        } else {
            Seq::empty()
        },
    }
}

/// The variables in force once the first `i` symbols of a `$v` have been
/// read.
pub open spec fn with_declared(nset: &Nameset, variables: Seq<Atom>, math: &Vec<Token>, i: int) -> Seq<
    Atom,
>
    decreases i,
{
    if i <= 0 || i > math@.len() {
        variables
    } else {
        let before = with_declared(nset, variables, math, i - 1);
        match nset.symbol(math@[i - 1]@) {
            Some(s) => if s.stype == SymbolType::Variable && !before.contains(s.atom) {
                before.push(s.atom)
            } else {
                before
            },
            None => before,
        }
    }
}

/// Whether symbol `i` of a `$d` is a variable in force.
pub open spec fn disjoint_ok(nset: &Nameset, scope: ScopeView, math: &Vec<Token>, i: int) -> bool {
    nset.symbol(math@[i]@) matches Some(s) && s.stype == SymbolType::Variable
        && scope.variables.contains(s.atom)
}

/// The variables among the first `i` symbols of a `$d`.
pub open spec fn disjoint_atoms(nset: &Nameset, scope: ScopeView, math: &Vec<Token>, i: int) -> Seq<Atom>
    decreases i,
{
    if i <= 0 || i > math@.len() {
        Seq::empty()
    } else if disjoint_ok(nset, scope, math, i - 1) {
        disjoint_atoms(nset, scope, math, i - 1).push(nset.symbol(math@[i - 1]@)->0.atom)
    } else {
        disjoint_atoms(nset, scope, math, i - 1)
    }
}

/// The diagnostics of the first `i` symbols of a `$d`: one for each that is
/// no variable in force.
pub open spec fn disjoint_problems(
    nset: &Nameset,
    scope: ScopeView,
    math: &Vec<Token>,
    address: StatementAddress,
    i: int,
) -> Seq<(StatementAddress, Diagnostic)>
    decreases i,
{
    if i <= 0 || i > math@.len() {
        Seq::empty()
    } else if disjoint_ok(nset, scope, math, i - 1) {
        disjoint_problems(nset, scope, math, address, i - 1)
    } else {
        disjoint_problems(nset, scope, math, address, i - 1).push(
            (address, Diagnostic::UndeclaredSymbol((i - 1) as usize)),
        )
    }
}

/// The pairs of `atoms[a]` with the atoms behind it, up to atom `b`.
pub open spec fn pairs_with(atoms: Seq<Atom>, a: int, b: int) -> Seq<(Atom, Atom)>
    decreases b,
{
    if b <= a + 1 || b > atoms.len() || a < 0 {
        Seq::empty()
    } else {
        pairs_with(atoms, a, b - 1).push((atoms[a], atoms[b - 1]))
    }
}

/// The pairs of the first `a` atoms, each with the atoms behind it.
pub open spec fn pairs(atoms: Seq<Atom>, a: int) -> Seq<(Atom, Atom)>
    decreases a,
{
    if a <= 0 || a > atoms.len() {
        Seq::empty()
    } else {
        pairs(atoms, a - 1) + pairs_with(atoms, a - 1, atoms.len() as int)
    }
}

/// What the frames and what is in force are once a statement has been
/// read.
pub ghost struct Scoped {
    pub result: ScopesView,
    pub scope: ScopeView,
}

/// The frames with a diagnostic more.
pub open spec fn noted(r: ScopesView, address: StatementAddress, d: Diagnostic) -> ScopesView {
    ScopesView { frames: r.frames, diagnostics: r.diagnostics.push((address, d)) }
}

/// What a statement makes of the frames `r` and of what is in force, `s`.
///
/// `${` and `$}` open and close a group. A `$v` brings its variables into
/// force, a `$d` the pairs of its variables. A `$f` or an `$e` with which
/// nothing is wrong becomes a hypothesis in force; a variable can have one
/// floating hypothesis in force only. A `$a` or `$p` with which nothing is
/// wrong has a frame, if it is the first statement to carry its label.
pub open spec fn scoped(
    r: ScopesView,
    s: ScopeView,
    nset: &Nameset,
    st: &Statement,
    address: StatementAddress,
) -> Scoped {
    match st.stype {
        StatementType::OpenGroup => Scoped { result: r, scope: opened(s) },
        StatementType::CloseGroup => Scoped { result: r, scope: closed_group(s) },
        StatementType::Variable => Scoped {
            result: r,
            scope: ScopeView {
                variables: with_declared(nset, s.variables, &st.math, st.math@.len() as int),
                ..s
            },
        },
        StatementType::Disjoint => Scoped {
            result: ScopesView {
                frames: r.frames,
                diagnostics: r.diagnostics + disjoint_problems(
                    nset,
                    s,
                    &st.math,
                    address,
                    st.math@.len() as int,
                ),
            },
            scope: ScopeView {
                dv: s.dv + pairs(
                    disjoint_atoms(nset, s, &st.math, st.math@.len() as int),
                    disjoint_atoms(nset, s, &st.math, st.math@.len() as int).len() as int,
                ),
                ..s
            },
        },
        StatementType::Floating => scoped_float(r, s, nset, st, address),
        StatementType::Essential => match nset.label(st.label@) {
            None => Scoped { result: r, scope: s },
            Some(l) => match math_atoms_of(nset, s, st, true) {
                Ok(expr) => Scoped {
                    result: r,
                    scope: ScopeView {
                        hyps: s.hyps.push(
                            HypView { label: l.atom, is_float: false, expr, address },
                        ),
                        ..s
                    },
                },
                Err(d) => Scoped { result: noted(r, address, d), scope: s },
            },
        },
        StatementType::Axiom | StatementType::Provable => match nset.label(st.label@) {
            None => Scoped { result: r, scope: s },
            Some(l) => match math_atoms_of(nset, s, st, true) {
                Ok(expr) => if l.address == address {
                    Scoped {
                        result: ScopesView {
                            frames: r.frames.push(
                                frame_of(
                                    nset,
                                    s,
                                    st.stype == StatementType::Provable,
                                    address,
                                    l.atom,
                                    expr,
                                ),
                            ),
                            diagnostics: r.diagnostics,
                        },
                        scope: s,
                    }
                } else {
                    Scoped { result: r, scope: s }
                },
                Err(d) => Scoped { result: noted(r, address, d), scope: s },
            },
        },
        _ => Scoped { result: r, scope: s },
    }
}

/// What a `$f` makes of the frames and of what is in force.
pub open spec fn scoped_float(
    r: ScopesView,
    s: ScopeView,
    nset: &Nameset,
    st: &Statement,
    address: StatementAddress,
) -> Scoped {
    if st.math@.len() != 2 {
        Scoped { result: noted(r, address, Diagnostic::BadFloating), scope: s }
    } else {
        match nset.label(st.label@) {
            None => Scoped { result: r, scope: s },
            Some(l) => match math_atoms_of(nset, s, st, false) {
                Ok(expr) => if !names_variable(nset, expr[1]) {
                    Scoped {
                        result: noted(r, address, Diagnostic::FloatNotVariable(1)),
                        scope: s,
                    }
                } else {
                    match first_float(s.hyps, expr[1], 0) {
                        Some(i) => Scoped {
                            result: noted(
                                r,
                                address,
                                Diagnostic::FloatRedeclared(s.hyps[i].address),
                            ),
                            scope: s,
                        },
                        None => Scoped {
                            result: r,
                            scope: ScopeView {
                                hyps: s.hyps.push(
                                    HypView { label: l.atom, is_float: true, expr, address },
                                ),
                                ..s
                            },
                        },
                    }
                },
                Err(d) => Scoped {
                    result: noted(
                        r,
                        address,
                        if d == Diagnostic::UndeclaredSymbol(1) {
                            Diagnostic::FloatNotVariable(1)
                        } else {
                            d
                        },
                    ),
                    scope: s,
                },
            },
        }
    }
}

/// What the first `k` statements of segment `i` make of the frames and of
/// what is in force.
pub open spec fn scoped_statements(
    g: Scoped,
    sset: &SegmentSet,
    nset: &Nameset,
    i: int,
    k: int,
) -> Scoped
    decreases k,
{
    if k <= 0 {
        g
    } else {
        let before = scoped_statements(g, sset, nset, i, k - 1);
        scoped(
            before.result,
            before.scope,
            nset,
            &sset.entries()[i].segment.statements@[k - 1],
            StatementAddress { segment_id: sset.entries()[i].id, index: (k - 1) as usize },
        )
    }
}

/// What the first `i` segments make of the frames and of what is in force:
/// the name set's diagnostics come first, and no group goes on from one
/// segment into the next.
pub open spec fn scoped_segments(sset: &SegmentSet, nset: &Nameset, i: int) -> Scoped
    decreases i,
{
    if i <= 0 {
        Scoped {
            result: ScopesView { frames: Seq::empty(), diagnostics: nset.found() },
            scope: ScopeView {
                variables: Seq::empty(),
                hyps: Seq::empty(),
                dv: Seq::empty(),
                marks: Seq::empty(),
            },
        }
    } else {
        let g = scoped_statements(
            scoped_segments(sset, nset, i - 1),
            sset,
            nset,
            i - 1,
            sset.entries()[i - 1].segment.statements@.len() as int,
        );
        Scoped { result: g.result, scope: closed_all(g.scope) }
    }
}

/// The place of the first frame from `i` on that has the label.
pub open spec fn first_frame(frames: Seq<FrameView>, label: Atom, i: int) -> Option<int>
    decreases frames.len() - i,
{
    if i < 0 || i >= frames.len() {
        None
    } else if frames[i].label == label {
        Some(i)
    } else {
        first_frame(frames, label, i + 1)
    }
}

} // verus!
