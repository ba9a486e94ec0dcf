//! Scopes: which variables, hypotheses and distinct-variable conditions are
//! in force at each statement, and from that the frame of every assertion,
//! which is all that a proof needs to know of it.

use crate::diag::Diagnostic;
use crate::nameck::Atom;
use crate::nameck::Nameset;
use crate::nameck::SymbolType;
use crate::parser::Statement;
use crate::parser::StatementAddress;
use crate::parser::StatementType;
use crate::scopes::atoms_from;
use crate::scopes::closed_all;
use crate::scopes::closed_group;
use crate::scopes::disjoint_atoms;
use crate::scopes::disjoint_ok;
use crate::scopes::disjoint_problems;
use crate::scopes::first_float;
use crate::scopes::first_frame;
use crate::scopes::first_n;
use crate::scopes::frame_of;
use crate::scopes::frame_view;
use crate::scopes::frame_views;
use crate::scopes::hyp_view;
use crate::scopes::hyp_views;
use crate::scopes::mandatory;
use crate::scopes::mandatory_dv;
use crate::scopes::mandatory_hyps;
use crate::scopes::math_atoms_of;
use crate::scopes::names_variable;
use crate::scopes::noted;
use crate::scopes::opened;
use crate::scopes::pairs;
use crate::scopes::pairs_with;
use crate::scopes::scoped;
use crate::scopes::scoped_float;
use crate::scopes::scoped_segments;
use crate::scopes::scoped_statements;
use crate::scopes::with_declared;
use crate::scopes::with_essential_variables;
use crate::scopes::with_variables;
use crate::scopes::FrameView;
use crate::scopes::HypView;
use crate::scopes::ScopeView;
use crate::scopes::Scoped;
use crate::scopes::ScopesView;
use crate::segment_set::SegmentSet;
use vstd::prelude::*;

verus! {

/// A hypothesis: a `$f` or an `$e` with its math string as atoms.
pub struct Hyp {
    /// The atom of the label.
    pub label: Atom,
    /// Whether the hypothesis is a `$f`.
    pub is_float: bool,
    /// The math string, typecode first.
    pub expr: Vec<Atom>,
    /// The statement.
    pub address: StatementAddress,
}

/// The frame of an assertion: the statement with the hypotheses and the
/// distinct-variable conditions that go with it.
pub struct Frame {
    /// The assertion.
    pub address: StatementAddress,
    /// The atom of its label.
    pub label: Atom,
    /// Whether the assertion is a `$p`.
    pub provable: bool,
    /// Its math string, typecode first.
    pub expr: Vec<Atom>,
    /// Its mandatory hypotheses, in the order of the source.
    pub hyps: Vec<Hyp>,
    /// The pairs of its variables that must stay distinct.
    pub dv: Vec<(Atom, Atom)>,
    /// For a `$p`, every hypothesis in force, mandatory or not.
    pub scope_hyps: Vec<Hyp>,
    /// For a `$p`, every pair of variables that is known to be distinct.
    pub scope_dv: Vec<(Atom, Atom)>,
}

/// The frames of a database, in the order of the source.
pub struct ScopeResult {
    frames: Vec<Frame>,
    by_label: Vec<Option<usize>>,
    diagnostics: Vec<(StatementAddress, Diagnostic)>,
}

impl View for ScopeResult {
    type V = ScopesView;

    closed spec fn view(&self) -> ScopesView {
        ScopesView { frames: frame_views(self.frames@), diagnostics: self.diagnostics@ }
    }
}

/// Whether `atom` is among `atoms`.
pub fn contains_atom(atoms: &Vec<Atom>, atom: Atom) -> (r: bool)
    ensures
        r == atoms@.contains(atom),
{
    let mut i: usize = 0;
    while i < atoms.len()
        invariant
            0 <= i <= atoms@.len(),
            forall|k: int| 0 <= k < i ==> atoms@[k] != atom,
        decreases atoms@.len() - i,
    {
        if atoms[i] == atom {
            return true;
        }
        i += 1;
    }
    false
}

/// Whether the two math strings are the same.
pub fn same_atoms(a: &Vec<Atom>, b: &Vec<Atom>) -> (r: bool)
    ensures
        r == (a@ == b@),
{
    if a.len() != b.len() {
        return false;
    }
    let mut i: usize = 0;
    while i < a.len()
        invariant
            a@.len() == b@.len(),
            0 <= i <= a@.len(),
            forall|k: int| 0 <= k < i ==> a@[k] == b@[k],
        decreases a@.len() - i,
    {
        if a[i] != b[i] {
            return false;
        }
        i += 1;
    }
    assert(a@ =~= b@);
    true
}

/// A copy of the atoms.
pub fn copy_atoms(atoms: &Vec<Atom>) -> (r: Vec<Atom>)
    ensures
        r@ == atoms@,
{
    let mut r: Vec<Atom> = Vec::new();
    let mut i: usize = 0;
    while i < atoms.len()
        invariant
            0 <= i <= atoms@.len(),
            r@ == atoms@.subrange(0, i as int),
        decreases atoms@.len() - i,
    {
        r.push(atoms[i]);
        assert(r@ =~= atoms@.subrange(0, i + 1));
        i += 1;
    }
    assert(atoms@.subrange(0, atoms@.len() as int) =~= atoms@);
    r
}

fn copy_hyp(hyp: &Hyp) -> (r: Hyp)
    ensures
        r.label == hyp.label,
        r.is_float == hyp.is_float,
        r.expr@ == hyp.expr@,
        r.address == hyp.address,
        hyp_view(&r) == hyp_view(hyp),
{
    Hyp {
        label: hyp.label,
        is_float: hyp.is_float,
        expr: copy_atoms(&hyp.expr),
        address: hyp.address,
    }
}

/// Whether `atom` names a variable.
pub fn is_variable(nset: &Nameset, atom: Atom) -> (r: bool)
    requires
        nset.wf(),
    ensures
        r == names_variable(nset, atom),
{
    match nset.symbol_by_atom(atom) {
        Some(s) => s.stype == SymbolType::Variable,
        None => false,
    }
}

/// What is in force at a point of the source.
struct Scope {
    variables: Vec<Atom>,
    hyps: Vec<Hyp>,
    dv: Vec<(Atom, Atom)>,
    marks: Vec<(usize, usize, usize)>,
}

impl View for Scope {
    type V = ScopeView;

    closed spec fn view(&self) -> ScopeView {
        ScopeView {
            variables: self.variables@,
            hyps: hyp_views(self.hyps@),
            dv: self.dv@,
            marks: self.marks@,
        }
    }
}

impl Scope {
    /// The floating hypothesis in force for `variable`, if there is one.
    fn float_of(&self, variable: Atom) -> (r: Option<usize>)
        ensures
            match r {
                Some(i) => first_float(self@.hyps, variable, 0) == Some(i as int) && i
                    < self.hyps@.len(),
                None => first_float(self@.hyps, variable, 0) is None,
            },
    {
        let mut i: usize = 0;
        while i < self.hyps.len()
            invariant
                0 <= i <= self.hyps@.len(),
                first_float(self@.hyps, variable, 0) == first_float(self@.hyps, variable, i as int),
            decreases self.hyps@.len() - i,
        {
            let h = &self.hyps[i];
            if h.is_float && h.expr.len() == 2 && h.expr[1] == variable {
                return Some(i);
            }
            i += 1;
        }
        None
    }

    /// Opens a group.
    fn open(&mut self)
        ensures
            final(self)@ == opened(old(self)@),
    {
        self.marks.push((self.variables.len(), self.hyps.len(), self.dv.len()));
    }

    /// Closes the innermost group: what it brought into force is in force no
    /// longer. Without an open group nothing happens.
    fn close(&mut self)
        ensures
            final(self)@ == closed_group(old(self)@),
    {
        match self.marks.pop() {
            Some(mark) => {
                self.variables.truncate(mark.0);
                self.hyps.truncate(mark.1);
                self.dv.truncate(mark.2);
                proof {
                    let before = old(self)@;
                    assert(self.variables@ =~= first_n(before.variables, mark.0));
                    assert(self.dv@ =~= first_n(before.dv, mark.2));
                    assert(hyp_views(self.hyps@) =~= first_n(before.hyps, mark.1));
                    assert(self.marks@ =~= before.marks.drop_last());
                }
            },
            None => {},
        }
    }

    /// Closes every open group.
    fn close_all(&mut self)
        ensures
            final(self)@ == closed_all(old(self)@),
    {
        while self.marks.len() > 0
            invariant
                closed_all(self@) == closed_all(old(self)@),
            decreases self.marks@.len(),
        {
            self.close();
        }
    }
}

/// The math string of a statement as atoms, or the diagnostic that it earns:
/// its first symbol has to be a constant, every other a constant or a
/// variable that is in force and, where `typed` asks for it, has a floating
/// hypothesis in force.
fn math_atoms(nset: &Nameset, scope: &Scope, st: &Statement, typed: bool) -> (r: Result<
    Vec<Atom>,
    Diagnostic,
>)
    requires
        nset.wf(),
    ensures
        r matches Ok(atoms) ==> atoms@.len() == st.math@.len() && atoms@.len() > 0,
        match r {
            Ok(atoms) => math_atoms_of(nset, scope@, st, typed) == Ok::<Seq<Atom>, Diagnostic>(
                atoms@,
            ),
            Err(d) => math_atoms_of(nset, scope@, st, typed) == Err::<Seq<Atom>, Diagnostic>(d),
        },
{
    if st.math.len() == 0 {
        return Err(Diagnostic::EmptyMathString);
    }
    let mut atoms: Vec<Atom> = Vec::new();
    let mut i: usize = 0;
    while i < st.math.len()
        invariant
            nset.wf(),
            0 <= i <= st.math@.len(),
            atoms@.len() == i,
            atoms_from(nset, scope@, &st.math, typed, 0, Seq::empty()) == atoms_from(
                nset,
                scope@,
                &st.math,
                typed,
                i as int,
                atoms@,
            ),
        decreases st.math@.len() - i,
    {
        match nset.lookup_symbol(st.math[i].as_slice()) {
            Some(s) => {
                if s.stype == SymbolType::Variable {
                    if i == 0 {
                        return Err(Diagnostic::TypecodeNotConstant);
                    }
                    if !contains_atom(&scope.variables, s.atom) {
                        return Err(Diagnostic::UndeclaredSymbol(i));
                    }
                    if typed && scope.float_of(s.atom).is_none() {
                        return Err(Diagnostic::VariableMissingFloat(i));
                    }
                }
                atoms.push(s.atom);
            },
            None => {
                return Err(Diagnostic::UndeclaredSymbol(i));
            },
        }
        i += 1;
    }
    Ok(atoms)
}

/// Puts onto `used` the variables of `expr` that are not there yet.
fn collect_variables(nset: &Nameset, expr: &Vec<Atom>, used: &mut Vec<Atom>)
    requires
        nset.wf(),
    ensures
        final(used)@ == with_variables(nset, expr@, 1, old(used)@),
{
    let mut i: usize = 1;
    while i < expr.len()
        invariant
            nset.wf(),
            1 <= i,
            with_variables(nset, expr@, 1, old(used)@) == with_variables(
                nset,
                expr@,
                i as int,
                used@,
            ),
        decreases expr@.len() - i,
    {
        let atom = expr[i];
        if is_variable(nset, atom) && !contains_atom(used, atom) {
            used.push(atom);
        }
        i += 1;
    }
}

impl ScopeResult {
    /// No frame at all.
    pub fn new() -> (r: ScopeResult)
        ensures
            r.wf(),
            r.frames().len() == 0,
            r@ == (ScopesView { frames: Seq::empty(), diagnostics: Seq::empty() }),
    {
        let r = ScopeResult { frames: Vec::new(), by_label: Vec::new(), diagnostics: Vec::new() };
        proof {
            assert(r@.frames =~= Seq::<FrameView>::empty());
        }
        r
    }

    /// The frames, in the order of the source.
    pub closed spec fn frames(&self) -> Seq<Frame> {
        self.frames@
    }

    /// The invariant of the result: a label leads to the first frame that
    /// carries it.
    pub closed spec fn wf(&self) -> bool {
        &&& forall|a: int|
            0 <= a < self.by_label@.len() ==> match #[trigger] self.by_label@[a] {
                Some(i) => first_frame(frame_views(self.frames@), a as Atom, 0) == Some(i as int),
                None => first_frame(frame_views(self.frames@), a as Atom, 0) is None,
            }
        &&& forall|a: Atom|
            self.by_label@.len() <= a ==> first_frame(frame_views(self.frames@), a, 0) is None
        &&& self.by_label@.len() <= u32::MAX + 1
    }

    /// What the view is made of.
    pub proof fn lemma_view(&self)
        ensures
            self@.frames == frame_views(self.frames()),
            self@.diagnostics == self.found(),
    {
    }

    /// The problems found with the names and the scopes.
    pub closed spec fn found(&self) -> Seq<(StatementAddress, Diagnostic)> {
        self.diagnostics@
    }

    /// The problems found with the names and the scopes.
    pub fn diagnostics(&self) -> (r: &Vec<(StatementAddress, Diagnostic)>)
        ensures
            r@ == self.found(),
    {
        &self.diagnostics
    }

    /// The number of frames.
    pub fn frame_count(&self) -> (n: usize)
        ensures
            n == self.frames().len(),
    {
        self.frames.len()
    }

    /// Frame `i`.
    pub fn frame(&self, i: usize) -> (f: &Frame)
        requires
            i < self.frames().len(),
        ensures
            *f == self.frames()[i as int],
    {
        &self.frames[i]
    }

    /// The place of the frame of the assertion whose label has the atom
    /// `label`: of the first frame with that label, if there is one.
    pub fn frame_index(&self, label: Atom) -> (r: Option<usize>)
        requires
            self.wf(),
        ensures
            r matches Some(i) ==> i < self.frames().len() && self.frames()[i as int].label == label,
            match r {
                Some(i) => first_frame(self@.frames, label, 0) == Some(i as int),
                None => first_frame(self@.frames, label, 0) is None,
            },
    {
        if (label as usize) < self.by_label.len() {
            let r = self.by_label[label as usize];
            proof {
                if r is Some {
                    lemma_first_frame(self@.frames, label, 0);
                }
            }
            r
        } else {
            None
        }
    }

    fn note(&mut self, address: StatementAddress, diagnostic: Diagnostic)
        requires
            old(self).wf(),
        ensures
            final(self).wf(),
            final(self).frames() == old(self).frames(),
            final(self)@ == noted(old(self)@, address, diagnostic),
    {
        self.diagnostics.push((address, diagnostic));
    }

    /// Records the frame, under its label if no frame carries that label
    /// yet.
    fn add_frame(&mut self, frame: Frame)
        requires
            old(self).wf(),
        ensures
            final(self).wf(),
            final(self).frames() == old(self).frames().push(frame),
            final(self)@ == (ScopesView {
                frames: old(self)@.frames.push(frame_view(&frame)),
                diagnostics: old(self)@.diagnostics,
            }),
    {
        let label = frame.label as usize;
        let index = self.frames.len();
        let ghost before = frame_views(self.frames@);
        let ghost added = frame_view(&frame);
        self.frames.push(frame);
        let ghost after = frame_views(self.frames@);
        proof {
            assert(after =~= before.push(added));
            assert forall|a: Atom| #![auto] first_frame(after, a, 0) == (match first_frame(
                before,
                a,
                0,
            ) {
                Some(i) => Some(i),
                None => if a == added.label {
                    Some(index as int)
                } else {
                    None
                },
            }) by {
                lemma_first_frame_push(before, added, a, 0);
            }
        }
        while self.by_label.len() <= label
            invariant
                label <= u32::MAX,
                self.frames@ == old(self).frames@.push(frame),
                self.diagnostics == old(self).diagnostics,
                index == old(self).frames@.len(),
                self.by_label@.len() >= old(self).by_label@.len(),
                self.by_label@.len() <= u32::MAX + 1,
                forall|a: int|
                    0 <= a < self.by_label@.len() ==> match #[trigger] self.by_label@[a] {
                        Some(i) => first_frame(before, a as Atom, 0) == Some(i as int),
                        None => first_frame(before, a as Atom, 0) is None,
                    },
                forall|a: Atom| self.by_label@.len() <= a ==> first_frame(before, a, 0) is None,
            decreases label + 1 - self.by_label@.len(),
        {
            self.by_label.push(None);
        }
        if self.by_label[label].is_none() {
            self.by_label[label] = Some(index);
        }
        proof {
            assert forall|a: int| 0 <= a < self.by_label@.len() implies match #[trigger] self.by_label@[a] {
                Some(i) => first_frame(after, a as Atom, 0) == Some(i as int),
                None => first_frame(after, a as Atom, 0) is None,
            } by {
                let atom = a as Atom;
                assert(first_frame(after, atom, 0) == (match first_frame(before, atom, 0) {
                    Some(i) => Some(i),
                    None => if atom == added.label {
                        Some(index as int)
                    } else {
                        None
                    },
                }));
            }
            assert forall|a: Atom| self.by_label@.len() <= a implies first_frame(after, a, 0) is None by {
                assert(first_frame(after, a, 0) == (match first_frame(before, a, 0) {
                    Some(i) => Some(i),
                    None => if a == added.label {
                        Some(index as int)
                    } else {
                        None
                    },
                }));
            }
        }
    }
}

/// The first frame with a label is a frame with that label.
proof fn lemma_first_frame(frames: Seq<FrameView>, label: Atom, i: int)
    requires
        0 <= i,
    ensures
        first_frame(frames, label, i) matches Some(k) ==> i <= k < frames.len() && frames[k].label
            == label,
    decreases frames.len() - i,
{
    if i < frames.len() && frames[i].label != label {
        lemma_first_frame(frames, label, i + 1);
    }
}

/// A frame more changes the first frame of a label only if the label had
/// none.
proof fn lemma_first_frame_push(frames: Seq<FrameView>, added: FrameView, label: Atom, i: int)
    requires
        0 <= i <= frames.len(),
    ensures
        first_frame(frames.push(added), label, i) == (match first_frame(frames, label, i) {
            Some(k) => Some(k),
            None => if label == added.label {
                Some(frames.len() as int)
            } else {
                None
            },
        }),
    decreases frames.len() - i,
{
    let more = frames.push(added);
    if i < frames.len() {
        assert(more[i] == frames[i]);
        if frames[i].label != label {
            lemma_first_frame_push(frames, added, label, i + 1);
        }
    } else {
        assert(more[i] == added);
        assert(first_frame(more, label, i + 1) is None);
    }
}

/// Makes the frame of the assertion `st`, whose math string is `expr`.
fn make_frame(
    nset: &Nameset,
    scope: &Scope,
    st: &Statement,
    address: StatementAddress,
    label: Atom,
    expr: Vec<Atom>,
) -> (frame: Frame)
    requires
        nset.wf(),
    ensures
        frame_view(&frame) == frame_of(
            nset,
            scope@,
            st.stype == StatementType::Provable,
            address,
            label,
            expr@,
        ),
{
    let provable = st.stype == StatementType::Provable;
    // The variables of the assertion and of the essential hypotheses.
    let mut used: Vec<Atom> = Vec::new();
    collect_variables(nset, &expr, &mut used);
    let ghost own = used@;
    let mut i: usize = 0;
    while i < scope.hyps.len()
        invariant
            nset.wf(),
            0 <= i <= scope.hyps@.len(),
            with_essential_variables(nset, scope@.hyps, 0, own) == with_essential_variables(
                nset,
                scope@.hyps,
                i as int,
                used@,
            ),
        decreases scope.hyps@.len() - i,
    {
        if !scope.hyps[i].is_float {
            collect_variables(nset, &scope.hyps[i].expr, &mut used);
        }
        i += 1;
    }
    let mut hyps: Vec<Hyp> = Vec::new();
    let mut scope_hyps: Vec<Hyp> = Vec::new();
    let mut i: usize = 0;
    proof {
        assert(hyp_views(hyps@) =~= Seq::<HypView>::empty());
        assert(hyp_views(scope_hyps@) =~= Seq::<HypView>::empty());
    }
    while i < scope.hyps.len()
        invariant
            0 <= i <= scope.hyps@.len(),
            hyp_views(hyps@) == mandatory_hyps(scope@.hyps, used@, i as int),
            provable ==> hyp_views(scope_hyps@) == scope@.hyps.subrange(0, i as int),
            !provable ==> scope_hyps@.len() == 0,
        decreases scope.hyps@.len() - i,
    {
        let h = &scope.hyps[i];
        let is_mandatory = if h.is_float {
            h.expr.len() == 2 && contains_atom(&used, h.expr[1])
        } else {
            true
        };
        proof {
            assert(scope@.hyps[i as int] == hyp_view(h));
            assert(is_mandatory == mandatory(scope@.hyps[i as int], used@));
        }
        if is_mandatory {
            let ghost before = hyp_views(hyps@);
            hyps.push(copy_hyp(h));
            proof {
                assert(hyp_views(hyps@) =~= before.push(hyp_view(h)));
            }
        }
        if provable {
            let ghost before = hyp_views(scope_hyps@);
            scope_hyps.push(copy_hyp(h));
            proof {
                assert(hyp_views(scope_hyps@) =~= before.push(hyp_view(h)));
                assert(scope@.hyps.subrange(0, i + 1) =~= scope@.hyps.subrange(0, i as int).push(
                    hyp_view(h),
                ));
            }
        }
        i += 1;
    }
    let mut dv: Vec<(Atom, Atom)> = Vec::new();
    let mut scope_dv: Vec<(Atom, Atom)> = Vec::new();
    let mut i: usize = 0;
    while i < scope.dv.len()
        invariant
            0 <= i <= scope.dv@.len(),
            dv@ == mandatory_dv(scope@.dv, used@, i as int),
            provable ==> scope_dv@ == scope@.dv.subrange(0, i as int),
            !provable ==> scope_dv@.len() == 0,
        decreases scope.dv@.len() - i,
    {
        let pair = scope.dv[i];
        if contains_atom(&used, pair.0) && contains_atom(&used, pair.1) {
            dv.push(pair);
        }
        if provable {
            scope_dv.push(pair);
            proof {
                assert(scope@.dv.subrange(0, i + 1) =~= scope@.dv.subrange(0, i as int).push(pair));
            }
        }
        i += 1;
    }
    let frame = Frame { address, label, provable, expr, hyps, dv, scope_hyps, scope_dv };
    proof {
        assert(scope@.hyps.subrange(0, scope@.hyps.len() as int) =~= scope@.hyps);
        assert(scope@.dv.subrange(0, scope@.dv.len() as int) =~= scope@.dv);
        if !provable {
            assert(hyp_views(frame.scope_hyps@) =~= Seq::<HypView>::empty());
            assert(frame.scope_dv@ =~= Seq::<(Atom, Atom)>::empty());
        }
    }
    frame
}

/// Reads a `$d`: each of its symbols that is a variable in force is paired
/// with those behind it; each other earns a diagnostic.
fn scope_disjoint(
    result: &mut ScopeResult,
    scope: &mut Scope,
    nset: &Nameset,
    st: &Statement,
    address: StatementAddress,
)
    requires
        old(result).wf(),
        nset.wf(),
        st.stype == StatementType::Disjoint,
    ensures
        final(result).wf(),
        (Scoped { result: final(result)@, scope: final(scope)@ }) == scoped(
            old(result)@,
            old(scope)@,
            nset,
            st,
            address,
        ),
{
    let ghost s0 = scope@;
    let ghost r0 = result@;
    let mut atoms: Vec<Atom> = Vec::new();
    let mut i: usize = 0;
    while i < st.math.len()
        invariant
            nset.wf(),
            result.wf(),
            scope@ == s0,
            0 <= i <= st.math@.len(),
            atoms@ == disjoint_atoms(nset, s0, &st.math, i as int),
            result@ == (ScopesView {
                frames: r0.frames,
                diagnostics: r0.diagnostics + disjoint_problems(
                    nset,
                    s0,
                    &st.math,
                    address,
                    i as int,
                ),
            }),
        decreases st.math@.len() - i,
    {
        let ghost before = result@;
        let ok = match nset.lookup_symbol(st.math[i].as_slice()) {
            Some(s) => {
                if s.stype == SymbolType::Variable && contains_atom(&scope.variables, s.atom) {
                    atoms.push(s.atom);
                    true
                } else {
                    false
                }
            },
            None => false,
        };
        proof {
            assert(ok == disjoint_ok(nset, s0, &st.math, i as int));
        }
        if !ok {
            result.note(address, Diagnostic::UndeclaredSymbol(i));
            proof {
                assert(result@.diagnostics =~= r0.diagnostics + disjoint_problems(
                    nset,
                    s0,
                    &st.math,
                    address,
                    i + 1,
                ));
            }
        }
        i += 1;
    }
    let ghost base = scope.dv@;
    let mut a: usize = 0;
    while a < atoms.len()
        invariant
            0 <= a <= atoms@.len(),
            scope.variables == old(scope).variables,
            scope.hyps == old(scope).hyps,
            scope.marks == old(scope).marks,
            scope.dv@ == base + pairs(atoms@, a as int),
        decreases atoms@.len() - a,
    {
        let ghost row = scope.dv@;
        let mut b: usize = a + 1;
        proof {
            assert(pairs_with(atoms@, a as int, a + 1) =~= Seq::<(Atom, Atom)>::empty());
            assert(row + Seq::<(Atom, Atom)>::empty() =~= row);
        }
        while b < atoms.len()
            invariant
                a < b <= atoms@.len(),
                scope.variables == old(scope).variables,
                scope.hyps == old(scope).hyps,
                scope.marks == old(scope).marks,
                scope.dv@ == row + pairs_with(atoms@, a as int, b as int),
            decreases atoms@.len() - b,
        {
            scope.dv.push((atoms[a], atoms[b]));
            proof {
                assert(row + pairs_with(atoms@, a as int, b as int).push((atoms@[a as int], atoms@[b as int]))
                    =~= scope.dv@);
            }
            b += 1;
        }
        proof {
            assert(base + (pairs(atoms@, a as int) + pairs_with(
                atoms@,
                a as int,
                atoms@.len() as int,
            )) =~= (base + pairs(atoms@, a as int)) + pairs_with(
                atoms@,
                a as int,
                atoms@.len() as int,
            ));
        }
        a += 1;
    }
}

/// Reads a `$f`.
fn scope_float(
    result: &mut ScopeResult,
    scope: &mut Scope,
    nset: &Nameset,
    st: &Statement,
    address: StatementAddress,
)
    requires
        old(result).wf(),
        nset.wf(),
    ensures
        final(result).wf(),
        (Scoped { result: final(result)@, scope: final(scope)@ }) == scoped_float(
            old(result)@,
            old(scope)@,
            nset,
            st,
            address,
        ),
{
    if st.math.len() != 2 {
        result.note(address, Diagnostic::BadFloating);
        return ;
    }
    let label = match nset.lookup_label(st.label.as_slice()) {
        Some(l) => l.atom,
        None => {
            return ;
        },
    };
    match math_atoms(nset, scope, st, false) {
        Ok(expr) => {
            if !is_variable(nset, expr[1]) {
                result.note(address, Diagnostic::FloatNotVariable(1));
            } else {
                match scope.float_of(expr[1]) {
                    Some(i) => {
                        let first = scope.hyps[i].address;
                        proof {
                            assert(scope@.hyps[i as int] == hyp_view(&scope.hyps@[i as int]));
                        }
                        result.note(address, Diagnostic::FloatRedeclared(first));
                    },
                    None => {
                        let ghost before = hyp_views(scope.hyps@);
                        let ghost atoms = expr@;
                        scope.hyps.push(Hyp { label, is_float: true, expr, address });
                        proof {
                            assert(hyp_views(scope.hyps@) =~= before.push(
                                HypView { label, is_float: true, expr: atoms, address },
                            ));
                        }
                    },
                }
            }
        },
        Err(d) => {
            let d = match d {
                Diagnostic::UndeclaredSymbol(1) => Diagnostic::FloatNotVariable(1),
                other => other,
            };
            result.note(address, d);
        },
    }
}

/// Reads one statement: it changes what is in force, or gives a frame, or
/// earns a diagnostic.
fn scope_statement(
    result: &mut ScopeResult,
    scope: &mut Scope,
    nset: &Nameset,
    st: &Statement,
    address: StatementAddress,
)
    requires
        old(result).wf(),
        nset.wf(),
    ensures
        final(result).wf(),
        (Scoped { result: final(result)@, scope: final(scope)@ }) == scoped(
            old(result)@,
            old(scope)@,
            nset,
            st,
            address,
        ),
{
    match st.stype {
        StatementType::OpenGroup => {
            scope.open();
        },
        StatementType::CloseGroup => {
            scope.close();
        },
        StatementType::Variable => {
            let ghost start = scope.variables@;
            let mut i: usize = 0;
            while i < st.math.len()
                invariant
                    nset.wf(),
                    0 <= i <= st.math@.len(),
                    scope.hyps == old(scope).hyps,
                    scope.dv == old(scope).dv,
                    scope.marks == old(scope).marks,
                    scope.variables@ == with_declared(nset, start, &st.math, i as int),
                decreases st.math@.len() - i,
            {
                match nset.lookup_symbol(st.math[i].as_slice()) {
                    Some(s) => {
                        if s.stype == SymbolType::Variable && !contains_atom(
                            &scope.variables,
                            s.atom,
                        ) {
                            scope.variables.push(s.atom);
                        }
                    },
                    None => {},
                }
                i += 1;
            }
        },
        StatementType::Disjoint => {
            scope_disjoint(result, scope, nset, st, address);
        },
        StatementType::Floating => {
            scope_float(result, scope, nset, st, address);
        },
        StatementType::Essential => {
            let label = match nset.lookup_label(st.label.as_slice()) {
                Some(l) => l.atom,
                None => {
                    return ;
                },
            };
            match math_atoms(nset, scope, st, true) {
                Ok(expr) => {
                    let ghost before = hyp_views(scope.hyps@);
                    let ghost atoms = expr@;
                    scope.hyps.push(Hyp { label, is_float: false, expr, address });
                    proof {
                        assert(hyp_views(scope.hyps@) =~= before.push(
                            HypView { label, is_float: false, expr: atoms, address },
                        ));
                    }
                },
                Err(d) => {
                    result.note(address, d);
                },
            }
        },
        StatementType::Axiom | StatementType::Provable => {
            let label = match nset.lookup_label(st.label.as_slice()) {
                Some(l) => l,
                None => {
                    return ;
                },
            };
            match math_atoms(nset, scope, st, true) {
                Ok(expr) => {
                    if label.address == address {
                        let frame = make_frame(nset, scope, st, address, label.atom, expr);
                        result.add_frame(frame);
                    }
                },
                Err(d) => {
                    result.note(address, d);
                },
            }
        },
        _ => {},
    }
}

/// Finds the frames of the database anew. What `result` held is dropped.
/// The problems that the name set found are reported with those of the
/// scopes, before them.
pub fn scope_check(result: &mut ScopeResult, sset: &SegmentSet, nset: &Nameset)
    requires
        sset.wf(),
        nset.wf(),
    ensures
        final(result).wf(),
        final(result)@ == scoped_segments(sset, nset, sset.entries().len() as int).result,
{
    result.frames = Vec::new();
    result.by_label = Vec::new();
    result.diagnostics = Vec::new();
    let names = nset.diagnostics();
    let mut i: usize = 0;
    proof {
        assert(frame_views(result.frames@) =~= Seq::<FrameView>::empty());
    }
    while i < names.len()
        invariant
            0 <= i <= names@.len(),
            result.wf(),
            result.frames@.len() == 0,
            result.diagnostics@ == names@.subrange(0, i as int),
        decreases names@.len() - i,
    {
        result.diagnostics.push(names[i]);
        proof {
            assert(result.diagnostics@ =~= names@.subrange(0, i + 1));
        }
        i += 1;
    }
    let mut scope = Scope {
        variables: Vec::new(),
        hyps: Vec::new(),
        dv: Vec::new(),
        marks: Vec::new(),
    };
    proof {
        assert(names@.subrange(0, names@.len() as int) =~= names@);
        assert(frame_views(result.frames@) =~= Seq::<FrameView>::empty());
        assert(hyp_views(scope.hyps@) =~= Seq::<HypView>::empty());
    }
    let segments = sset.segments();
    let mut i: usize = 0;
    while i < segments.len()
        invariant
            0 <= i <= segments@.len(),
            segments@ == sset.entries(),
            nset.wf(),
            result.wf(),
            (Scoped { result: result@, scope: scope@ }) == scoped_segments(sset, nset, i as int),
        decreases segments@.len() - i,
    {
        let entry = &segments[i];
        let mut k: usize = 0;
        while k < entry.segment.statements.len()
            invariant
                0 <= i < segments@.len(),
                segments@ == sset.entries(),
                *entry == segments@[i as int],
                0 <= k <= entry.segment.statements@.len(),
                nset.wf(),
                result.wf(),
                (Scoped { result: result@, scope: scope@ }) == scoped_statements(
                    scoped_segments(sset, nset, i as int),
                    sset,
                    nset,
                    i as int,
                    k as int,
                ),
            decreases entry.segment.statements@.len() - k,
        {
            scope_statement(
                result,
                &mut scope,
                nset,
                &entry.segment.statements[k],
                StatementAddress { segment_id: entry.id, index: k },
            );
            k += 1;
        }
        // No group goes on into the next segment.
        scope.close_all();
        i += 1;
    }
}

} // verus!
