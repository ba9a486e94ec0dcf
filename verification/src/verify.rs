//! Checks the proofs of a database: each proof is run on a stack of math
//! strings, and has to leave the statement that it proves.

use crate::diag::Diagnostic;
use crate::nameck::Atom;
use crate::nameck::Nameset;
use crate::parser::StatementAddress;
use crate::parser::Token;
use crate::proofs::all_distinct_of;
use crate::proofs::applied;
use crate::proofs::bound_from;
use crate::proofs::compressed_from;
use crate::proofs::conditions_hold;
use crate::proofs::end_problem;
use crate::proofs::first_hyp;
use crate::proofs::is_the_byte;
use crate::proofs::known_distinct;
use crate::proofs::lettered;
use crate::proofs::letters_from;
use crate::proofs::listed_from;
use crate::proofs::normal_from;
use crate::proofs::numbered;
use crate::proofs::place_of;
use crate::proofs::proof_problem;
use crate::proofs::proof_problems;
use crate::proofs::stepped;
use crate::proofs::strings;
use crate::proofs::substituted;
use crate::proofs::substituted_from;
use crate::proofs::Bound;
use crate::proofs::Run;
use crate::scopeck::copy_atoms;
use crate::scopeck::is_variable;
use crate::scopeck::same_atoms;
use crate::scopeck::Frame;
use crate::scopeck::ScopeResult;
use crate::scopes::frame_view;
use crate::scopes::frame_views;
use crate::scopes::hyp_view;
use crate::scopes::hyp_views;
use crate::scopes::names_variable;
use crate::segment_set::SegmentSet;
use vstd::prelude::*;

verus! {

/// What the check of the proofs found.
pub struct VerifyResult {
    diagnostics: Vec<(StatementAddress, Diagnostic)>,
}

impl VerifyResult {
    /// Nothing found, nothing checked.
    pub fn new() -> (r: VerifyResult)
        ensures
            r.found() == Seq::<(StatementAddress, Diagnostic)>::empty(),
    {
        VerifyResult { diagnostics: Vec::new() }
    }

    /// The problems found in the proofs.
    pub closed spec fn found(&self) -> Seq<(StatementAddress, Diagnostic)> {
        self.diagnostics@
    }

    /// The problems found in the proofs.
    pub fn diagnostics(&self) -> (r: &Vec<(StatementAddress, Diagnostic)>)
        ensures
            r@ == self.found(),
    {
        &self.diagnostics
    }
}

/// The place of `atom` among `atoms`.
fn position(atoms: &Vec<Atom>, atom: Atom) -> (r: Option<usize>)
    ensures
        match r {
            Some(i) => i < atoms@.len() && place_of(atoms@, atom, 0) == Some(i as int),
            None => place_of(atoms@, atom, 0) is None,
        },
{
    let mut i: usize = 0;
    while i < atoms.len()
        invariant
            0 <= i <= atoms@.len(),
            place_of(atoms@, atom, 0) == place_of(atoms@, atom, i as int),
        decreases atoms@.len() - i,
    {
        if atoms[i] == atom {
            return Some(i);
        }
        i += 1;
    }
    None
}

/// The math string `expr` with each of the variables `variables` replaced by
/// the string that `values` holds for it. The typecode stays.
fn substitute(expr: &Vec<Atom>, variables: &Vec<Atom>, values: &Vec<Vec<Atom>>) -> (r: Vec<Atom>)
    requires
        variables@.len() == values@.len(),
    ensures
        r@ == substituted(expr@, variables@, strings(values)),
{
    let mut r: Vec<Atom> = Vec::new();
    let mut i: usize = 0;
    while i < expr.len()
        invariant
            variables@.len() == values@.len(),
            0 <= i <= expr@.len(),
            substituted(expr@, variables@, strings(values)) == substituted_from(
                expr@,
                variables@,
                strings(values),
                i as int,
                r@,
            ),
        decreases expr@.len() - i,
    {
        let atom = expr[i];
        let found = if i == 0 {
            None
        } else {
            position(variables, atom)
        };
        match found {
            Some(v) => {
                let value = &values[v];
                let ghost before = r@;
                let mut k: usize = 0;
                while k < value.len()
                    invariant
                        0 <= k <= value@.len(),
                        r@ == before + value@.subrange(0, k as int),
                    decreases value@.len() - k,
                {
                    r.push(value[k]);
                    assert(r@ =~= before + value@.subrange(0, k + 1));
                    k += 1;
                }
                proof {
                    assert(value@.subrange(0, value@.len() as int) =~= value@);
                    assert(strings(values)[v as int] == value@);
                }
            },
            None => {
                r.push(atom);
            },
        }
        i += 1;
    }
    r
}

/// Whether the pair of variables is among the pairs, in either order.
fn distinct(pairs: &Vec<(Atom, Atom)>, a: Atom, b: Atom) -> (r: bool)
    ensures
        r == known_distinct(pairs@, a, b),
{
    let mut i: usize = 0;
    while i < pairs.len()
        invariant
            0 <= i <= pairs@.len(),
            forall|k: int|
                0 <= k < i ==> !((#[trigger] pairs@[k]) == (a, b) || pairs@[k] == (b, a)),
        decreases pairs@.len() - i,
    {
        let p = pairs[i];
        if (p.0 == a && p.1 == b) || (p.0 == b && p.1 == a) {
            assert(pairs@[i as int] == (a, b) || pairs@[i as int] == (b, a));
            return true;
        }
        i += 1;
    }
    false
}

/// Whether every variable of `x` is known in `current` to be distinct from
/// every variable of `y`.
fn all_distinct(nset: &Nameset, current: &Frame, x: &Vec<Atom>, y: &Vec<Atom>) -> (r: bool)
    requires
        nset.wf(),
    ensures
        r == all_distinct_of(nset, current.scope_dv@, x@, y@),
{
    let mut i: usize = 0;
    while i < x.len()
        invariant
            nset.wf(),
            0 <= i <= x@.len(),
            forall|a: int, b: int|
                #![trigger x@[a], y@[b]]
                0 <= a < i && 0 <= b < y@.len() && names_variable(nset, x@[a]) && names_variable(
                    nset,
                    y@[b],
                ) ==> x@[a] != y@[b] && known_distinct(current.scope_dv@, x@[a], y@[b]),
        decreases x@.len() - i,
    {
        if is_variable(nset, x[i]) {
            let mut k: usize = 0;
            while k < y.len()
                invariant
                    nset.wf(),
                    0 <= i < x@.len(),
                    0 <= k <= y@.len(),
                    names_variable(nset, x@[i as int]),
                    forall|b: int|
                        #![trigger y@[b]]
                        0 <= b < k && names_variable(nset, y@[b]) ==> x@[i as int] != y@[b]
                            && known_distinct(current.scope_dv@, x@[i as int], y@[b]),
                decreases y@.len() - k,
            {
                if is_variable(nset, y[k]) {
                    if x[i] == y[k] || !distinct(&current.scope_dv, x[i], y[k]) {
                        proof {
                            let a = i as int;
                            let b = k as int;
                            assert(!(x@[a] != y@[b] && known_distinct(
                                current.scope_dv@,
                                x@[a],
                                y@[b],
                            )));
                        }
                        return false;
                    }
                }
                k += 1;
            }
        }
        i += 1;
    }
    true
}

/// Applies the assertion of frame `used` in a proof of the assertion of
/// frame `current`: its hypotheses are taken off the stack, which fixes what
/// its variables stand for, and its statement is put on with the variables
/// replaced. `step` is the place of the step in the proof.
fn apply(
    nset: &Nameset,
    used: &Frame,
    current: &Frame,
    stack: &mut Vec<Vec<Atom>>,
    step: usize,
) -> (r: Option<Diagnostic>)
    requires
        nset.wf(),
    ensures
        match applied(nset, frame_view(used), frame_view(current), strings(old(stack)), step) {
            Ok(next) => r is None && strings(final(stack)) == next,
            Err(d) => r == Some(d),
        },
{
    let count = used.hyps.len();
    let ghost hyps = hyp_views(used.hyps@);
    let ghost before = strings(stack);
    if stack.len() < count {
        return Some(Diagnostic::ProofUnderflow(step));
    }
    let height = stack.len();
    let base: usize = height - count;
    let mut variables: Vec<Atom> = Vec::new();
    let mut values: Vec<Vec<Atom>> = Vec::new();
    let ghost goal = bound_from(
        hyps,
        before,
        base as int,
        0,
        Bound { variables: Seq::empty(), values: Seq::empty() },
        step,
    );
    let mut i: usize = 0;
    proof {
        assert(strings(&values) =~= Seq::<Seq<Atom>>::empty());
    }
    while i < count
        invariant
            0 <= i <= count == used.hyps@.len(),
            hyps == hyp_views(used.hyps@),
            before == strings(stack),
            before == strings(old(stack)),
            base + count == height == stack@.len(),
            goal == bound_from(
                hyps,
                before,
                base as int,
                0,
                Bound { variables: Seq::empty(), values: Seq::empty() },
                step,
            ),
            variables@.len() == values@.len(),
            goal == bound_from(
                hyps,
                before,
                base as int,
                i as int,
                Bound { variables: variables@, values: strings(&values) },
                step,
            ),
        decreases count - i,
    {
        let hyp = &used.hyps[i];
        let entry = &stack[base + i];
        proof {
            assert(hyps[i as int] == hyp_view(hyp));
            assert(before[base + i] == entry@);
        }
        if hyp.is_float {
            if hyp.expr.len() != 2 || entry.len() == 0 || entry[0] != hyp.expr[0] {
                return Some(Diagnostic::StepHypothesisMismatch(step));
            }
            let mut value: Vec<Atom> = Vec::new();
            let mut k: usize = 1;
            while k < entry.len()
                invariant
                    1 <= k <= entry@.len(),
                    value@ == entry@.subrange(1, k as int),
                decreases entry@.len() - k,
            {
                value.push(entry[k]);
                assert(value@ =~= entry@.subrange(1, k + 1));
                k += 1;
            }
            let ghost old_values = strings(&values);
            variables.push(hyp.expr[1]);
            values.push(value);
            proof {
                assert(strings(&values) =~= old_values.push(entry@.subrange(1, entry@.len() as int)));
            }
        } else {
            let wanted = substitute(&hyp.expr, &variables, &values);
            if !same_atoms(&wanted, entry) {
                return Some(Diagnostic::StepHypothesisMismatch(step));
            }
        }
        i += 1;
    }
    let ghost b = Bound { variables: variables@, values: strings(&values) };
    let mut d: usize = 0;
    while d < used.dv.len()
        invariant
            nset.wf(),
            0 <= d <= used.dv@.len(),
            variables@.len() == values@.len(),
            b == (Bound { variables: variables@, values: strings(&values) }),
            hyps == hyp_views(used.hyps@),
            before == strings(old(stack)),
            base + used.hyps@.len() == before.len(),
            goal == Ok::<Bound, Diagnostic>(b),
            goal == bound_from(
                hyps,
                before,
                base as int,
                0,
                Bound { variables: Seq::empty(), values: Seq::empty() },
                step,
            ),
            conditions_hold(nset, current.scope_dv@, used.dv@, b, 0) == conditions_hold(
                nset,
                current.scope_dv@,
                used.dv@,
                b,
                d as int,
            ),
        decreases used.dv@.len() - d,
    {
        let pair = used.dv[d];
        match position(&variables, pair.0) {
            Some(x) => match position(&variables, pair.1) {
                Some(y) => {
                    proof {
                        assert(b.values[x as int] == values@[x as int]@);
                        assert(b.values[y as int] == values@[y as int]@);
                    }
                    if !all_distinct(nset, current, &values[x], &values[y]) {
                        return Some(Diagnostic::ProofDvViolation(step));
                    }
                },
                None => {},
            },
            None => {},
        }
        d += 1;
    }
    let result = substitute(&used.expr, &variables, &values);
    stack.truncate(base);
    stack.push(result);
    proof {
        assert(strings(stack) =~= before.subrange(0, base as int).push(result@));
    }
    None
}

/// Runs the step that names the label with atom `label`: a hypothesis in
/// force is put on the stack, an assertion made before is applied.
fn step_label(
    nset: &Nameset,
    scopes: &ScopeResult,
    own: usize,
    label: Atom,
    stack: &mut Vec<Vec<Atom>>,
    step: usize,
) -> (r: Option<Diagnostic>)
    requires
        nset.wf(),
        scopes.wf(),
        own < scopes.frames().len(),
    ensures
        match stepped(nset, scopes@.frames, own as int, label, strings(old(stack)), step) {
            Ok(next) => r is None && strings(final(stack)) == next,
            Err(d) => r == Some(d),
        },
{
    proof {
        scopes.lemma_view();
    }
    let current = scopes.frame(own);
    let ghost hyps = hyp_views(current.scope_hyps@);
    let mut i: usize = 0;
    while i < current.scope_hyps.len()
        invariant
            0 <= i <= current.scope_hyps@.len(),
            hyps == hyp_views(current.scope_hyps@),
            hyps == scopes@.frames[own as int].scope_hyps,
            *stack == *old(stack),
            first_hyp(hyps, label, 0) == first_hyp(hyps, label, i as int),
        decreases current.scope_hyps@.len() - i,
    {
        proof {
            assert(hyps[i as int] == hyp_view(&current.scope_hyps@[i as int]));
        }
        if current.scope_hyps[i].label == label {
            let ghost before = strings(stack);
            stack.push(copy_atoms(&current.scope_hyps[i].expr));
            proof {
                assert(strings(stack) =~= before.push(hyps[i as int].expr));
            }
            return None;
        }
        i += 1;
    }
    match scopes.frame_index(label) {
        Some(f) => {
            if f < own {
                proof {
                    assert(scopes@.frames[f as int] == frame_view(&scopes.frames()[f as int]));
                    assert(scopes@.frames[own as int] == frame_view(current));
                }
                apply(nset, scopes.frame(f), current, stack, step)
            } else {
                Some(Diagnostic::StepMissing(step))
            }
        },
        None => Some(Diagnostic::StepMissing(step)),
    }
}

/// Checks what the proof leaves: one math string, the statement.
fn check_end(current: &Frame, stack: &Vec<Vec<Atom>>) -> (r: Option<Diagnostic>)
    ensures
        r == end_problem(frame_view(current), strings(stack)),
{
    if stack.len() != 1 {
        Some(Diagnostic::ProofExcessEnd)
    } else if !same_atoms(&stack[0], &current.expr) {
        Some(Diagnostic::ProofWrongResult)
    } else {
        None
    }
}

/// Whether the token is the one byte.
fn is_byte(token: &Token, byte: u8) -> (r: bool)
    ensures
        r == is_the_byte(token@, byte),
{
    token.len() == 1 && token[0] == byte
}

/// Checks a proof that lists its steps by label.
fn check_normal(
    nset: &Nameset,
    scopes: &ScopeResult,
    own: usize,
    steps: &Vec<Token>,
) -> (r: Option<Diagnostic>)
    requires
        nset.wf(),
        scopes.wf(),
        own < scopes.frames().len(),
    ensures
        r == normal_from(nset, scopes@.frames, own as int, steps, 0, Seq::empty()),
{
    let mut stack: Vec<Vec<Atom>> = Vec::new();
    let mut i: usize = 0;
    proof {
        assert(strings(&stack) =~= Seq::<Seq<Atom>>::empty());
        scopes.lemma_view();
    }
    while i < steps.len()
        invariant
            nset.wf(),
            scopes.wf(),
            own < scopes.frames().len(),
            0 <= i <= steps@.len(),
            normal_from(nset, scopes@.frames, own as int, steps, 0, Seq::empty()) == normal_from(
                nset,
                scopes@.frames,
                own as int,
                steps,
                i as int,
                strings(&stack),
            ),
        decreases steps@.len() - i,
    {
        if is_byte(&steps[i], 63) {
            return Some(Diagnostic::ProofIncomplete);
        }
        let label = match nset.lookup_label(steps[i].as_slice()) {
            Some(l) => l.atom,
            None => {
                return Some(Diagnostic::StepMissing(i));
            },
        };
        match step_label(nset, scopes, own, label, &mut stack, i) {
            Some(d) => {
                return Some(d);
            },
            None => {},
        }
        i += 1;
    }
    check_end(scopes.frame(own), &stack)
}

/// Runs the step with number `number` of a compressed proof: the first
/// numbers stand for the mandatory hypotheses, the next for the labels that
/// the proof lists, the rest for the strings that were saved.
fn step_number(
    nset: &Nameset,
    scopes: &ScopeResult,
    own: usize,
    labels: &Vec<Atom>,
    saved: &Vec<Vec<Atom>>,
    number: usize,
    stack: &mut Vec<Vec<Atom>>,
    step: usize,
) -> (r: Option<Diagnostic>)
    requires
        nset.wf(),
        scopes.wf(),
        own < scopes.frames().len(),
        number >= 1,
    ensures
        match numbered(
            nset,
            scopes@.frames,
            own as int,
            labels@,
            strings(saved),
            number as int,
            strings(old(stack)),
            step,
        ) {
            Ok(next) => r is None && strings(final(stack)) == next,
            Err(d) => r == Some(d),
        },
{
    proof {
        scopes.lemma_view();
    }
    let current = scopes.frame(own);
    let ghost hyps = hyp_views(current.hyps@);
    let ghost before = strings(stack);
    let mut n: usize = number - 1;
    if n < current.hyps.len() {
        stack.push(copy_atoms(&current.hyps[n].expr));
        proof {
            assert(hyps[n as int] == hyp_view(&current.hyps@[n as int]));
            assert(strings(stack) =~= before.push(hyps[n as int].expr));
        }
        return None;
    }
    n = n - current.hyps.len();
    if n < labels.len() {
        return step_label(nset, scopes, own, labels[n], stack, step);
    }
    n = n - labels.len();
    if n < saved.len() {
        stack.push(copy_atoms(&saved[n]));
        proof {
            assert(strings(stack) =~= before.push(strings(saved)[n as int]));
        }
        return None;
    }
    Some(Diagnostic::ProofMalformedCompressed(step))
}

/// Where the run of a compressed proof stands.
struct Machine {
    stack: Vec<Vec<Atom>>,
    saved: Vec<Vec<Atom>>,
    number: usize,
    step: usize,
}

impl View for Machine {
    type V = Run;

    closed spec fn view(&self) -> Run {
        Run {
            stack: strings(&self.stack),
            saved: strings(&self.saved),
            number: self.number,
            step: self.step,
        }
    }
}

/// Reads one letter of a compressed proof.
fn letter(
    nset: &Nameset,
    scopes: &ScopeResult,
    own: usize,
    labels: &Vec<Atom>,
    machine: &mut Machine,
    c: u8,
) -> (r: Option<Diagnostic>)
    requires
        nset.wf(),
        scopes.wf(),
        own < scopes.frames().len(),
    ensures
        match lettered(nset, scopes@.frames, own as int, labels@, old(machine)@, c) {
            Ok(next) => r is None && final(machine)@ == next,
            Err(d) => r == Some(d),
        },
{
    if 65 <= c && c <= 84 {
        // A to T: the last digit.
        let digit: usize = (c - 65) as usize + 1;
        let full = match machine.number.checked_mul(20) {
            Some(m) => m.checked_add(digit),
            None => None,
        };
        match full {
            Some(n) => {
                match step_number(
                    nset,
                    scopes,
                    own,
                    labels,
                    &machine.saved,
                    n,
                    &mut machine.stack,
                    machine.step,
                ) {
                    Some(d) => {
                        return Some(d);
                    },
                    None => {},
                }
            },
            None => {
                return Some(Diagnostic::ProofMalformedCompressed(machine.step));
            },
        }
        machine.number = 0;
        if machine.step < usize::MAX {
            machine.step += 1;
        }
        None
    } else if 85 <= c && c <= 89 {
        // U to Y: a digit before the last.
        let digit: usize = (c - 85) as usize + 1;
        let more = match machine.number.checked_mul(5) {
            Some(m) => m.checked_add(digit),
            None => None,
        };
        match more {
            Some(n) => {
                machine.number = n;
                None
            },
            None => Some(Diagnostic::ProofMalformedCompressed(machine.step)),
        }
    } else if c == 90 {
        if machine.number != 0 || machine.stack.len() == 0 {
            return Some(Diagnostic::ProofMalformedCompressed(machine.step));
        }
        let ghost before = strings(&machine.saved);
        let ghost top = strings(&machine.stack).last();
        let copy = copy_atoms(&machine.stack[machine.stack.len() - 1]);
        machine.saved.push(copy);
        proof {
            assert(strings(&machine.saved) =~= before.push(top));
        }
        None
    } else if c == 63 {
        Some(Diagnostic::ProofIncomplete)
    } else {
        Some(Diagnostic::ProofMalformedCompressed(machine.step))
    }
}

/// Checks a compressed proof: the labels between the parentheses, then the
/// steps as numbers written with the letters A to Y, with Z to save the
/// string on top of the stack.
fn check_compressed(
    nset: &Nameset,
    scopes: &ScopeResult,
    own: usize,
    steps: &Vec<Token>,
) -> (r: Option<Diagnostic>)
    requires
        nset.wf(),
        scopes.wf(),
        own < scopes.frames().len(),
        steps@.len() > 0,
    ensures
        r == (match listed_from(nset, steps, 1, Seq::empty()) {
            Err(d) => Some(d),
            Ok(listed) => compressed_from(
                nset,
                scopes@.frames,
                own as int,
                listed.0,
                steps,
                listed.1,
                Run { stack: Seq::empty(), saved: Seq::empty(), number: 0, step: 0 },
            ),
        }),
{
    let mut labels: Vec<Atom> = Vec::new();
    let mut i: usize = 1;
    let mut closed = false;
    while i < steps.len() && !closed
        invariant
            nset.wf(),
            1 <= i <= steps@.len(),
            !closed ==> listed_from(nset, steps, 1, Seq::empty()) == listed_from(
                nset,
                steps,
                i as int,
                labels@,
            ),
            closed ==> listed_from(nset, steps, 1, Seq::empty()) == Ok::<
                (Seq<Atom>, int),
                Diagnostic,
            >((labels@, i as int)),
        decreases steps@.len() - i,
    {
        if is_byte(&steps[i], 41) {
            closed = true;
        } else {
            match nset.lookup_label(steps[i].as_slice()) {
                Some(l) => {
                    labels.push(l.atom);
                },
                None => {
                    return Some(Diagnostic::StepMissing(i));
                },
            }
        }
        i += 1;
    }
    if !closed {
        return Some(Diagnostic::ProofMalformedCompressed(i));
    }
    let mut machine = Machine { stack: Vec::new(), saved: Vec::new(), number: 0, step: 0 };
    proof {
        assert(strings(&machine.stack) =~= Seq::<Seq<Atom>>::empty());
        assert(strings(&machine.saved) =~= Seq::<Seq<Atom>>::empty());
        scopes.lemma_view();
    }
    let ghost first = i as int;
    let ghost goal = compressed_from(
        nset,
        scopes@.frames,
        own as int,
        labels@,
        steps,
        i as int,
        machine@,
    );
    while i < steps.len()
        invariant
            nset.wf(),
            scopes.wf(),
            own < scopes.frames().len(),
            1 <= i <= steps@.len(),
            listed_from(nset, steps, 1, Seq::empty()) == Ok::<(Seq<Atom>, int), Diagnostic>(
                (labels@, first),
            ),
            goal == compressed_from(
                nset,
                scopes@.frames,
                own as int,
                labels@,
                steps,
                first,
                Run { stack: Seq::empty(), saved: Seq::empty(), number: 0, step: 0 },
            ),
            goal == compressed_from(
                nset,
                scopes@.frames,
                own as int,
                labels@,
                steps,
                i as int,
                machine@,
            ),
        decreases steps@.len() - i,
    {
        let token = &steps[i];
        let ghost start = machine@;
        let mut k: usize = 0;
        while k < token.len()
            invariant
                nset.wf(),
                scopes.wf(),
                own < scopes.frames().len(),
                0 <= k <= token@.len(),
                0 <= i < steps@.len(),
                token@ == steps@[i as int]@,
                listed_from(nset, steps, 1, Seq::empty()) == Ok::<(Seq<Atom>, int), Diagnostic>(
                    (labels@, first),
                ),
                goal == compressed_from(
                    nset,
                    scopes@.frames,
                    own as int,
                    labels@,
                    steps,
                    first,
                    Run { stack: Seq::empty(), saved: Seq::empty(), number: 0, step: 0 },
                ),
                goal == compressed_from(
                    nset,
                    scopes@.frames,
                    own as int,
                    labels@,
                    steps,
                    i as int,
                    start,
                ),
                letters_from(nset, scopes@.frames, own as int, labels@, start, token@, 0)
                    == letters_from(
                    nset,
                    scopes@.frames,
                    own as int,
                    labels@,
                    machine@,
                    token@,
                    k as int,
                ),
            decreases token@.len() - k,
        {
            match letter(nset, scopes, own, &labels, &mut machine, token[k]) {
                Some(d) => {
                    return Some(d);
                },
                None => {},
            }
            k += 1;
        }
        i += 1;
    }
    if machine.number != 0 {
        return Some(Diagnostic::ProofMalformedCompressed(machine.step));
    }
    check_end(scopes.frame(own), &machine.stack)
}

/// Checks the proof of every `$p` anew. What `result` held is dropped. Each
/// proof that does not prove its statement earns the statement a
/// diagnostic.
pub fn verify(result: &mut VerifyResult, sset: &SegmentSet, nset: &Nameset, scopes: &ScopeResult)
    requires
        sset.wf(),
        nset.wf(),
        scopes.wf(),
    ensures
        final(result).found() == proof_problems(
            sset,
            nset,
            scopes@.frames,
            scopes@.frames.len() as int,
        ),
{
    result.diagnostics = Vec::new();
    let mut own: usize = 0;
    proof {
        scopes.lemma_view();
    }
    while own < scopes.frame_count()
        invariant
            sset.wf(),
            nset.wf(),
            scopes.wf(),
            scopes@.frames == frame_views(scopes.frames()),
            0 <= own <= scopes.frames().len(),
            result.diagnostics@ == proof_problems(sset, nset, scopes@.frames, own as int),
        decreases scopes.frames().len() - own,
    {
        let frame = scopes.frame(own);
        let ghost before = result.diagnostics@;
        let ghost view = scopes@.frames[own as int];
        proof {
            assert(view == frame_view(frame));
        }
        if frame.provable {
            match sset.statement(frame.address) {
                Some(sref) => {
                    let steps = &sref.statement.proof;
                    let found = if steps.len() == 0 {
                        Some(Diagnostic::MissingProof)
                    } else if is_byte(&steps[0], 40) {
                        check_compressed(nset, scopes, own, steps)
                    } else {
                        check_normal(nset, scopes, own, steps)
                    };
                    proof {
                        assert(found == proof_problem(nset, scopes@.frames, own as int, steps));
                    }
                    match found {
                        Some(d) => {
                            result.diagnostics.push((frame.address, d));
                            proof {
                                assert(result.diagnostics@ =~= before + seq![(frame.address, d)]);
                            }
                        },
                        None => {
                            proof {
                                assert(before + Seq::<(StatementAddress, Diagnostic)>::empty()
                                    =~= before);
                            }
                        },
                    }
                },
                None => {
                    proof {
                        assert(before + Seq::<(StatementAddress, Diagnostic)>::empty() =~= before);
                    }
                },
            }
        } else {
            proof {
                assert(before + Seq::<(StatementAddress, Diagnostic)>::empty() =~= before);
            }
        }
        own += 1;
    }
}

} // verus!
