//! What a proof proves: how the steps of a proof work on a stack of math
//! strings, and what a proof earns that does not leave its statement.

use crate::diag::Diagnostic;
use crate::nameck::Atom;
use crate::nameck::Nameset;
use crate::parser::StatementAddress;
use crate::parser::Token;
use crate::scopes::first_frame;
use crate::scopes::names_variable;
use crate::scopes::FrameView;
use crate::scopes::HypView;
use crate::segment_set::SegmentSet;
use vstd::prelude::*;

verus! {

/// The stack of a proof: math strings, the last on top.
pub type Stack = Seq<Seq<Atom>>;

/// The strings as sequences.
pub open spec fn strings(stack: &Vec<Vec<Atom>>) -> Stack {
    Seq::new(stack@.len(), |i: int| stack@[i]@)
}

/// The place of the first of the atoms from `i` on that is `atom`.
pub open spec fn place_of(atoms: Seq<Atom>, atom: Atom, i: int) -> Option<int>
    decreases atoms.len() - i,
{
    if i < 0 || i >= atoms.len() {
        None
    } else if atoms[i] == atom {
        Some(i)
    } else {
        place_of(atoms, atom, i + 1)
    }
}

/// The math string `expr` from symbol `i` on, behind `read`, with each of
/// the variables `variables` replaced by the string that `values` holds for
/// it. The typecode, which is the first symbol, stays.
pub open spec fn substituted_from(
    expr: Seq<Atom>,
    variables: Seq<Atom>,
    values: Stack,
    i: int,
    read: Seq<Atom>,
) -> Seq<Atom>
    decreases expr.len() - i,
{
    if i < 0 || i >= expr.len() {
        read
    } else {
        match (if i == 0 {
            None
        } else {
            place_of(variables, expr[i], 0)
        }) {
            Some(v) => substituted_from(
                expr,
                variables,
                values,
                i + 1,
                read + if v < values.len() {
                    values[v]
                } else {
                    Seq::empty()
                },
            ),
            None => substituted_from(expr, variables, values, i + 1, read.push(expr[i])),
        }
    }
}

/// The math string `expr` with the variables replaced.
pub open spec fn substituted(expr: Seq<Atom>, variables: Seq<Atom>, values: Stack) -> Seq<Atom> {
    substituted_from(expr, variables, values, 0, Seq::empty())
}

/// Whether the pair of variables is among the pairs, in either order.
pub open spec fn known_distinct(pairs: Seq<(Atom, Atom)>, a: Atom, b: Atom) -> bool {
    exists|i: int|
        0 <= i < pairs.len() && ((#[trigger] pairs[i]) == (a, b) || pairs[i] == (b, a))
}

/// Whether every variable of `x` is another variable than every variable of
/// `y`, and known to be distinct from it.
pub open spec fn all_distinct_of(
    nset: &Nameset,
    pairs: Seq<(Atom, Atom)>,
    x: Seq<Atom>,
    y: Seq<Atom>,
) -> bool {
    forall|i: int, k: int|
        #![trigger x[i], y[k]]
        0 <= i < x.len() && 0 <= k < y.len() && names_variable(nset, x[i]) && names_variable(
            nset,
            y[k],
        ) ==> x[i] != y[k] && known_distinct(pairs, x[i], y[k])
}

/// What the variables of an assertion stand for.
pub ghost struct Bound {
    pub variables: Seq<Atom>,
    pub values: Stack,
}

/// What the variables of an assertion stand for, given what those of the
/// hypotheses before hypothesis `i` stand for, when the hypotheses are
/// matched with the stack from entry `base` on: a floating hypothesis fixes
/// what its variable stands for, and the entry has to have its typecode; an
/// essential hypothesis, with the variables replaced, has to be the entry.
pub open spec fn bound_from(
    hyps: Seq<HypView>,
    stack: Stack,
    base: int,
    i: int,
    b: Bound,
    step: usize,
) -> Result<Bound, Diagnostic>
    decreases hyps.len() - i,
{
    if i < 0 || i >= hyps.len() {
        Ok(b)
    } else {
        let hyp = hyps[i];
        let entry = stack[base + i];
        if hyp.is_float {
            if hyp.expr.len() != 2 || entry.len() == 0 || entry[0] != hyp.expr[0] {
                Err(Diagnostic::StepHypothesisMismatch(step))
            } else {
                bound_from(
                    hyps,
                    stack,
                    base,
                    i + 1,
                    Bound {
                        variables: b.variables.push(hyp.expr[1]),
                        values: b.values.push(entry.subrange(1, entry.len() as int)),
                    },
                    step,
                )
            }
        } else if substituted(hyp.expr, b.variables, b.values) != entry {
            Err(Diagnostic::StepHypothesisMismatch(step))
        } else {
            bound_from(hyps, stack, base, i + 1, b, step)
        }
    }
}

/// Whether the distinct-variable conditions from condition `d` on hold of
/// what the variables stand for: the variables of what the two variables of
/// a condition stand for are distinct, and known to be.
pub open spec fn conditions_hold(
    nset: &Nameset,
    known: Seq<(Atom, Atom)>,
    dv: Seq<(Atom, Atom)>,
    b: Bound,
    d: int,
) -> bool
    decreases dv.len() - d,
{
    if d < 0 || d >= dv.len() {
        true
    } else {
        (match (place_of(b.variables, dv[d].0, 0), place_of(b.variables, dv[d].1, 0)) {
            (Some(x), Some(y)) => x < b.values.len() && y < b.values.len() ==> all_distinct_of(
                nset,
                known,
                b.values[x],
                b.values[y],
            ),
            _ => true,
        }) && conditions_hold(nset, known, dv, b, d + 1)
    }
}

/// The stack once the assertion of frame `used` has been applied in a proof
/// of the assertion of frame `current`: its hypotheses are taken off the
/// stack and its statement is put on, with the variables replaced.
pub open spec fn applied(
    nset: &Nameset,
    used: FrameView,
    current: FrameView,
    stack: Stack,
    step: usize,
) -> Result<Stack, Diagnostic> {
    if stack.len() < used.hyps.len() {
        Err(Diagnostic::ProofUnderflow(step))
    } else {
        let base = stack.len() - used.hyps.len();
        match bound_from(
            used.hyps,
            stack,
            base,
            0,
            Bound { variables: Seq::empty(), values: Seq::empty() },
            step,
        ) {
            Err(d) => Err(d),
            Ok(b) => if !conditions_hold(nset, current.scope_dv, used.dv, b, 0) {
                Err(Diagnostic::ProofDvViolation(step))
            } else {
                Ok(stack.subrange(0, base).push(substituted(used.expr, b.variables, b.values)))
            },
        }
    }
}

/// The place of the first hypothesis from `i` on that has the label.
pub open spec fn first_hyp(hyps: Seq<HypView>, label: Atom, i: int) -> Option<int>
    decreases hyps.len() - i,
{
    if i < 0 || i >= hyps.len() {
        None
    } else if hyps[i].label == label {
        Some(i)
    } else {
        first_hyp(hyps, label, i + 1)
    }
}

/// The stack once the step that names `label` has been run in the proof of
/// frame `own`: a hypothesis in force is put on the stack, an assertion
/// with an earlier frame is applied.
pub open spec fn stepped(
    nset: &Nameset,
    frames: Seq<FrameView>,
    own: int,
    label: Atom,
    stack: Stack,
    step: usize,
) -> Result<Stack, Diagnostic> {
    match first_hyp(frames[own].scope_hyps, label, 0) {
        Some(i) => Ok(stack.push(frames[own].scope_hyps[i].expr)),
        None => match first_frame(frames, label, 0) {
            Some(f) => if f < own {
                applied(nset, frames[f], frames[own], stack, step)
            } else {
                Err(Diagnostic::StepMissing(step))
            },
            None => Err(Diagnostic::StepMissing(step)),
        },
    }
}

/// What the end of a proof earns: the stack has to hold one math string,
/// the statement.
pub open spec fn end_problem(current: FrameView, stack: Stack) -> Option<Diagnostic> {
    if stack.len() != 1 {
        Some(Diagnostic::ProofExcessEnd)
    } else if stack[0] != current.expr {
        Some(Diagnostic::ProofWrongResult)
    } else {
        None
    }
}

/// Whether the token is the one byte.
pub open spec fn is_the_byte(token: Seq<u8>, byte: u8) -> bool {
    token.len() == 1 && token[0] == byte
}

/// What a proof earns that lists its steps by label, from step `i` on.
pub open spec fn normal_from(
    nset: &Nameset,
    frames: Seq<FrameView>,
    own: int,
    steps: &Vec<Token>,
    i: int,
    stack: Stack,
) -> Option<Diagnostic>
    decreases steps@.len() - i,
{
    if i < 0 || i >= steps@.len() {
        end_problem(frames[own], stack)
    } else if is_the_byte(steps@[i]@, 63) {
        Some(Diagnostic::ProofIncomplete)
    } else {
        match nset.label(steps@[i]@) {
            None => Some(Diagnostic::StepMissing(i as usize)),
            Some(l) => match stepped(nset, frames, own, l.atom, stack, i as usize) {
                Err(d) => Some(d),
                Ok(next) => normal_from(nset, frames, own, steps, i + 1, next),
            },
        }
    }
}

/// The labels that a compressed proof lists, from token `i` on, behind
/// `read`, and the place of the token behind the `)` that closes the list;
/// or the diagnostic that the list earns.
pub open spec fn listed_from(nset: &Nameset, steps: &Vec<Token>, i: int, read: Seq<Atom>) -> Result<
    (Seq<Atom>, int),
    Diagnostic,
>
    decreases steps@.len() - i,
{
    if i < 0 || i >= steps@.len() {
        Err(Diagnostic::ProofMalformedCompressed(if i < 0 { 0usize } else { i as usize }))
    } else if is_the_byte(steps@[i]@, 41) {
        Ok((read, i + 1))
    } else {
        match nset.label(steps@[i]@) {
            Some(l) => listed_from(nset, steps, i + 1, read.push(l.atom)),
            None => Err(Diagnostic::StepMissing(i as usize)),
        }
    }
}

/// The stack once the step with the number `number` of a compressed proof
/// has been run: the first numbers stand for the mandatory hypotheses, the
/// next for the labels that the proof lists, the rest for the strings that
/// were saved.
pub open spec fn numbered(
    nset: &Nameset,
    frames: Seq<FrameView>,
    own: int,
    labels: Seq<Atom>,
    saved: Stack,
    number: int,
    stack: Stack,
    step: usize,
) -> Result<Stack, Diagnostic> {
    let hyps = frames[own].hyps;
    let n = number - 1;
    if n < hyps.len() {
        Ok(stack.push(hyps[n].expr))
    } else if n - hyps.len() < labels.len() {
        stepped(nset, frames, own, labels[n - hyps.len()], stack, step)
    } else if n - hyps.len() - labels.len() < saved.len() {
        Ok(stack.push(saved[n - hyps.len() - labels.len()]))
    } else {
        Err(Diagnostic::ProofMalformedCompressed(step))
    }
}

/// Where the run of a compressed proof stands: the stack, the strings that
/// were saved, the number that is being read, and the number of steps that
/// were run.
pub ghost struct Run {
    pub stack: Stack,
    pub saved: Stack,
    pub number: usize,
    pub step: usize,
}

/// The run once the letter `c` has been read: A to T end a number, which is
/// run as a step; U to Y go on with it; Z saves the string on top of the
/// stack; `?` stands for a step that is not known.
pub open spec fn lettered(
    nset: &Nameset,
    frames: Seq<FrameView>,
    own: int,
    labels: Seq<Atom>,
    run: Run,
    c: u8,
) -> Result<Run, Diagnostic> {
    if 65 <= c <= 84 {
        if run.number * 20 + (c - 65 + 1) > usize::MAX {
            Err(Diagnostic::ProofMalformedCompressed(run.step))
        } else {
            match numbered(
                nset,
                frames,
                own,
                labels,
                run.saved,
                run.number * 20 + (c - 65 + 1),
                run.stack,
                run.step,
            ) {
                Err(d) => Err(d),
                Ok(stack) => Ok(
                    Run {
                        stack,
                        saved: run.saved,
                        number: 0,
                        step: if run.step < usize::MAX {
                            (run.step + 1) as usize
                        } else {
                            run.step
                        },
                    },
                ),
            }
        }
    } else if 85 <= c <= 89 {
        if run.number * 5 + (c - 85 + 1) > usize::MAX {
            Err(Diagnostic::ProofMalformedCompressed(run.step))
        } else {
            Ok(Run { number: (run.number * 5 + (c - 85 + 1)) as usize, ..run })
        }
    } else if c == 90 {
        if run.number != 0 || run.stack.len() == 0 {
            Err(Diagnostic::ProofMalformedCompressed(run.step))
        } else {
            Ok(Run { saved: run.saved.push(run.stack.last()), ..run })
        }
    } else if c == 63 {
        Err(Diagnostic::ProofIncomplete)
    } else {
        Err(Diagnostic::ProofMalformedCompressed(run.step))
    }
}

/// The run once the letters of a token from letter `k` on have been read.
pub open spec fn letters_from(
    nset: &Nameset,
    frames: Seq<FrameView>,
    own: int,
    labels: Seq<Atom>,
    run: Run,
    token: Seq<u8>,
    k: int,
) -> Result<Run, Diagnostic>
    decreases token.len() - k,
{
    if k < 0 || k >= token.len() {
        Ok(run)
    } else {
        match lettered(nset, frames, own, labels, run, token[k]) {
            Err(d) => Err(d),
            Ok(next) => letters_from(nset, frames, own, labels, next, token, k + 1),
        }
    }
}

/// What a compressed proof earns from token `i` on, behind the list of its
/// labels.
pub open spec fn compressed_from(
    nset: &Nameset,
    frames: Seq<FrameView>,
    own: int,
    labels: Seq<Atom>,
    steps: &Vec<Token>,
    i: int,
    run: Run,
) -> Option<Diagnostic>
    decreases steps@.len() - i,
{
    if i < 0 || i >= steps@.len() {
        if run.number != 0 {
            Some(Diagnostic::ProofMalformedCompressed(run.step))
        } else {
            end_problem(frames[own], run.stack)
        }
    } else {
        match letters_from(nset, frames, own, labels, run, steps@[i]@, 0) {
            Err(d) => Some(d),
            Ok(next) => compressed_from(nset, frames, own, labels, steps, i + 1, next),
        }
    }
}

/// What the proof of the assertion of frame `own` earns: nothing, if its
/// steps leave the statement on the stack. A proof that starts with `(` is
/// compressed.
pub open spec fn proof_problem(
    nset: &Nameset,
    frames: Seq<FrameView>,
    own: int,
    steps: &Vec<Token>,
) -> Option<Diagnostic> {
    if steps@.len() == 0 {
        Some(Diagnostic::MissingProof)
    } else if is_the_byte(steps@[0]@, 40) {
        match listed_from(nset, steps, 1, Seq::empty()) {
            Err(d) => Some(d),
            Ok(listed) => compressed_from(
                nset,
                frames,
                own,
                listed.0,
                steps,
                listed.1,
                Run { stack: Seq::empty(), saved: Seq::empty(), number: 0, step: 0 },
            ),
        }
    } else {
        normal_from(nset, frames, own, steps, 0, Seq::empty())
    }
}

/// What the proofs of the first `n` frames earn, in the order of the
/// frames: for each frame of a `$p` whose statement the database holds,
/// what its proof earns.
pub open spec fn proof_problems(
    sset: &SegmentSet,
    nset: &Nameset,
    frames: Seq<FrameView>,
    n: int,
) -> Seq<(StatementAddress, Diagnostic)>
    decreases n,
{
    if n <= 0 || n > frames.len() {
        Seq::empty()
    } else {
        let frame = frames[n - 1];
        proof_problems(sset, nset, frames, n - 1) + (if frame.provable {
            match sset.statement_at(frame.address) {
                Some(st) => match proof_problem(nset, frames, n - 1, &st.proof) {
                    Some(d) => seq![(frame.address, d)],
                    None => Seq::empty(),
                },
                None => Seq::empty(),
            }
        } else {
            Seq::empty()
        })
    }
}

} // verus!
