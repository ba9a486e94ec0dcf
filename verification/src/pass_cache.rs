//! The discipline of the pass cache: which passes hold a result that is up
//! to date, and which are computed when a pass is asked for.

use vstd::prelude::*;

verus! {

/// The analysis passes.
#[derive(Clone, Copy, Debug, PartialEq, Eq, Structural)]
pub enum Pass {
    /// Names: symbols and labels.
    Name,
    /// Scopes and frames.
    Scope,
    /// Proofs.
    Verify,
    /// The outline.
    Outline,
    /// The grammar.
    Grammar,
    /// The statements as formulas.
    StmtParse,
}

/// The state of the cache: the passes whose result is up to date, and the
/// passes that were computed, in the order in which they were.
pub ghost struct CacheView {
    pub current: Set<Pass>,
    pub computed: Seq<Pass>,
}

/// The state after the source was read again: no result is up to date, and
/// nothing was computed for it.
pub open spec fn parsed(v: CacheView) -> CacheView {
    CacheView { current: Set::empty(), computed: v.computed }
}

/// The state after pass `p` was brought up to date: it is computed unless
/// its result is up to date already.
pub open spec fn ensured(v: CacheView, p: Pass) -> CacheView {
    if v.current.contains(p) {
        v
    } else {
        CacheView { current: v.current.insert(p), computed: v.computed.push(p) }
    }
}

/// The state after pass `p` was asked for: if its result is up to date,
/// nothing happens; otherwise the passes that it depends on are brought up
/// to date, in order, and then the pass itself.
pub open spec fn requested(v: CacheView, p: Pass) -> CacheView {
    if v.current.contains(p) {
        v
    } else {
        match p {
            Pass::Name => ensured(v, Pass::Name),
            Pass::Scope => ensured(ensured(v, Pass::Name), Pass::Scope),
            Pass::Verify => ensured(ensured(ensured(v, Pass::Name), Pass::Scope), Pass::Verify),
            Pass::Outline => ensured(v, Pass::Outline),
            Pass::Grammar => ensured(ensured(ensured(v, Pass::Name), Pass::Scope), Pass::Grammar),
            Pass::StmtParse => ensured(
                ensured(ensured(ensured(v, Pass::Name), Pass::Scope), Pass::Grammar),
                Pass::StmtParse,
            ),
        }
    }
}

/// How often `p` occurs in `passes`.
pub open spec fn occurrences(passes: Seq<Pass>, p: Pass) -> nat
    decreases passes.len(),
{
    if passes.len() == 0 {
        0
    } else {
        occurrences(passes.drop_last(), p) + if passes.last() == p {
            1nat
        } else {
            0nat
        }
    }
}

/// How often pass `p` was computed.
pub open spec fn times_computed(v: CacheView, p: Pass) -> nat {
    occurrences(v.computed, p)
}

/// Bringing a pass up to date computes that pass once if it was not up to
/// date, and no other pass.
pub proof fn lemma_ensured(v: CacheView, p: Pass, q: Pass)
    ensures
        ensured(v, p).current == v.current.insert(p),
        times_computed(ensured(v, p), q) == times_computed(v, q) + if p == q && !v.current.contains(
            p,
        ) {
            1nat
        } else {
            0nat
        },
{
    if v.current.contains(p) {
        assert(v.current.insert(p) =~= v.current);
    } else {
        assert(v.computed.push(p).drop_last() =~= v.computed);
    }
}

/// After the source was read again, the first request for a pass computes
/// it exactly once.
pub proof fn lemma_first_request_computes_once(v: CacheView, p: Pass)
    ensures
        requested(parsed(v), p).current.contains(p),
        times_computed(requested(parsed(v), p), p) == times_computed(v, p) + 1,
{
    let w = parsed(v);
    let w1 = ensured(w, Pass::Name);
    let w2 = ensured(w1, Pass::Scope);
    let w3 = ensured(w2, Pass::Grammar);
    lemma_ensured(w, Pass::Name, p);
    lemma_ensured(w, Pass::Outline, p);
    lemma_ensured(w1, Pass::Scope, p);
    lemma_ensured(w2, Pass::Verify, p);
    lemma_ensured(w2, Pass::Grammar, p);
    lemma_ensured(w3, Pass::StmtParse, p);
}

/// A request for a pass leaves its result up to date, and a further request
/// without reading the source again computes nothing.
pub proof fn lemma_second_request_computes_nothing(v: CacheView, p: Pass)
    ensures
        requested(v, p).current.contains(p),
        requested(requested(v, p), p) == requested(v, p),
{
    let w1 = ensured(v, Pass::Name);
    let w2 = ensured(w1, Pass::Scope);
    let w3 = ensured(w2, Pass::Grammar);
    lemma_ensured(v, Pass::Name, p);
    lemma_ensured(v, Pass::Outline, p);
    lemma_ensured(w1, Pass::Scope, p);
    lemma_ensured(w2, Pass::Verify, p);
    lemma_ensured(w2, Pass::Grammar, p);
    lemma_ensured(w3, Pass::StmtParse, p);
}

/// A request never makes a result out of date, and computes no pass whose
/// result is up to date.
pub proof fn lemma_request_keeps(v: CacheView, p: Pass, q: Pass)
    requires
        v.current.contains(q),
    ensures
        requested(v, p).current.contains(q),
        times_computed(requested(v, p), q) == times_computed(v, q),
{
    let w1 = ensured(v, Pass::Name);
    let w2 = ensured(w1, Pass::Scope);
    let w3 = ensured(w2, Pass::Grammar);
    lemma_ensured(v, Pass::Name, q);
    lemma_ensured(v, Pass::Outline, q);
    lemma_ensured(w1, Pass::Scope, q);
    lemma_ensured(w2, Pass::Verify, q);
    lemma_ensured(w2, Pass::Grammar, q);
    lemma_ensured(w3, Pass::StmtParse, q);
}

} // verus!
