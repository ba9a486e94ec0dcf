//! What holds of formula equality, unification, substitution and paths,
//! stated over the terms that formulas denote and over the formulas
//! themselves.

use crate::formula::substitute_term;
use crate::formula::tagged;
use crate::formula::term_at;
use crate::formula::term_eq;
use crate::formula::terms;
use crate::formula::unify_children;
use crate::formula::unify_term;
use crate::formula::Formula;
use crate::formula::FormulaView;
use crate::formula::Label;
use crate::formula::Substitutions;
use crate::formula::Term;
use crate::formula::TypeCode;
use vstd::prelude::*;
use vstd::std_specs::cmp::PartialEqSpec;

verus! {

/// Every term equals itself.
pub proof fn lemma_term_eq_reflexive(t: Term)
    ensures
        term_eq(t, t),
    decreases t,
{
    assert forall|k: int| 0 <= k < t.children.len() implies term_eq(
        #[trigger] t.children[k],
        t.children[k],
    ) by {
        lemma_term_eq_reflexive(t.children[k]);
    }
}

/// Term equality does not depend on the order of its arguments.
pub proof fn lemma_term_eq_symmetric(s: Term, o: Term)
    ensures
        term_eq(s, o) == term_eq(o, s),
    decreases s,
{
    if s.label == o.label && (s.children.len() > 0) == (o.children.len() > 0) {
        assert forall|k: int| 0 <= k < s.children.len() && k < o.children.len() implies term_eq(
            s.children[k],
            o.children[k],
        ) == term_eq(o.children[k], s.children[k]) by {
            lemma_term_eq_symmetric(s.children[k], o.children[k]);
        }
        if term_eq(s, o) {
            assert forall|k: int| 0 <= k < o.children.len() && k < s.children.len() implies term_eq(
                #[trigger] o.children[k],
                s.children[k],
            ) by {
                assert(term_eq(s.children[k], o.children[k]));
            }
        }
        if term_eq(o, s) {
            assert forall|k: int| 0 <= k < s.children.len() && k < o.children.len() implies term_eq(
                #[trigger] s.children[k],
                o.children[k],
            ) by {
                assert(term_eq(o.children[k], s.children[k]));
            }
        }
    }
}

/// A formula is equal to itself, and `f == g` holds exactly when `g == f`
/// does.
pub proof fn lemma_formula_eq(f: Formula, g: Formula)
    ensures
        f.eq_spec(&f),
        f.eq_spec(&g) == g.eq_spec(&f),
{
    lemma_term_eq_reflexive(f@.term);
    lemma_term_eq_symmetric(f@.term, g@.term);
}

/// `big` binds every label that `small` binds, to the same term.
pub open spec fn binds_all_of(big: Map<Label, Term>, small: Map<Label, Term>) -> bool {
    forall|l: Label| #[trigger] small.contains_key(l) ==> big.contains_key(l) && big[l] == small[l]
}

/// A successful match only adds bindings, and substituting its result, or
/// anything that binds as much, into the pattern gives a term equal to the
/// one matched.
pub proof fn lemma_unify_term_sound(
    s: Term,
    o: Term,
    subs: Map<Label, Term>,
    all: Map<Label, Term>,
)
    requires
        unify_term(s, o, subs) is Some,
        binds_all_of(all, unify_term(s, o, subs)->0),
    ensures
        binds_all_of(unify_term(s, o, subs)->0, subs),
        term_eq(substitute_term(o, all), s),
    decreases o, 1nat,
{
    let m = unify_term(s, o, subs)->0;
    if o.is_variable {
        assert(m.contains_key(o.label));
        if subs.contains_key(o.label) {
            lemma_term_eq_symmetric(s, subs[o.label]);
        } else {
            lemma_term_eq_reflexive(s);
        }
    } else {
        lemma_unify_children_sound(s, o, 0, subs, all);
        let r = substitute_term(o, all);
        assert forall|k: int| 0 <= k < r.children.len() && k < s.children.len() implies term_eq(
            #[trigger] r.children[k],
            s.children[k],
        ) by {}
    }
}

/// The same, of the children from position `k` on.
pub proof fn lemma_unify_children_sound(
    s: Term,
    o: Term,
    k: int,
    subs: Map<Label, Term>,
    all: Map<Label, Term>,
)
    requires
        0 <= k,
        unify_children(s, o, k, subs) is Some,
        binds_all_of(all, unify_children(s, o, k, subs)->0),
    ensures
        binds_all_of(unify_children(s, o, k, subs)->0, subs),
        forall|j: int|
            k <= j < s.children.len() && j < o.children.len() ==> term_eq(
                substitute_term(#[trigger] o.children[j], all),
                s.children[j],
            ),
    decreases o, 0nat, o.children.len() - k,
{
    if k < s.children.len() && k < o.children.len() {
        let next = unify_term(s.children[k], o.children[k], subs)->0;
        let m = unify_children(s, o, k + 1, next)->0;
        lemma_unify_children_sound(s, o, k + 1, next, all);
        assert(binds_all_of(all, next)) by {
            assert forall|l: Label| #[trigger] next.contains_key(l) implies all.contains_key(l)
                && all[l] == next[l] by {
                assert(m.contains_key(l));
            }
        }
        lemma_unify_term_sound(s.children[k], o.children[k], subs, all);
        assert(binds_all_of(m, subs)) by {
            assert forall|l: Label| #[trigger] subs.contains_key(l) implies m.contains_key(l)
                && m[l] == subs[l] by {
                assert(next.contains_key(l));
            }
        }
    }
}

/// Unification is sound: when `a` unifies with the pattern `b`, substituting
/// the result into `b` gives a term equal to `a`.
pub proof fn lemma_unify_sound(a: Term, b: Term)
    requires
        unify_term(a, b, Map::empty()) is Some,
    ensures
        term_eq(substitute_term(b, unify_term(a, b, Map::empty())->0), a),
{
    lemma_unify_term_sound(a, b, Map::empty(), unify_term(a, b, Map::empty())->0);
}

/// The terms of substitutions that were made from terms are those terms.
pub proof fn lemma_terms_tagged(ts: Map<Label, Term>, typecode: TypeCode)
    ensures
        terms(tagged(ts, typecode)) == ts,
{
    assert(terms(tagged(ts, typecode)) =~= ts);
}

/// Unification is sound, of formulas: when `a.unify(&b)` gives `subs`, then
/// `b.substitute(&subs)`, here `back`, is equal to `a`.
pub proof fn lemma_unify_substitute(a: Formula, b: Formula, subs: Substitutions, back: Formula)
    requires
        unify_term(a@.term, b@.term, Map::empty()) is Some,
        subs@ == tagged(unify_term(a@.term, b@.term, Map::empty())->0, a@.typecode),
        back@.term == substitute_term(b@.term, terms(subs@)),
    ensures
        back.eq_spec(&a),
{
    lemma_terms_tagged(unify_term(a@.term, b@.term, Map::empty())->0, a@.typecode);
    lemma_unify_sound(a@.term, b@.term);
}

/// Whether `label` marks a variable node anywhere in `t`.
pub open spec fn occurs_as_variable(t: Term, label: Label) -> bool
    decreases t,
{
    (t.is_variable && t.label == label) || exists|k: int|
        0 <= k < t.children.len() && occurs_as_variable(#[trigger] t.children[k], label)
}

/// Substitutions that bind none of the variables of a term leave it as it
/// is.
pub proof fn lemma_substitute_unbound(t: Term, subs: Map<Label, Term>)
    requires
        forall|l: Label| subs.contains_key(l) ==> !occurs_as_variable(t, l),
    ensures
        substitute_term(t, subs) == t,
        term_eq(substitute_term(t, subs), t),
    decreases t,
{
    let r = substitute_term(t, subs);
    if t.is_variable && subs.contains_key(t.label) {
        assert(occurs_as_variable(t, t.label));
    }
    assert forall|k: int| 0 <= k < t.children.len() implies r.children[k] == t.children[k] by {
        assert forall|l: Label| subs.contains_key(l) implies !occurs_as_variable(
            t.children[k],
            l,
        ) by {
            assert(!occurs_as_variable(t, l));
        }
        lemma_substitute_unbound(t.children[k], subs);
    }
    assert(r.children =~= t.children);
    lemma_term_eq_reflexive(t);
}

/// Substitution does nothing without the variables of the formula: when
/// `subs` binds no label that marks a variable node of `f`, then
/// `f.substitute(&subs)`, here `same`, is `f`.
pub proof fn lemma_substitute_nothing(f: Formula, subs: Substitutions, same: Formula)
    requires
        forall|l: Label| subs@.contains_key(l) ==> !occurs_as_variable(f@.term, l),
        same@ == (FormulaView {
            typecode: f@.typecode,
            term: substitute_term(f@.term, terms(subs@)),
        }),
    ensures
        same@ == f@,
        same.eq_spec(&f),
{
    lemma_substitute_unbound(f@.term, terms(subs@));
}

/// The labels of the holes of a pattern: its variable nodes that no other
/// variable node lies above.
pub open spec fn holes(t: Term) -> Set<Label>
    decreases t,
{
    if t.is_variable {
        set![t.label]
    } else {
        Set::new(
            |l: Label|
                exists|k: int| 0 <= k < t.children.len() && holes(#[trigger] t.children[k]).contains(l),
        )
    }
}

/// Every hole of the pattern has a label of its own.
pub open spec fn linear(t: Term) -> bool
    decreases t,
{
    t.is_variable || {
        &&& forall|k: int| 0 <= k < t.children.len() ==> linear(#[trigger] t.children[k])
        &&& forall|j: int, k: int|
            0 <= j < k < t.children.len() ==> holes(t.children[j]).disjoint(holes(t.children[k]))
    }
}

/// `b` is `a` with some subterms replaced by variable nodes.
pub open spec fn generalizes(b: Term, a: Term) -> bool
    decreases b,
{
    b.is_variable || {
        &&& b.label == a.label
        &&& b.children.len() == a.children.len()
        &&& forall|k: int|
            0 <= k < b.children.len() ==> generalizes(#[trigger] b.children[k], a.children[k])
    }
}

/// A term matches each of its generalizations whose holes are distinct and
/// not yet bound; the match binds exactly the holes.
pub proof fn lemma_unify_term_complete(a: Term, b: Term, subs: Map<Label, Term>)
    requires
        generalizes(b, a),
        linear(b),
        holes(b).disjoint(subs.dom()),
    ensures
        unify_term(a, b, subs) is Some,
        unify_term(a, b, subs)->0.dom() == subs.dom().union(holes(b)),
    decreases b, 1nat,
{
    if b.is_variable {
        assert(holes(b).contains(b.label));
        assert(!subs.dom().contains(b.label));
        assert(subs.insert(b.label, a).dom() =~= subs.dom().union(holes(b)));
    } else {
        lemma_unify_children_complete(a, b, 0, subs);
        let m = unify_children(a, b, 0, subs)->0;
        assert(m.dom() =~= subs.dom().union(holes(b))) by {
            assert forall|l: Label| m.dom().contains(l) == subs.dom().union(holes(b)).contains(
                l,
            ) by {
                if m.dom().contains(l) && !subs.dom().contains(l) {
                    let k = choose|k: int|
                        0 <= k < b.children.len() && holes(#[trigger] b.children[k]).contains(l);
                }
                if holes(b).contains(l) {
                    let k = choose|k: int|
                        0 <= k < b.children.len() && holes(#[trigger] b.children[k]).contains(l);
                }
            }
        }
    }
}

/// The same, of the children from position `k` on.
pub proof fn lemma_unify_children_complete(a: Term, b: Term, k: int, subs: Map<Label, Term>)
    requires
        0 <= k,
        !b.is_variable,
        generalizes(b, a),
        linear(b),
        forall|j: int|
            k <= j < b.children.len() ==> holes(#[trigger] b.children[j]).disjoint(subs.dom()),
    ensures
        unify_children(a, b, k, subs) is Some,
        forall|l: Label|
            unify_children(a, b, k, subs)->0.dom().contains(l) <==> subs.dom().contains(l) || exists|
                j: int,
            |
                k <= j < b.children.len() && holes(#[trigger] b.children[j]).contains(l),
    decreases b, 0nat, b.children.len() - k,
{
    if k < b.children.len() {
        lemma_unify_term_complete(a.children[k], b.children[k], subs);
        let next = unify_term(a.children[k], b.children[k], subs)->0;
        assert forall|j: int| k + 1 <= j < b.children.len() implies holes(
            #[trigger] b.children[j],
        ).disjoint(next.dom()) by {
            assert(holes(b.children[k]).disjoint(holes(b.children[j])));
            assert(holes(b.children[j]).disjoint(subs.dom()));
        }
        lemma_unify_children_complete(a, b, k + 1, next);
        let m = unify_children(a, b, k + 1, next)->0;
        assert forall|l: Label|
            m.dom().contains(l) <==> subs.dom().contains(l) || exists|j: int|
                k <= j < b.children.len() && holes(#[trigger] b.children[j]).contains(l) by {
            if m.dom().contains(l) {
                if next.dom().contains(l) {
                    if !subs.dom().contains(l) {
                        assert(holes(b.children[k]).contains(l));
                    }
                } else {
                    let j = choose|j: int|
                        k + 1 <= j < b.children.len() && holes(#[trigger] b.children[j]).contains(l);
                    assert(k <= j < b.children.len() && holes(b.children[j]).contains(l));
                }
            }
            if subs.dom().contains(l) {
                assert(next.dom().contains(l));
            }
            if exists|j: int|
                k <= j < b.children.len() && holes(#[trigger] b.children[j]).contains(l) {
                let j = choose|j: int|
                    k <= j < b.children.len() && holes(#[trigger] b.children[j]).contains(l);
                if j == k {
                    assert(next.dom().contains(l));
                } else {
                    assert(k + 1 <= j < b.children.len() && holes(b.children[j]).contains(l));
                }
            }
        }
    }
}

/// Unification is complete for generalizations: when `b` is `a` with some
/// subterms replaced by variable nodes, each under a label of its own, `a`
/// unifies with `b`.
pub proof fn lemma_unify_complete(a: Term, b: Term)
    requires
        generalizes(b, a),
        linear(b),
    ensures
        unify_term(a, b, Map::empty()) is Some,
        unify_term(a, b, Map::empty())->0.dom() == holes(b),
{
    lemma_unify_term_complete(a, b, Map::empty());
    assert(Map::<Label, Term>::empty().dom().union(holes(b)) =~= holes(b));
}

/// Following a path and then another is following the two joined.
pub proof fn lemma_term_at_concat(t: Term, first: Seq<usize>, second: Seq<usize>)
    ensures
        term_at(t, first + second) == match term_at(t, first) {
            Some(u) => term_at(u, second),
            None => None,
        },
    decreases first.len(),
{
    if first.len() == 0 {
        assert(first + second =~= second);
    } else {
        assert((first + second)[0] == first[0]);
        assert((first + second).skip(1) =~= first.skip(1) + second);
        if 1 <= first[0] <= t.children.len() {
            lemma_term_at_concat(t.children[first[0] - 1], first.skip(1), second);
        }
    }
}

} // verus!
