//! What it means that the rules of a grammar derive a string of symbols, and
//! why a chart that no rule can add to holds a node for everything that the
//! rules derive.

use crate::chart::Chart;
use crate::flatten::flatten;
use crate::flatten::flatten_from;
use crate::flatten::flattenable;
use crate::flatten::variables_before;
use crate::formula::Symbol;
use crate::formula::Term;
use crate::grammar::rule_syntax;
use crate::grammar::Rule;
use crate::syntax::Syntax;
use vstd::prelude::*;

verus! {

/// Whether symbol `j` of the rule stands for itself in what the rule
/// derives: every symbol of a floating hypothesis does, and every constant.
pub open spec fn terminal(rule: &Rule, j: int) -> bool {
    rule.is_float || !rule.symbols@[j].is_variable
}

/// Whether `mid` cuts a stretch that is not empty off the front of the input
/// from `pos` to `end`.
pub open spec fn cuts(pos: int, mid: int, end: int) -> bool {
    0 <= pos < mid <= end
}

/// Whether `t` is a formula of the typecode at place `tc` that stands for
/// the input from `start` to `end`: its label is that of a rule of the
/// typecode, it is marked as a variable exactly if the rule is a floating
/// hypothesis, and the rule derives that stretch of the input with the
/// children of `t` for its variables.
pub open spec fn derivation(
    rules: Seq<Rule>,
    t: Term,
    tc: int,
    input: Seq<Symbol>,
    start: int,
    end: int,
) -> bool
    decreases t, 1nat, 0nat,
{
    exists|r: int|
        0 <= r < rules.len() && (#[trigger] rules[r]).typecode == tc && rules[r].label == t.label
            && t.is_variable == rules[r].is_float && derived_from(
            rules,
            t,
            r,
            0,
            0,
            input,
            start,
            end,
        )
}

/// Whether the symbols of rule `r` from symbol `j` on derive the input from
/// `pos` to `end`, the variables standing for the children of `t` from child
/// `c` on: a symbol that stands for itself is the next symbol of the input,
/// and a variable covers a stretch that its child is a formula for, of the
/// typecode of the variable.
pub open spec fn derived_from(
    rules: Seq<Rule>,
    t: Term,
    r: int,
    j: int,
    c: int,
    input: Seq<Symbol>,
    pos: int,
    end: int,
) -> bool
    decreases t, 0nat, rules[r].symbols@.len() - j,
{
    if !(0 <= r < rules.len()) {
        false
    } else if j < 0 || j >= rules[r].symbols@.len() {
        pos == end && c == t.children.len()
    } else if terminal(&rules[r], j) {
        0 <= pos < end && end <= input.len() && input[pos] == rules[r].symbols@[j].atom
            && derived_from(rules, t, r, j + 1, c, input, pos + 1, end)
    } else {
        0 <= c < t.children.len() && exists|mid: int|
            #[trigger] cuts(pos, mid, end) && end <= input.len() && derivation(
                rules,
                t.children[c],
                rules[r].symbols@[j].typecode as int,
                input,
                pos,
                mid,
            ) && derived_from(rules, t, r, j + 1, c + 1, input, mid, end)
    }
}

/// Every rule gives its label the syntax that `syntax` gives it.
pub open spec fn agrees(rules: Seq<Rule>, syntax: Syntax) -> bool {
    forall|r: int|
        0 <= r < rules.len() ==> syntax.contains_key((#[trigger] rules[r]).label)
            && syntax[rules[r].label] == rule_syntax(rules[r].symbols@)
}

/// A floating hypothesis derives without children.
pub proof fn lemma_float_has_no_children(
    rules: Seq<Rule>,
    t: Term,
    r: int,
    j: int,
    c: int,
    input: Seq<Symbol>,
    pos: int,
    end: int,
)
    requires
        0 <= r < rules.len(),
        rules[r].is_float,
        derived_from(rules, t, r, j, c, input, pos, end),
    ensures
        c == t.children.len(),
    decreases rules[r].symbols@.len() - j,
{
    if 0 <= j < rules[r].symbols@.len() {
        lemma_float_has_no_children(rules, t, r, j + 1, c, input, pos + 1, end);
    }
}

/// A formula that the rules derive stands for the input that it is derived
/// for: written out, it gives that stretch of the input.
pub proof fn lemma_derivation_flatten(
    rules: Seq<Rule>,
    syntax: Syntax,
    t: Term,
    tc: int,
    input: Seq<Symbol>,
    start: int,
    end: int,
)
    requires
        agrees(rules, syntax),
        0 <= start <= end <= input.len(),
        derivation(rules, t, tc, input, start, end),
    ensures
        flatten(t, syntax) == input.subrange(start, end),
        flattenable(t, syntax),
    decreases t, 1nat, 0nat,
{
    let r = choose|r: int|
        0 <= r < rules.len() && (#[trigger] rules[r]).typecode == tc && rules[r].label == t.label
            && t.is_variable == rules[r].is_float && derived_from(
            rules,
            t,
            r,
            0,
            0,
            input,
            start,
            end,
        );
    if rules[r].is_float {
        lemma_float_has_no_children(rules, t, r, 0, 0, input, start, end);
    }
    lemma_derived_flatten(rules, syntax, t, r, 0, 0, input, start, end);
}

/// The same, of the symbols of a rule from symbol `j` on.
pub proof fn lemma_derived_flatten(
    rules: Seq<Rule>,
    syntax: Syntax,
    t: Term,
    r: int,
    j: int,
    c: int,
    input: Seq<Symbol>,
    pos: int,
    end: int,
)
    requires
        agrees(rules, syntax),
        0 <= r < rules.len(),
        rules[r].label == t.label,
        rules[r].is_float ==> t.children.len() == 0,
        0 <= j <= rules[r].symbols@.len(),
        0 <= pos <= end <= input.len(),
        t.children.len() > 0 ==> c == variables_before(rule_syntax(rules[r].symbols@), j),
        derived_from(rules, t, r, j, c, input, pos, end),
    ensures
        flatten_from(t, syntax, j, c) == input.subrange(pos, end),
        t.children.len() > 0 ==> variables_before(
            rule_syntax(rules[r].symbols@),
            rules[r].symbols@.len() as int,
        ) == t.children.len(),
        forall|k: int| c <= k < t.children.len() ==> flattenable(#[trigger] t.children[k], syntax),
    decreases t, 0nat, rules[r].symbols@.len() - j,
{
    let symbols = rules[r].symbols@;
    let tokens = rule_syntax(symbols);
    if j >= symbols.len() {
        assert(flatten_from(t, syntax, j, c) =~= input.subrange(pos, end));
    } else if terminal(&rules[r], j) {
        lemma_derived_flatten(rules, syntax, t, r, j + 1, c, input, pos + 1, end);
        assert(flatten_from(t, syntax, j, c) == seq![tokens[j].atom] + flatten_from(
            t,
            syntax,
            j + 1,
            c,
        ));
        assert(seq![input[pos]] + input.subrange(pos + 1, end) =~= input.subrange(pos, end));
    } else {
        let mid = choose|mid: int|
            #[trigger] cuts(pos, mid, end) && end <= input.len() && derivation(
                rules,
                t.children[c],
                symbols[j].typecode as int,
                input,
                pos,
                mid,
            ) && derived_from(rules, t, r, j + 1, c + 1, input, mid, end);
        lemma_derivation_flatten(
            rules,
            syntax,
            t.children[c],
            symbols[j].typecode as int,
            input,
            pos,
            mid,
        );
        lemma_derived_flatten(rules, syntax, t, r, j + 1, c + 1, input, mid, end);
        assert(input.subrange(pos, mid) + input.subrange(mid, end) =~= input.subrange(pos, end));
        assert forall|k: int| c <= k < t.children.len() implies flattenable(
            #[trigger] t.children[k],
            syntax,
        ) by {}
    }
}

/// What is derived with some children is derived with any children that
/// are the same from child `c` on.
pub proof fn lemma_derived_same_children(
    rules: Seq<Rule>,
    t: Term,
    u: Term,
    r: int,
    j: int,
    c: int,
    input: Seq<Symbol>,
    pos: int,
    end: int,
)
    requires
        0 <= c,
        t.children.len() == u.children.len(),
        forall|k: int| c <= k < t.children.len() ==> t.children[k] == u.children[k],
        derived_from(rules, t, r, j, c, input, pos, end),
    ensures
        derived_from(rules, u, r, j, c, input, pos, end),
    decreases rules[r].symbols@.len() - j,
{
    if !(0 <= r < rules.len()) {
    } else if j < 0 || j >= rules[r].symbols@.len() {
    } else if terminal(&rules[r], j) {
        lemma_derived_same_children(rules, t, u, r, j + 1, c, input, pos + 1, end);
    } else {
        let mid = choose|mid: int|
            #[trigger] cuts(pos, mid, end) && end <= input.len() && derivation(
                rules,
                t.children[c],
                rules[r].symbols@[j].typecode as int,
                input,
                pos,
                mid,
            ) && derived_from(rules, t, r, j + 1, c + 1, input, mid, end);
        lemma_derived_same_children(rules, t, u, r, j + 1, c + 1, input, mid, end);
        assert(derivation(
            rules,
            u.children[c],
            rules[r].symbols@[j].typecode as int,
            input,
            pos,
            mid,
        ));
    }
}

/// Whether the symbols of rule `r` from symbol `j` on can be matched with
/// the input from `pos` to `end`, each variable with a stretch that the
/// chart holds a node for.
pub open spec fn splittable(
    rules: Seq<Rule>,
    r: int,
    j: int,
    pos: int,
    end: int,
    chart: &Chart,
    input: Seq<Symbol>,
) -> bool
    decreases rules[r].symbols@.len() - j,
{
    if !(0 <= r < rules.len()) {
        false
    } else if j < 0 || j >= rules[r].symbols@.len() {
        pos == end
    } else if terminal(&rules[r], j) {
        0 <= pos < end && end <= input.len() && input[pos] == rules[r].symbols@[j].atom
            && splittable(rules, r, j + 1, pos + 1, end, chart, input)
    } else {
        exists|l: int|
            1 <= l <= end - pos && (#[trigger] chart.at(
                pos,
                l,
                rules[r].symbols@[j].typecode as int,
            )) is Some && splittable(rules, r, j + 1, pos + l, end, chart, input)
    }
}

/// Every symbol needs a symbol of the input at least.
pub proof fn lemma_splittable_needs(
    rules: Seq<Rule>,
    r: int,
    j: int,
    pos: int,
    end: int,
    chart: &Chart,
    input: Seq<Symbol>,
)
    requires
        0 <= j,
        splittable(rules, r, j, pos, end, chart, input),
    ensures
        0 <= r < rules.len(),
        j <= rules[r].symbols@.len() ==> end - pos >= rules[r].symbols@.len() - j,
        j >= rules[r].symbols@.len() ==> pos == end,
    decreases rules[r].symbols@.len() - j,
{
    if j < rules[r].symbols@.len() {
        if terminal(&rules[r], j) {
            lemma_splittable_needs(rules, r, j + 1, pos + 1, end, chart, input);
        } else {
            let l = choose|l: int|
                1 <= l <= end - pos && (#[trigger] chart.at(
                    pos,
                    l,
                    rules[r].symbols@[j].typecode as int,
                )) is Some && splittable(rules, r, j + 1, pos + l, end, chart, input);
            lemma_splittable_needs(rules, r, j + 1, pos + l, end, chart, input);
        }
    }
}

/// No rule can add to the chart at the span: where a rule can be matched
/// with the span, the chart holds a node for the typecode of the rule.
pub open spec fn closed(chart: &Chart, rules: Seq<Rule>, input: Seq<Symbol>, s: int, l: int) -> bool {
    forall|r: int|
        0 <= r < rules.len() && splittable(rules, r, 0, s, s + l, chart, input) ==> chart.at(
            s,
            l,
            (#[trigger] rules[r]).typecode as int,
        ) is Some
}

/// The chart holds a node for every typecode that the rules derive the span
/// from.
pub open spec fn complete(chart: &Chart, rules: Seq<Rule>, input: Seq<Symbol>, s: int, l: int) -> bool {
    forall|tc: int, t: Term|
        #![trigger derivation(rules, t, tc, input, s, s + l)]
        derivation(rules, t, tc, input, s, s + l) ==> chart.at(s, l, tc) is Some
}

/// The chart is complete for every span within the span that is shorter.
pub open spec fn complete_within(
    chart: &Chart,
    rules: Seq<Rule>,
    input: Seq<Symbol>,
    s: int,
    l: int,
) -> bool {
    forall|s2: int, l2: int|
        #![trigger complete(chart, rules, input, s2, l2)]
        s <= s2 && 1 <= l2 < l && s2 + l2 <= s + l ==> complete(chart, rules, input, s2, l2)
}

/// A chart that no rule can add to at a span, and that is complete for the
/// shorter spans within, holds a node for whatever the rules derive the span
/// from.
pub proof fn lemma_closed_complete(
    chart: &Chart,
    rules: Seq<Rule>,
    input: Seq<Symbol>,
    s: int,
    l: int,
    t: Term,
    tc: int,
)
    requires
        1 <= l,
        closed(chart, rules, input, s, l),
        complete_within(chart, rules, input, s, l),
        derivation(rules, t, tc, input, s, s + l),
    ensures
        chart.at(s, l, tc) is Some,
    decreases t, 1nat, 0nat,
{
    let r = choose|r: int|
        0 <= r < rules.len() && (#[trigger] rules[r]).typecode == tc && rules[r].label == t.label
            && t.is_variable == rules[r].is_float && derived_from(
            rules,
            t,
            r,
            0,
            0,
            input,
            s,
            s + l,
        );
    lemma_derived_splittable(chart, rules, input, s, l, t, r, 0, 0, s);
}

/// The same, of the symbols of a rule from symbol `j` on: what they derive
/// they can be matched with.
pub proof fn lemma_derived_splittable(
    chart: &Chart,
    rules: Seq<Rule>,
    input: Seq<Symbol>,
    s: int,
    l: int,
    t: Term,
    r: int,
    j: int,
    c: int,
    pos: int,
)
    requires
        1 <= l,
        closed(chart, rules, input, s, l),
        complete_within(chart, rules, input, s, l),
        s <= pos <= s + l,
        0 <= j,
        derived_from(rules, t, r, j, c, input, pos, s + l),
    ensures
        splittable(rules, r, j, pos, s + l, chart, input),
    decreases t, 0nat, rules[r].symbols@.len() - j,
{
    if !(0 <= r < rules.len()) {
    } else if j >= rules[r].symbols@.len() {
    } else if terminal(&rules[r], j) {
        lemma_derived_splittable(chart, rules, input, s, l, t, r, j + 1, c, pos + 1);
    } else {
        let tc = rules[r].symbols@[j].typecode as int;
        let mid = choose|mid: int|
            #[trigger] cuts(pos, mid, s + l) && s + l <= input.len() && derivation(
                rules,
                t.children[c],
                tc,
                input,
                pos,
                mid,
            ) && derived_from(rules, t, r, j + 1, c + 1, input, mid, s + l);
        if mid - pos < l {
            assert(complete(chart, rules, input, pos, mid - pos));
            assert(derivation(rules, t.children[c], tc, input, pos, pos + (mid - pos)));
        } else {
            lemma_closed_complete(chart, rules, input, s, l, t.children[c], tc);
        }
        assert(chart.at(pos, mid - pos, tc) is Some);
        lemma_derived_splittable(chart, rules, input, s, l, t, r, j + 1, c + 1, mid);
        assert(splittable(rules, r, j + 1, pos + (mid - pos), s + l, chart, input));
    }
}

/// The number of typecodes below `t` for which the chart holds no node at
/// the span.
pub open spec fn empty_slots(chart: &Chart, s: int, l: int, t: int) -> nat
    decreases t,
{
    if t <= 0 {
        0
    } else {
        empty_slots(chart, s, l, t - 1) + if chart.at(s, l, t - 1) is None {
            1nat
        } else {
            0nat
        }
    }
}

/// A node put where there was none leaves one empty slot less; nodes put
/// elsewhere leave the slots as they are.
pub proof fn lemma_empty_slots(before: &Chart, after: &Chart, s: int, l: int, t: int, filled: int)
    requires
        0 <= t,
        forall|c: int| 0 <= c < t && c != filled ==> after.at(s, l, c) == before.at(s, l, c),
        0 <= filled < t ==> before.at(s, l, filled) is None && after.at(s, l, filled) is Some,
    ensures
        empty_slots(after, s, l, t) + (if 0 <= filled < t {
            1int
        } else {
            0int
        }) == empty_slots(before, s, l, t),
    decreases t,
{
    if t > 0 {
        lemma_empty_slots(before, after, s, l, t - 1, filled);
    }
}

} // verus!
