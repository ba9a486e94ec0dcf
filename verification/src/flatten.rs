//! Writing a formula out: the sequence of math symbols that it stands for.

use crate::formula::Symbol;
use crate::formula::Term;
use crate::syntax::MathSymbol;
use crate::syntax::Syntax;
use vstd::prelude::*;

verus! {

/// The symbols of the syntax of the label of `t`; none where it has no
/// syntax.
pub open spec fn tokens_of(t: Term, syntax: Syntax) -> Seq<MathSymbol> {
    if syntax.contains_key(t.label) {
        syntax[t.label]
    } else {
        Seq::empty()
    }
}

/// The symbols that `t` stands for from symbol `j` of its syntax on, when the
/// next child to descend into is child `c`: a constant stands for itself, and
/// so does every symbol of a node without children; a variable of a node with
/// children stands for what the next child stands for.
pub open spec fn flatten_from(t: Term, syntax: Syntax, j: int, c: int) -> Seq<Symbol>
    decreases t, tokens_of(t, syntax).len() - j,
{
    let tokens = tokens_of(t, syntax);
    if j < 0 || j >= tokens.len() {
        Seq::empty()
    } else if !tokens[j].is_variable || t.children.len() == 0 {
        seq![tokens[j].atom] + flatten_from(t, syntax, j + 1, c)
    } else if 0 <= c < t.children.len() {
        flatten_from(t.children[c], syntax, 0, 0) + flatten_from(t, syntax, j + 1, c + 1)
    } else {
        Seq::empty()
    }
}

/// The symbols that `t` stands for.
pub open spec fn flatten(t: Term, syntax: Syntax) -> Seq<Symbol> {
    flatten_from(t, syntax, 0, 0)
}

/// The number of variables among the first `j` symbols.
pub open spec fn variables_before(tokens: Seq<MathSymbol>, j: int) -> int
    decreases j,
{
    if j <= 0 {
        0
    } else {
        variables_before(tokens, j - 1) + if j <= tokens.len() && tokens[j - 1].is_variable {
            1int
        } else {
            0int
        }
    }
}

/// Whether `t` can be written out: its label has a syntax and, if it has
/// children, one child for each variable of that syntax, which can be written
/// out in turn.
pub open spec fn flattenable(t: Term, syntax: Syntax) -> bool
    decreases t,
{
    &&& syntax.contains_key(t.label)
    &&& t.children.len() > 0 ==> {
        &&& variables_before(syntax[t.label], syntax[t.label].len() as int) <= t.children.len()
        &&& forall|c: int|
            0 <= c < variables_before(syntax[t.label], syntax[t.label].len() as int)
                ==> flattenable(#[trigger] t.children[c], syntax)
    }
}

/// The number of steps that writing `t` out takes from symbol `j` on.
pub open spec fn flatten_steps(t: Term, syntax: Syntax, j: int, c: int) -> nat
    decreases t, tokens_of(t, syntax).len() - j,
{
    let tokens = tokens_of(t, syntax);
    if j < 0 || j >= tokens.len() {
        1
    } else if !tokens[j].is_variable || t.children.len() == 0 {
        1 + flatten_steps(t, syntax, j + 1, c)
    } else if 0 <= c < t.children.len() {
        1 + flatten_steps(t.children[c], syntax, 0, 0) + flatten_steps(t, syntax, j + 1, c + 1)
    } else {
        1
    }
}

/// The variables counted grow with the symbols looked at, by one at most for
/// each.
pub proof fn lemma_variables_before(tokens: Seq<MathSymbol>, j: int, k: int)
    requires
        0 <= j <= k,
    ensures
        0 <= variables_before(tokens, j) <= variables_before(tokens, k),
        variables_before(tokens, j) <= j,
    decreases k,
{
    if j < k {
        lemma_variables_before(tokens, j, k - 1);
    } else if j > 0 {
        lemma_variables_before(tokens, j - 1, j - 1);
    }
}

} // verus!
