//! Which rules a database gives its grammar: what each statement
//! contributes, a rule or a diagnostic or nothing, and what the statements
//! contribute together.

use crate::diag::Diagnostic;
use crate::flatten::variables_before;
use crate::formula::Label;
use crate::formula::Symbol;
use crate::formula::TypeCode;
use crate::nameck::LookupFloat;
use crate::nameck::Nameset;
use crate::nameck::SymbolType;
use crate::parser::Statement;
use crate::parser::StatementAddress;
use crate::parser::StatementType;
use crate::parser::Token;
use crate::segment_set::SegmentSet;
use crate::syntax::resolve;
use crate::syntax::MathSymbol;
use vstd::prelude::*;
use vstd::string::StringSliceAdditionalSpecFns;

verus! {

/// One symbol of the right-hand side of a rule.
pub ghost struct SymbolView {
    /// The atom of the symbol.
    pub atom: Symbol,
    /// Whether the symbol is a variable.
    pub is_variable: bool,
    /// For a variable of a syntax axiom, the typecode of the variable; 0
    /// for any other symbol.
    pub typecode: TypeCode,
}

/// A rule, with typecodes by their atoms.
pub ghost struct RuleView {
    /// The label of the statement.
    pub label: Label,
    /// The typecode of the statement.
    pub typecode: TypeCode,
    /// Whether the statement is a floating hypothesis.
    pub is_float: bool,
    /// The math string behind the typecode.
    pub symbols: Seq<SymbolView>,
    /// The statement.
    pub address: StatementAddress,
}

/// The rules and the diagnostics of a grammar.
pub ghost struct GrammarView {
    pub rules: Seq<RuleView>,
    pub diagnostics: Seq<(StatementAddress, Diagnostic)>,
}

/// What a statement contributes to a grammar.
pub ghost enum Outcome {
    /// Nothing: the statement is no rule, and nothing is wrong with it.
    Nothing,
    /// A diagnostic: the statement would be a rule, but for this.
    Problem(Diagnostic),
    /// A rule.
    Rule(RuleView),
}

/// The floating hypothesis of the variable with the atom.
pub open spec fn float_of(nset: &Nameset, atom: Symbol) -> Option<LookupFloat> {
    if atom < nset.atom_count() {
        nset.float_at(atom)
    } else {
        None
    }
}

/// The place of the first symbol of `math` from `from` on that is not
/// declared; 0 if all are.
pub open spec fn first_unknown(nset: &Nameset, math: &Vec<Token>, from: int) -> int
    decreases math@.len() - from,
{
    if from < 0 || from >= math@.len() {
        0
    } else if nset.symbol(math@[from]@) is None {
        from
    } else {
        first_unknown(nset, math, from + 1)
    }
}

/// The place of the first variable from `j` on that has no floating
/// hypothesis.
pub open spec fn first_floatless(nset: &Nameset, tokens: Seq<MathSymbol>, j: int) -> Option<int>
    decreases tokens.len() - j,
{
    if j < 0 || j >= tokens.len() {
        None
    } else if tokens[j].is_variable && float_of(nset, tokens[j].atom) is None {
        Some(j)
    } else {
        first_floatless(nset, tokens, j + 1)
    }
}

/// The symbols of a rule: each variable of a syntax axiom with the typecode
/// that its floating hypothesis gives it.
pub open spec fn rule_symbols(nset: &Nameset, tokens: Seq<MathSymbol>, is_float: bool) -> Seq<
    SymbolView,
> {
    Seq::new(
        tokens.len(),
        |j: int|
            SymbolView {
                atom: tokens[j].atom,
                is_variable: tokens[j].is_variable,
                typecode: if tokens[j].is_variable && !is_float && float_of(
                    nset,
                    tokens[j].atom,
                ) is Some {
                    float_of(nset, tokens[j].atom)->0.typecode_atom
                } else {
                    0
                },
            },
    )
}

/// Whether two rules say the same: the same typecode, both floating
/// hypotheses or neither, and the same symbols.
pub open spec fn same_rule(a: RuleView, b: RuleView) -> bool {
    &&& a.typecode == b.typecode
    &&& a.is_float == b.is_float
    &&& a.symbols.len() == b.symbols.len()
    &&& forall|j: int|
        0 <= j < a.symbols.len() ==> (#[trigger] a.symbols[j]).atom == b.symbols[j].atom
            && a.symbols[j].is_variable == b.symbols[j].is_variable
}

/// The place of the first rule from `q` on that says the same as `rule`.
pub open spec fn first_twin(rules: Seq<RuleView>, rule: RuleView, q: int) -> Option<int>
    decreases rules.len() - q,
{
    if q < 0 || q >= rules.len() {
        None
    } else if same_rule(rules[q], rule) {
        Some(q)
    } else {
        first_twin(rules, rule, q + 1)
    }
}

/// What the statement at `address` contributes to a grammar that has the
/// rules `earlier`, where `provable` is the typecode of provable statements.
///
/// A rule comes from a floating hypothesis, and from an axiom of another
/// typecode than `provable`, if the statement is the first to carry its
/// label, its symbols are declared, and it has a symbol behind the typecode.
/// A floating hypothesis has to be a typecode and a variable. Each variable
/// of an axiom has to have a floating hypothesis, and there may be 255 of
/// them at most. An axiom that says the same as an earlier rule is
/// ambiguous.
pub open spec fn rule_outcome(
    nset: &Nameset,
    provable: TypeCode,
    st: &Statement,
    address: StatementAddress,
    earlier: Seq<RuleView>,
) -> Outcome {
    let is_float = st.stype == StatementType::Floating;
    if !(st.stype == StatementType::Axiom || is_float) || st.label@.len() == 0 || st.math@.len()
        == 0 {
        Outcome::Nothing
    } else {
        match nset.label(st.label@) {
            None => Outcome::Nothing,
            Some(l) => if l.address != address {
                Outcome::Nothing
            } else {
                match nset.symbol(st.math@[0]@) {
                    None => Outcome::Problem(Diagnostic::UndeclaredSymbol(0)),
                    Some(typecode) => if !is_float && typecode.atom == provable {
                        Outcome::Nothing
                    } else if is_float && st.math@.len() != 2 {
                        Outcome::Problem(Diagnostic::BadFloating)
                    } else if is_float && !(nset.symbol(st.math@[1]@) matches Some(s) && s.stype
                        == SymbolType::Variable) {
                        Outcome::Problem(Diagnostic::FloatNotVariable(1))
                    } else {
                        match resolve(nset, &st.math, 1) {
                            None => Outcome::Problem(
                                Diagnostic::UndeclaredSymbol(
                                    first_unknown(nset, &st.math, 1) as usize,
                                ),
                            ),
                            Some(tokens) => checked_rule(
                                nset,
                                RuleView {
                                    label: l.atom,
                                    typecode: typecode.atom,
                                    is_float,
                                    symbols: rule_symbols(nset, tokens, is_float),
                                    address,
                                },
                                tokens,
                                earlier,
                            ),
                        }
                    },
                }
            },
        }
    }
}

/// What a statement contributes whose symbols are `tokens` and that would
/// give the rule `rule`.
pub open spec fn checked_rule(
    nset: &Nameset,
    rule: RuleView,
    tokens: Seq<MathSymbol>,
    earlier: Seq<RuleView>,
) -> Outcome {
    if !rule.is_float && first_floatless(nset, tokens, 0) is Some {
        Outcome::Problem(
            Diagnostic::VariableMissingFloat((first_floatless(nset, tokens, 0)->0 + 1) as usize),
        )
    } else if variables_before(tokens, tokens.len() as int) > 255 {
        Outcome::Problem(Diagnostic::GrammarTooManyVariables)
    } else if tokens.len() == 0 {
        Outcome::Problem(Diagnostic::EmptyMathString)
    } else {
        match first_twin(earlier, rule, 0) {
            Some(q) => Outcome::Problem(Diagnostic::GrammarAmbiguous(earlier[q].address)),
            None => Outcome::Rule(rule),
        }
    }
}

/// The grammar with what a statement contributes.
pub open spec fn with_outcome(g: GrammarView, outcome: Outcome, address: StatementAddress) -> GrammarView {
    match outcome {
        Outcome::Nothing => g,
        Outcome::Problem(d) => GrammarView {
            rules: g.rules,
            diagnostics: g.diagnostics.push((address, d)),
        },
        Outcome::Rule(rule) => GrammarView { rules: g.rules.push(rule), diagnostics: g.diagnostics },
    }
}

/// The grammar that the first `k` statements of segment `i` make of the
/// grammar `g`.
pub open spec fn with_statements(
    g: GrammarView,
    sset: &SegmentSet,
    nset: &Nameset,
    provable: TypeCode,
    i: int,
    k: int,
) -> GrammarView
    decreases k,
{
    if k <= 0 {
        g
    } else {
        let before = with_statements(g, sset, nset, provable, i, k - 1);
        let address = StatementAddress { segment_id: sset.entries()[i].id, index: (k - 1) as usize };
        with_outcome(
            before,
            rule_outcome(
                nset,
                provable,
                &sset.entries()[i].segment.statements@[k - 1],
                address,
                before.rules,
            ),
            address,
        )
    }
}

/// The grammar that the first `i` segments give.
pub open spec fn with_segments(sset: &SegmentSet, nset: &Nameset, provable: TypeCode, i: int) -> GrammarView
    decreases i,
{
    if i <= 0 {
        GrammarView { rules: Seq::empty(), diagnostics: Seq::empty() }
    } else {
        with_statements(
            with_segments(sset, nset, provable, i - 1),
            sset,
            nset,
            provable,
            i - 1,
            sset.entries()[i - 1].segment.statements@.len() as int,
        )
    }
}

/// The atom of the name, or 0 where the name is not interned.
pub open spec fn atom_or_zero(nset: &Nameset, name: Seq<u8>) -> TypeCode {
    match nset.atom_of(name) {
        Some(a) => a,
        None => 0,
    }
}

/// The typecode of provable statements and the typecode that they are
/// parsed as: `|-` and `wff`, unless commands say otherwise.
pub ghost struct Typecodes {
    pub provable: TypeCode,
    pub logic: TypeCode,
}

/// The typecodes after one command: `syntax`, a typecode, `as` and a second
/// typecode name the two.
pub open spec fn with_command(t: Typecodes, nset: &Nameset, command: &Vec<Token>) -> Typecodes {
    if command@.len() == 4 && command@[0]@ == "syntax".spec_bytes() && command@[2]@
        == "as".spec_bytes() {
        Typecodes {
            provable: atom_or_zero(nset, command@[1]@),
            logic: atom_or_zero(nset, command@[3]@),
        }
    } else {
        t
    }
}

/// The typecodes after the first `c` commands of a statement.
pub open spec fn with_commands(t: Typecodes, nset: &Nameset, st: &Statement, c: int) -> Typecodes
    decreases c,
{
    if c <= 0 || st.stype != StatementType::AdditionalInfoComment {
        t
    } else {
        with_command(with_commands(t, nset, st, c - 1), nset, &st.commands@[c - 1])
    }
}

/// The typecodes after the first `k` statements of segment `i`.
pub open spec fn typecodes_in_segment(
    t: Typecodes,
    sset: &SegmentSet,
    nset: &Nameset,
    i: int,
    k: int,
) -> Typecodes
    decreases k,
{
    if k <= 0 {
        t
    } else {
        let st = sset.entries()[i].segment.statements@[k - 1];
        with_commands(
            typecodes_in_segment(t, sset, nset, i, k - 1),
            nset,
            &st,
            st.commands@.len() as int,
        )
    }
}

/// The typecodes after the first `i` segments.
pub open spec fn typecodes_of(sset: &SegmentSet, nset: &Nameset, i: int) -> Typecodes
    decreases i,
{
    if i <= 0 {
        Typecodes {
            provable: atom_or_zero(nset, "|-".spec_bytes()),
            logic: atom_or_zero(nset, "wff".spec_bytes()),
        }
    } else {
        typecodes_in_segment(
            typecodes_of(sset, nset, i - 1),
            sset,
            nset,
            i - 1,
            sset.entries()[i - 1].segment.statements@.len() as int,
        )
    }
}

} // verus!
