//! The grammar of a database: its syntax axioms and floating hypotheses read
//! as the rules of a context-free grammar, and a chart parser that finds, for
//! a string of math symbols, a formula that the rules derive it from.

use crate::chart::Chart;
use crate::derivation::agrees;
use crate::derivation::closed;
use crate::derivation::complete;
use crate::derivation::complete_within;
use crate::derivation::cuts;
use crate::derivation::derivation;
use crate::derivation::derived_from;
use crate::derivation::empty_slots;
use crate::derivation::lemma_closed_complete;
use crate::derivation::lemma_derivation_flatten;
use crate::derivation::lemma_derived_flatten;
use crate::derivation::lemma_empty_slots;
use crate::derivation::lemma_float_has_no_children;
use crate::derivation::lemma_splittable_needs;
use crate::derivation::splittable;
use crate::diag::Diagnostic;
use crate::flatten::flatten;
use crate::flatten::flattenable;
use crate::flatten::variables_before;
use crate::formula::Formula;
use crate::formula::FormulaBuilder;
use crate::formula::FormulaView;
use crate::formula::Label;
use crate::formula::Symbol;
use crate::formula::Term;
use crate::formula::TypeCode;
use crate::nameck::Nameset;
use crate::nameck::SymbolType;
use crate::parser::bytes_eq;
use crate::rules::atom_or_zero;
use crate::rules::checked_rule;
use crate::rules::first_floatless;
use crate::rules::first_twin;
use crate::rules::first_unknown;
use crate::rules::float_of;
use crate::rules::rule_outcome;
use crate::rules::rule_symbols;
use crate::rules::same_rule;
use crate::rules::typecodes_in_segment;
use crate::rules::typecodes_of;
use crate::rules::with_command;
use crate::rules::with_commands;
use crate::rules::with_outcome;
use crate::rules::with_segments;
use crate::rules::with_statements;
use crate::rules::GrammarView;
use crate::rules::Outcome;
use crate::rules::RuleView;
use crate::rules::SymbolView;
use crate::rules::Typecodes;
use crate::parser::Statement;
use crate::parser::StatementAddress;
use crate::parser::StatementType;
use crate::scopeck::same_atoms;
use crate::segment_set::SegmentSet;
use crate::segment_set::StatementRef;
use crate::syntax::syntax_at;
use crate::syntax::syntax_of;
use crate::syntax::MathSymbol;
use crate::syntax::Syntax;
use crate::tree::NodeId;
use vstd::prelude::*;
use vstd::string::StringSliceAdditionalSpecFns;

verus! {

/// One symbol of the right-hand side of a rule.
#[derive(Clone, Copy)]
pub struct RuleSymbol {
    /// The atom of the symbol.
    pub atom: Symbol,
    /// Whether the symbol is a variable.
    pub is_variable: bool,
    /// For a variable, the place of its typecode among the typecodes of the
    /// grammar.
    pub typecode: usize,
}

/// A rule: a syntax axiom, whose variables stand for formulas of their
/// typecodes, or a floating hypothesis, which derives its variable as it
/// stands.
pub struct Rule {
    /// The label of the statement.
    pub label: Label,
    /// The place of its typecode among the typecodes of the grammar.
    pub typecode: usize,
    /// Whether the statement is a floating hypothesis.
    pub is_float: bool,
    /// The math string behind the typecode.
    pub symbols: Vec<RuleSymbol>,
    /// The statement.
    pub address: StatementAddress,
}

/// The syntax that a rule gives its label.
pub open spec fn rule_syntax(symbols: Seq<RuleSymbol>) -> Seq<MathSymbol> {
    Seq::new(
        symbols.len(),
        |j: int| MathSymbol { atom: symbols[j].atom, is_variable: symbols[j].is_variable },
    )
}

/// The grammar of a database.
pub struct Grammar {
    provable_type: TypeCode,
    logic_type: TypeCode,
    typecodes: Vec<TypeCode>,
    rules: Vec<Rule>,
    diagnostics: Vec<(StatementAddress, Diagnostic)>,
    syntax: Ghost<Syntax>,
}

/// The terms of the nodes `kids` of a builder.
pub open spec fn terms_of(arena: &FormulaBuilder, kids: Seq<NodeId>) -> Seq<Term> {
    Seq::new(kids.len(), |k: int| arena.term(kids[k] as int))
}

/// The term of a node that a rule makes of the nodes `kids`.
pub open spec fn rule_term(rule: &Rule, arena: &FormulaBuilder, kids: Seq<NodeId>) -> Term {
    Term { label: rule.label, is_variable: rule.is_float, children: terms_of(arena, kids) }
}

/// Every node of the chart is a formula of its typecode for its span of the
/// input.
pub open spec fn chart_ok(
    chart: &Chart,
    arena: &FormulaBuilder,
    rules: Seq<Rule>,
    input: Seq<Symbol>,
) -> bool {
    forall|s: int, l: int, c: int|
        chart.valid(s, l, c) ==> match #[trigger] chart.at(s, l, c) {
            Some(node) => node < arena.size() && derivation(
                rules,
                arena.term(node as int),
                c,
                input,
                s,
                s + l,
            ),
            None => true,
        }
}

/// The chart is complete for every span that is shorter than `len`, and for
/// the spans of that length that start before `start`.
pub open spec fn complete_before(
    chart: &Chart,
    rules: Seq<Rule>,
    input: Seq<Symbol>,
    len: int,
    start: int,
) -> bool {
    forall|s2: int, l2: int|
        #![trigger complete(chart, rules, input, s2, l2)]
        0 <= s2 && 1 <= l2 && s2 + l2 <= input.len() && (l2 < len || (l2 == len && s2 < start))
            ==> complete(chart, rules, input, s2, l2)
}

/// Whether a table for an input of `n` symbols and `t` typecodes can be
/// made.
pub open spec fn table_fits(n: int, t: int) -> bool {
    n * n * t <= usize::MAX
}

impl Grammar {
    /// The syntax of the labels of the database that the grammar was built
    /// from.
    pub closed spec fn syntax(&self) -> Syntax {
        self.syntax@
    }

    /// The invariant of the grammar: every rule has a symbol at least,
    /// gives its label the syntax that the database gives it, and has no
    /// more variables than a node can have children; no typecode is there
    /// twice.
    pub closed spec fn wf(&self) -> bool {
        &&& agrees(self.rules@, self.syntax@)
        &&& forall|a: int, b: int|
            0 <= a < b < self.typecodes@.len() ==> self.typecodes@[a] != self.typecodes@[b]
        &&& forall|r: int|
            0 <= r < self.rules@.len() ==> {
                let rule = #[trigger] self.rules@[r];
                &&& rule.typecode < self.typecodes@.len()
                &&& rule.symbols@.len() > 0
                &&& variables_before(rule_syntax(rule.symbols@), rule.symbols@.len() as int) <= 255
                &&& forall|j: int|
                    0 <= j < rule.symbols@.len() ==> (#[trigger] rule.symbols@[j]).typecode
                        < self.typecodes@.len()
            }
    }

    /// The typecode of provable statements; 0 where the database has none.
    pub closed spec fn provable(&self) -> TypeCode {
        self.provable_type
    }

    /// The typecode that provable statements are parsed as; 0 where the
    /// database has none.
    pub closed spec fn logic(&self) -> TypeCode {
        self.logic_type
    }

    /// The rules of the grammar, in the order of the source.
    pub closed spec fn rule_list(&self) -> Seq<Rule> {
        self.rules@
    }

    /// The typecodes of the grammar.
    pub closed spec fn typecode_list(&self) -> Seq<TypeCode> {
        self.typecodes@
    }

    /// Whether `t` is a formula of the typecode `typecode` that stands for
    /// `input`, by the rules of the grammar.
    pub open spec fn derives(&self, t: Term, typecode: TypeCode, input: Seq<Symbol>) -> bool {
        exists|c: int|
            0 <= c < self.typecode_list().len() && (#[trigger] self.typecode_list()[c]) == typecode
                && derivation(self.rule_list(), t, c, input, 0, input.len() as int)
    }

    /// Whether a formula is found for `input`: the rules derive `input` from
    /// one of the typecodes `expected`, and a table can be made for it.
    pub open spec fn parseable(&self, input: Seq<Symbol>, expected: Seq<TypeCode>) -> bool {
        table_fits(input.len() as int, self.typecode_list().len() as int) && exists|
            e: int,
            t: Term,
        |
            0 <= e < expected.len() && #[trigger] self.derives(t, expected[e], input)
    }

    /// What the invariant says of the rules: they agree with the syntax of
    /// the database, so that a formula that they derive stands for what it
    /// is derived for.
    pub proof fn lemma_wf(&self)
        requires
            self.wf(),
        ensures
            agrees(self.rule_list(), self.syntax()),
            forall|t: Term, typecode: TypeCode, input: Seq<Symbol>|
                #![trigger self.derives(t, typecode, input)]
                self.derives(t, typecode, input) ==> flatten(t, self.syntax()) == input
                    && flattenable(t, self.syntax()),
    {
        assert forall|t: Term, typecode: TypeCode, input: Seq<Symbol>|
            #![trigger self.derives(t, typecode, input)]
            self.derives(t, typecode, input) implies flatten(t, self.syntax()) == input
            && flattenable(t, self.syntax()) by {
            let c = choose|c: int|
                0 <= c < self.typecode_list().len() && (#[trigger] self.typecode_list()[c])
                    == typecode && derivation(self.rule_list(), t, c, input, 0, input.len() as int);
            lemma_derivation_flatten(
                self.rule_list(),
                self.syntax(),
                t,
                c,
                input,
                0,
                input.len() as int,
            );
            assert(input.subrange(0, input.len() as int) =~= input);
        }
    }

    /// The typecode of provable statements; 0 where the database has none.
    pub fn provable_typecode(&self) -> (r: TypeCode)
        ensures
            r == self.provable(),
    {
        self.provable_type
    }

    /// The typecode that provable statements are parsed as; 0 where the
    /// database has none.
    pub fn logic_typecode(&self) -> (r: TypeCode)
        ensures
            r == self.logic(),
    {
        self.logic_type
    }

    /// The problems found while the grammar was built.
    pub closed spec fn found(&self) -> Seq<(StatementAddress, Diagnostic)> {
        self.diagnostics@
    }

    /// The problems found while the grammar was built.
    pub fn diagnostics(&self) -> (r: &Vec<(StatementAddress, Diagnostic)>)
        ensures
            r@ == self.found(),
    {
        &self.diagnostics
    }

    /// The rules of the grammar, in the order of the source.
    pub fn rules(&self) -> (r: &Vec<Rule>)
        ensures
            r@ == self.rule_list(),
    {
        &self.rules
    }

    /// The typecodes of the grammar; rules and their variables name a
    /// typecode by its place here.
    pub fn typecodes(&self) -> (r: &Vec<TypeCode>)
        ensures
            r@ == self.typecode_list(),
    {
        &self.typecodes
    }

    /// The place of `typecode` among the typecodes of the grammar.
    fn typecode_index(&self, typecode: TypeCode) -> (r: Option<usize>)
        ensures
            match r {
                Some(i) => i < self.typecodes@.len() && self.typecodes@[i as int] == typecode,
                None => forall|i: int| 0 <= i < self.typecodes@.len() ==> self.typecodes@[i] != typecode,
            },
    {
        let mut i: usize = 0;
        while i < self.typecodes.len()
            invariant
                0 <= i <= self.typecodes@.len(),
                forall|k: int| 0 <= k < i ==> self.typecodes@[k] != typecode,
            decreases self.typecodes@.len() - i,
        {
            if self.typecodes[i] == typecode {
                return Some(i);
            }
            i += 1;
        }
        None
    }

    /// Looks for nodes of the chart that the symbols of rule `r` from symbol
    /// `j` on derive the input from `pos` to `end` with, and puts them onto
    /// `kids`. There are none if the search fails.
    fn split(
        &self,
        r: usize,
        j: usize,
        pos: usize,
        end: usize,
        input: &[Symbol],
        chart: &Chart,
        arena: &FormulaBuilder,
        kids: &mut Vec<NodeId>,
    ) -> (ok: bool)
        requires
            self.wf(),
            r < self.rules@.len(),
            j <= self.rules@[r as int].symbols@.len(),
            pos <= end <= input@.len(),
            chart.wf(),
            chart.input_len() == input@.len(),
            chart.typecodes() == self.typecodes@.len(),
            chart_ok(chart, arena, self.rules@, input@),
            forall|k: int| 0 <= k < old(kids)@.len() ==> old(kids)@[k] < arena.size(),
        ensures
            forall|k: int| 0 <= k < final(kids)@.len() ==> final(kids)@[k] < arena.size(),
            ok ==> final(kids)@.len() >= old(kids)@.len() && final(kids)@.subrange(
                0,
                old(kids)@.len() as int,
            ) == old(kids)@ && derived_from(
                self.rules@,
                rule_term(&self.rules@[r as int], arena, final(kids)@),
                r as int,
                j as int,
                old(kids)@.len() as int,
                input@,
                pos as int,
                end as int,
            ),
            !ok ==> final(kids)@ == old(kids)@ && !splittable(
                self.rules@,
                r as int,
                j as int,
                pos as int,
                end as int,
                chart,
                input@,
            ),
        decreases self.rules@[r as int].symbols@.len() - j,
    {
        let rule = &self.rules[r];
        let ghost rules = self.rules@;
        let ghost symbols = rule.symbols@;
        let ghost c = kids@.len() as int;
        if j >= rule.symbols.len() {
            assert(kids@.subrange(0, c) =~= kids@);
            return pos == end;
        }
        let rest: usize = rule.symbols.len() - j;
        if end - pos < rest {
            proof {
                if splittable(rules, r as int, j as int, pos as int, end as int, chart, input@) {
                    lemma_splittable_needs(
                        rules,
                        r as int,
                        j as int,
                        pos as int,
                        end as int,
                        chart,
                        input@,
                    );
                }
            }
            return false;
        }
        let symbol = rule.symbols[j];
        if rule.is_float || !symbol.is_variable {
            if input[pos] != symbol.atom {
                return false;
            }
            return self.split(r, j + 1, pos + 1, end, input, chart, arena, kids);
        }
        let longest: usize = end - pos - (rest - 1);
        let count = rule.symbols.len();
        let mut len: usize = 1;
        while len <= longest
            invariant
                count == symbols.len(),
                self.wf(),
                rules == self.rules@,
                r < self.rules@.len(),
                *rule == self.rules@[r as int],
                symbols == rule.symbols@,
                j < symbols.len(),
                symbol == symbols[j as int],
                !rule.is_float && symbol.is_variable,
                pos <= end <= input@.len(),
                longest == end - pos - (rest - 1),
                rest == symbols.len() - j,
                1 <= len <= longest + 1,
                chart.wf(),
                chart.input_len() == input@.len(),
                chart.typecodes() == self.typecodes@.len(),
                chart_ok(chart, arena, self.rules@, input@),
                kids@ == old(kids)@,
                c == kids@.len(),
                forall|k: int| 0 <= k < kids@.len() ==> kids@[k] < arena.size(),
                forall|l: int|
                    1 <= l < len ==> !((#[trigger] chart.at(pos as int, l, symbol.typecode as int)) is Some
                        && splittable(rules, r as int, j + 1, pos + l, end as int, chart, input@)),
            decreases longest + 1 - len,
        {
            assert(chart.valid(pos as int, len as int, symbol.typecode as int));
            match chart.get(pos, len, symbol.typecode) {
                Some(node) => {
                    kids.push(node);
                    if self.split(r, j + 1, pos + len, end, input, chart, arena, kids) {
                        proof {
                            let made = rule_term(rule, arena, kids@);
                            assert(kids@[c] == node) by {
                                assert(kids@.subrange(0, c + 1)[c] == node);
                            }
                            assert(made.children[c] == arena.term(node as int));
                            assert(cuts(pos as int, pos + len, end as int));
                            assert(kids@.subrange(0, c) =~= old(kids)@) by {
                                assert forall|k: int| 0 <= k < c implies kids@.subrange(0, c)[k]
                                    == old(kids)@[k] by {
                                    assert(kids@.subrange(0, c + 1)[k] == old(kids)@.push(node)[k]);
                                }
                            }
                        }
                        return true;
                    }
                    kids.pop();
                    assert(kids@ =~= old(kids)@);
                },
                None => {},
            }
            if len == longest {
                proof {
                    assert forall|l: int| 1 <= l <= end - pos implies !((#[trigger] chart.at(
                        pos as int,
                        l,
                        symbol.typecode as int,
                    )) is Some && splittable(
                        rules,
                        r as int,
                        j + 1,
                        pos + l,
                        end as int,
                        chart,
                        input@,
                    )) by {
                        if l > longest && splittable(
                            rules,
                            r as int,
                            j + 1,
                            pos + l,
                            end as int,
                            chart,
                            input@,
                        ) {
                            lemma_splittable_needs(
                                rules,
                                r as int,
                                j + 1,
                                pos + l,
                                end as int,
                                chart,
                                input@,
                            );
                        }
                    }
                }
                return false;
            }
            len += 1;
        }
        proof {
            assert forall|l: int| 1 <= l <= end - pos implies !((#[trigger] chart.at(
                pos as int,
                l,
                symbol.typecode as int,
            )) is Some && splittable(rules, r as int, j + 1, pos + l, end as int, chart, input@)) by {
                if l > longest && splittable(
                    rules,
                    r as int,
                    j + 1,
                    pos + l,
                    end as int,
                    chart,
                    input@,
                ) {
                    lemma_splittable_needs(rules, r as int, j + 1, pos + l, end as int, chart, input@);
                }
            }
        }
        false
    }

    /// Parses the string `symbols` as a formula of one of the typecodes
    /// `expected_typecodes`, the earlier in preference. The formula found is
    /// one that the rules of the grammar derive the string from, and so
    /// stands for the string: written out, it gives `symbols` back. There
    /// is none only if the rules derive the string from none of the
    /// typecodes, or if the string is so long that no table can be made for
    /// it.
    pub fn parse_formula(&self, symbols: &[Symbol], expected_typecodes: &[TypeCode]) -> (r: Result<
        Formula,
        Diagnostic,
    >)
        requires
            self.wf(),
        ensures
            match r {
                Ok(f) => {
                    &&& self.derives(f@.term, f@.typecode, symbols@)
                    &&& flatten(f@.term, self.syntax()) == symbols@
                    &&& flattenable(f@.term, self.syntax())
                    &&& exists|e: int|
                        0 <= e < expected_typecodes@.len() && (#[trigger] expected_typecodes@[e])
                            == f@.typecode && forall|e2: int, t: Term|
                            0 <= e2 < e ==> !(#[trigger] self.derives(
                                t,
                                expected_typecodes@[e2],
                                symbols@,
                            ))
                },
                Err(d) => {
                    &&& d == Diagnostic::UnparseableStatement
                    &&& table_fits(symbols@.len() as int, self.typecode_list().len() as int)
                        ==> forall|e: int, t: Term|
                        0 <= e < expected_typecodes@.len() ==> !(#[trigger] self.derives(
                            t,
                            expected_typecodes@[e],
                            symbols@,
                        ))
                },
            },
            (r is Ok) == self.parseable(symbols@, expected_typecodes@),
    {
        let n = symbols.len();
        let t = self.typecodes.len();
        let ghost rules = self.rules@;
        let ghost input = symbols@;
        if n == 0 {
            proof {
                self.lemma_nothing_derives_nothing(input);
            }
            return Err(Diagnostic::UnparseableStatement);
        }
        if t == 0 {
            return Err(Diagnostic::UnparseableStatement);
        }
        proof {
            assert(n * n * t == symbols@.len() * symbols@.len() * self.typecode_list().len());
            assert(table_fits(symbols@.len() as int, self.typecode_list().len() as int) == (n * n
                * t <= usize::MAX));
        }
        let mut chart = match Chart::new(n, t) {
            Some(chart) => chart,
            None => {
                return Err(Diagnostic::UnparseableStatement);
            },
        };
        let mut arena = FormulaBuilder::new();
        let mut len: usize = 1;
        let mut filled = false;
        while !filled
            invariant
                self.wf(),
                rules == self.rules@,
                input == symbols@,
                n == symbols@.len(),
                n > 0,
                t == self.typecodes@.len(),
                1 <= len <= n,
                chart.wf(),
                chart.input_len() == n,
                chart.typecodes() == t,
                arena.wf(),
                chart_ok(&chart, &arena, rules, input),
                !filled ==> complete_before(&chart, rules, input, len as int, 0),
                filled ==> complete_before(&chart, rules, input, n + 1, 0),
            decreases n - len + if filled { 0int } else { 1int },
        {
            let mut start: usize = 0;
            while start <= n - len
                invariant
                    self.wf(),
                    rules == self.rules@,
                    input == symbols@,
                    n == symbols@.len(),
                    t == self.typecodes@.len(),
                    1 <= len <= n,
                    0 <= start <= n - len + 1,
                    chart.wf(),
                    chart.input_len() == n,
                    chart.typecodes() == t,
                    arena.wf(),
                    chart_ok(&chart, &arena, rules, input),
                    complete_before(&chart, rules, input, len as int, start as int),
                decreases n + 1 - start,
            {
                self.fill(symbols, &mut chart, &mut arena, start, len);
                start += 1;
            }
            proof {
                assert forall|s2: int, l2: int|
                    #![trigger complete(&chart, rules, input, s2, l2)]
                    0 <= s2 && 1 <= l2 && s2 + l2 <= input.len() && (l2 < len + 1 || (l2 == len + 1
                        && s2 < 0)) implies complete(&chart, rules, input, s2, l2) by {}
            }
            if len == n {
                filled = true;
            } else {
                len += 1;
            }
        }
        // The first of the expected typecodes that the whole input has a
        // node for decides.
        proof {
            assert(complete(&chart, rules, input, 0, n as int));
        }
        let mut e: usize = 0;
        while e < expected_typecodes.len()
            invariant
                self.wf(),
                rules == self.rules@,
                input == symbols@,
                n == symbols@.len(),
                n > 0,
                t == self.typecodes@.len(),
                0 <= e <= expected_typecodes@.len(),
                chart.wf(),
                chart.input_len() == n,
                chart.typecodes() == t,
                arena.wf(),
                chart_ok(&chart, &arena, rules, input),
                complete(&chart, rules, input, 0, n as int),
                table_fits(symbols@.len() as int, self.typecode_list().len() as int),
                forall|e2: int, u: Term|
                    0 <= e2 < e ==> !(#[trigger] self.derives(u, expected_typecodes@[e2], input)),
            decreases expected_typecodes@.len() - e,
        {
            let typecode = expected_typecodes[e];
            match self.typecode_index(typecode) {
                Some(c) => {
                    assert(chart.valid(0, n as int, c as int));
                    match chart.get(0, n, c) {
                        Some(node) => {
                            let ghost found = arena.term(node as int);
                            let whole = arena.build_at(node, typecode);
                            let formula = whole.compact();
                            proof {
                                assert(derivation(rules, found, c as int, input, 0, 0 + n));
                                assert(self.typecode_list()[c as int] == typecode);
                                assert(self.derives(found, typecode, input));
                                assert(self.derives(found, expected_typecodes@[e as int], input));
                                self.lemma_wf();
                            }
                            return Ok(formula);
                        },
                        None => {
                            proof {
                                assert forall|u: Term| !self.derives(u, typecode, input) by {
                                    if self.derives(u, typecode, input) {
                                        let c2 = choose|c2: int|
                                            0 <= c2 < self.typecode_list().len() && (
                                            #[trigger] self.typecode_list()[c2]) == typecode
                                                && derivation(
                                                self.rule_list(),
                                                u,
                                                c2,
                                                input,
                                                0,
                                                input.len() as int,
                                            );
                                        if c2 < c {
                                            assert(self.typecodes@[c2] != self.typecodes@[c as int]);
                                        } else if c < c2 {
                                            assert(self.typecodes@[c as int] != self.typecodes@[c2]);
                                        }
                                        assert(derivation(rules, u, c as int, input, 0, 0 + n));
                                    }
                                }
                            }
                        },
                    }
                },
                None => {},
            }
            e += 1;
        }
        Err(Diagnostic::UnparseableStatement)
    }

    /// Nothing is a formula for the empty string: every rule has a symbol.
    proof fn lemma_nothing_derives_nothing(&self, input: Seq<Symbol>)
        requires
            self.wf(),
            input.len() == 0,
        ensures
            forall|t: Term, typecode: TypeCode| !self.derives(t, typecode, input),
    {
        assert forall|t: Term, typecode: TypeCode| !self.derives(t, typecode, input) by {
            if self.derives(t, typecode, input) {
                let c = choose|c: int|
                    0 <= c < self.typecode_list().len() && (#[trigger] self.typecode_list()[c])
                        == typecode && derivation(self.rule_list(), t, c, input, 0, 0);
                let r = choose|r: int|
                    0 <= r < self.rules@.len() && (#[trigger] self.rules@[r]).typecode == c
                        && self.rules@[r].label == t.label && t.is_variable
                        == self.rules@[r].is_float && derived_from(
                        self.rules@,
                        t,
                        r,
                        0,
                        0,
                        input,
                        0,
                        0,
                    );
                assert(self.rules@[r].symbols@.len() > 0);
            }
        }
    }

    /// Fills the chart for the span that starts at `start` and has `len`
    /// symbols: the rules are tried until none of them finds a node for a
    /// typecode that has none. A rule may rest on what another found for the
    /// same span, so one round is not enough.
    fn fill(
        &self,
        symbols: &[Symbol],
        chart: &mut Chart,
        arena: &mut FormulaBuilder,
        start: usize,
        len: usize,
    )
        requires
            self.wf(),
            1 <= len,
            start + len <= symbols@.len(),
            old(chart).wf(),
            old(chart).input_len() == symbols@.len(),
            old(chart).typecodes() == self.typecodes@.len(),
            old(arena).wf(),
            chart_ok(old(chart), old(arena), self.rules@, symbols@),
            complete_before(old(chart), self.rules@, symbols@, len as int, start as int),
        ensures
            final(chart).wf(),
            final(chart).input_len() == symbols@.len(),
            final(chart).typecodes() == self.typecodes@.len(),
            final(arena).wf(),
            chart_ok(final(chart), final(arena), self.rules@, symbols@),
            complete_before(final(chart), self.rules@, symbols@, len as int, start + 1),
    {
        let ghost rules = self.rules@;
        let ghost input = symbols@;
        let n = symbols.len();
        let t = self.typecodes.len();
        let mut changed = true;
        while changed
            invariant
                self.wf(),
                rules == self.rules@,
                input == symbols@,
                n == symbols@.len(),
                t == self.typecodes@.len(),
                1 <= len,
                start + len <= n,
                chart.wf(),
                chart.input_len() == n,
                chart.typecodes() == t,
                arena.wf(),
                chart_ok(chart, arena, rules, input),
                complete_before(chart, rules, input, len as int, start as int),
                !changed ==> closed(chart, rules, input, start as int, len as int),
            decreases
                    empty_slots(chart, start as int, len as int, t as int) + if changed {
                        1int
                    } else {
                        0int
                    },
        {
            changed = false;
            let ghost chart0 = *chart;
            let mut r: usize = 0;
            while r < self.rules.len()
                invariant
                    self.wf(),
                    rules == self.rules@,
                    input == symbols@,
                    n == symbols@.len(),
                    t == self.typecodes@.len(),
                    1 <= len,
                    start + len <= n,
                    0 <= r <= self.rules@.len(),
                    chart.wf(),
                    chart.input_len() == n,
                    chart.typecodes() == t,
                    chart0.input_len() == n,
                    chart0.typecodes() == t,
                    arena.wf(),
                    chart_ok(chart, arena, rules, input),
                    complete_before(chart, rules, input, len as int, start as int),
                    !changed ==> *chart == chart0,
                    !changed ==> forall|q: int|
                        0 <= q < r && splittable(rules, q, 0, start as int, start + len, chart, input)
                            ==> chart.at(start as int, len as int, (#[trigger] rules[q]).typecode as int) is Some,
                    changed ==> empty_slots(chart, start as int, len as int, t as int)
                        < empty_slots(&chart0, start as int, len as int, t as int),
                decreases self.rules@.len() - r,
            {
                let rule = &self.rules[r];
                assert(chart.valid(start as int, len as int, rule.typecode as int));
                if chart.get(start, len, rule.typecode).is_none() {
                    let mut kids: Vec<NodeId> = Vec::new();
                    if self.split(r, 0, start, start + len, symbols, chart, arena, &mut kids) {
                        let ghost made = rule_term(rule, arena, kids@);
                        proof {
                            if rule.is_float {
                                lemma_float_has_no_children(
                                    rules,
                                    made,
                                    r as int,
                                    0,
                                    0,
                                    input,
                                    start as int,
                                    start + len,
                                );
                            }
                            lemma_derived_flatten(
                                rules,
                                self.syntax@,
                                made,
                                r as int,
                                0,
                                0,
                                input,
                                start as int,
                                start + len,
                            );
                        }
                        let ghost before = *arena;
                        let node = arena.add_node(rule.label, kids, rule.is_float);
                        proof {
                            assert(arena.term(node as int).children =~= made.children);
                            assert(arena.term(node as int) == made);
                            assert(derivation(
                                rules,
                                made,
                                rule.typecode as int,
                                input,
                                start as int,
                                start + len,
                            ));
                            assert forall|s: int, l: int, c: int|
                                chart.valid(s, l, c) implies match #[trigger] chart.at(s, l, c) {
                                Some(old_node) => old_node < arena.size() && derivation(
                                    rules,
                                    arena.term(old_node as int),
                                    c,
                                    input,
                                    s,
                                    s + l,
                                ),
                                None => true,
                            } by {
                                if chart.at(s, l, c) is Some {
                                    let old_node = chart.at(s, l, c)->0;
                                    assert(arena.term(old_node as int) == before.term(
                                        old_node as int,
                                    ));
                                }
                            }
                        }
                        let ghost chart_before = *chart;
                        chart.set(start, len, rule.typecode, node);
                        proof {
                            assert forall|s: int, l: int, c: int|
                                chart.valid(s, l, c) implies match #[trigger] chart.at(s, l, c) {
                                Some(any) => any < arena.size() && derivation(
                                    rules,
                                    arena.term(any as int),
                                    c,
                                    input,
                                    s,
                                    s + l,
                                ),
                                None => true,
                            } by {
                                if !(s == start && l == len && c == rule.typecode) {
                                    assert(chart.at(s, l, c) == chart_before.at(s, l, c));
                                    assert(chart_before.valid(s, l, c));
                                }
                            }
                            assert forall|s2: int, l2: int|
                                #![trigger complete(chart, rules, input, s2, l2)]
                                0 <= s2 && 1 <= l2 && s2 + l2 <= input.len() && (l2 < len || (l2
                                    == len && s2 < start)) implies complete(
                                chart,
                                rules,
                                input,
                                s2,
                                l2,
                            ) by {
                                assert(complete(&chart_before, rules, input, s2, l2));
                                assert forall|tc: int, u: Term|
                                    #![trigger derivation(rules, u, tc, input, s2, s2 + l2)]
                                    derivation(rules, u, tc, input, s2, s2 + l2) implies chart.at(
                                    s2,
                                    l2,
                                    tc,
                                ) is Some by {
                                    assert(chart_before.at(s2, l2, tc) is Some);
                                    self.lemma_derivation_typecode(u, tc, input, s2, s2 + l2);
                                    assert(chart_before.valid(s2, l2, tc));
                                }
                            }
                            lemma_empty_slots(
                                &chart_before,
                                chart,
                                start as int,
                                len as int,
                                t as int,
                                rule.typecode as int,
                            );
                            if !changed {
                                assert(chart_before == chart0);
                            }
                        }
                        changed = true;
                    }
                }
                r += 1;
            }
            proof {
                if !changed {
                    assert forall|q: int|
                        0 <= q < rules.len() && splittable(
                            rules,
                            q,
                            0,
                            start as int,
                            start + len,
                            chart,
                            input,
                        ) implies chart.at(
                        start as int,
                        len as int,
                        (#[trigger] rules[q]).typecode as int,
                    ) is Some by {}
                }
            }
        }
        proof {
            // No rule can add to the chart, so the chart is complete here.
            assert(complete_within(chart, rules, input, start as int, len as int)) by {
                assert forall|s2: int, l2: int|
                    #![trigger complete(chart, rules, input, s2, l2)]
                    start <= s2 && 1 <= l2 < len && s2 + l2 <= start + len implies complete(
                    chart,
                    rules,
                    input,
                    s2,
                    l2,
                ) by {}
            }
            assert(complete(chart, rules, input, start as int, len as int)) by {
                assert forall|tc: int, u: Term|
                    #![trigger derivation(rules, u, tc, input, start as int, start + len)]
                    derivation(rules, u, tc, input, start as int, start + len) implies chart.at(
                    start as int,
                    len as int,
                    tc,
                ) is Some by {
                    lemma_closed_complete(chart, rules, input, start as int, len as int, u, tc);
                }
            }
            assert forall|s2: int, l2: int|
                #![trigger complete(chart, rules, input, s2, l2)]
                0 <= s2 && 1 <= l2 && s2 + l2 <= input.len() && (l2 < len || (l2 == len && s2
                    < start + 1)) implies complete(chart, rules, input, s2, l2) by {}
        }
    }

    /// What the rules derive they derive from one of the typecodes.
    proof fn lemma_derivation_typecode(
        &self,
        t: Term,
        tc: int,
        input: Seq<Symbol>,
        start: int,
        end: int,
    )
        requires
            self.wf(),
            derivation(self.rules@, t, tc, input, start, end),
        ensures
            0 <= tc < self.typecodes@.len(),
    {
        let r = choose|r: int|
            0 <= r < self.rules@.len() && (#[trigger] self.rules@[r]).typecode == tc
                && self.rules@[r].label == t.label && t.is_variable == self.rules@[r].is_float
                && derived_from(self.rules@, t, r, 0, 0, input, start, end);
    }
}

} // verus!

verus! {

/// Whether the token is the word.
fn is_word(token: &Vec<u8>, word: &str) -> (r: bool)
    ensures
        r == (token@ == word.spec_bytes()),
{
    bytes_eq(token.as_slice(), word.as_bytes())
}

/// The atom of the name, or 0 where the name is not interned.
fn atom_or_none(nset: &Nameset, name: &[u8]) -> (r: TypeCode)
    requires
        nset.wf(),
    ensures
        r == atom_or_zero(nset, name@),
{
    match nset.get_atom(name) {
        Some(a) => a,
        None => 0,
    }
}

/// Whether two right-hand sides have the same symbols.
fn same_symbols(a: &Vec<RuleSymbol>, b: &Vec<RuleSymbol>) -> (r: bool)
    ensures
        r == (a@.len() == b@.len() && forall|j: int|
            0 <= j < a@.len() ==> (#[trigger] a@[j]).atom == b@[j].atom && a@[j].is_variable
                == b@[j].is_variable),
{
    if a.len() != b.len() {
        return false;
    }
    let mut j: usize = 0;
    while j < a.len()
        invariant
            a@.len() == b@.len(),
            0 <= j <= a@.len(),
            forall|k: int|
                0 <= k < j ==> (#[trigger] a@[k]).atom == b@[k].atom && a@[k].is_variable
                    == b@[k].is_variable,
        decreases a@.len() - j,
    {
        if a[j].atom != b[j].atom || a[j].is_variable != b[j].is_variable {
            return false;
        }
        j += 1;
    }
    true
}

/// The position in the math string of the first symbol behind the typecode
/// that the name set does not know; 0 where it knows all of them.
fn first_undeclared(nset: &Nameset, math: &Vec<Vec<u8>>) -> (r: usize)
    requires
        nset.wf(),
    ensures
        r == first_unknown(nset, math, 1),
{
    let mut i: usize = 1;
    while i < math.len()
        invariant
            nset.wf(),
            1 <= i,
            first_unknown(nset, math, 1) == first_unknown(nset, math, i as int),
        decreases math@.len() - i,
    {
        if nset.lookup_symbol(math[i].as_slice()).is_none() {
            return i;
        }
        i += 1;
    }
    0
}

/// The rule with its typecodes by their atoms.
pub open spec fn rule_view(rule: &Rule, typecodes: Seq<TypeCode>) -> RuleView {
    RuleView {
        label: rule.label,
        typecode: typecodes[rule.typecode as int],
        is_float: rule.is_float,
        symbols: Seq::new(
            rule.symbols@.len(),
            |j: int|
                SymbolView {
                    atom: rule.symbols@[j].atom,
                    is_variable: rule.symbols@[j].is_variable,
                    typecode: if rule.symbols@[j].is_variable && !rule.is_float {
                        typecodes[rule.symbols@[j].typecode as int]
                    } else {
                        0
                    },
                },
        ),
        address: rule.address,
    }
}

impl View for Grammar {
    type V = GrammarView;

    closed spec fn view(&self) -> GrammarView {
        GrammarView {
            rules: Seq::new(self.rules@.len(), |r: int| rule_view(&self.rules@[r], self.typecodes@)),
            diagnostics: self.diagnostics@,
        }
    }
}

impl Grammar {
    /// What the view is made of.
    pub proof fn lemma_view(&self)
        ensures
            self@.rules.len() == self.rule_list().len(),
            forall|r: int|
                0 <= r < self.rule_list().len() ==> #[trigger] self@.rules[r] == rule_view(
                    &self.rule_list()[r],
                    self.typecode_list(),
                ),
            self@.diagnostics == self.found(),
    {
    }

    /// The place of `typecode` among the typecodes, where it is put if it is
    /// not there yet.
    fn intern_typecode(&mut self, typecode: TypeCode) -> (i: usize)
        requires
            old(self).wf(),
        ensures
            final(self).wf(),
            final(self).syntax() == old(self).syntax(),
            final(self).rules == old(self).rules,
            final(self).diagnostics == old(self).diagnostics,
            final(self).provable_type == old(self).provable_type,
            final(self).logic_type == old(self).logic_type,
            final(self).typecodes@.len() >= old(self).typecodes@.len(),
            forall|k: int|
                0 <= k < old(self).typecodes@.len() ==> final(self).typecodes@[k] == old(
                    self,
                ).typecodes@[k],
            i < final(self).typecodes@.len(),
            final(self).typecodes@[i as int] == typecode,
            final(self)@ == old(self)@,
    {
        match self.typecode_index(typecode) {
            Some(i) => i,
            None => {
                let i = self.typecodes.len();
                self.typecodes.push(typecode);
                proof {
                    assert forall|a: int, b: int|
                        0 <= a < b < self.typecodes@.len() implies self.typecodes@[a]
                        != self.typecodes@[b] by {
                        if b < i {
                            assert(old(self).typecodes@[a] != old(self).typecodes@[b]);
                        }
                    }
                    assert forall|r: int| 0 <= r < self.rules@.len() implies {
                        let rule = #[trigger] self.rules@[r];
                        &&& rule.typecode < self.typecodes@.len()
                        &&& rule.symbols@.len() > 0
                        &&& variables_before(
                            rule_syntax(rule.symbols@),
                            rule.symbols@.len() as int,
                        ) <= 255
                        &&& forall|j: int|
                            0 <= j < rule.symbols@.len() ==> (#[trigger] rule.symbols@[j]).typecode
                                < self.typecodes@.len()
                    } by {
                        let rule = old(self).rules@[r];
                        assert forall|j: int| 0 <= j < rule.symbols@.len() implies (
                        #[trigger] rule.symbols@[j]).typecode < self.typecodes@.len() by {
                            assert(rule.symbols@[j].typecode < old(self).typecodes@.len());
                        }
                    }
                    self.lemma_same_rules(old(self));
                }
                i
            },
        }
    }

    /// With the same rules and diagnostics and with typecodes that go on
    /// from those of `before`, the view is that of `before`.
    proof fn lemma_same_rules(&self, before: &Grammar)
        requires
            before.wf(),
            self.rules == before.rules,
            self.diagnostics == before.diagnostics,
            self.typecodes@.len() >= before.typecodes@.len(),
            forall|k: int|
                0 <= k < before.typecodes@.len() ==> self.typecodes@[k] == before.typecodes@[k],
        ensures
            self@ == before@,
    {
        assert forall|r: int| 0 <= r < self.rules@.len() implies rule_view(
            &self.rules@[r],
            self.typecodes@,
        ) == rule_view(&before.rules@[r], before.typecodes@) by {
            let rule = before.rules@[r];
            assert(rule.typecode < before.typecodes@.len());
            let a = rule_view(&rule, self.typecodes@);
            let b = rule_view(&rule, before.typecodes@);
            assert forall|j: int| 0 <= j < rule.symbols@.len() implies a.symbols[j]
                == b.symbols[j] by {
                assert(rule.symbols@[j].typecode < before.typecodes@.len());
            }
            assert(a.symbols =~= b.symbols);
        }
        assert(self@.rules =~= before@.rules);
    }

    fn note(&mut self, address: StatementAddress, diagnostic: Diagnostic)
        requires
            old(self).wf(),
        ensures
            final(self).wf(),
            final(self).syntax() == old(self).syntax(),
            final(self).provable_type == old(self).provable_type,
            final(self).logic_type == old(self).logic_type,
            final(self)@ == with_outcome(old(self)@, Outcome::Problem(diagnostic), address),
    {
        self.diagnostics.push((address, diagnostic));
        proof {
            assert(self@.rules =~= old(self)@.rules);
        }
    }

    /// Reads one command of an additional-information comment: `syntax`
    /// with a typecode, `as` and a second typecode says that statements of
    /// the first are parsed as formulas of the second.
    fn command(&mut self, command: &Vec<Vec<u8>>, nset: &Nameset)
        requires
            old(self).wf(),
            nset.wf(),
        ensures
            final(self).wf(),
            final(self).syntax() == old(self).syntax(),
            final(self)@ == old(self)@,
            (Typecodes { provable: final(self).provable_type, logic: final(self).logic_type })
                == with_command(
                Typecodes { provable: old(self).provable_type, logic: old(self).logic_type },
                nset,
                command,
            ),
    {
        if command.len() == 4 && is_word(&command[0], "syntax") && is_word(&command[2], "as") {
            self.provable_type = atom_or_none(nset, command[1].as_slice());
            self.logic_type = atom_or_none(nset, command[3].as_slice());
            proof {
                self.lemma_same_rules(old(self));
            }
        }
    }

    /// Takes up what the statement at `address` contributes: a rule if it is
    /// a floating hypothesis or a syntax axiom with which nothing is wrong.
    fn add_rule(
        &mut self,
        sset: &SegmentSet,
        nset: &Nameset,
        st: &crate::parser::Statement,
        address: StatementAddress,
    )
        requires
            old(self).wf(),
            sset.wf(),
            nset.wf(),
            old(self).syntax() == syntax_of(sset, nset),
            sset.statement_at(address) == Some(*st),
            st.stype == StatementType::Axiom || st.stype == StatementType::Floating,
        ensures
            final(self).wf(),
            final(self).syntax() == old(self).syntax(),
            final(self).provable_type == old(self).provable_type,
            final(self).logic_type == old(self).logic_type,
            final(self)@ == with_outcome(
                old(self)@,
                rule_outcome(nset, old(self).provable_type, st, address, old(self)@.rules),
                address,
            ),
    {
        proof {
            nset.lemma_wf();
        }
        if st.label.len() == 0 || st.math.len() == 0 {
            return ;
        }
        let label = match nset.lookup_label(st.label.as_slice()) {
            Some(l) => l,
            None => {
                return ;
            },
        };
        if label.address != address {
            return ;
        }
        let typecode = match nset.lookup_symbol(st.math[0].as_slice()) {
            Some(s) => s.atom,
            None => {
                self.note(address, Diagnostic::UndeclaredSymbol(0));
                return ;
            },
        };
        let is_float = st.stype == StatementType::Floating;
        if !is_float && typecode == self.provable_type {
            return ;
        }
        if is_float {
            if st.math.len() != 2 {
                self.note(address, Diagnostic::BadFloating);
                return ;
            }
            let variable = match nset.lookup_symbol(st.math[1].as_slice()) {
                Some(s) => s.stype == SymbolType::Variable,
                None => false,
            };
            if !variable {
                self.note(address, Diagnostic::FloatNotVariable(1));
                return ;
            }
        }
        let tokens = match crate::syntax::resolve_symbols(nset, &st.math, 1) {
            Some(tokens) => tokens,
            None => {
                self.note(address, Diagnostic::UndeclaredSymbol(first_undeclared(nset, &st.math)));
                return ;
            },
        };
        proof {
            // The symbols are the syntax of the label.
            assert(label.atom < nset.atom_count());
            assert(nset.label_at(label.atom) == Some(label));
            assert(syntax_at(sset, nset, label.atom) == Some(tokens@));
            assert(self.syntax@.contains_key(label.atom));
            assert(self.syntax@[label.atom] == tokens@);
        }
        let ghost wanted = RuleView {
            label: label.atom,
            typecode,
            is_float,
            symbols: rule_symbols(nset, tokens@, is_float),
            address,
        };
        let ghost goal = rule_outcome(nset, old(self).provable_type, st, address, old(self)@.rules);
        proof {
            assert(goal == checked_rule(nset, wanted, tokens@, old(self)@.rules));
        }
        let tc = self.intern_typecode(typecode);
        let mut symbols: Vec<RuleSymbol> = Vec::new();
        let mut j: usize = 0;
        while j < tokens.len()
            invariant
                goal == rule_outcome(nset, old(self).provable_type, st, address, old(self)@.rules),
                goal == checked_rule(nset, wanted, tokens@, old(self)@.rules),
                wanted.is_float == is_float,
                self.wf(),
                nset.wf(),
                self.syntax() == old(self).syntax(),
                self.provable_type == old(self).provable_type,
                self.logic_type == old(self).logic_type,
                self@ == old(self)@,
                self.rules == old(self).rules,
                tc < self.typecodes@.len(),
                self.typecodes@[tc as int] == typecode,
                0 <= j <= tokens@.len(),
                symbols@.len() == j,
                !is_float ==> first_floatless(nset, tokens@, 0) == first_floatless(
                    nset,
                    tokens@,
                    j as int,
                ),
                forall|k: int|
                    0 <= k < j ==> (#[trigger] symbols@[k]).atom == tokens@[k].atom
                        && symbols@[k].is_variable == tokens@[k].is_variable && symbols@[k].typecode
                        < self.typecodes@.len() && (tokens@[k].is_variable && !is_float
                        ==> float_of(nset, tokens@[k].atom) is Some
                        && self.typecodes@[symbols@[k].typecode as int] == float_of(
                        nset,
                        tokens@[k].atom,
                    )->0.typecode_atom),
            decreases tokens@.len() - j,
        {
            let token = tokens[j];
            let ghost before = self.typecodes@;
            let ghost so_far = symbols@;
            let mut place: usize = 0;
            if token.is_variable && !is_float {
                match nset.float_by_atom(token.atom) {
                    Some(f) => {
                        place = self.intern_typecode(f.typecode_atom);
                    },
                    None => {
                        proof {
                            assert(first_floatless(nset, tokens@, j as int) == Some(j as int));
                        }
                        self.note(address, Diagnostic::VariableMissingFloat(j + 1));
                        return ;
                    },
                }
            }
            symbols.push(
                RuleSymbol { atom: token.atom, is_variable: token.is_variable, typecode: place },
            );
            proof {
                assert forall|k: int| 0 <= k < j + 1 implies (#[trigger] symbols@[k]).atom
                    == tokens@[k].atom && symbols@[k].is_variable == tokens@[k].is_variable
                    && symbols@[k].typecode < self.typecodes@.len() && (tokens@[k].is_variable
                    && !is_float ==> float_of(nset, tokens@[k].atom) is Some
                    && self.typecodes@[symbols@[k].typecode as int] == float_of(
                    nset,
                    tokens@[k].atom,
                )->0.typecode_atom) by {
                    if k < j {
                        assert(symbols@[k] == so_far[k]);
                        assert(so_far[k].typecode < before.len());
                    }
                }
            }
            j += 1;
        }
        let mut variables: usize = 0;
        let mut j: usize = 0;
        while j < tokens.len()
            invariant
                0 <= j <= tokens@.len(),
                variables == variables_before(tokens@, j as int),
                variables <= j,
            decreases tokens@.len() - j,
        {
            if tokens[j].is_variable {
                variables += 1;
            }
            j += 1;
        }
        if variables > 255 {
            self.note(address, Diagnostic::GrammarTooManyVariables);
            return ;
        }
        if tokens.len() == 0 {
            self.note(address, Diagnostic::EmptyMathString);
            return ;
        }
        let ghost found = symbols@;
        let ghost views = self@.rules;
        proof {
            self.lemma_view();
        }
        let mut twin: Option<usize> = None;
        let mut r: usize = 0;
        while r < self.rules.len() && twin.is_none()
            invariant
                self.wf(),
                views == self@.rules,
                views.len() == self.rules@.len(),
                forall|q: int|
                    0 <= q < self.rules@.len() ==> #[trigger] views[q] == rule_view(
                        &self.rules@[q],
                        self.typecodes@,
                    ),
                tc < self.typecodes@.len(),
                self.typecodes@[tc as int] == typecode,
                found == symbols@,
                found.len() == wanted.symbols.len(),
                forall|k: int|
                    0 <= k < found.len() ==> (#[trigger] found[k]).atom == wanted.symbols[k].atom
                        && found[k].is_variable == wanted.symbols[k].is_variable,
                wanted.typecode == typecode,
                wanted.is_float == is_float,
                0 <= r <= self.rules@.len(),
                match twin {
                    Some(q) => q < self.rules@.len() && first_twin(views, wanted, 0) == Some(
                        q as int,
                    ),
                    None => first_twin(views, wanted, 0) == first_twin(views, wanted, r as int),
                },
            decreases self.rules@.len() - r + if twin is None { 1int } else { 0int },
        {
            let other = &self.rules[r];
            let alike = other.typecode == tc && other.is_float == is_float && same_symbols(
                &other.symbols,
                &symbols,
            );
            proof {
                let view = views[r as int];
                assert(view == rule_view(other, self.typecodes@));
                assert(other.typecode < self.typecodes@.len());
                if other.typecode != tc {
                    if (other.typecode as int) < tc {
                        assert(self.typecodes@[other.typecode as int] != self.typecodes@[tc as int]);
                    } else {
                        assert(self.typecodes@[tc as int] != self.typecodes@[other.typecode as int]);
                    }
                }
                if alike {
                    assert forall|k: int| 0 <= k < view.symbols.len() implies (
                    #[trigger] view.symbols[k]).atom == wanted.symbols[k].atom
                        && view.symbols[k].is_variable == wanted.symbols[k].is_variable by {
                        assert(other.symbols@[k].atom == found[k].atom);
                    }
                    assert(same_rule(view, wanted));
                } else {
                    if same_rule(view, wanted) {
                        assert forall|k: int| 0 <= k < other.symbols@.len() implies (
                        #[trigger] other.symbols@[k]).atom == symbols@[k].atom
                            && other.symbols@[k].is_variable == symbols@[k].is_variable by {
                            assert(view.symbols[k].atom == wanted.symbols[k].atom);
                            assert(found[k].atom == wanted.symbols[k].atom);
                        }
                    }
                    assert(!same_rule(view, wanted));
                }
            }
            if alike {
                twin = Some(r);
            } else {
                r += 1;
            }
        }
        match twin {
            Some(q) => {
                let first = self.rules[q].address;
                self.note(address, Diagnostic::GrammarAmbiguous(first));
                return ;
            },
            None => {},
        }
        let ghost before = *self;
        proof {
            assert(rule_syntax(found) =~= tokens@);
        }
        self.rules.push(Rule { label: label.atom, typecode: tc, is_float, symbols, address });
        proof {
            assert forall|r: int| 0 <= r < self.rules@.len() implies self.syntax@.contains_key(
                (#[trigger] self.rules@[r]).label,
            ) && self.syntax@[self.rules@[r].label] == rule_syntax(self.rules@[r].symbols@) by {
                if r < before.rules@.len() {
                    assert(self.rules@[r] == before.rules@[r]);
                } else {
                    assert(self.rules@[r].symbols@ == found);
                }
            }
            assert forall|r: int| 0 <= r < self.rules@.len() implies {
                let rule = #[trigger] self.rules@[r];
                &&& rule.typecode < self.typecodes@.len()
                &&& rule.symbols@.len() > 0
                &&& variables_before(rule_syntax(rule.symbols@), rule.symbols@.len() as int) <= 255
                &&& forall|j: int|
                    0 <= j < rule.symbols@.len() ==> (#[trigger] rule.symbols@[j]).typecode
                        < self.typecodes@.len()
            } by {
                if r < before.rules@.len() {
                    assert(self.rules@[r] == before.rules@[r]);
                } else {
                    let rule = self.rules@[r];
                    assert(rule.symbols@ == found);
                    assert forall|j: int| 0 <= j < found.len() implies (#[trigger] found[j]).typecode
                        < self.typecodes@.len() by {}
                }
            }
            let made = rule_view(&self.rules@[before.rules@.len() as int], self.typecodes@);
            assert(made.symbols =~= wanted.symbols) by {
                assert forall|k: int| 0 <= k < found.len() implies made.symbols[k]
                    == wanted.symbols[k] by {
                    assert(found[k].atom == tokens@[k].atom);
                }
            }
            assert(made == wanted);
            assert(self@.rules =~= before@.rules.push(wanted)) by {
                assert forall|r: int| 0 <= r < before.rules@.len() implies self@.rules[r]
                    == before@.rules[r] by {
                    assert(self.rules@[r] == before.rules@[r]);
                }
            }
        }
    }

    /// Builds the grammar of the database: the typecodes that its commands
    /// name, and what each statement contributes, in the order of the
    /// source.
    pub fn new(sset: &SegmentSet, nset: &Nameset) -> (g: Grammar)
        requires
            sset.wf(),
            nset.wf(),
        ensures
            g.wf(),
            g.syntax() == syntax_of(sset, nset),
            g.provable() == typecodes_of(sset, nset, sset.entries().len() as int).provable,
            g.logic() == typecodes_of(sset, nset, sset.entries().len() as int).logic,
            g@ == with_segments(sset, nset, g.provable(), sset.entries().len() as int),
    {
        let mut g = Grammar {
            provable_type: atom_or_none(nset, "|-".as_bytes()),
            logic_type: atom_or_none(nset, "wff".as_bytes()),
            typecodes: Vec::new(),
            rules: Vec::new(),
            diagnostics: Vec::new(),
            syntax: Ghost(syntax_of(sset, nset)),
        };
        proof {
            assert(g@.rules =~= Seq::<RuleView>::empty());
        }
        let ghost empty = g@;
        let segments = sset.segments();
        // The commands come first: they say which axioms are syntax.
        let mut i: usize = 0;
        while i < segments.len()
            invariant
                0 <= i <= segments@.len(),
                segments@ == sset.entries(),
                nset.wf(),
                g.wf(),
                g.syntax() == syntax_of(sset, nset),
                g@ == empty,
                (Typecodes { provable: g.provable_type, logic: g.logic_type }) == typecodes_of(
                    sset,
                    nset,
                    i as int,
                ),
            decreases segments@.len() - i,
        {
            let statements = &segments[i].segment.statements;
            let mut k: usize = 0;
            while k < statements.len()
                invariant
                    0 <= i < segments@.len(),
                    segments@ == sset.entries(),
                    *statements == segments@[i as int].segment.statements,
                    0 <= k <= statements@.len(),
                    nset.wf(),
                    g.wf(),
                    g.syntax() == syntax_of(sset, nset),
                    g@ == empty,
                    (Typecodes { provable: g.provable_type, logic: g.logic_type })
                        == typecodes_in_segment(
                        typecodes_of(sset, nset, i as int),
                        sset,
                        nset,
                        i as int,
                        k as int,
                    ),
                decreases statements@.len() - k,
            {
                let st = &statements[k];
                let ghost base = Typecodes { provable: g.provable_type, logic: g.logic_type };
                if st.stype == StatementType::AdditionalInfoComment {
                    let mut c: usize = 0;
                    while c < st.commands.len()
                        invariant
                            0 <= c <= st.commands@.len(),
                            st.stype == StatementType::AdditionalInfoComment,
                            nset.wf(),
                            g.wf(),
                            g.syntax() == syntax_of(sset, nset),
                            g@ == empty,
                            (Typecodes { provable: g.provable_type, logic: g.logic_type })
                                == with_commands(base, nset, st, c as int),
                        decreases st.commands@.len() - c,
                    {
                        g.command(&st.commands[c], nset);
                        c += 1;
                    }
                }
                k += 1;
            }
            i += 1;
        }
        let provable = g.provable_type;
        let mut i: usize = 0;
        while i < segments.len()
            invariant
                0 <= i <= segments@.len(),
                segments@ == sset.entries(),
                sset.wf(),
                nset.wf(),
                g.wf(),
                g.syntax() == syntax_of(sset, nset),
                g.provable_type == provable,
                (Typecodes { provable: g.provable_type, logic: g.logic_type }) == typecodes_of(
                    sset,
                    nset,
                    segments@.len() as int,
                ),
                g@ == with_segments(sset, nset, provable, i as int),
            decreases segments@.len() - i,
        {
            let entry = &segments[i];
            let mut k: usize = 0;
            while k < entry.segment.statements.len()
                invariant
                    0 <= i < segments@.len(),
                    segments@ == sset.entries(),
                    *entry == segments@[i as int],
                    0 <= k <= entry.segment.statements@.len(),
                    sset.wf(),
                    nset.wf(),
                    g.wf(),
                    g.syntax() == syntax_of(sset, nset),
                    g.provable_type == provable,
                    (Typecodes { provable: g.provable_type, logic: g.logic_type }) == typecodes_of(
                        sset,
                        nset,
                        segments@.len() as int,
                    ),
                    g@ == with_statements(
                        with_segments(sset, nset, provable, i as int),
                        sset,
                        nset,
                        provable,
                        i as int,
                        k as int,
                    ),
                decreases entry.segment.statements@.len() - k,
            {
                let st = &entry.segment.statements[k];
                let address = StatementAddress { segment_id: entry.id, index: k };
                if st.stype == StatementType::Axiom || st.stype == StatementType::Floating {
                    proof {
                        sset.lemma_statement_at(i as int, k);
                    }
                    g.add_rule(sset, nset, st, address);
                }
                k += 1;
            }
            i += 1;
        }
        g
    }
}

} // verus!

verus! {

/// The atoms of a string of symbols.
pub open spec fn atoms_of(symbols: Seq<MathSymbol>) -> Seq<Symbol> {
    Seq::new(symbols.len(), |i: int| symbols[i].atom)
}

/// Whether the formula stands for the statement at `address`: written out in
/// the syntax of the database, it gives the symbols of the statement behind
/// the typecode.
pub open spec fn stands_for(
    f: FormulaView,
    sset: &SegmentSet,
    nset: &Nameset,
    address: StatementAddress,
) -> bool {
    match sset.statement_at(address) {
        Some(st) => match crate::syntax::resolve(nset, &st.math, 1) {
            Some(symbols) => flattenable(f.term, syntax_of(sset, nset)) && flatten(
                f.term,
                syntax_of(sset, nset),
            ) == atoms_of(symbols),
            None => false,
        },
        None => false,
    }
}

/// The formulas of the statements of one segment.
struct SegmentFormulas {
    id: crate::parser::SegmentId,
    formulas: Vec<Option<Formula>>,
}

/// The formulas of the statements of a database.
pub struct StmtParse {
    segments: Vec<SegmentFormulas>,
    diagnostics: Vec<(StatementAddress, Diagnostic)>,
}

impl StmtParse {
    /// Entry `i` holds a formula for `address`.
    spec fn holds(&self, i: int, address: StatementAddress) -> bool {
        &&& 0 <= i < self.segments@.len()
        &&& self.segments@[i].id == address.segment_id
        &&& address.index < self.segments@[i].formulas@.len()
        &&& self.segments@[i].formulas@[address.index as int] is Some
    }

    /// The formula of the statement at `address`, if it has one.
    pub closed spec fn formula_at(&self, address: StatementAddress) -> Option<Formula> {
        if exists|i: int| self.holds(i, address) {
            let i = choose|i: int| self.holds(i, address);
            self.segments@[i].formulas@[address.index as int]
        } else {
            None
        }
    }

    /// The invariant of the result: no segment occurs twice.
    pub closed spec fn wf(&self) -> bool {
        forall|i: int, k: int|
            0 <= i < k < self.segments@.len() ==> (#[trigger] self.segments@[i]).id != (
            #[trigger] self.segments@[k]).id
    }

    /// Every formula stands for its statement.
    pub open spec fn round_trips(&self, sset: &SegmentSet, nset: &Nameset) -> bool {
        forall|address: StatementAddress|
            match #[trigger] self.formula_at(address) {
                Some(f) => stands_for(f@, sset, nset, address),
                None => true,
            }
    }

    /// No formula at all.
    pub fn new() -> (r: StmtParse)
        ensures
            r.wf(),
            forall|address: StatementAddress| r.formula_at(address) is None,
    {
        StmtParse { segments: Vec::new(), diagnostics: Vec::new() }
    }

    /// The problems found while the statements were parsed.
    pub closed spec fn found(&self) -> Seq<(StatementAddress, Diagnostic)> {
        self.diagnostics@
    }

    /// The problems found while the statements were parsed.
    pub fn diagnostics(&self) -> (r: &Vec<(StatementAddress, Diagnostic)>)
        ensures
            r@ == self.found(),
    {
        &self.diagnostics
    }

    /// Writes out the formula of every statement of `sset` that has one and
    /// compares what comes with the statement. Returns the statements that
    /// differ, each with a diagnostic, in the order of the source.
    pub fn verify(&self, sset: &SegmentSet, nset: &Nameset) -> (r: Vec<
        (StatementAddress, Diagnostic),
    >)
        requires
            self.wf(),
            sset.wf(),
            nset.wf(),
            self.writable(sset, nset),
        ensures
            r@ == self.differing(sset, nset, sset.entries().len() as int),
    {
        let mut r: Vec<(StatementAddress, Diagnostic)> = Vec::new();
        let segments = sset.segments();
        let mut i: usize = 0;
        while i < segments.len()
            invariant
                0 <= i <= segments@.len(),
                segments@ == sset.entries(),
                self.wf(),
                sset.wf(),
                nset.wf(),
                self.writable(sset, nset),
                r@ == self.differing(sset, nset, i as int),
            decreases segments@.len() - i,
        {
            let entry = &segments[i];
            let ghost before = r@;
            let mut k: usize = 0;
            while k < entry.segment.statements.len()
                invariant
                    0 <= i < segments@.len(),
                    segments@ == sset.entries(),
                    *entry == segments@[i as int],
                    0 <= k <= entry.segment.statements@.len(),
                    self.wf(),
                    sset.wf(),
                    nset.wf(),
                    self.writable(sset, nset),
                    r@ == before + self.differing_in(sset, nset, i as int, k as int),
                decreases entry.segment.statements@.len() - k,
            {
                let address = StatementAddress { segment_id: entry.id, index: k };
                let st = &entry.segment.statements[k];
                let ghost so_far = r@;
                proof {
                    sset.lemma_statement_at(i as int, k);
                    assert(sset.statement_at(address) == Some(*st));
                }
                match self.formula_by_address(address) {
                    Some(formula) => {
                        proof {
                            assert(self.formula_at(address) == Some(*formula));
                            assert(flattenable(formula@.term, syntax_of(sset, nset)));
                        }
                        let same = match crate::syntax::resolve_symbols(nset, &st.math, 1) {
                            Some(symbols) => {
                                let wanted = atoms(&symbols);
                                let mut walk = formula.iter(sset, nset);
                                let written = walk.collect();
                                same_atoms(&written, &wanted)
                            },
                            None => false,
                        };
                        proof {
                            assert(same == stands_for(formula@, sset, nset, address));
                        }
                        if !same {
                            r.push((address, Diagnostic::UnparseableStatement));
                        }
                    },
                    None => {},
                }
                proof {
                    assert(r@ =~= so_far + self.difference(sset, nset, address));
                    assert(r@ =~= before + self.differing_in(sset, nset, i as int, k + 1));
                }
                k += 1;
            }
            i += 1;
        }
        r
    }

    /// The formula of the statement at `address`, if it has one.
    pub fn formula_by_address(&self, address: StatementAddress) -> (r: Option<&Formula>)
        requires
            self.wf(),
        ensures
            match r {
                Some(f) => self.formula_at(address) == Some(*f),
                None => self.formula_at(address) is None,
            },
    {
        let mut i: usize = 0;
        while i < self.segments.len()
            invariant
                self.wf(),
                0 <= i <= self.segments@.len(),
                forall|k: int| 0 <= k < i ==> self.segments@[k].id != address.segment_id,
            decreases self.segments@.len() - i,
        {
            if self.segments[i].id == address.segment_id {
                proof {
                    assert forall|k: int| self.holds(k, address) implies k == i by {
                        if k < i {
                        } else if k > i {
                            assert(self.segments@[i as int].id != self.segments@[k].id);
                        }
                    }
                }
                if address.index < self.segments[i].formulas.len() {
                    let found = self.segments[i].formulas[address.index].as_ref();
                    proof {
                        if found is Some {
                            assert(self.holds(i as int, address));
                        }
                    }
                    return found;
                }
                return None;
            }
            i += 1;
        }
        None
    }

    /// The formula of a statement, if it has one.
    pub fn get_formula(&self, sref: &StatementRef<'_>) -> (r: Option<&Formula>)
        requires
            self.wf(),
        ensures
            match r {
                Some(f) => self.formula_at(sref.address) == Some(*f),
                None => self.formula_at(sref.address) is None,
            },
    {
        self.formula_by_address(sref.address)
    }
}

/// The atoms of the symbols.
fn atoms(symbols: &Vec<MathSymbol>) -> (r: Vec<Symbol>)
    ensures
        r@ == atoms_of(symbols@),
{
    let mut r: Vec<Symbol> = Vec::new();
    let mut i: usize = 0;
    while i < symbols.len()
        invariant
            0 <= i <= symbols@.len(),
            r@.len() == i,
            forall|k: int| 0 <= k < i ==> r@[k] == symbols@[k].atom,
        decreases symbols@.len() - i,
    {
        r.push(symbols[i].atom);
        i += 1;
    }
    assert(r@ =~= atoms_of(symbols@));
    r
}

/// What parsing makes of a statement.
pub ghost enum Parsed {
    /// Nothing: the statement is not parsed.
    Skipped,
    /// A diagnostic.
    Problem(Diagnostic),
    /// A formula, of the typecode given.
    Formula(TypeCode),
}

/// What parsing makes of a statement. A `$p`, an `$e` and an `$a` of the
/// typecode of provable statements is parsed, if it has a math string; a
/// statement of that typecode as a formula of the typecode that the grammar
/// names for it, any other as a formula of its own typecode. A formula is
/// found if the grammar derives the symbols behind the typecode from that
/// typecode.
pub open spec fn statement_outcome(nset: &Nameset, grammar: &Grammar, st: &Statement) -> Parsed {
    if !(st.stype == StatementType::Axiom || st.stype == StatementType::Provable || st.stype
        == StatementType::Essential) || st.math@.len() == 0 {
        Parsed::Skipped
    } else {
        match nset.symbol(st.math@[0]@) {
            None => Parsed::Problem(Diagnostic::UndeclaredSymbol(0)),
            Some(typecode) => if st.stype == StatementType::Axiom && typecode.atom
                != grammar.provable() {
                Parsed::Skipped
            } else {
                match crate::syntax::resolve(nset, &st.math, 1) {
                    None => Parsed::Problem(
                        Diagnostic::UndeclaredSymbol(first_unknown(nset, &st.math, 1) as usize),
                    ),
                    Some(tokens) => {
                        let expected = if typecode.atom == grammar.provable() {
                            grammar.logic()
                        } else {
                            typecode.atom
                        };
                        if grammar.parseable(atoms_of(tokens), seq![expected]) {
                            Parsed::Formula(expected)
                        } else {
                            Parsed::Problem(Diagnostic::UnparseableStatement)
                        }
                    },
                }
            },
        }
    }
}

/// Whether the formula is one for the statement: of the typecode
/// `typecode`, and derived by the grammar from the symbols of the statement
/// behind the typecode.
pub open spec fn formula_for(f: FormulaView, nset: &Nameset, grammar: &Grammar, st: &Statement, typecode: TypeCode) -> bool {
    &&& f.typecode == typecode
    &&& crate::syntax::resolve(nset, &st.math, 1) matches Some(tokens) && grammar.derives(
        f.term,
        typecode,
        atoms_of(tokens),
    )
}

/// The diagnostic that parsing earns a statement, if it earns one.
pub open spec fn statement_problem(nset: &Nameset, grammar: &Grammar, st: &Statement) -> Option<
    Diagnostic,
> {
    match statement_outcome(nset, grammar, st) {
        Parsed::Problem(d) => Some(d),
        _ => None,
    }
}

/// Parses one statement: gives the formula, or the diagnostic that the
/// statement earns, or neither for a statement that is not parsed.
fn parse_statement(
    sset: &SegmentSet,
    nset: &Nameset,
    grammar: &Grammar,
    st: &crate::parser::Statement,
    Ghost(address): Ghost<StatementAddress>,
) -> (r: (Option<Formula>, Option<Diagnostic>))
    requires
        sset.wf(),
        nset.wf(),
        grammar.wf(),
        grammar.syntax() == syntax_of(sset, nset),
        sset.statement_at(address) == Some(*st),
        st.stype == StatementType::Axiom || st.stype == StatementType::Provable || st.stype
            == StatementType::Essential,
    ensures
        r.0 matches Some(f) ==> stands_for(f@, sset, nset, address),
        r.1 == statement_problem(nset, grammar, st),
        match statement_outcome(nset, grammar, st) {
            Parsed::Formula(typecode) => r.0 matches Some(f) && formula_for(
                f@,
                nset,
                grammar,
                st,
                typecode,
            ),
            _ => r.0 is None,
        },
{
    if st.math.len() == 0 {
        return (None, None);
    }
    let typecode = match nset.lookup_symbol(st.math[0].as_slice()) {
        Some(s) => s.atom,
        None => {
            return (None, Some(Diagnostic::UndeclaredSymbol(0)));
        },
    };
    let provable = typecode == grammar.provable_typecode();
    if st.stype == StatementType::Axiom && !provable {
        return (None, None);
    }
    let symbols = match crate::syntax::resolve_symbols(nset, &st.math, 1) {
        Some(symbols) => atoms(&symbols),
        None => {
            return (None, Some(Diagnostic::UndeclaredSymbol(first_undeclared(nset, &st.math))));
        },
    };
    let mut expected: Vec<TypeCode> = Vec::new();
    expected.push(
        if provable {
            grammar.logic_typecode()
        } else {
            typecode
        },
    );
    proof {
        assert(expected@ =~= seq![expected@[0]]);
    }
    match grammar.parse_formula(symbols.as_slice(), expected.as_slice()) {
        Ok(f) => (Some(f), None),
        Err(d) => (None, Some(d)),
    }
}

/// The diagnostics that parsing earns the first `k` statements of segment
/// `i`.
pub open spec fn problems_in_segment(
    sset: &SegmentSet,
    nset: &Nameset,
    grammar: &Grammar,
    i: int,
    k: int,
) -> Seq<(StatementAddress, Diagnostic)>
    decreases k,
{
    if k <= 0 {
        Seq::empty()
    } else {
        problems_in_segment(sset, nset, grammar, i, k - 1) + (match statement_problem(
            nset,
            grammar,
            &sset.entries()[i].segment.statements@[k - 1],
        ) {
            Some(d) => seq![
                (StatementAddress { segment_id: sset.entries()[i].id, index: (k - 1) as usize }, d),
            ],
            None => Seq::empty(),
        })
    }
}

/// The diagnostics that parsing earns the statements of the first `i`
/// segments.
pub open spec fn problems(sset: &SegmentSet, nset: &Nameset, grammar: &Grammar, i: int) -> Seq<
    (StatementAddress, Diagnostic),
>
    decreases i,
{
    if i <= 0 {
        Seq::empty()
    } else {
        problems(sset, nset, grammar, i - 1) + problems_in_segment(
            sset,
            nset,
            grammar,
            i - 1,
            sset.entries()[i - 1].segment.statements@.len() as int,
        )
    }
}

impl StmtParse {
    /// Every formula of a statement of `sset` can be written out in the
    /// syntax of the database: the labels of its nodes name statements, and
    /// each node has a child for each variable of its statement.
    pub open spec fn writable(&self, sset: &SegmentSet, nset: &Nameset) -> bool {
        forall|address: StatementAddress|
            sset.statement_at(address) is Some ==> match #[trigger] self.formula_at(address) {
                Some(f) => flattenable(f@.term, syntax_of(sset, nset)),
                None => true,
            }
    }

    /// What writing out the formula of the statement at `address` finds: a
    /// diagnostic, if the statement has a formula that does not stand for
    /// it.
    pub open spec fn difference(
        &self,
        sset: &SegmentSet,
        nset: &Nameset,
        address: StatementAddress,
    ) -> Seq<(StatementAddress, Diagnostic)> {
        match self.formula_at(address) {
            Some(f) => if stands_for(f@, sset, nset, address) {
                Seq::empty()
            } else {
                seq![(address, Diagnostic::UnparseableStatement)]
            },
            None => Seq::empty(),
        }
    }

    /// What writing out the formulas of the first `k` statements of segment
    /// `i` finds.
    pub open spec fn differing_in(&self, sset: &SegmentSet, nset: &Nameset, i: int, k: int) -> Seq<
        (StatementAddress, Diagnostic),
    >
        decreases k,
    {
        if k <= 0 {
            Seq::empty()
        } else {
            self.differing_in(sset, nset, i, k - 1) + self.difference(
                sset,
                nset,
                StatementAddress { segment_id: sset.entries()[i].id, index: (k - 1) as usize },
            )
        }
    }

    /// What writing out the formulas of the statements of the first `i`
    /// segments finds, in the order of the source.
    pub open spec fn differing(&self, sset: &SegmentSet, nset: &Nameset, i: int) -> Seq<
        (StatementAddress, Diagnostic),
    >
        decreases i,
    {
        if i <= 0 {
            Seq::empty()
        } else {
            self.differing(sset, nset, i - 1) + self.differing_in(
                sset,
                nset,
                i - 1,
                sset.entries()[i - 1].segment.statements@.len() as int,
            )
        }
    }

    /// Where every formula stands for its statement, writing the formulas
    /// of a segment out finds nothing.
    pub proof fn lemma_round_trips_in(&self, sset: &SegmentSet, nset: &Nameset, i: int, k: int)
        requires
            self.round_trips(sset, nset),
        ensures
            self.differing_in(sset, nset, i, k) == Seq::<(StatementAddress, Diagnostic)>::empty(),
        decreases k,
    {
        if k > 0 {
            self.lemma_round_trips_in(sset, nset, i, k - 1);
            let address = StatementAddress {
                segment_id: sset.entries()[i].id,
                index: (k - 1) as usize,
            };
            assert(self.formula_at(address) matches Some(f) ==> stands_for(f@, sset, nset, address));
            assert(self.difference(sset, nset, address) =~= Seq::empty());
            assert(self.differing_in(sset, nset, i, k) =~= Seq::empty());
        }
    }

    /// Where every formula stands for its statement, writing the formulas
    /// out finds nothing.
    pub proof fn lemma_round_trips(&self, sset: &SegmentSet, nset: &Nameset, i: int)
        requires
            self.round_trips(sset, nset),
        ensures
            self.differing(sset, nset, i) == Seq::<(StatementAddress, Diagnostic)>::empty(),
            self.writable(sset, nset),
        decreases i,
    {
        if i > 0 {
            self.lemma_round_trips(sset, nset, i - 1);
            self.lemma_round_trips_in(
                sset,
                nset,
                i - 1,
                sset.entries()[i - 1].segment.statements@.len() as int,
            );
            assert(self.differing(sset, nset, i) =~= Seq::empty());
        }
        assert forall|address: StatementAddress|
            sset.statement_at(address) is Some implies match #[trigger] self.formula_at(address) {
            Some(f) => flattenable(f@.term, syntax_of(sset, nset)),
            None => true,
        } by {
            if self.formula_at(address) is Some {
                assert(stands_for(self.formula_at(address)->0@, sset, nset, address));
            }
        }
    }

    /// Every statement has the formula that parsing makes of it, and no
    /// other statement has one.
    pub open spec fn parses(&self, sset: &SegmentSet, nset: &Nameset, grammar: &Grammar) -> bool {
        forall|i: int, k: usize|
            #![trigger sset.entries()[i].segment.statements@[k as int]]
            0 <= i < sset.entries().len() && k < sset.entries()[i].segment.statements@.len() ==> {
                let st = sset.entries()[i].segment.statements@[k as int];
                let address = StatementAddress { segment_id: sset.entries()[i].id, index: k };
                match statement_outcome(nset, grammar, &st) {
                    Parsed::Formula(typecode) => self.formula_at(address) matches Some(f)
                        && formula_for(f@, nset, grammar, &st, typecode),
                    _ => self.formula_at(address) is None,
                }
            }
    }

    /// The formula of statement `k` of segment `i` is the one that is kept
    /// for it.
    proof fn lemma_formula_at(&self, i: int, k: usize)
        requires
            self.wf(),
            0 <= i < self.segments@.len(),
            k < self.segments@[i].formulas@.len(),
        ensures
            self.formula_at(StatementAddress { segment_id: self.segments@[i].id, index: k })
                == self.segments@[i].formulas@[k as int],
    {
        let address = StatementAddress { segment_id: self.segments@[i].id, index: k };
        if exists|s: int| self.holds(s, address) {
            let s = choose|s: int| self.holds(s, address);
            if s < i {
                assert(self.segments@[s].id != self.segments@[i].id);
            } else if i < s {
                assert(self.segments@[i].id != self.segments@[s].id);
            }
        } else {
            assert(!self.holds(i, address));
        }
    }
}

/// Parses the statements of the database: every `$p` and `$e`, and every
/// `$a` of the typecode of provable statements. A statement of that typecode
/// is parsed as a formula of the typecode that the grammar names for it.
/// Each statement that is parsed has a formula or earns a diagnostic.
pub fn parse_statements(sset: &SegmentSet, nset: &Nameset, grammar: &Grammar) -> (r: StmtParse)
    requires
        sset.wf(),
        nset.wf(),
        grammar.wf(),
        grammar.syntax() == syntax_of(sset, nset),
    ensures
        r.wf(),
        r.round_trips(sset, nset),
        r.parses(sset, nset, grammar),
        r.found() == problems(sset, nset, grammar, sset.entries().len() as int),
{
    let mut result = StmtParse { segments: Vec::new(), diagnostics: Vec::new() };
    let segments = sset.segments();
    proof {
        sset.lemma_wf();
    }
    let mut i: usize = 0;
    while i < segments.len()
        invariant
            0 <= i <= segments@.len(),
            segments@ == sset.entries(),
            sset.wf(),
            nset.wf(),
            grammar.wf(),
            grammar.syntax() == syntax_of(sset, nset),
            result.segments@.len() == i,
            result.diagnostics@ == problems(sset, nset, grammar, i as int),
            forall|s: int|
                0 <= s < i ==> (#[trigger] result.segments@[s]).id == segments@[s].id
                    && result.segments@[s].formulas@.len()
                    == segments@[s].segment.statements@.len(),
            forall|s: int, k: usize|
                0 <= s < i && k < result.segments@[s].formulas@.len() ==> kept_for(
                    (#[trigger] result.segments@[s].formulas@[k as int]),
                    sset,
                    nset,
                    grammar,
                    s,
                    k,
                ),
        decreases segments@.len() - i,
    {
        let entry = &segments[i];
        let mut formulas: Vec<Option<Formula>> = Vec::new();
        let mut k: usize = 0;
        while k < entry.segment.statements.len()
            invariant
                0 <= i < segments@.len(),
                segments@ == sset.entries(),
                *entry == segments@[i as int],
                0 <= k <= entry.segment.statements@.len(),
                sset.wf(),
                nset.wf(),
                grammar.wf(),
                grammar.syntax() == syntax_of(sset, nset),
                formulas@.len() == k,
                forall|m: usize|
                    m < k ==> kept_for(#[trigger] formulas@[m as int], sset, nset, grammar, i as int, m),
                result.segments@.len() == i,
                result.diagnostics@ == problems(sset, nset, grammar, i as int)
                    + problems_in_segment(sset, nset, grammar, i as int, k as int),
                forall|s: int|
                    0 <= s < i ==> (#[trigger] result.segments@[s]).id == segments@[s].id
                        && result.segments@[s].formulas@.len()
                        == segments@[s].segment.statements@.len(),
                forall|s: int, m: usize|
                    0 <= s < i && m < result.segments@[s].formulas@.len() ==> kept_for(
                        (#[trigger] result.segments@[s].formulas@[m as int]),
                        sset,
                        nset,
                        grammar,
                        s,
                        m,
                    ),
            decreases entry.segment.statements@.len() - k,
        {
            let st = &entry.segment.statements[k];
            let address = StatementAddress { segment_id: entry.id, index: k };
            let ghost so_far = result.diagnostics@;
            let mut formula: Option<Formula> = None;
            match st.stype {
                StatementType::Axiom | StatementType::Provable | StatementType::Essential => {
                    proof {
                        sset.lemma_statement_at(i as int, k);
                    }
                    let parsed = parse_statement(sset, nset, grammar, st, Ghost(address));
                    formula = parsed.0;
                    match parsed.1 {
                        Some(d) => {
                            result.diagnostics.push((address, d));
                        },
                        None => {},
                    }
                },
                _ => {},
            }
            proof {
                let more = match statement_problem(nset, grammar, st) {
                    Some(d) => seq![(address, d)],
                    None => Seq::empty(),
                };
                assert(result.diagnostics@ =~= so_far + more);
                assert(problems_in_segment(sset, nset, grammar, i as int, k + 1)
                    == problems_in_segment(sset, nset, grammar, i as int, k as int) + more);
                assert(result.diagnostics@ =~= problems(sset, nset, grammar, i as int)
                    + problems_in_segment(sset, nset, grammar, i as int, k + 1));
            }
            formulas.push(formula);
            k += 1;
        }
        result.segments.push(SegmentFormulas { id: entry.id, formulas });
        i += 1;
    }
    proof {
        assert forall|a: int, b: int| 0 <= a < b < result.segments@.len() implies (
        #[trigger] result.segments@[a]).id != (#[trigger] result.segments@[b]).id by {
            assert(sset.entries()[a].id != sset.entries()[b].id);
        }
        assert forall|address: StatementAddress|
            match #[trigger] result.formula_at(address) {
                Some(f) => stands_for(f@, sset, nset, address),
                None => true,
            } by {
            if exists|s: int| result.holds(s, address) {
                let s = choose|s: int| result.holds(s, address);
                assert(result.segments@[s].formulas@[address.index as int] is Some);
                assert(kept_for(
                    result.segments@[s].formulas@[address.index as int],
                    sset,
                    nset,
                    grammar,
                    s,
                    address.index,
                ));
                assert(StatementAddress { segment_id: segments@[s].id, index: address.index }
                    == address);
            }
        }
        assert forall|i: int, k: usize|
            #![trigger sset.entries()[i].segment.statements@[k as int]]
            0 <= i < sset.entries().len() && k < sset.entries()[i].segment.statements@.len() implies {
            let st = sset.entries()[i].segment.statements@[k as int];
            let address = StatementAddress { segment_id: sset.entries()[i].id, index: k };
            match statement_outcome(nset, grammar, &st) {
                Parsed::Formula(typecode) => result.formula_at(address) matches Some(f)
                    && formula_for(f@, nset, grammar, &st, typecode),
                _ => result.formula_at(address) is None,
            }
        } by {
            result.lemma_formula_at(i, k);
            assert(kept_for(result.segments@[i].formulas@[k as int], sset, nset, grammar, i, k));
        }
    }
    result
}

/// Whether `kept` is what is to be kept for statement `k` of segment `i`:
/// the formula that parsing makes of the statement, which stands for it, or
/// nothing.
pub open spec fn kept_for(
    kept: Option<Formula>,
    sset: &SegmentSet,
    nset: &Nameset,
    grammar: &Grammar,
    i: int,
    k: usize,
) -> bool {
    let st = sset.entries()[i].segment.statements@[k as int];
    let address = StatementAddress { segment_id: sset.entries()[i].id, index: k };
    &&& kept matches Some(f) ==> stands_for(f@, sset, nset, address)
    &&& match statement_outcome(nset, grammar, &st) {
        Parsed::Formula(typecode) => kept matches Some(f) && formula_for(
            f@,
            nset,
            grammar,
            &st,
            typecode,
        ),
        _ => kept is None,
    }
}

} // verus!
