//! The database as text: the lines that show its grammar, its formulas,
//! its outline, and a statement with its hypotheses.

use crate::database::addresses;
use crate::database::Database;
use crate::formula::lossy_text;
use crate::formula::push_bytes;
use crate::formula::shows;
use crate::formula::spelled;
use crate::formula::Symbol;
use crate::formula::TypeCode;
use crate::grammar::Grammar;
use crate::grammar::Rule;
use crate::grammar::RuleSymbol;
use crate::grammar::StmtParse;
use crate::nameck::Atom;
use crate::nameck::Nameset;
use crate::outline::nested;
use crate::outline::OutlineNode;
use crate::parser::Statement;
use crate::parser::StatementAddress;
use crate::parser::Token;
use crate::scopes::first_frame;
use crate::scopes::hyp_view;
use crate::scopes::hyp_views;
use crate::scopes::HypView;
use crate::segment_set::SegmentSet;
use crate::source::words;
use vstd::prelude::*;
use vstd::string::StringSliceAdditionalSpecFns;

verus! {

/// Whether each of the lines shows the bytes that stand at its place.
pub open spec fn show_all(lines: Seq<String>, bytes: Seq<Seq<u8>>) -> bool {
    &&& lines.len() == bytes.len()
    &&& forall|i: int| 0 <= i < lines.len() ==> shows((#[trigger] lines[i])@, bytes[i])
}

/// `n` blanks.
pub open spec fn blanks(n: int) -> Seq<u8> {
    Seq::new(
        if n < 0 {
            0nat
        } else {
            n as nat
        },
        |i: int| 32u8,
    )
}

/// The number in decimal digits.
pub open spec fn digits(n: nat) -> Seq<u8>
    decreases n,
{
    if n < 10 {
        seq![(48 + n) as u8]
    } else {
        digits(n / 10).push((48 + n % 10) as u8)
    }
}

/// The words with a blank between each two.
pub open spec fn joined(tokens: Seq<Seq<u8>>) -> Seq<u8>
    decreases tokens.len(),
{
    if tokens.len() == 0 {
        Seq::empty()
    } else if tokens.len() == 1 {
        tokens[0]
    } else {
        joined(tokens.drop_last()) + seq![32u8] + tokens.last()
    }
}

/// Each line as text.
pub fn texts(lines: &Vec<Token>) -> (r: Vec<String>)
    ensures
        show_all(r@, words(lines)),
{
    let mut r: Vec<String> = Vec::new();
    let mut i: usize = 0;
    while i < lines.len()
        invariant
            0 <= i <= lines@.len(),
            r@.len() == i,
            forall|k: int| 0 <= k < i ==> shows((#[trigger] r@[k])@, lines@[k]@),
        decreases lines@.len() - i,
    {
        r.push(lossy_text(&lines[i]));
        i += 1;
    }
    r
}

/// Puts `n` blanks behind `bytes`.
fn push_blanks(bytes: &mut Vec<u8>, n: usize)
    ensures
        final(bytes)@ == old(bytes)@ + blanks(n as int),
{
    let mut i: usize = 0;
    proof {
        assert(bytes@ =~= old(bytes)@ + blanks(0));
    }
    while i < n
        invariant
            0 <= i <= n,
            bytes@ == old(bytes)@ + blanks(i as int),
        decreases n - i,
    {
        bytes.push(32);
        proof {
            assert(bytes@ =~= old(bytes)@ + blanks(i + 1));
        }
        i += 1;
    }
}

/// Puts the number behind `bytes`, in decimal digits.
pub fn push_number(bytes: &mut Vec<u8>, n: usize)
    ensures
        final(bytes)@ == old(bytes)@ + digits(n as nat),
    decreases n,
{
    if n >= 10 {
        push_number(bytes, n / 10);
    }
    let digit: u8 = 48 + (n % 10) as u8;
    bytes.push(digit);
    proof {
        if n >= 10 {
            assert(bytes@ =~= old(bytes)@ + digits((n / 10) as nat).push(digit));
        } else {
            assert(bytes@ =~= old(bytes)@ + seq![digit]);
        }
    }
}

/// Puts the words behind `bytes`, with a blank between each two.
fn push_words(bytes: &mut Vec<u8>, tokens: &Vec<Token>)
    ensures
        final(bytes)@ == old(bytes)@ + joined(words(tokens)),
{
    let ghost all = words(tokens);
    let mut i: usize = 0;
    proof {
        assert(all.subrange(0, 0) =~= Seq::<Seq<u8>>::empty());
        assert(bytes@ =~= old(bytes)@ + joined(all.subrange(0, 0)));
    }
    while i < tokens.len()
        invariant
            0 <= i <= tokens@.len(),
            all == words(tokens),
            bytes@ == old(bytes)@ + joined(all.subrange(0, i as int)),
        decreases tokens@.len() - i,
    {
        if i > 0 {
            bytes.push(32);
        }
        push_bytes(bytes, tokens[i].as_slice());
        proof {
            let next = all.subrange(0, i + 1);
            assert(next.drop_last() =~= all.subrange(0, i as int));
            assert(next.last() == tokens@[i as int]@);
            if i == 0 {
                assert(joined(all.subrange(0, 0)) =~= Seq::<u8>::empty());
                assert(bytes@ =~= old(bytes)@ + joined(next));
            } else {
                assert(bytes@ =~= old(bytes)@ + joined(next));
            }
        }
        i += 1;
    }
    proof {
        assert(all.subrange(0, tokens@.len() as int) =~= all);
    }
}

/// The line of a heading: its depth behind `indent` blanks, then its
/// title.
pub open spec fn outline_line(node: &OutlineNode, indent: int) -> Seq<u8> {
    blanks(indent) + digits(node.level as nat) + seq![32u8] + joined(words(&node.name))
}

/// The lines of a heading and of the headings below it: each heading on a
/// line of its own, in the order of the source, one blank further in than
/// the heading it stands below.
pub open spec fn outline_lines(node: OutlineNode, indent: int) -> Seq<Seq<u8>>
    decreases node,
{
    seq![outline_line(&node, indent)] + below_lines(node.children@, indent + 1)
}

/// The lines of the headings `nodes` and of the headings below them.
pub open spec fn below_lines(nodes: Seq<OutlineNode>, indent: int) -> Seq<Seq<u8>>
    decreases nodes,
{
    if nodes.len() == 0 {
        Seq::empty()
    } else {
        below_lines(nodes.drop_last(), indent) + outline_lines(nodes.last(), indent)
    }
}

/// Puts the lines of `node` and of the headings below it behind `out`.
fn outline_into(node: &OutlineNode, indent: usize, out: &mut Vec<Token>)
    requires
        nested(*node),
        indent <= node.level,
    ensures
        words(final(out)) == words(old(out)) + outline_lines(*node, indent as int),
    decreases node,
{
    let mut line: Vec<u8> = Vec::new();
    push_blanks(&mut line, indent);
    push_number(&mut line, node.level as usize);
    line.push(32);
    push_words(&mut line, &node.name);
    proof {
        assert(line@ =~= outline_line(node, indent as int));
    }
    out.push(line);
    let ghost kids = node.children@;
    let mut i: usize = 0;
    proof {
        assert(kids.subrange(0, 0) =~= Seq::<OutlineNode>::empty());
        assert(words(out) =~= words(old(out)) + seq![outline_line(node, indent as int)]
            + below_lines(kids.subrange(0, 0), indent + 1));
    }
    while i < node.children.len()
        invariant
            0 <= i <= node.children@.len(),
            kids == node.children@,
            nested(*node),
            indent <= node.level,
            words(out) == words(old(out)) + seq![outline_line(node, indent as int)] + below_lines(
                kids.subrange(0, i as int),
                indent + 1,
            ),
        decreases node.children@.len() - i,
    {
        let ghost before = words(out);
        let child = &node.children[i];
        proof {
            assert(*child == node.children@[i as int]);
            assert(node.level < node.children@[i as int].level);
            assert(nested(node.children@[i as int]));
        }
        outline_into(child, indent + 1, out);
        proof {
            let next = kids.subrange(0, i + 1);
            assert(next.drop_last() =~= kids.subrange(0, i as int));
            assert(next.last() == *child);
            assert(words(out) =~= words(old(out)) + seq![outline_line(node, indent as int)]
                + below_lines(next, indent + 1));
        }
        i += 1;
    }
    proof {
        assert(kids.subrange(0, kids.len() as int) =~= kids);
    }
}

/// The atoms of the symbols of a rule.
pub open spec fn rule_atoms(symbols: Seq<RuleSymbol>) -> Seq<Symbol> {
    Seq::new(symbols.len(), |j: int| symbols[j].atom)
}

/// The line of a rule: its kind, its label, its typecode, and behind an
/// arrow its symbols.
pub open spec fn rule_line(nset: &Nameset, typecodes: Seq<TypeCode>, rule: &Rule) -> Seq<u8> {
    (if rule.is_float {
        "  float ".spec_bytes()
    } else {
        "  axiom ".spec_bytes()
    }) + nset.shown(rule.label) + ": ".spec_bytes() + nset.shown(
        if rule.typecode < typecodes.len() {
            typecodes[rule.typecode as int]
        } else {
            0
        },
    ) + " ->".spec_bytes() + spelled(nset, rule_atoms(rule.symbols@))
}

/// The lines of a grammar: its two typecodes, then its rules in their
/// order.
pub open spec fn grammar_lines(nset: &Nameset, grammar: &Grammar) -> Seq<Seq<u8>> {
    seq![
        "Provable typecode: ".spec_bytes() + nset.shown(grammar.provable())
            + ", parsed as: ".spec_bytes() + nset.shown(grammar.logic()),
    ] + Seq::new(
        grammar.rule_list().len(),
        |i: int| rule_line(nset, grammar.typecode_list(), &grammar.rule_list()[i]),
    )
}

/// The line of a rule.
fn rule_bytes(nset: &Nameset, typecodes: &Vec<TypeCode>, rule: &Rule) -> (line: Vec<u8>)
    requires
        nset.wf(),
    ensures
        line@ == rule_line(nset, typecodes@, rule),
{
    let mut line: Vec<u8> = Vec::new();
    if rule.is_float {
        push_bytes(&mut line, "  float ".as_bytes());
    } else {
        push_bytes(&mut line, "  axiom ".as_bytes());
    }
    push_bytes(&mut line, nset.atom_name(rule.label));
    push_bytes(&mut line, ": ".as_bytes());
    let typecode: TypeCode = if rule.typecode < typecodes.len() {
        typecodes[rule.typecode]
    } else {
        0
    };
    push_bytes(&mut line, nset.atom_name(typecode));
    push_bytes(&mut line, " ->".as_bytes());
    let ghost head = line@;
    let ghost atoms = rule_atoms(rule.symbols@);
    let mut j: usize = 0;
    proof {
        assert(atoms.subrange(0, 0) =~= Seq::<Symbol>::empty());
        assert(line@ =~= head + spelled(nset, atoms.subrange(0, 0)));
    }
    while j < rule.symbols.len()
        invariant
            nset.wf(),
            0 <= j <= rule.symbols@.len(),
            atoms == rule_atoms(rule.symbols@),
            line@ == head + spelled(nset, atoms.subrange(0, j as int)),
        decreases rule.symbols@.len() - j,
    {
        line.push(32);
        push_bytes(&mut line, nset.atom_name(rule.symbols[j].atom));
        proof {
            let next = atoms.subrange(0, j + 1);
            assert(next.drop_last() =~= atoms.subrange(0, j as int));
            assert(next.last() == rule.symbols@[j as int].atom);
            assert(line@ =~= head + spelled(nset, next));
        }
        j += 1;
    }
    proof {
        assert(atoms.subrange(0, atoms.len() as int) =~= atoms);
    }
    line
}

/// The name between quotation marks, with a backslash before each
/// quotation mark and each backslash of the name.
pub open spec fn quoted_from(name: Seq<u8>, n: int) -> Seq<u8>
    decreases n,
{
    if n <= 0 {
        seq![34u8]
    } else if name[n - 1] == 34 || name[n - 1] == 92 {
        quoted_from(name, n - 1) + seq![92u8, name[n - 1]]
    } else {
        quoted_from(name, n - 1).push(name[n - 1])
    }
}

/// The name between quotation marks.
pub open spec fn quoted(name: Seq<u8>) -> Seq<u8> {
    quoted_from(name, name.len() as int).push(34u8)
}

/// The line of an edge of a graph, from the node `a` to the node `b`.
pub open spec fn edge_line(a: Seq<u8>, b: Seq<u8>) -> Seq<u8> {
    "  ".spec_bytes() + quoted(a) + " -> ".spec_bytes() + quoted(b) + ";".spec_bytes()
}

/// The typecode at place `k` among the typecodes; atom 0 where there is
/// none.
pub open spec fn typecode_at(typecodes: Seq<TypeCode>, k: usize) -> TypeCode {
    if k < typecodes.len() {
        typecodes[k as int]
    } else {
        0
    }
}

/// The edges from a syntax axiom to the typecodes of the first `n` of its
/// symbols that are variables. A floating hypothesis has none.
pub open spec fn needs_lines(nset: &Nameset, typecodes: Seq<TypeCode>, rule: &Rule, n: int) -> Seq<
    Seq<u8>,
>
    decreases n,
{
    if n <= 0 {
        Seq::empty()
    } else {
        needs_lines(nset, typecodes, rule, n - 1) + (if !rule.is_float && rule.symbols@[n
            - 1].is_variable {
            seq![
                edge_line(
                    nset.shown(rule.label),
                    nset.shown(typecode_at(typecodes, rule.symbols@[n - 1].typecode)),
                ),
            ]
        } else {
            Seq::empty()
        })
    }
}

/// The edges of a rule: one from its typecode to the rule, and from a
/// syntax axiom one to the typecode of each of its variables.
pub open spec fn rule_edges(nset: &Nameset, typecodes: Seq<TypeCode>, rule: &Rule) -> Seq<Seq<u8>> {
    seq![edge_line(nset.shown(typecode_at(typecodes, rule.typecode)), nset.shown(rule.label))]
        + needs_lines(nset, typecodes, rule, rule.symbols@.len() as int)
}

/// The edges of the first `n` rules.
pub open spec fn rules_edges(nset: &Nameset, grammar: &Grammar, n: int) -> Seq<Seq<u8>>
    decreases n,
{
    if n <= 0 {
        Seq::empty()
    } else {
        rules_edges(nset, grammar, n - 1) + rule_edges(
            nset,
            grammar.typecode_list(),
            &grammar.rule_list()[n - 1],
        )
    }
}

/// The grammar as a graph in the DOT language: the typecodes and the rules
/// are its nodes; an edge leads from a typecode to each rule that derives
/// it, and from a syntax axiom to the typecode of each of its variables.
pub open spec fn dot_lines(nset: &Nameset, grammar: &Grammar) -> Seq<Seq<u8>> {
    seq!["digraph grammar {".spec_bytes()] + rules_edges(
        nset,
        grammar,
        grammar.rule_list().len() as int,
    ) + seq!["}".spec_bytes()]
}

/// Puts the name behind `bytes`, between quotation marks.
fn push_quoted(bytes: &mut Vec<u8>, name: &[u8])
    ensures
        final(bytes)@ == old(bytes)@ + quoted(name@),
{
    bytes.push(34);
    let mut i: usize = 0;
    proof {
        assert(bytes@ =~= old(bytes)@ + quoted_from(name@, 0));
    }
    while i < name.len()
        invariant
            0 <= i <= name@.len(),
            bytes@ == old(bytes)@ + quoted_from(name@, i as int),
        decreases name@.len() - i,
    {
        let b = name[i];
        if b == 34 || b == 92 {
            bytes.push(92);
        }
        bytes.push(b);
        proof {
            assert(bytes@ =~= old(bytes)@ + quoted_from(name@, i + 1));
        }
        i += 1;
    }
    bytes.push(34);
    proof {
        assert(bytes@ =~= old(bytes)@ + quoted(name@));
    }
}

/// The line of an edge.
fn edge_bytes(a: &[u8], b: &[u8]) -> (line: Vec<u8>)
    ensures
        line@ == edge_line(a@, b@),
{
    let mut line: Vec<u8> = Vec::new();
    push_bytes(&mut line, "  ".as_bytes());
    push_quoted(&mut line, a);
    push_bytes(&mut line, " -> ".as_bytes());
    push_quoted(&mut line, b);
    push_bytes(&mut line, ";".as_bytes());
    proof {
        assert(line@ =~= edge_line(a@, b@));
    }
    line
}

/// The typecode at place `k` among the typecodes.
fn typecode_of(typecodes: &Vec<TypeCode>, k: usize) -> (t: TypeCode)
    ensures
        t == typecode_at(typecodes@, k),
{
    if k < typecodes.len() {
        typecodes[k]
    } else {
        0
    }
}

/// Puts the edges of a rule behind `lines`.
fn push_rule_edges(lines: &mut Vec<Token>, nset: &Nameset, typecodes: &Vec<TypeCode>, rule: &Rule)
    requires
        nset.wf(),
    ensures
        words(final(lines)) == words(old(lines)) + rule_edges(nset, typecodes@, rule),
{
    let ghost start = words(lines);
    let label = nset.atom_name(rule.label);
    let line = edge_bytes(nset.atom_name(typecode_of(typecodes, rule.typecode)), label);
    lines.push(line);
    let ghost head = words(lines);
    let mut j: usize = 0;
    proof {
        assert(head =~= start + seq![
            edge_line(
                nset.shown(typecode_at(typecodes@, rule.typecode)),
                nset.shown(rule.label),
            ),
        ]);
        assert(words(lines) =~= head + needs_lines(nset, typecodes@, rule, 0));
    }
    while j < rule.symbols.len()
        invariant
            nset.wf(),
            0 <= j <= rule.symbols@.len(),
            label@ == nset.shown(rule.label),
            words(lines) == head + needs_lines(nset, typecodes@, rule, j as int),
        decreases rule.symbols@.len() - j,
    {
        let ghost before = words(lines);
        if !rule.is_float && rule.symbols[j].is_variable {
            let line = edge_bytes(
                label,
                nset.atom_name(typecode_of(typecodes, rule.symbols[j].typecode)),
            );
            lines.push(line);
            proof {
                assert(words(lines) =~= before.push(line@));
            }
        }
        proof {
            assert(words(lines) =~= head + needs_lines(nset, typecodes@, rule, j + 1));
        }
        j += 1;
    }
    proof {
        assert(words(lines) =~= start + rule_edges(nset, typecodes@, rule));
    }
}

/// The line of a formula: the label of its statement, then the formula
/// written out.
pub open spec fn formula_line(label: Seq<u8>, spelling: Seq<u8>) -> Seq<u8> {
    label + ": ".spec_bytes() + spelling
}

/// The lines of the formulas of the first `n` of the statements at
/// `places`: one line for each statement that has a formula.
pub open spec fn formula_lines(
    formulas: &StmtParse,
    sset: &SegmentSet,
    nset: &Nameset,
    places: Seq<StatementAddress>,
    n: int,
) -> Seq<Seq<u8>>
    decreases n,
{
    if n <= 0 {
        Seq::empty()
    } else {
        formula_lines(formulas, sset, nset, places, n - 1) + (match (
            formulas.formula_at(places[n - 1]),
            sset.statement_at(places[n - 1]),
        ) {
            (Some(f), Some(st)) => seq![formula_line(st.label@, f.spelling(sset, nset))],
            _ => Seq::empty(),
        })
    }
}

/// The statement whose label has the atom `label`.
pub open spec fn labelled(sset: &SegmentSet, nset: &Nameset, label: Atom) -> Option<Statement> {
    if label < nset.atom_count() {
        match nset.label_at(label) {
            Some(l) => sset.statement_at(l.address),
            None => None,
        }
    } else {
        None
    }
}

/// The line of a statement in a proof sheet: the name of the step, the
/// label of the statement, and its math string.
pub open spec fn sheet_line(step: Seq<u8>, st: &Statement) -> Seq<u8> {
    step + "::".spec_bytes() + st.label@ + seq![32u8] + joined(words(&st.math))
}

/// Lines, and the number of the essential hypotheses that they were made
/// for.
pub ghost struct Listed {
    pub lines: Seq<Seq<u8>>,
    pub count: nat,
}

/// The lines of the first `n` of the hypotheses `hyps`: the essential ones
/// are numbered from 1, and each whose statement is found has a line,
/// under the name `h` and its number.
pub open spec fn hypothesis_lines(sset: &SegmentSet, nset: &Nameset, hyps: Seq<HypView>, n: int) -> Listed
    decreases n,
{
    if n <= 0 {
        Listed { lines: Seq::empty(), count: 0 }
    } else {
        let before = hypothesis_lines(sset, nset, hyps, n - 1);
        if hyps[n - 1].is_float {
            before
        } else {
            Listed {
                lines: before.lines + (match labelled(sset, nset, hyps[n - 1].label) {
                    Some(st) => seq![
                        sheet_line("h".spec_bytes() + digits(before.count + 1), &st),
                    ],
                    None => Seq::empty(),
                }),
                count: before.count + 1,
            }
        }
    }
}

/// The proof sheet of the statement `st`: a head that names it, its
/// essential hypotheses, if it has a frame, and the statement itself as
/// the step `qed`.
pub open spec fn sheet_lines(
    sset: &SegmentSet,
    nset: &Nameset,
    frames: Seq<crate::scopes::FrameView>,
    st: &Statement,
) -> Seq<Seq<u8>> {
    seq![
        "$( <MM> <PROOF_ASST> THEOREM=".spec_bytes() + st.label@ + " LOC_AFTER=?".spec_bytes(),
        Seq::empty(),
    ] + (match nset.label(st.label@) {
        Some(l) => match first_frame(frames, l.atom, 0) {
            Some(f) => hypothesis_lines(sset, nset, frames[f].hyps, frames[f].hyps.len() as int).lines,
            None => Seq::empty(),
        },
        None => Seq::empty(),
    }) + seq![sheet_line("qed".spec_bytes(), st), Seq::empty(), "$)".spec_bytes()]
}

/// The line of a statement in a proof sheet.
fn sheet_bytes(step: &Vec<u8>, st: &Statement) -> (line: Vec<u8>)
    ensures
        line@ == sheet_line(step@, st),
{
    let mut line: Vec<u8> = Vec::new();
    push_bytes(&mut line, step.as_slice());
    push_bytes(&mut line, "::".as_bytes());
    push_bytes(&mut line, st.label.as_slice());
    line.push(32);
    push_words(&mut line, &st.math);
    proof {
        assert(line@ =~= sheet_line(step@, st));
    }
    line
}

impl Database {
    /// The outline as lines of text: each heading on a line of its own,
    /// with its depth and its title, one blank further in than the heading
    /// it stands below. The outline has to be up to date.
    pub fn print_outline(&self) -> (r: Vec<String>)
        requires
            self.wf(),
            self.outlined() is Some,
        ensures
            show_all(r@, outline_lines(self.outlined()->0, 0)),
    {
        proof {
            self.lemma_wf();
        }
        let root = self.outline_result();
        let mut lines: Vec<Token> = Vec::new();
        proof {
            assert(words(&lines) =~= Seq::<Seq<u8>>::empty());
        }
        outline_into(root, 0, &mut lines);
        proof {
            assert(words(&lines) =~= outline_lines(**root, 0));
        }
        texts(&lines)
    }

    /// The grammar as lines of text: its two typecodes on the first line,
    /// then each rule on a line of its own. The grammar has to be up to
    /// date.
    pub fn print_grammar(&self) -> (r: Vec<String>)
        requires
            self.wf(),
            self.grammar() is Some,
        ensures
            self.names() is Some,
            show_all(r@, grammar_lines(&self.names()->0, &self.grammar()->0)),
    {
        proof {
            self.lemma_wf();
        }
        let names = self.name_result();
        let grammar = self.grammar_result();
        let mut lines: Vec<Token> = Vec::new();
        let mut head: Vec<u8> = Vec::new();
        push_bytes(&mut head, "Provable typecode: ".as_bytes());
        push_bytes(&mut head, names.atom_name(grammar.provable_typecode()));
        push_bytes(&mut head, ", parsed as: ".as_bytes());
        push_bytes(&mut head, names.atom_name(grammar.logic_typecode()));
        lines.push(head);
        let rules = grammar.rules();
        let typecodes = grammar.typecodes();
        let ghost goal = grammar_lines(&**names, &**grammar);
        let mut i: usize = 0;
        proof {
            assert(goal.len() == rules@.len() + 1);
            assert(words(&lines) =~= goal.subrange(0, 1));
        }
        while i < rules.len()
            invariant
                0 <= i <= rules@.len(),
                names.wf(),
                rules@ == grammar.rule_list(),
                typecodes@ == grammar.typecode_list(),
                goal == grammar_lines(&**names, &**grammar),
                goal.len() == rules@.len() + 1,
                words(&lines) == goal.subrange(0, i + 1),
            decreases rules@.len() - i,
        {
            let line = rule_bytes(names, typecodes, &rules[i]);
            let ghost before = words(&lines);
            lines.push(line);
            proof {
                let rest = Seq::new(
                    grammar.rule_list().len(),
                    |k: int| rule_line(&**names, grammar.typecode_list(), &grammar.rule_list()[k]),
                );
                assert(goal.len() == rest.len() + 1);
                assert(goal[i + 1] == rest[i as int]);
                assert(words(&lines) =~= before.push(line@));
                assert(goal.subrange(0, i + 2) =~= goal.subrange(0, i + 1).push(goal[i + 1]));
            }
            i += 1;
        }
        proof {
            assert(goal.subrange(0, goal.len() as int) =~= goal);
        }
        texts(&lines)
    }

    /// The grammar as a graph in the DOT language, as lines of text: the
    /// typecodes and the rules are its nodes; an edge leads from a typecode
    /// to each rule that derives it, and from a syntax axiom to the
    /// typecode of each of its variables. The grammar has to be up to date.
    pub fn export_grammar_dot(&self) -> (r: Vec<String>)
        requires
            self.wf(),
            self.grammar() is Some,
        ensures
            self.names() is Some,
            show_all(r@, dot_lines(&self.names()->0, &self.grammar()->0)),
    {
        proof {
            self.lemma_wf();
        }
        let names = self.name_result();
        let grammar = self.grammar_result();
        let rules = grammar.rules();
        let typecodes = grammar.typecodes();
        let mut lines: Vec<Token> = Vec::new();
        let mut head: Vec<u8> = Vec::new();
        push_bytes(&mut head, "digraph grammar {".as_bytes());
        lines.push(head);
        let ghost start = words(&lines);
        let mut i: usize = 0;
        proof {
            assert(start =~= seq!["digraph grammar {".spec_bytes()]);
            assert(words(&lines) =~= start + rules_edges(&**names, &**grammar, 0));
        }
        while i < rules.len()
            invariant
                0 <= i <= rules@.len(),
                names.wf(),
                rules@ == grammar.rule_list(),
                typecodes@ == grammar.typecode_list(),
                words(&lines) == start + rules_edges(&**names, &**grammar, i as int),
            decreases rules@.len() - i,
        {
            push_rule_edges(&mut lines, names, typecodes, &rules[i]);
            proof {
                assert(words(&lines) =~= start + rules_edges(&**names, &**grammar, i + 1));
            }
            i += 1;
        }
        let mut foot: Vec<u8> = Vec::new();
        push_bytes(&mut foot, "}".as_bytes());
        let ghost body = words(&lines);
        lines.push(foot);
        proof {
            assert(words(&lines) =~= body + seq!["}".spec_bytes()]);
        }
        texts(&lines)
    }

    /// The formulas as lines of text: for each statement that has a
    /// formula, in the order of the source, its label and the formula
    /// written out. The formulas have to be up to date.
    pub fn print_formula(&self) -> (r: Vec<String>)
        requires
            self.wf(),
            self.formulas() is Some,
        ensures
            self.names() is Some,
            show_all(
                r@,
                formula_lines(
                    &self.formulas()->0,
                    &self.segment_set(),
                    &self.names()->0,
                    addresses(
                        self.segment_set().entries(),
                        self.segment_set().entries().len() as int,
                    ),
                    addresses(
                        self.segment_set().entries(),
                        self.segment_set().entries().len() as int,
                    ).len() as int,
                ),
            ),
    {
        proof {
            self.lemma_wf();
        }
        let names = self.name_result();
        let segments = self.parse_result();
        let formulas = self.stmt_parse_result();
        let all = self.statements();
        let ghost places = addresses(
            self.segment_set().entries(),
            self.segment_set().entries().len() as int,
        );
        let mut lines: Vec<Token> = Vec::new();
        let mut i: usize = 0;
        proof {
            assert(words(&lines) =~= Seq::<Seq<u8>>::empty());
        }
        while i < all.len()
            invariant
                0 <= i <= all@.len(),
                all@.len() == places.len(),
                names.wf(),
                segments.wf(),
                formulas.wf(),
                formulas.round_trips(&**segments, &**names),
                forall|k: int|
                    0 <= k < all@.len() ==> (#[trigger] all@[k]).address == places[k]
                        && segments.statement_at(all@[k].address) == Some(*all@[k].statement),
                words(&lines) == formula_lines(
                    &**formulas,
                    &**segments,
                    &**names,
                    places,
                    i as int,
                ),
            decreases all@.len() - i,
        {
            let sref = &all[i];
            match formulas.get_formula(sref) {
                Some(f) => {
                    proof {
                        assert(formulas.formula_at(sref.address) == Some(*f));
                    }
                    let mut line: Vec<u8> = Vec::new();
                    push_bytes(&mut line, sref.statement.label.as_slice());
                    push_bytes(&mut line, ": ".as_bytes());
                    let spelling = f.spell(segments, names);
                    push_bytes(&mut line, spelling.as_slice());
                    let ghost before = words(&lines);
                    lines.push(line);
                    proof {
                        assert(words(&lines) =~= before + seq![
                            formula_line(sref.statement.label@, f.spelling(&**segments, &**names)),
                        ]);
                    }
                },
                None => {
                    proof {
                        assert(words(&lines) + Seq::<Seq<u8>>::empty() =~= words(&lines));
                    }
                },
            }
            i += 1;
        }
        texts(&lines)
    }

    /// The proof sheet of the statement with the label `label`, as lines
    /// of text: a head that names the statement, its essential hypotheses,
    /// and the statement itself. `None` if no statement has the label.
    /// The frames have to be up to date.
    pub fn export(&self, label: &str) -> (r: Option<Vec<String>>)
        requires
            self.wf(),
            self.frames() is Some,
        ensures
            self.names() is Some,
            match self.names()->0.label(label.spec_bytes()) {
                Some(l) => match self.segment_set().statement_at(l.address) {
                    Some(st) => r matches Some(lines) && show_all(
                        lines@,
                        sheet_lines(
                            &self.segment_set(),
                            &self.names()->0,
                            self.frames()->0@.frames,
                            &st,
                        ),
                    ),
                    None => r is None,
                },
                None => r is None,
            },
    {
        proof {
            self.lemma_wf();
        }
        let sref = match self.statement(label) {
            Some(sref) => sref,
            None => {
                return None;
            },
        };
        let st = sref.statement;
        let names = self.name_result();
        let scopes = self.scope_result();
        let mut lines: Vec<Token> = Vec::new();
        let mut head: Vec<u8> = Vec::new();
        push_bytes(&mut head, "$( <MM> <PROOF_ASST> THEOREM=".as_bytes());
        push_bytes(&mut head, st.label.as_slice());
        push_bytes(&mut head, " LOC_AFTER=?".as_bytes());
        lines.push(head);
        lines.push(Vec::new());
        let ghost start = words(&lines);
        proof {
            scopes.lemma_view();
            assert(start =~= seq![
                "$( <MM> <PROOF_ASST> THEOREM=".spec_bytes() + st.label@
                    + " LOC_AFTER=?".spec_bytes(),
                Seq::<u8>::empty(),
            ]);
        }
        let ghost mut listed: Seq<Seq<u8>> = Seq::empty();
        match names.lookup_label(st.label.as_slice()) {
            Some(found) => match scopes.frame_index(found.atom) {
                Some(f) => {
                    let hyps = &scopes.frame(f).hyps;
                    let ghost views = hyp_views(hyps@);
                    let mut count: usize = 0;
                    let mut i: usize = 0;
                    proof {
                        assert(words(&lines) =~= start + Seq::<Seq<u8>>::empty());
                    }
                    while i < hyps.len()
                        invariant
                            0 <= i <= hyps@.len(),
                            self.wf(),
                            self.names() == Some(**names),
                            views == hyp_views(hyps@),
                            count <= i,
                            count == hypothesis_lines(
                                &self.segment_set(),
                                &**names,
                                views,
                                i as int,
                            ).count,
                            words(&lines) == start + hypothesis_lines(
                                &self.segment_set(),
                                &**names,
                                views,
                                i as int,
                            ).lines,
                        decreases hyps@.len() - i,
                    {
                        let hyp = &hyps[i];
                        proof {
                            assert(views[i as int] == hyp_view(hyp));
                        }
                        if !hyp.is_float {
                            count += 1;
                            match self.statement_by_label(hyp.label) {
                                Some(found) => {
                                    let mut step: Vec<u8> = Vec::new();
                                    push_bytes(&mut step, "h".as_bytes());
                                    push_number(&mut step, count);
                                    let line = sheet_bytes(&step, found.statement);
                                    let ghost before = words(&lines);
                                    lines.push(line);
                                    proof {
                                        assert(step@ =~= "h".spec_bytes() + digits(count as nat));
                                        assert(words(&lines) =~= before + seq![
                                            sheet_line(step@, found.statement),
                                        ]);
                                    }
                                },
                                None => {
                                    proof {
                                        assert(words(&lines) + Seq::<Seq<u8>>::empty() =~= words(
                                            &lines,
                                        ));
                                    }
                                },
                            }
                        }
                        i += 1;
                    }
                    proof {
                        listed = hypothesis_lines(
                            &self.segment_set(),
                            &**names,
                            views,
                            hyps@.len() as int,
                        ).lines;
                        assert(scopes@.frames[f as int].hyps == views);
                    }
                },
                None => {
                    proof {
                        assert(words(&lines) =~= start + Seq::<Seq<u8>>::empty());
                    }
                },
            },
            None => {
                proof {
                    assert(words(&lines) =~= start + Seq::<Seq<u8>>::empty());
                }
            },
        }
        let mut qed: Vec<u8> = Vec::new();
        push_bytes(&mut qed, "qed".as_bytes());
        let line = sheet_bytes(&qed, st);
        lines.push(line);
        lines.push(Vec::new());
        let mut foot: Vec<u8> = Vec::new();
        push_bytes(&mut foot, "$)".as_bytes());
        lines.push(foot);
        proof {
            assert(words(&lines) =~= start + listed + seq![
                sheet_line("qed".spec_bytes(), st),
                Seq::<u8>::empty(),
                "$)".spec_bytes(),
            ]);
        }
        Some(texts(&lines))
    }
}

} // verus!
