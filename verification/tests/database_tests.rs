use metamath_knife::database::Database;
use metamath_knife::database::DbOptions;
use metamath_knife::diag::message;
use metamath_knife::diag::Diagnostic;
use metamath_knife::diag::DiagnosticClass;
use metamath_knife::parser::SegmentId;
use metamath_knife::parser::StatementAddress;
use metamath_knife::parser::StatementType;
use std::sync::Arc;

const DEMO: &str = "
    $c 0 + = -> ( ) term wff |- $.
    $v t r s P Q $.
    tt $f term t $.
    tr $f term r $.
    ts $f term s $.
    wp $f wff P $.
    wq $f wff Q $.
    tze $a term 0 $.
    tpl $a term ( t + r ) $.
    weq $a wff t = r $.
    wim $a wff ( P -> Q ) $.
    a1 $a |- ( t = r -> ( t = s -> r = s ) ) $.
    a2 $a |- ( t + 0 ) = t $.
    ${
        min $e |- P $.
        maj $e |- ( P -> Q ) $.
        mp $a |- Q $.
    $}
";

const TH1: &str = "th1 $p |- t = t $=
    tt tze tpl tt weq tt tt weq tt a2 tt tze tpl tt weq tt tze tpl tt weq tt tt
    weq wim tt a2 tt tze tpl tt tt a1 mp mp $.";

fn db_of(text: &str) -> Database {
    let mut db = Database::new(DbOptions::default());
    db.parse("test.mm".to_owned(), vec![("test.mm".to_owned(), text.as_bytes().to_vec())]);
    db
}

fn verify_diags(text: &str) -> Vec<Diagnostic> {
    let mut db = db_of(text);
    assert!(db.parse_result().parse_diagnostics().is_empty(), "{:?}", db.parse_result().parse_diagnostics());
    assert!(db.scope_pass().diagnostics().is_empty(), "{:?}", db.scope_pass().diagnostics());
    db.verify_pass().diagnostics().iter().map(|d| d.1).collect()
}

fn scope_diags(text: &str) -> Vec<Diagnostic> {
    let mut db = db_of(text);
    db.scope_pass().diagnostics().iter().map(|d| d.1).collect()
}

fn sa(id: u32, index: usize) -> StatementAddress {
    StatementAddress { segment_id: SegmentId(id), index }
}

#[test]
fn default_options() {
    let o = DbOptions::default();
    assert!(!o.autosplit && !o.timing && !o.trace_recalc && !o.incremental);
    assert_eq!(o.jobs, 1);
    let db = Database::new(DbOptions { jobs: 4, ..o });
    assert_eq!(db.get_options().jobs, 4);
    assert_eq!(db.parse_result().len(), 0);
    assert!(db.get_outline().is_none());
}

#[test]
fn a_pass_is_computed_once_until_the_next_parse() {
    let mut db = db_of(DEMO);
    let first = db.name_pass().clone();
    let second = db.name_pass().clone();
    assert!(Arc::ptr_eq(&first, &second));
    let scopes = db.scope_pass().clone();
    assert!(Arc::ptr_eq(&first, db.name_result()));
    assert!(Arc::ptr_eq(&scopes, db.scope_pass()));
    let grammar = db.grammar_pass().clone();
    let formulas = db.stmt_parse_pass().clone();
    assert!(Arc::ptr_eq(&grammar, db.grammar_pass()));
    assert!(Arc::ptr_eq(&grammar, db.grammar_result()));
    assert!(Arc::ptr_eq(&formulas, db.stmt_parse_pass()));
    assert!(Arc::ptr_eq(&formulas, db.stmt_parse_result()));
    assert!(Arc::ptr_eq(&scopes, db.scope_result()));
    let verified = db.verify_pass().clone();
    assert!(Arc::ptr_eq(&verified, db.verify_pass()));
    assert!(Arc::ptr_eq(&verified, db.verify_result()));
    let outline = db.outline_pass().clone();
    assert!(Arc::ptr_eq(&outline, db.outline_pass()));
    assert!(Arc::ptr_eq(&outline, db.outline_result()));
    assert!(Arc::ptr_eq(&outline, db.get_outline().unwrap()));

    db.parse("test.mm".to_owned(), vec![("test.mm".to_owned(), DEMO.as_bytes().to_vec())]);
    assert!(db.get_outline().is_none());
    assert!(!Arc::ptr_eq(&first, db.name_pass()));
    assert!(!Arc::ptr_eq(&scopes, db.scope_pass()));
    assert!(!Arc::ptr_eq(&grammar, db.grammar_pass()));
    assert!(!Arc::ptr_eq(&formulas, db.stmt_parse_pass()));
    assert!(!Arc::ptr_eq(&verified, db.verify_pass()));
    assert!(!Arc::ptr_eq(&outline, db.outline_pass()));
    // what was handed out before is as it was
    assert!(first.lookup_label(b"tpl").is_some());
}

#[test]
fn a_pass_brings_what_it_rests_on() {
    let mut db = db_of(DEMO);
    db.stmt_parse_pass();
    // names, frames and grammar are there without having been asked for
    assert!(db.name_result().lookup_label(b"mp").is_some());
    assert_eq!(db.scope_result().frame_count(), 7);
    assert!(db.grammar_result().diagnostics().is_empty());
    assert!(db.get_outline().is_none());
}

#[test]
fn atoms_keep_their_names_over_a_parse() {
    let mut db = db_of(DEMO);
    let tpl = db.name_pass().lookup_label(b"tpl").unwrap().atom;
    let plus = db.name_pass().lookup_symbol(b"+").unwrap().atom;
    // the same names in another order, once with the old names given away
    // and once with a pointer to them still held
    let other = "$c wff + term $. $v r $. tr $f term r $. tpl $a term ( r + r ) $.".replace("( ", "").replace(" )", "");
    db.parse("test.mm".to_owned(), vec![("test.mm".to_owned(), other.as_bytes().to_vec())]);
    assert_eq!(db.name_pass().lookup_label(b"tpl").unwrap().atom, tpl);
    assert_eq!(db.name_pass().lookup_symbol(b"+").unwrap().atom, plus);
    assert!(db.name_pass().lookup_label(b"mp").is_none());
    let held = db.name_pass().clone();
    db.parse("test.mm".to_owned(), vec![("test.mm".to_owned(), DEMO.as_bytes().to_vec())]);
    assert_eq!(db.name_pass().lookup_label(b"tpl").unwrap().atom, tpl);
    assert_eq!(db.name_pass().lookup_symbol(b"+").unwrap().atom, plus);
    assert!(db.name_pass().lookup_label(b"mp").is_some());
    assert!(held.lookup_label(b"mp").is_none());
    assert_eq!(held.atom_name(tpl), b"tpl");
}

#[test]
fn segment_identifiers_stay_over_a_parse() {
    let text = |lib: &str| {
        vec![
            ("main.mm".to_owned(), b"$c a $. $[ lib.mm $] $c e $.".to_vec()),
            ("lib.mm".to_owned(), lib.as_bytes().to_vec()),
        ]
    };
    let ids = |db: &Database| -> Vec<u32> { db.parse_result().segments().iter().map(|e| e.id.0).collect() };
    let mut db = Database::new(DbOptions::default());
    db.parse("main.mm".to_owned(), text("$c b $."));
    assert_eq!(ids(&db), vec![2, 3, 4]);
    db.parse("main.mm".to_owned(), text("$c b c $."));
    assert_eq!(ids(&db), vec![2, 3, 4]);
    // with the old segments still held elsewhere
    let held = db.parse_result().clone();
    db.parse("main.mm".to_owned(), text("$c b c d $."));
    assert_eq!(ids(&db), vec![2, 3, 4]);
    assert_eq!(held.segments()[1].segment.statements[0].math.len(), 2);
    assert_eq!(db.parse_result().segments()[1].segment.statements[0].math.len(), 3);
}

#[test]
fn names_know_symbols_labels_and_floats() {
    let mut db = db_of(DEMO);
    let names = db.name_pass().clone();
    let t = names.lookup_symbol(b"t").unwrap();
    let zero = names.lookup_symbol(b"0").unwrap();
    assert_eq!(format!("{:?}", t.stype), "Variable");
    assert_eq!(format!("{:?}", zero.stype), "Constant");
    assert_eq!(t.address, sa(2, 1));
    assert_eq!(zero.address, sa(2, 0));
    assert!(names.lookup_symbol(b"tt").is_none());
    assert!(names.lookup_symbol(b"nothing").is_none());
    let tt = names.lookup_label(b"tt").unwrap();
    assert_eq!(tt.address, sa(2, 2));
    assert!(names.lookup_label(b"t").is_none());
    let float = names.lookup_float(b"t").unwrap();
    assert_eq!(float.atom, tt.atom);
    assert_eq!(float.address, sa(2, 2));
    assert_eq!(float.typecode_atom, names.lookup_symbol(b"term").unwrap().atom);
    assert!(names.lookup_float(b"0").is_none());
    assert_eq!(names.get_atom(b"tt"), Some(tt.atom));
    assert_eq!(names.get_atom(b"nothing"), None);
    assert_eq!(names.atom_name(tt.atom), b"tt");
    assert_eq!(names.atom_name(0), b"");
    assert_eq!(names.atom_name(u32::MAX), b"");
    assert_eq!(names.symbol_by_atom(t.atom), Some(t));
    assert_eq!(names.label_by_atom(tt.atom), Some(tt));
    assert_eq!(names.float_by_atom(t.atom), Some(float));
    assert_eq!(names.symbol_by_atom(u32::MAX), None);
    assert!(names.diagnostics().is_empty());
}

#[test]
fn names_report_second_declarations() {
    let mut db = db_of("$c a b a $. $v x $. l $f a x $. l $a a b $. m $f b x $.");
    let names = db.name_pass();
    assert_eq!(
        *names.diagnostics(),
        vec![
            (sa(2, 0), Diagnostic::SymbolRedeclared(2, sa(2, 0))),
            (sa(2, 3), Diagnostic::DuplicateLabel(sa(2, 2))),
        ]
    );
    assert_eq!(names.lookup_label(b"l").unwrap().address, sa(2, 2));
    assert_eq!(names.lookup_float(b"x").unwrap().address, sa(2, 2));
}

#[test]
fn a_variable_has_one_floating_hypothesis_in_force() {
    // a second one while the first is in force is reported once
    assert_eq!(
        scope_diags("$c a b $. $v x $. l $f a x $. m $f b x $."),
        vec![Diagnostic::FloatRedeclared(sa(2, 2))]
    );
    // one group after the other may give the variable a floating hypothesis
    assert_eq!(
        scope_diags("$c a $. $v x $. ${ l $f a x $. p $a a x $. $} ${ m $f a x $. q $a a x $. $}"),
        vec![]
    );
}

#[test]
fn statements_by_name_and_all() {
    let mut db = db_of(DEMO);
    let names = db.name_pass().clone();
    let mp = db.statement("mp").unwrap();
    assert_eq!(mp.statement.stype, StatementType::Axiom);
    assert_eq!(mp.statement.label, b"mp");
    assert_eq!(mp.address, sa(2, 16));
    assert!(db.statement("nothing").is_none());
    assert!(db.statement("t").is_none());
    let by_label = db.statement_by_label(names.lookup_label(b"maj").unwrap().atom).unwrap();
    assert_eq!(by_label.statement.stype, StatementType::Essential);
    assert!(db.statement_by_label(names.lookup_symbol(b"t").unwrap().atom).is_none());
    assert!(db.statement_by_label(u32::MAX).is_none());
    let all = db.statements();
    assert_eq!(all.len(), 19);
    assert_eq!(all[0].statement.stype, StatementType::Constant);
    assert_eq!(all[16].statement.label, b"mp");
    assert_eq!(all[16].address, sa(2, 16));
    assert_eq!(all[18].statement.stype, StatementType::Eof);
}

#[test]
fn frames_hold_the_mandatory_hypotheses() {
    let mut db = db_of(DEMO);
    let names = db.name_pass().clone();
    let scopes = db.scope_pass().clone();
    assert!(scopes.diagnostics().is_empty());
    let label = |name: &[u8]| names.lookup_label(name).unwrap().atom;
    let symbol = |name: &[u8]| names.lookup_symbol(name).unwrap().atom;
    let mp = scopes.frame(scopes.frame_index(label(b"mp")).unwrap());
    assert!(!mp.provable);
    assert_eq!(mp.expr, vec![symbol(b"|-"), symbol(b"Q")]);
    let hyps: Vec<u32> = mp.hyps.iter().map(|h| h.label).collect();
    assert_eq!(hyps, vec![label(b"wp"), label(b"wq"), label(b"min"), label(b"maj")]);
    assert!(mp.hyps[0].is_float && !mp.hyps[2].is_float);
    assert_eq!(mp.hyps[3].expr.len(), 6);
    let a2 = scopes.frame(scopes.frame_index(label(b"a2")).unwrap());
    assert_eq!(a2.hyps.iter().map(|h| h.label).collect::<Vec<u32>>(), vec![label(b"tt")]);
    assert!(scopes.frame_index(label(b"min")).is_none());
    assert!(scopes.frame_index(u32::MAX).is_none());
    assert_eq!(scopes.frame_count(), 7);
}

#[test]
fn scopes_end_with_their_group() {
    assert_eq!(
        scope_diags("$c wff $. ${ $v x $. wx $f wff x $. $} ax $a wff x $."),
        vec![Diagnostic::UndeclaredSymbol(1)]
    );
    assert_eq!(
        scope_diags("$c wff $. $v x $. ${ wx $f wff x $. $} ax $a wff x $."),
        vec![Diagnostic::VariableMissingFloat(1)]
    );
    assert!(scope_diags("$c wff $. $v x $. ${ wx $f wff x $. ax $a wff x $. $}").is_empty());
}

#[test]
fn scopes_report_what_is_wrong() {
    assert_eq!(scope_diags("$c wff $. ax $a wff y $."), vec![Diagnostic::UndeclaredSymbol(1)]);
    assert_eq!(scope_diags("$c wff $. ax $a nope $."), vec![Diagnostic::UndeclaredSymbol(0)]);
    assert_eq!(scope_diags("$v x $. ax $a x $."), vec![Diagnostic::TypecodeNotConstant]);
    assert_eq!(scope_diags("$c wff $. $v x $. wx $f wff x x $."), vec![Diagnostic::BadFloating]);
    assert_eq!(scope_diags("$c wff a $. wx $f wff a $."), vec![Diagnostic::FloatNotVariable(1)]);
    assert_eq!(scope_diags("$c wff $. wx $f wff x $."), vec![Diagnostic::FloatNotVariable(1)]);
    assert_eq!(
        scope_diags("$c wff $. $v x $. $d x nope $."),
        vec![Diagnostic::UndeclaredSymbol(1)]
    );
}

#[test]
fn a_correct_proof_passes() {
    assert!(verify_diags(&format!("{}{}", DEMO, TH1)).is_empty());
}

#[test]
fn a_correct_compressed_proof_passes() {
    // mandatory hypothesis: tt (1); labels from 2: tze tpl weq a2 wim a1 mp
    //   tt=A tze=B tpl=C weq=D a2=E wim=F a1=G mp=H
    let steps = "ABCADAADAEABCADABCADAADFAEABCAAGHH";
    let proof = format!(
        "th1 $p |- t = t $= ( tze tpl weq a2 wim a1 mp ) {} $.",
        steps
    );
    assert!(verify_diags(&format!("{}{}", DEMO, proof)).is_empty());
}

#[test]
fn a_compressed_proof_can_save_and_reuse() {
    // t + 0 is made once, saved with Z, and taken up again as number 9
    // (1 hypothesis, 7 labels, then the saved strings).
    let proof = "th1 $p |- t = t $= ( tze tpl weq a2 wim a1 mp ) ABCZADAADAEIADIADAADFAEIAAGHH $.";
    assert!(verify_diags(&format!("{}{}", DEMO, proof)).is_empty());
}

#[test]
fn wrong_proofs_are_reported() {
    let with = |proof: &str| verify_diags(&format!("{}th1 $p |- t = t $= {} $.", DEMO, proof));
    assert_eq!(with("tt tt weq"), vec![Diagnostic::ProofWrongResult]);
    assert_eq!(with("tt tt"), vec![Diagnostic::ProofExcessEnd]);
    assert_eq!(with("tt weq"), vec![Diagnostic::ProofUnderflow(1)]);
    assert_eq!(with("tt nothing"), vec![Diagnostic::StepMissing(1)]);
    assert_eq!(with("tt th1"), vec![Diagnostic::StepMissing(1)]);
    assert_eq!(with("tt ?"), vec![Diagnostic::ProofIncomplete]);
    assert_eq!(with("wp tt weq"), vec![Diagnostic::StepHypothesisMismatch(2)]);
    // mp finds a term where it wants the proof of its first hypothesis
    assert_eq!(with("tt tt weq tt tt weq tt tt a2 mp"), vec![Diagnostic::StepHypothesisMismatch(9)]);
    assert_eq!(with("( tze ) U"), vec![Diagnostic::ProofMalformedCompressed(0)]);
    assert_eq!(with("( tze ) Z"), vec![Diagnostic::ProofMalformedCompressed(0)]);
    assert_eq!(with("( tze ) AT"), vec![Diagnostic::ProofMalformedCompressed(1)]);
    assert_eq!(with("( tze A"), vec![Diagnostic::StepMissing(2)]);
    assert_eq!(with("( tze ) A?"), vec![Diagnostic::ProofIncomplete]);
    assert_eq!(with("( tze ) a"), vec![Diagnostic::ProofMalformedCompressed(0)]);
}

#[test]
fn a_proof_may_use_only_what_comes_before() {
    let text = format!("{}{} later $a |- 0 = 0 $.", DEMO, "th1 $p |- 0 = 0 $= later $.");
    assert_eq!(verify_diags(&text), vec![Diagnostic::StepMissing(0)]);
}

#[test]
fn distinct_variables_are_checked() {
    let base = "
        $c wff |- A. = $. $v x y z $.
        vx $f wff x $. vy $f wff y $. vz $f wff z $.
        ${ $d x y $. ax $a |- A. x = y $. $}
    ";
    let ok = format!("{}${{ $d x z $. th $p |- A. x = z $= vx vz ax $. $}}", base);
    assert!(verify_diags(&ok).is_empty());
    let undeclared = format!("{}th $p |- A. x = z $= vx vz ax $.", base);
    assert_eq!(verify_diags(&undeclared), vec![Diagnostic::ProofDvViolation(2)]);
    let same = format!("{}th $p |- A. x = x $= vx vx ax $.", base);
    assert_eq!(verify_diags(&same), vec![Diagnostic::ProofDvViolation(2)]);
}

#[test]
fn every_formula_stands_for_its_statement() {
    let mut db = db_of(&format!("{}{}", DEMO, TH1));
    let formulas = db.stmt_parse_pass().clone();
    let names = db.name_pass().clone();
    let sset = db.parse_result().clone();
    assert!(formulas.diagnostics().is_empty());
    let mut parsed = 0;
    for sref in db.statements() {
        if let Some(formula) = formulas.get_formula(&sref) {
            parsed += 1;
            let expected: Vec<u32> = sref.statement.math[1..]
                .iter()
                .map(|t| names.lookup_symbol(t).unwrap().atom)
                .collect();
            assert_eq!(formula.iter(&sset, &names).collect(), expected);
            assert_eq!(formula.typecode(), names.lookup_symbol(b"wff").unwrap().atom);
        }
    }
    // a1 a2 min maj mp th1
    assert_eq!(parsed, 6);
    assert!(db.verify_parse_stmt().is_empty());
    assert!(formulas.verify(&sset, &names).is_empty());
    assert!(formulas.formula_by_address(sa(2, 0)).is_none());
    assert!(formulas.formula_by_address(sa(9, 0)).is_none());
}

#[test]
fn formulas_are_walked_symbol_by_symbol() {
    let mut db = db_of(DEMO);
    let formulas = db.stmt_parse_pass().clone();
    let names = db.name_pass().clone();
    let sset = db.parse_result().clone();
    let a2 = db.statement("a2").unwrap();
    let formula = formulas.get_formula(&a2).unwrap();
    let mut walk = formula.iter(&sset, &names);
    let mut seen = Vec::new();
    while let Some(symbol) = walk.next() {
        seen.push(String::from_utf8(names.atom_name(symbol).to_vec()).unwrap());
    }
    assert_eq!(seen, vec!["(", "t", "+", "0", ")", "=", "t"]);
    assert_eq!(walk.next(), None);
    assert_eq!(walk.next(), None);
    assert!(walk.collect().is_empty());
}

#[test]
fn formulas_are_shown_with_their_typecode() {
    let mut db = db_of(DEMO);
    let formulas = db.stmt_parse_pass().clone();
    let names = db.name_pass().clone();
    let sset = db.parse_result().clone();
    let a1 = db.statement("a1").unwrap();
    assert_eq!(
        formulas.get_formula(&a1).unwrap().display(&sset, &names),
        "wff ( t = r -> ( t = s -> r = s ) )"
    );
    let mp = db.statement("mp").unwrap();
    assert_eq!(formulas.get_formula(&mp).unwrap().display(&sset, &names), "wff Q");
}

#[test]
fn parsed_floats_are_the_variables_of_the_formula() {
    let mut db = db_of(DEMO);
    let formulas = db.stmt_parse_pass().clone();
    let names = db.name_pass().clone();
    let label = |name: &[u8]| names.lookup_label(name).unwrap().atom;
    // maj is ( P -> Q ); a1 is ( t = r -> ( t = s -> r = s ) )
    let maj = db.statement("maj").unwrap();
    let a1 = db.statement("a1").unwrap();
    let pattern = formulas.get_formula(&maj).unwrap();
    let ground = formulas.get_formula(&a1).unwrap();
    let subs = ground.unify(pattern).unwrap();
    assert_eq!(subs.get(label(b"wp")).unwrap().get_by_path(&[]), Some(label(b"weq")));
    assert_eq!(subs.get(label(b"wq")).unwrap().get_by_path(&[]), Some(label(b"wim")));
    assert!(pattern.substitute(&subs) == *ground);
    assert!(pattern.unify(ground).is_none());
}

#[test]
fn statements_that_do_not_parse_are_reported() {
    let mut db = db_of(&format!("{}bad $a |- ( t + $. worse $a |- nothing $.", DEMO));
    let formulas = db.stmt_parse_pass().clone();
    assert_eq!(
        *formulas.diagnostics(),
        vec![
            (sa(2, 18), Diagnostic::UnparseableStatement),
            (sa(2, 19), Diagnostic::UndeclaredSymbol(1)),
        ]
    );
    let bad = db.statement("bad").unwrap();
    assert!(formulas.get_formula(&bad).is_none());
}

#[test]
fn the_grammar_lists_its_rules() {
    let mut db = db_of(DEMO);
    let names = db.name_pass().clone();
    let grammar = db.grammar_pass().clone();
    let labels: Vec<&[u8]> = grammar.rules().iter().map(|r| names.atom_name(r.label)).collect();
    let expected: Vec<&[u8]> = vec![b"tt", b"tr", b"ts", b"wp", b"wq", b"tze", b"tpl", b"weq", b"wim"];
    assert_eq!(labels, expected);
    assert!(grammar.rules()[0].is_float);
    assert!(!grammar.rules()[6].is_float);
    assert_eq!(grammar.rules()[6].symbols.len(), 5);
    assert_eq!(grammar.rules()[6].address, sa(2, 8));
    let codes: Vec<&[u8]> = grammar.typecodes().iter().map(|t| names.atom_name(*t)).collect();
    let expected: Vec<&[u8]> = vec![b"term", b"wff"];
    assert_eq!(codes, expected);
    assert_eq!(names.atom_name(grammar.provable_typecode()), b"|-");
    assert_eq!(names.atom_name(grammar.logic_typecode()), b"wff");
    let term = names.lookup_symbol(b"term").unwrap().atom;
    let wff = names.lookup_symbol(b"wff").unwrap().atom;
    let zero = names.lookup_symbol(b"0").unwrap().atom;
    // the earlier typecode is preferred, where both would do
    assert_eq!(grammar.parse_formula(&[zero], &[wff, term]).unwrap().typecode(), term);
    assert_eq!(
        grammar.parse_formula(&[zero], &[wff]).err(),
        Some(Diagnostic::UnparseableStatement)
    );
    assert_eq!(grammar.parse_formula(&[], &[term]).err(), Some(Diagnostic::UnparseableStatement));
    assert_eq!(grammar.parse_formula(&[zero], &[]).err(), Some(Diagnostic::UnparseableStatement));
}

#[test]
fn notations_carry_the_place_of_the_statement() {
    let text = "$c wff |- $. ax $a |- nope $. $}";
    let mut db = db_of(text);
    let parse = db.diag_notations(&[DiagnosticClass::Parse]);
    assert_eq!(parse.len(), 1);
    assert_eq!(parse[0].diagnostic, Diagnostic::UnmatchedCloseGroup);
    assert_eq!(parse[0].address, sa(2, 2));
    assert_eq!(&text.as_bytes()[parse[0].start..parse[0].end], b"$}");
    assert_eq!(parse[0].file, b"test.mm");
    assert_eq!(parse[0].message, message(Diagnostic::UnmatchedCloseGroup));
    assert!(db.get_outline().is_none());
    let all = db.diag_notations(&[
        DiagnosticClass::StmtParse,
        DiagnosticClass::Parse,
        DiagnosticClass::Scope,
        DiagnosticClass::Grammar,
        DiagnosticClass::Verify,
    ]);
    let found: Vec<Diagnostic> = all.iter().map(|n| n.diagnostic).collect();
    assert_eq!(
        found,
        vec![
            Diagnostic::UnmatchedCloseGroup,
            Diagnostic::UndeclaredSymbol(1),
            Diagnostic::UndeclaredSymbol(1),
        ]
    );
    assert_eq!(&text.as_bytes()[all[1].start..all[1].end], b"ax $a |- nope $.");
    assert!(db.diag_notations(&[]).is_empty());
    assert!(db.diag_notations(&[DiagnosticClass::Verify, DiagnosticClass::Grammar]).is_empty());
}

#[test]
fn the_outline_nests_the_headings() {
    let text = "
$(
###############
  Part one
###############
$)
$(
#*#*#*#*#*#*#*#
  Chapter one
#*#*#*#*#*#*#*#
$)
$c a $.
$(
=-=-=-=-=-=-=-=
  Section
=-=-=-=-=-=-=-=
$)
$(
#*#*#*#*#*#*#*#
  Chapter two
#*#*#*#*#*#*#*#
$)
$(
-.-.-.-.-.-.-.-
  Deep
-.-.-.-.-.-.-.-
$)
$(
###############
  Part two
###############
$)
";
    let mut db = db_of(text);
    let root = db.outline_pass().clone();
    let name = |words: &Vec<Vec<u8>>| -> String {
        words.iter().map(|w| String::from_utf8(w.clone()).unwrap()).collect::<Vec<String>>().join(" ")
    };
    assert_eq!(root.level, 0);
    assert!(root.address.is_none());
    assert_eq!(root.children.len(), 2);
    let one = &root.children[0];
    assert_eq!((one.level, name(&one.name)), (1, "Part one".to_owned()));
    assert_eq!(one.address, Some(sa(2, 0)));
    assert_eq!(one.children.len(), 2);
    assert_eq!(name(&one.children[0].name), "Chapter one");
    assert_eq!(one.children[0].children.len(), 1);
    assert_eq!(one.children[0].children[0].level, 3);
    assert_eq!(name(&one.children[0].children[0].name), "Section");
    assert_eq!(one.children[0].children[0].address, Some(sa(2, 3)));
    assert_eq!(name(&one.children[1].name), "Chapter two");
    assert_eq!(one.children[1].children[0].level, 4);
    assert_eq!(name(&one.children[1].children[0].name), "Deep");
    let two = &root.children[1];
    assert_eq!((two.level, name(&two.name)), (1, "Part two".to_owned()));
    assert!(two.children.is_empty());
}

#[test]
fn the_database_splits_large_files_if_its_options_say_so() {
    let mut text = String::from("$c a $.\n");
    let filler = format!("$( {} $)\n", "x".repeat(4000));
    while text.len() <= 1048576 {
        text.push_str(&filler);
    }
    text.push_str("$(\n#*#*#*#\n Chapter\n#*#*#*#\n$)\n$c b $.\n");
    let buffers = || vec![("big.mm".to_owned(), text.as_bytes().to_vec())];
    let mut whole = Database::new(DbOptions::default());
    whole.parse("big.mm".to_owned(), buffers());
    assert_eq!(whole.parse_result().len(), 1);
    let mut split = Database::new(DbOptions { autosplit: true, ..DbOptions::default() });
    split.parse("big.mm".to_owned(), buffers());
    assert_eq!(split.parse_result().len(), 2);
    // both know the same names
    assert!(whole.name_pass().lookup_symbol(b"b").is_some());
    assert!(split.name_pass().lookup_symbol(b"b").is_some());
    assert_eq!(split.name_pass().lookup_symbol(b"b").unwrap().address, sa(3, 1));
    // and again, with the segments held elsewhere
    let held = split.parse_result().clone();
    split.parse("big.mm".to_owned(), buffers());
    assert_eq!(split.parse_result().len(), 2);
    assert_eq!(held.len(), 2);
}

#[test]
fn clear_empties_the_database() {
    let mut db = db_of(DEMO);
    db.stmt_parse_pass();
    db.outline_pass();
    let tpl = db.name_result().lookup_label(b"tpl").unwrap().atom;
    db.clear();
    assert_eq!(db.parse_result().len(), 0);
    assert!(db.get_outline().is_none());
    assert!(db.name_pass().lookup_label(b"tpl").is_none());
    db.parse("test.mm".to_owned(), vec![("test.mm".to_owned(), DEMO.as_bytes().to_vec())]);
    assert!(db.name_pass().lookup_label(b"tpl").is_some());
    assert_eq!(db.parse_result().segments()[0].id, SegmentId(2));
    assert!(tpl > 0);
}

#[test]
fn a_syntax_axiom_holds_255_variables_at_most() {
    let text = |n: usize| format!("$c wff ( $. $v x $. wx $f wff x $. big $a wff ( {}$.", "x ".repeat(n));
    let mut db = db_of(&text(255));
    assert!(db.grammar_pass().diagnostics().is_empty());
    assert_eq!(db.grammar_pass().rules().len(), 2);
    let mut db = db_of(&text(256));
    assert_eq!(
        *db.grammar_pass().diagnostics(),
        vec![(sa(2, 3), Diagnostic::GrammarTooManyVariables)]
    );
    assert_eq!(db.grammar_pass().rules().len(), 1);
}

#[test]
fn names_with_one_hash_are_told_apart() {
    // `Aa` and `BB` have the same hash, and so have `AaAa`, `AaBB`, `BBAa`
    // and `BBBB`
    let mut db = db_of("$c Aa BB AaAa AaBB BBAa BBBB $. $v x $. BB $f Aa x $. Aa $a BB x $.");
    let names = db.name_pass().clone();
    assert!(names.diagnostics().is_empty());
    let mut atoms = Vec::new();
    for name in [&b"Aa"[..], b"BB", b"AaAa", b"AaBB", b"BBAa", b"BBBB"] {
        let symbol = names.lookup_symbol(name).unwrap();
        assert_eq!(names.atom_name(symbol.atom), name);
        assert_eq!(names.get_atom(name), Some(symbol.atom));
        assert!(!atoms.contains(&symbol.atom));
        atoms.push(symbol.atom);
    }
    assert_eq!(names.lookup_label(b"BB").unwrap().address, sa(2, 2));
    assert_eq!(names.lookup_label(b"Aa").unwrap().address, sa(2, 3));
    assert_eq!(names.get_atom(b"AaB"), None);
    assert_eq!(names.get_atom(b"BBB"), None);
    assert_eq!(names.get_atom(b"Ab"), None);
}

#[test]
fn formulas_are_held_against_the_statements_they_are_asked_about() {
    let mut db = db_of(DEMO);
    let formulas = db.stmt_parse_pass().clone();
    let names = db.name_pass().clone();
    let sset = db.parse_result().clone();
    // against their own statements nothing differs
    assert!(formulas.verify(&sset, &names).is_empty());
    assert!(db.verify_parse_stmt().is_empty());
    // against other statements in their places, what differs is told, in
    // the order of the source
    let swapped = DEMO.replace("a2 $a |- ( t + 0 ) = t $.", "a2 $a |- ( 0 + t ) = t $.").replace(
        "mp $a |- Q $.",
        "mp $a |- P $.",
    );
    let mut other = db_of(&swapped);
    let other_names = other.name_pass().clone();
    let other_sset = other.parse_result().clone();
    assert_eq!(other_names.get_atom(b"tpl"), names.get_atom(b"tpl"));
    let a2 = other.statement("a2").unwrap().address;
    let mp = other.statement("mp").unwrap().address;
    assert_eq!(
        formulas.verify(&other_sset, &other_names),
        vec![(a2, Diagnostic::UnparseableStatement), (mp, Diagnostic::UnparseableStatement)]
    );
    // without formulas there is nothing to differ
    assert!(metamath_knife::grammar::StmtParse::new().verify(&sset, &names).is_empty());
}

#[test]
fn a_pass_starts_from_what_it_found_last() {
    let mut db = db_of("$c a $.");
    let first = db.name_pass().clone();
    let a = first.get_atom(b"a").unwrap();
    drop(first);
    // read again with other names before `a`: the atom of `a` stays
    db.parse("test.mm".to_owned(), vec![("test.mm".to_owned(), b"$c z y a $.".to_vec())]);
    let second = db.name_pass().clone();
    assert_eq!(second.get_atom(b"a"), Some(a));
    drop(second);
    db.scope_pass();
    db.verify_pass();
    // and again after the frames and the proofs were found
    db.parse("test.mm".to_owned(), vec![("test.mm".to_owned(), b"$c y a z $.".to_vec())]);
    assert_eq!(db.name_pass().get_atom(b"a"), Some(a));
    assert!(db.verify_pass().diagnostics().is_empty());
    assert_eq!(db.scope_pass().frame_count(), 0);
}
