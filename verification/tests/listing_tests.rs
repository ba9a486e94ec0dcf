use metamath_knife::database::Database;
use metamath_knife::database::DbOptions;

const SMALL: &str = "
$(
###############
  Part one
###############
$)
$c ( ) -> wff |- $.
$v P Q $.
wp $f wff P $.
wq $f wff Q $.
$(
#*#*#*#*#*#*#*#
  Implication of formulas
#*#*#*#*#*#*#*#
$)
wim $a wff ( P -> Q ) $.
${
    min $e |- P $.
    maj $e |- ( P -> Q ) $.
    mp $a |- Q $.
$}
$(
###############
  Part two
###############
$)
id $a |- ( P -> P ) $.
";

fn small() -> Database {
    let mut db = Database::new(DbOptions::default());
    db.parse("small.mm".to_owned(), vec![("small.mm".to_owned(), SMALL.as_bytes().to_vec())]);
    db
}

#[test]
fn the_outline_is_listed_heading_by_heading() {
    let mut db = small();
    db.outline_pass();
    assert_eq!(
        db.print_outline(),
        vec![
            "0 ".to_owned(),
            " 1 Part one".to_owned(),
            "  2 Implication of formulas".to_owned(),
            " 1 Part two".to_owned(),
        ]
    );
}

#[test]
fn the_outline_of_an_empty_database_is_its_root() {
    let mut db = Database::new(DbOptions::default());
    db.outline_pass();
    assert_eq!(db.print_outline(), vec!["0 ".to_owned()]);
}

#[test]
fn the_grammar_is_listed_rule_by_rule() {
    let mut db = small();
    db.grammar_pass();
    assert_eq!(
        db.print_grammar(),
        vec![
            "Provable typecode: |-, parsed as: wff".to_owned(),
            "  float wp: wff -> P".to_owned(),
            "  float wq: wff -> Q".to_owned(),
            "  axiom wim: wff -> ( P -> Q )".to_owned(),
        ]
    );
}

#[test]
fn the_formulas_are_listed_with_their_labels() {
    let mut db = small();
    db.stmt_parse_pass();
    assert_eq!(
        db.print_formula(),
        vec![
            "min: wff P".to_owned(),
            "maj: wff ( P -> Q )".to_owned(),
            "mp: wff Q".to_owned(),
            "id: wff ( P -> P )".to_owned(),
        ]
    );
}

#[test]
fn a_statement_is_exported_with_its_essential_hypotheses() {
    let mut db = small();
    db.scope_pass();
    assert_eq!(
        db.export("mp"),
        Some(vec![
            "$( <MM> <PROOF_ASST> THEOREM=mp LOC_AFTER=?".to_owned(),
            "".to_owned(),
            "h1::min |- P".to_owned(),
            "h2::maj |- ( P -> Q )".to_owned(),
            "qed::mp |- Q".to_owned(),
            "".to_owned(),
            "$)".to_owned(),
        ])
    );
    assert_eq!(
        db.export("id"),
        Some(vec![
            "$( <MM> <PROOF_ASST> THEOREM=id LOC_AFTER=?".to_owned(),
            "".to_owned(),
            "qed::id |- ( P -> P )".to_owned(),
            "".to_owned(),
            "$)".to_owned(),
        ])
    );
    assert_eq!(db.export("nothing"), None);
}

#[test]
fn numbers_of_more_than_one_digit_are_written_out() {
    let mut text = String::from("$c |- a $.\n${\n");
    for i in 0..12 {
        text.push_str(&format!("e{} $e |- a $.\n", i));
    }
    text.push_str("all $a |- a $.\n$}\n");
    let mut db = Database::new(DbOptions::default());
    db.parse("many.mm".to_owned(), vec![("many.mm".to_owned(), text.into_bytes())]);
    db.scope_pass();
    let lines = db.export("all").unwrap();
    assert_eq!(lines.len(), 17);
    assert_eq!(lines[2], "h1::e0 |- a");
    assert_eq!(lines[11], "h10::e9 |- a");
    assert_eq!(lines[13], "h12::e11 |- a");
    assert_eq!(lines[14], "qed::all |- a");
}

#[test]
fn the_grammar_is_drawn_as_a_graph() {
    let mut db = small();
    db.grammar_pass();
    assert_eq!(
        db.export_grammar_dot(),
        vec![
            "digraph grammar {".to_owned(),
            "  \"wff\" -> \"wp\";".to_owned(),
            "  \"wff\" -> \"wq\";".to_owned(),
            "  \"wff\" -> \"wim\";".to_owned(),
            "  \"wim\" -> \"wff\";".to_owned(),
            "  \"wim\" -> \"wff\";".to_owned(),
            "}".to_owned(),
        ]
    );
}

#[test]
fn names_are_quoted_in_the_graph() {
    let mut db = Database::new(DbOptions::default());
    let text = "$c t\"c a\\b $. $v x $. l\"x $f t\"c x $. r $a t\"c a\\b x $.";
    db.parse("q.mm".to_owned(), vec![("q.mm".to_owned(), text.as_bytes().to_vec())]);
    db.grammar_pass();
    assert_eq!(
        db.export_grammar_dot(),
        vec![
            "digraph grammar {".to_owned(),
            "  \"t\\\"c\" -> \"l\\\"x\";".to_owned(),
            "  \"t\\\"c\" -> \"r\";".to_owned(),
            "  \"r\" -> \"t\\\"c\";".to_owned(),
            "}".to_owned(),
        ]
    );
}

#[test]
fn a_formula_is_dumped_node_by_node() {
    let mut db = small();
    let formulas = db.stmt_parse_pass().clone();
    let names = db.name_pass().clone();
    let id = db.statement("id").unwrap();
    let lines = formulas.get_formula(&id).unwrap().dump(&names);
    let root = lines[0].strip_prefix("  Root: ").unwrap().parse::<usize>().unwrap();
    assert!(lines[root + 1].starts_with(&format!("  {}: wim ", root)));
    let nodes: Vec<&String> = lines.iter().filter(|l| l.contains(": wp (variable)")).collect();
    assert!(nodes.len() >= 2);
    let mp = db.statement("mp").unwrap();
    let leaf = formulas.get_formula(&mp).unwrap().compact().dump(&names);
    assert_eq!(leaf, vec!["  Root: 0".to_owned(), "  0: wq (variable)".to_owned()]);
    let maj = db.statement("maj").unwrap();
    let tree = formulas.get_formula(&maj).unwrap().compact().dump(&names);
    assert_eq!(
        tree,
        vec![
            "  Root: 2".to_owned(),
            "  0: wp (variable)".to_owned(),
            "  1: wq (variable)".to_owned(),
            "  2: wim 0 1".to_owned(),
        ]
    );
}
