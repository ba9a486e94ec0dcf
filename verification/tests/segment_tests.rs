use metamath_knife::database::Database;
use metamath_knife::database::DbOptions;
use metamath_knife::diag::Diagnostic;
use metamath_knife::parser::SegmentId;
use metamath_knife::parser::StatementAddress;
use metamath_knife::parser::StatementType;
use metamath_knife::segment_order::SegmentOrder;
use metamath_knife::segment_set::files_ok;
use metamath_knife::segment_set::parse_file;
use metamath_knife::segment_set::reversed;
use metamath_knife::segment_set::SegmentSet;
use std::cmp::Ordering;

fn buffers(list: &[(&str, &str)]) -> Vec<(String, Vec<u8>)> {
    list.iter().map(|(n, t)| (n.to_string(), t.as_bytes().to_vec())).collect()
}

fn ids(set: &SegmentSet) -> Vec<u32> {
    set.segments().iter().map(|e| e.id.0).collect()
}

fn origins(set: &SegmentSet) -> Vec<(String, usize)> {
    set.segments()
        .iter()
        .map(|e| (String::from_utf8(e.file.clone()).unwrap(), e.index))
        .collect()
}

fn before(set: &SegmentSet, a: u32, b: u32) -> bool {
    // Segments are in logical order, so the order of two live identifiers
    // shows in their places.
    let ids = ids(set);
    let pa = ids.iter().position(|x| *x == a).unwrap();
    let pb = ids.iter().position(|x| *x == b).unwrap();
    pa < pb
}

#[test]
fn order_starts_with_the_mark() {
    let mut order = SegmentOrder::new();
    let start = order.start();
    assert_eq!(start, SegmentId(1));
    assert_eq!(order.find(start), Some(0));
    assert_eq!(order.find(SegmentId(2)), None);
    let a = order.insert_after(start).unwrap();
    assert_eq!(a, SegmentId(2));
    let c = order.insert_after(a).unwrap();
    let b = order.insert_between(a, c).unwrap();
    assert_eq!(order.compare(a, b), Ordering::Less);
    assert_eq!(order.compare(b, c), Ordering::Less);
    assert_eq!(order.compare(c, a), Ordering::Greater);
    assert_eq!(order.compare(b, b), Ordering::Equal);
    assert_eq!(order.compare(start, a), Ordering::Less);
    // numbers say nothing of the order: b was made last
    assert!(b.0 > c.0);
    assert_eq!(order.find(b), Some(2));
}

#[test]
fn order_forgets_and_reuses() {
    let mut order = SegmentOrder::new();
    let start = order.start();
    let a = order.insert_after(start).unwrap();
    let b = order.insert_after(a).unwrap();
    let c = order.insert_after(b).unwrap();
    order.free_id(b);
    assert_eq!(order.find(b), None);
    assert_eq!(order.compare(a, c), Ordering::Less);
    assert_eq!(order.find(c), Some(2));
    // the number that was freed names the next new identifier
    let d = order.insert_after(c).unwrap();
    assert_eq!(d, b);
    assert_eq!(order.compare(c, d), Ordering::Less);
    let copy = order.duplicate();
    assert_eq!(copy.find(d), Some(3));
    assert_eq!(copy.compare(a, d), Ordering::Less);
}

#[test]
fn reversed_turns_round() {
    assert_eq!(reversed(vec![1, 2, 3]), vec![3, 2, 1]);
    assert_eq!(reversed(Vec::<u8>::new()), Vec::<u8>::new());
}

#[test]
fn first_load_numbers_from_two() {
    let mut set = SegmentSet::new();
    assert_eq!(set.len(), 0);
    set.read("a.mm".to_owned(), buffers(&[("a.mm", "$c x $.")]));
    assert_eq!(ids(&set), vec![2]);
    assert_eq!(origins(&set), vec![("a.mm".to_owned(), 0)]);
    assert!(set.parse_diagnostics().is_empty());
    let st = set.statement(StatementAddress::new(SegmentId(2), 0)).unwrap();
    assert_eq!(st.statement.stype, StatementType::Constant);
    assert_eq!(st.address, StatementAddress::new(SegmentId(2), 0));
    assert_eq!(set.statement(StatementAddress::new(SegmentId(2), 1)).unwrap().statement.stype, StatementType::Eof);
    assert!(set.statement(StatementAddress::new(SegmentId(2), 2)).is_none());
    assert!(set.statement(StatementAddress::new(SegmentId(3), 0)).is_none());
    assert_eq!(set.segment_index(SegmentId(2)), Some(0));
    assert_eq!(set.segment_index(SegmentId(1)), None);
}

#[test]
fn included_files_come_behind_their_inclusion() {
    let mut set = SegmentSet::new();
    set.read(
        "main.mm".to_owned(),
        buffers(&[
            ("lib.mm", "$c b $. $[ deep.mm $] $c d $."),
            ("main.mm", "$c a $. $[ lib.mm $] $c e $. $[ deep.mm $] $c f $."),
            ("deep.mm", "$c c $."),
            ("unused.mm", "$c z $."),
        ]),
    );
    assert_eq!(
        origins(&set),
        vec![
            ("main.mm".to_owned(), 0),
            ("lib.mm".to_owned(), 0),
            ("deep.mm".to_owned(), 0),
            ("lib.mm".to_owned(), 1),
            ("main.mm".to_owned(), 1),
            ("main.mm".to_owned(), 2),
        ]
    );
    assert_eq!(ids(&set), vec![2, 3, 4, 5, 6, 7]);
    // the constants in the order of the logical system
    let mut symbols = Vec::new();
    for entry in set.segments() {
        for st in &entry.segment.statements {
            if st.stype == StatementType::Constant {
                symbols.push(st.math[0].clone());
            }
        }
    }
    let expected: Vec<Vec<u8>> = ["a", "b", "c", "d", "e", "f"].iter().map(|s| s.as_bytes().to_vec()).collect();
    assert_eq!(symbols, expected);
    assert!(set.parse_diagnostics().is_empty());
}

#[test]
fn a_file_that_includes_itself_is_read_once() {
    let mut set = SegmentSet::new();
    set.read("a.mm".to_owned(), buffers(&[("a.mm", "$c x $. $[ a.mm $] $c y $.")]));
    assert_eq!(origins(&set), vec![("a.mm".to_owned(), 0), ("a.mm".to_owned(), 1)]);
    assert!(set.parse_diagnostics().is_empty());
}

#[test]
fn a_missing_file_is_reported() {
    let mut set = SegmentSet::new();
    set.read("a.mm".to_owned(), buffers(&[("a.mm", "$c x $. $[ gone.mm $] $c y $.")]));
    assert_eq!(
        set.parse_diagnostics(),
        vec![(StatementAddress::new(SegmentId(2), 1), Diagnostic::IncludeNotFound)]
    );
    let mut none = SegmentSet::new();
    none.read("gone.mm".to_owned(), buffers(&[("a.mm", "$c x $.")]));
    assert_eq!(none.len(), 1);
    assert_eq!(
        none.parse_diagnostics(),
        vec![(StatementAddress::new(SegmentId(2), 0), Diagnostic::IncludeNotFound)]
    );
}

#[test]
fn missing_files_are_named_once() {
    let mut set = SegmentSet::new();
    set.read(
        "a.mm".to_owned(),
        buffers(&[
            ("a.mm", "$[ one.mm $] $c x $. $[ b.mm $] $[ two.mm $] $c y $. $[ one.mm $]"),
            ("b.mm", "$[ two.mm $] $[ one.mm $] $c z $."),
        ]),
    );
    assert_eq!(set.missing_files(), vec![b"one.mm".to_vec(), b"two.mm".to_vec()]);
    let mut whole = SegmentSet::new();
    whole.read("a.mm".to_owned(), buffers(&[("a.mm", "$c x $.")]));
    assert!(whole.missing_files().is_empty());
    let mut none = SegmentSet::new();
    none.read("gone.mm".to_owned(), buffers(&[("a.mm", "$c x $.")]));
    assert!(none.missing_files().is_empty());
}

#[test]
fn identifiers_stay_when_only_content_changes() {
    let mut set = SegmentSet::new();
    let text = |middle: &str| {
        buffers(&[
            ("main.mm", "$c a $. $[ lib.mm $] $c e $. $[ more.mm $] $c f $."),
            ("lib.mm", middle),
            ("more.mm", "$c m $."),
        ])
    };
    set.read("main.mm".to_owned(), text("$c b $."));
    let first = ids(&set);
    assert_eq!(first, vec![2, 3, 4, 5, 6]);
    set.read("main.mm".to_owned(), text("$c b c d $. $v x $."));
    assert_eq!(ids(&set), first);
    assert_eq!(set.segments()[1].segment.statements.len(), 3);
    set.read("main.mm".to_owned(), text(""));
    assert_eq!(ids(&set), first);
}

#[test]
fn a_new_segment_gets_a_new_identifier_in_its_place() {
    let mut set = SegmentSet::new();
    set.read(
        "main.mm".to_owned(),
        buffers(&[("main.mm", "$c a $. $[ lib.mm $] $c e $."), ("lib.mm", "$c b $.")]),
    );
    assert_eq!(ids(&set), vec![2, 3, 4]);
    // lib.mm now includes a file of its own
    set.read(
        "main.mm".to_owned(),
        buffers(&[
            ("main.mm", "$c a $. $[ lib.mm $] $c e $."),
            ("lib.mm", "$c b $. $[ new.mm $] $c c $."),
            ("new.mm", "$c n $."),
        ]),
    );
    assert_eq!(
        origins(&set),
        vec![
            ("main.mm".to_owned(), 0),
            ("lib.mm".to_owned(), 0),
            ("new.mm".to_owned(), 0),
            ("lib.mm".to_owned(), 1),
            ("main.mm".to_owned(), 1),
        ]
    );
    let now = ids(&set);
    assert_eq!(now[0], 2);
    assert_eq!(now[1], 3);
    assert_eq!(now[4], 4);
    assert!(now[2] > 4 && now[3] > 4 && now[2] != now[3]);
    assert!(before(&set, 2, 3));
    assert!(before(&set, 3, 4));
    // and back: the identifiers that stay keep their order
    set.read(
        "main.mm".to_owned(),
        buffers(&[("main.mm", "$c a $. $[ lib.mm $] $c e $."), ("lib.mm", "$c b $.")]),
    );
    assert_eq!(ids(&set), vec![2, 3, 4]);
}

#[test]
fn a_segment_that_goes_takes_its_identifier_along() {
    let mut set = SegmentSet::new();
    set.read(
        "main.mm".to_owned(),
        buffers(&[("main.mm", "$c a $. $[ lib.mm $] $c e $."), ("lib.mm", "$c b $.")]),
    );
    set.read("main.mm".to_owned(), buffers(&[("main.mm", "$c a $.")]));
    assert_eq!(ids(&set), vec![2]);
    set.clear();
    assert_eq!(set.len(), 0);
    set.read("main.mm".to_owned(), buffers(&[("main.mm", "$c a $.")]));
    assert_eq!(ids(&set), vec![2]);
}

#[test]
fn seed_keeps_identifiers_and_origins() {
    let mut set = SegmentSet::new();
    set.read(
        "main.mm".to_owned(),
        buffers(&[("main.mm", "$c a $. $[ lib.mm $] $c e $."), ("lib.mm", "$c b $.")]),
    );
    let mut seed = set.seed();
    assert_eq!(ids(&seed), ids(&set));
    assert_eq!(origins(&seed), origins(&set));
    seed.read(
        "main.mm".to_owned(),
        buffers(&[("main.mm", "$c a $. $[ lib.mm $] $c e $."), ("lib.mm", "$c b c $.")]),
    );
    assert_eq!(ids(&seed), ids(&set));
}

#[test]
fn large_files_are_split_if_asked_for() {
    let mut text = String::from("$c a $.\n");
    let filler = format!("$( {} $)\n", "x".repeat(1000));
    while text.len() <= metamath_knife::segment_set::SPLIT_FROM {
        text.push_str(&filler);
    }
    text.push_str("$(\n#*#*#*#\n Chapter\n#*#*#*#\n$)\n$c b $.\n");
    let mut whole = SegmentSet::new();
    whole.read("big.mm".to_owned(), buffers(&[("big.mm", &text)]));
    assert_eq!(whole.len(), 1);
    let mut split = SegmentSet::with_autosplit(true);
    split.read("big.mm".to_owned(), buffers(&[("big.mm", &text)]));
    assert_eq!(origins(&split), vec![("big.mm".to_owned(), 0), ("big.mm".to_owned(), 1)]);
    assert_eq!(split.segments()[1].segment.statements[0].stype, StatementType::HeadingComment(2));
    assert_eq!(split.segments()[1].segment.statements[1].math, vec![b"b".to_vec()]);
    // a small file stays whole
    let mut small = SegmentSet::with_autosplit(true);
    small.read(
        "small.mm".to_owned(),
        buffers(&[("small.mm", "$c a $.\n$(\n#*#*#*#\n Chapter\n#*#*#*#\n$)\n$c b $.\n")]),
    );
    assert_eq!(small.len(), 1);
    // the seed and a later reading split as well
    let mut seed = split.seed();
    seed.read("big.mm".to_owned(), buffers(&[("big.mm", &text)]));
    assert_eq!(ids(&seed), ids(&split));
}

#[test]
fn splice_takes_the_first_file_of_a_name() {
    let text = vec![
        ("a.mm".to_owned(), b"$c a $. $[ b.mm $] $c c $.".to_vec()),
        ("b.mm".to_owned(), b"$c first $.".to_vec()),
        ("b.mm".to_owned(), b"$c second $. $[ a.mm $]".to_vec()),
    ];
    let files = metamath_knife::segment_set::parse_files(&text, false);
    assert_eq!(files.len(), 3);
    assert_eq!(files[2].name, b"b.mm");
    assert_eq!(files[0].segments.len(), 2);
    let mut set = SegmentSet::new();
    set.splice(&b"a.mm".to_vec(), files);
    assert_eq!(
        origins(&set),
        vec![("a.mm".to_owned(), 0), ("b.mm".to_owned(), 0), ("a.mm".to_owned(), 1)]
    );
    assert_eq!(set.segments()[1].segment.statements[0].math, vec![b"first".to_vec()]);
}

#[test]
fn files_parsed_one_by_one_are_taken_up_as_buffers_are() {
    let a = "$c a $. $[ b.mm $] $c c $.";
    let b = "$c b $.";
    let mut read = Database::new(DbOptions::default());
    read.parse(
        "a.mm".to_owned(),
        vec![("a.mm".to_owned(), a.as_bytes().to_vec()), ("b.mm".to_owned(), b.as_bytes().to_vec())],
    );
    let files = vec![
        parse_file(&"a.mm".to_owned(), a.as_bytes(), false),
        parse_file(&"b.mm".to_owned(), b.as_bytes(), false),
    ];
    assert!(files_ok(&files));
    let mut spliced = Database::new(DbOptions::default());
    spliced.splice("a.mm".to_owned(), files);
    assert_eq!(ids(spliced.parse_result()), ids(read.parse_result()));
    assert_eq!(origins(spliced.parse_result()), origins(read.parse_result()));
    assert_eq!(spliced.statements().len(), read.statements().len());
    assert_eq!(spliced.statements().len(), 6);
}

#[test]
fn files_that_the_parser_did_not_make_are_told() {
    let mut files = vec![parse_file(&"a.mm".to_owned(), b"$c a $. $[ b.mm $] $c c $.", false)];
    assert!(files_ok(&files));
    // an inclusion in the middle of a segment
    let first = files[0].segments[0].statements[0].clone();
    files[0].segments[0].statements.push(first);
    assert!(!files_ok(&files));
    files[0].segments[0].statements.pop();
    assert!(files_ok(&files));
    // a diagnostic for a statement that is not there
    files[0].segments[1].diagnostics.push((7, Diagnostic::UnknownKeyword));
    assert!(!files_ok(&files));
    files[0].segments[1].diagnostics.pop();
    // a segment without statements
    files[0].segments[1].statements.clear();
    assert!(!files_ok(&files));
}

#[test]
fn identifiers_come_from_the_free_list_and_then_by_number() {
    let mut order = SegmentOrder::new();
    let start = order.start();
    assert_eq!(order.insert_after(start), Some(SegmentId(2)));
    assert_eq!(order.insert_after(SegmentId(2)), Some(SegmentId(3)));
    assert_eq!(order.insert_between(SegmentId(2), SegmentId(3)), Some(SegmentId(4)));
    order.free_id(SegmentId(2));
    order.free_id(SegmentId(4));
    // the one that was freed last comes first
    assert_eq!(order.insert_after(start), Some(SegmentId(4)));
    assert_eq!(order.insert_after(start), Some(SegmentId(2)));
    assert_eq!(order.insert_after(start), Some(SegmentId(5)));
}

#[test]
fn a_first_reading_numbers_the_segments_from_two_in_their_order() {
    let mut set = SegmentSet::new();
    set.read(
        "a.mm".to_owned(),
        buffers(&[("a.mm", "$c a $. $[ b.mm $] $c c $. $[ d.mm $] $c e $."), ("b.mm", "$c b $."), ("d.mm", "$c d $.")]),
    );
    assert_eq!(ids(&set), vec![2, 3, 4, 5, 6]);
}

#[test]
fn segments_behind_a_new_one_keep_their_identifiers() {
    let mut set = SegmentSet::new();
    set.read("a.mm".to_owned(), buffers(&[("a.mm", "$c a $. $[ b.mm $] $c c $."), ("b.mm", "$c b $.")]));
    assert_eq!(ids(&set), vec![2, 3, 4]);
    // a file comes in between: b.mm now includes x.mm
    set.read(
        "a.mm".to_owned(),
        buffers(&[("a.mm", "$c a $. $[ b.mm $] $c c $."), ("b.mm", "$c b $. $[ x.mm $] $c bb $."), ("x.mm", "$c x $.")]),
    );
    assert_eq!(
        origins(&set),
        vec![
            ("a.mm".to_owned(), 0),
            ("b.mm".to_owned(), 0),
            ("x.mm".to_owned(), 0),
            ("b.mm".to_owned(), 1),
            ("a.mm".to_owned(), 1)
        ]
    );
    assert_eq!(ids(&set), vec![2, 3, 5, 6, 4]);
    // and goes again: its identifiers wait, and the one freed last is given first
    set.read("a.mm".to_owned(), buffers(&[("a.mm", "$c a $. $[ b.mm $] $c c $."), ("b.mm", "$c b $.")]));
    assert_eq!(ids(&set), vec![2, 3, 4]);
    set.read(
        "a.mm".to_owned(),
        buffers(&[("a.mm", "$c a $. $[ b.mm $] $c c $. $[ y.mm $] $c d $."), ("b.mm", "$c b $."), ("y.mm", "$c y $.")]),
    );
    assert_eq!(ids(&set), vec![2, 3, 4, 6, 5]);
}
