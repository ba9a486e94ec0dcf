use metamath_knife::diag::Diagnostic;
use metamath_knife::parser::bytes_eq;
use metamath_knife::parser::copy_range;
use metamath_knife::parser::parse_segments;
use metamath_knife::parser::StatementType;

fn words(list: &[&str]) -> Vec<Vec<u8>> {
    list.iter().map(|w| w.as_bytes().to_vec()).collect()
}

#[test]
fn parses_a_small_file() {
    let text = b"$c wff ( ) $. $( a comment $) $v ph $.\n wph $f wff ph $.\n ${ h $e wff ph $. th $p wff ( ph ) $= wph h $. $}";
    let segments = parse_segments(text);
    assert_eq!(segments.len(), 1);
    let seg = &segments[0];
    assert!(seg.diagnostics.is_empty());
    let kinds: Vec<StatementType> = seg.statements.iter().map(|s| s.stype).collect();
    assert_eq!(
        kinds,
        vec![
            StatementType::Constant,
            StatementType::Variable,
            StatementType::Floating,
            StatementType::OpenGroup,
            StatementType::Essential,
            StatementType::Provable,
            StatementType::CloseGroup,
            StatementType::Eof,
        ]
    );
    assert_eq!(seg.statements[0].math, words(&["wff", "(", ")"]));
    assert_eq!(seg.statements[5].label, b"th".to_vec());
    assert_eq!(seg.statements[5].math, words(&["wff", "(", "ph", ")"]));
    assert_eq!(seg.statements[5].proof, words(&["wph", "h"]));
    assert_eq!(seg.statements[0].start, 0);
    assert_eq!(seg.statements[0].end, 13);
}

#[test]
fn empty_source_is_one_segment_with_the_end() {
    let segments = parse_segments(b"");
    assert_eq!(segments.len(), 1);
    assert_eq!(segments[0].statements.len(), 1);
    assert_eq!(segments[0].statements[0].stype, StatementType::Eof);
    assert!(segments[0].diagnostics.is_empty());
}

#[test]
fn splits_after_each_inclusion() {
    let text = b"$c a $. $[ other.mm $] $c b $. $[ third.mm $] $c c $.";
    let segments = parse_segments(text);
    assert_eq!(segments.len(), 3);
    assert_eq!(segments[0].statements.len(), 2);
    assert_eq!(segments[0].statements.last().unwrap().stype, StatementType::FileInclude);
    assert_eq!(segments[0].statements.last().unwrap().math, words(&["other.mm"]));
    assert_eq!(segments[1].statements.last().unwrap().math, words(&["third.mm"]));
    assert_eq!(segments[2].statements.last().unwrap().stype, StatementType::Eof);
}

#[test]
fn reads_commands() {
    let text = b"$( $j syntax 'class'; syntax '|-' as 'wff'; type_conversions; garden_path ( x e. A   =>   ( ph ; $)";
    let segments = parse_segments(text);
    let st = &segments[0].statements[0];
    assert_eq!(st.stype, StatementType::AdditionalInfoComment);
    assert_eq!(st.commands.len(), 4);
    assert_eq!(st.commands[0], words(&["syntax", "class"]));
    assert_eq!(st.commands[1], words(&["syntax", "|-", "as", "wff"]));
    assert_eq!(st.commands[2], words(&["type_conversions"]));
    assert_eq!(st.commands[3], words(&["garden_path", "(", "x", "e.", "A", "=>", "(", "ph"]));
}

#[test]
fn commands_need_their_semicolon_and_closed_strings() {
    let good = parse_segments(b"$( $j a 'b c' \"d\"; e;f ; $)");
    assert!(good[0].diagnostics.is_empty());
    assert_eq!(
        good[0].statements[0].commands,
        vec![words(&["a", "b c", "d"]), words(&["e"]), words(&["f"])]
    );
    let open = parse_segments(b"$( $j syntax 'class $)");
    assert_eq!(open[0].diagnostics, vec![(0, Diagnostic::BadCommand)]);
    assert!(open[0].statements[0].commands.is_empty());
    let unfinished = parse_segments(b"$( $j syntax wff $)");
    assert_eq!(unfinished[0].diagnostics, vec![(0, Diagnostic::BadCommand)]);
    let none = parse_segments(b"$( $j $)");
    assert!(none[0].diagnostics.is_empty());
    assert!(none[0].statements[0].commands.is_empty());
}

#[test]
fn reads_headings() {
    let text = b"$(\n#*#*#*#*#*#\n  First part\n#*#*#*#*#*#\n  about things\n$)\n$(\n=-=-=-=-\n  A section\n=-=-=-=-\n$)\n$c a $.";
    let segments = parse_segments(text);
    let st = &segments[0].statements;
    assert_eq!(st[0].stype, StatementType::HeadingComment(2));
    assert_eq!(st[0].math, words(&["First", "part"]));
    assert_eq!(st[1].stype, StatementType::HeadingComment(3));
    assert_eq!(st[1].math, words(&["A", "section"]));
    assert_eq!(st[2].stype, StatementType::Constant);
}

#[test]
fn comments_inside_math_are_passed_over() {
    let segments = parse_segments(b"$c a $( not a symbol $) b $.");
    assert_eq!(segments[0].statements[0].math, words(&["a", "b"]));
    assert!(segments[0].diagnostics.is_empty());
}

#[test]
fn reports_what_is_wrong() {
    let cases: Vec<(&[u8], Diagnostic)> = vec![
        (b"$c a b", Diagnostic::UnclosedMath),
        (b"$( never closed", Diagnostic::UnclosedComment),
        (b"$a wff x $.", Diagnostic::MissingLabel),
        (b"lab $c x $.", Diagnostic::SpuriousLabel),
        (b"lab other $a wff x $.", Diagnostic::SpuriousLabel),
        (b"$x", Diagnostic::UnknownKeyword),
        (b"ax $a $.", Diagnostic::EmptyMathString),
        (b"th $p wff x $.", Diagnostic::MissingProof),
        (b"$}", Diagnostic::UnmatchedCloseGroup),
        (b"h $e wff x $.", Diagnostic::EssentialAtTopLevel),
        (b"$[ a b $]", Diagnostic::UnclosedInclude),
        (b"$[ a", Diagnostic::UnclosedInclude),
        (b"$c a $c b $.", Diagnostic::UnknownKeyword),
    ];
    for (text, expected) in cases {
        let segments = parse_segments(text);
        assert_eq!(
            segments[0].diagnostics,
            vec![(0, expected)],
            "for {:?}",
            std::str::from_utf8(text)
        );
    }
    let open = parse_segments(b"${ $c a $.");
    assert_eq!(open[0].diagnostics, vec![(2, Diagnostic::UnclosedGroup)]);
}

#[test]
fn bytes_helpers() {
    assert!(bytes_eq(b"abc", b"abc"));
    assert!(!bytes_eq(b"abc", b"abd"));
    assert!(!bytes_eq(b"abc", b"ab"));
    assert!(bytes_eq(b"", b""));
    assert_eq!(copy_range(b"hello", 1, 4), b"ell".to_vec());
    assert_eq!(copy_range(b"hello", 2, 2), Vec::<u8>::new());
}

#[test]
fn chapters_start_where_a_marked_comment_opens_a_line() {
    let text = b"$c a $.\n$(\n#*#*#*#\n one\n#*#*#*#\n$)\n$c b $.\n $(\n#*#*\n$)\n$(\n#*#* two $)\n$(\n=-=-\n$)\n$(\n#*#";
    let points = metamath_knife::parser::split_points(text);
    // the comment behind a blank is not at the start of its line, and the
    // last one is cut short
    assert_eq!(points, vec![8, 55]);
    for p in &points {
        assert_eq!(&text[*p..*p + 7], b"$(\n#*#*");
        assert_eq!(text[*p - 1], b'\n');
    }
    assert!(metamath_knife::parser::split_points(b"$(\n#*#*#*#*").is_empty());
    assert!(metamath_knife::parser::split_points(b"").is_empty());
    assert_eq!(metamath_knife::parser::split_points(b"\n$(\n#*#*"), vec![1]);
}

#[test]
fn pieces_are_parsed_on_their_own() {
    let text = b"$c a $.\n$(\n#*#*#*#\n one\n#*#*#*#\n$)\n$c b $. $[ x.mm $] $c c $.\n$(\n#*#*#*#\n two\n#*#*#*#\n$)\n$c d $.";
    let whole = parse_segments(text);
    let pieces = metamath_knife::parser::parse_split(text);
    assert_eq!(whole.len(), 2);
    // three pieces; the second has an inclusion and so two segments
    assert_eq!(pieces.len(), 4);
    let kinds = |segments: &Vec<metamath_knife::parser::Segment>| -> Vec<Vec<StatementType>> {
        segments.iter().map(|s| s.statements.iter().map(|st| st.stype).collect()).collect()
    };
    assert_eq!(
        kinds(&pieces),
        vec![
            vec![StatementType::Constant, StatementType::Eof],
            vec![StatementType::HeadingComment(2), StatementType::Constant, StatementType::FileInclude],
            vec![StatementType::Constant, StatementType::Eof],
            vec![StatementType::HeadingComment(2), StatementType::Constant, StatementType::Eof],
        ]
    );
    // the statements are where they are in the whole file
    let spans = |segments: &Vec<metamath_knife::parser::Segment>| -> Vec<(usize, usize)> {
        segments
            .iter()
            .flat_map(|s| s.statements.iter())
            .filter(|st| st.stype != StatementType::Eof)
            .map(|st| (st.start, st.end))
            .collect()
    };
    assert_eq!(spans(&pieces), spans(&whole));
    assert_eq!(&text[spans(&pieces)[5].0..spans(&pieces)[5].1], b"$(\n#*#*#*#\n two\n#*#*#*#\n$)");
    // without a chapter the file is one piece
    let plain = b"$c a $. $[ x.mm $] $c b $.";
    assert_eq!(kinds(&metamath_knife::parser::parse_split(plain)), kinds(&parse_segments(plain)));
    assert_eq!(
        metamath_knife::parser::parse_piece(b"$c a $.", 100)[0].statements[0].start,
        100
    );
}
