//! Splits Metamath source text into statements, and the statements of a file
//! into segments: one segment ends after each file inclusion, the last one
//! with the file.

use crate::diag::Diagnostic;
use crate::source::bare_end;
use crate::source::finished;
use crate::source::moved;
use crate::source::piece;
use crate::source::piece_from;
use crate::source::segment_view;
use crate::source::segment_views;
use crate::source::with_statement;
use crate::source::Progress;
use crate::source::SegmentView;
use crate::source::StatementView;
use crate::source::begins_with;
use crate::source::command_words;
use crate::source::commands_from;
use crate::source::comment_close;
use crate::source::comment_statement;
use crate::source::heading_level_of;
use crate::source::include_statement;
use crate::source::keyword_of;
use crate::source::keyword_statement;
use crate::source::kind_of;
use crate::source::math_statement;
use crate::source::plain_view;
use crate::source::quote_end;
use crate::source::skip;
use crate::source::spurious;
use crate::source::statement_from;
use crate::source::statement_view;
use crate::source::title_words;
use crate::source::tokens_from;
use crate::source::word_end;
use crate::source::words;
use crate::source::Ending;
use crate::source::Read;
use vstd::prelude::*;

verus! {

/// A token of the source: a run of bytes without white space.
pub type Token = Vec<u8>;

/// The position of a statement in its segment.
pub type StatementIndex = usize;

/// The position of a token in a math string or a proof.
pub type TokenIndex = usize;

/// An opaque handle for a segment, stable across reparses.
#[derive(Clone, Copy, Debug, PartialEq, Eq, Structural)]
pub struct SegmentId(pub u32);

/// The place of a statement: its segment and its position there.
#[derive(Clone, Copy, Debug, PartialEq, Eq, Structural)]
pub struct StatementAddress {
    /// The segment that holds the statement.
    pub segment_id: SegmentId,
    /// The position of the statement in the segment.
    pub index: StatementIndex,
}

impl StatementAddress {
    /// The address of statement `index` of segment `segment_id`.
    pub fn new(segment_id: SegmentId, index: StatementIndex) -> (a: StatementAddress)
        ensures
            a == (StatementAddress { segment_id, index }),
    {
        StatementAddress { segment_id, index }
    }
}

/// The kinds of statement.
#[derive(Clone, Copy, Debug, PartialEq, Eq, Structural)]
pub enum StatementType {
    /// The end of the file; the last statement of its last segment.
    Eof,
    /// A `$( $j ... $)` comment, which carries commands.
    AdditionalInfoComment,
    /// A comment that opens a part of the outline; the number is its depth,
    /// from one for a major part to four.
    HeadingComment(u8),
    /// `$a`.
    Axiom,
    /// `$}`.
    CloseGroup,
    /// `$c`.
    Constant,
    /// `$d`.
    Disjoint,
    /// `$e`.
    Essential,
    /// `$[ ... $]`; the last statement of every segment but the last.
    FileInclude,
    /// `$f`.
    Floating,
    /// Text that is no statement.
    Invalid,
    /// `${`.
    OpenGroup,
    /// `$p`.
    Provable,
    /// `$v`.
    Variable,
}

/// One statement of the source.
#[derive(Clone)]
pub struct Statement {
    /// Its kind.
    pub stype: StatementType,
    /// Its label; empty where the statement has none.
    pub label: Token,
    /// Its math string; for an inclusion the file name, for a heading the
    /// words of the title.
    pub math: Vec<Token>,
    /// The steps of its proof.
    pub proof: Vec<Token>,
    /// The commands of an additional-information comment, each a list of
    /// words.
    pub commands: Vec<Vec<Token>>,
    /// Where it starts in the source.
    pub start: usize,
    /// Where it ends in the source.
    pub end: usize,
}

/// A run of statements that is parsed as a unit.
#[derive(Clone)]
pub struct Segment {
    /// The statements, in source order.
    pub statements: Vec<Statement>,
    /// The problems found while reading them, each with the position of its
    /// statement.
    pub diagnostics: Vec<(StatementIndex, Diagnostic)>,
}

/// White space: blank, tab, line feed, form feed, carriage return.
pub open spec fn is_space(b: u8) -> bool {
    b == 32 || b == 9 || b == 10 || b == 12 || b == 13
}

/// A segment as the parser leaves it: it is not empty, inclusions and the end
/// of the file stand last and nowhere else, and every diagnostic points at
/// one of its statements.
pub open spec fn segment_wf(segment: &Segment) -> bool {
    &&& segment.statements@.len() > 0
    &&& forall|i: int|
        0 <= i < segment.statements@.len() - 1 ==> (#[trigger] segment.statements@[i]).stype
            != StatementType::Eof && segment.statements@[i].stype != StatementType::FileInclude
    &&& forall|i: int|
        0 <= i < segment.diagnostics@.len() ==> (#[trigger] segment.diagnostics@[i]).0
            < segment.statements@.len()
    &&& forall|i: int|
        0 <= i < segment.statements@.len() && (#[trigger] segment.statements@[i]).stype
            == StatementType::FileInclude ==> segment.statements@[i].math@.len() == 1
}

/// The segments of one file: every segment but the last ends with an
/// inclusion, the last with the end of the file.
pub open spec fn file_wf(segments: &Vec<Segment>) -> bool {
    &&& segments@.len() > 0
    &&& forall|i: int| 0 <= i < segments@.len() ==> segment_wf(#[trigger] &segments@[i])
    &&& forall|i: int|
        0 <= i < segments@.len() - 1 ==> (#[trigger] segments@[i]).statements@.last().stype
            == StatementType::FileInclude
    &&& segments@.last().statements@.last().stype == StatementType::Eof
}

fn space(b: u8) -> (r: bool)
    ensures
        r == is_space(b),
{
    b == 32 || b == 9 || b == 10 || b == 12 || b == 13
}

/// Whether two byte strings are equal.
pub fn bytes_eq(a: &[u8], b: &[u8]) -> (r: bool)
    ensures
        r == (a@ == b@),
{
    if a.len() != b.len() {
        return false;
    }
    let mut i: usize = 0;
    while i < a.len()
        invariant
            a@.len() == b@.len(),
            0 <= i <= a@.len(),
            forall|j: int| 0 <= j < i ==> a@[j] == b@[j],
        decreases a@.len() - i,
    {
        if a[i] != b[i] {
            return false;
        }
        i += 1;
    }
    assert(a@ =~= b@);
    true
}

/// A copy of the bytes from `start` to `end`.
pub fn copy_range(buf: &[u8], start: usize, end: usize) -> (r: Token)
    requires
        start <= end <= buf@.len(),
    ensures
        r@ == buf@.subrange(start as int, end as int),
{
    let mut r: Vec<u8> = Vec::new();
    let mut i: usize = start;
    while i < end
        invariant
            start <= i <= end <= buf@.len(),
            r@ == buf@.subrange(start as int, i as int),
        decreases end - i,
    {
        r.push(buf[i]);
        assert(r@ =~= buf@.subrange(start as int, i + 1));
        i += 1;
    }
    r
}

/// The first position from `pos` on that holds no white space, or `end`.
fn skip_space(buf: &[u8], pos: usize, end: usize) -> (p: usize)
    requires
        pos <= end <= buf@.len(),
    ensures
        pos <= p <= end,
        p == skip(buf@, pos as int, end as int),
        p < end ==> !is_space(buf@[p as int]),
{
    let mut p: usize = pos;
    while p < end && space(buf[p])
        invariant
            pos <= p <= end <= buf@.len(),
            skip(buf@, pos as int, end as int) == skip(buf@, p as int, end as int),
        decreases end - p,
    {
        p += 1;
    }
    p
}

/// The end of the token that starts at `pos`.
fn token_end(buf: &[u8], pos: usize, end: usize) -> (e: usize)
    requires
        pos < end <= buf@.len(),
        !is_space(buf@[pos as int]),
    ensures
        pos < e <= end,
        e == word_end(buf@, pos as int, end as int),
{
    let mut e: usize = pos + 1;
    while e < end && !space(buf[e])
        invariant
            pos < e <= end <= buf@.len(),
            word_end(buf@, pos as int, end as int) == word_end(buf@, e as int, end as int),
        decreases end - e,
    {
        e += 1;
    }
    e
}

/// The keyword that the token from `start` to `end` is: its second byte for
/// a `$` and one more byte, 1 for another token that starts with `$`, 0 for
/// any other token.
fn keyword(buf: &[u8], start: usize, end: usize) -> (k: u8)
    requires
        start < end <= buf@.len(),
    ensures
        k == keyword_of(buf@, start as int, end as int),
{
    if buf[start] != 36 {
        0
    } else if end - start == 2 && buf[start + 1] > 1 {
        buf[start + 1]
    } else {
        1
    }
}

/// Whether the token from `start` to `end` begins with the four bytes given.
fn has_prefix(buf: &[u8], start: usize, end: usize, a: u8, b: u8, c: u8, d: u8) -> (r: bool)
    requires
        start <= end <= buf@.len(),
    ensures
        r == begins_with(buf@, start as int, end as int, a, b, c, d),
{
    end - start >= 4 && buf[start] == a && buf[start + 1] == b && buf[start + 2] == c && buf[start
        + 3] == d
}

/// The depth of the heading that a comment opens whose first word runs from
/// `start` to `end`, or 0 if it opens none.
fn heading_level(buf: &[u8], start: usize, end: usize) -> (level: u8)
    requires
        start <= end <= buf@.len(),
    ensures
        level == heading_level_of(buf@, start as int, end as int),
{
    if has_prefix(buf, start, end, 35, 35, 35, 35) {
        1
    } else if has_prefix(buf, start, end, 35, 42, 35, 42) {
        2
    } else if has_prefix(buf, start, end, 61, 45, 61, 45) {
        3
    } else if has_prefix(buf, start, end, 45, 46, 45, 46) {
        4
    } else {
        0
    }
}

/// Finds the `$)` that closes the comment whose text starts at `pos`.
/// Returns where the text of the comment ends, where reading goes on, and
/// whether the comment was closed.
fn comment_end(buf: &[u8], pos: usize) -> (r: (usize, usize, bool))
    requires
        pos <= buf@.len(),
    ensures
        pos <= r.0 <= r.1 <= buf@.len(),
        !r.2 ==> r.1 == buf@.len(),
        r.2 ==> r.0 < r.1,
        (r.0 as int, r.1 as int, r.2) == comment_close(buf@, pos as int),
{
    let len = buf.len();
    let mut p: usize = pos;
    loop
        invariant
            pos <= p <= len == buf@.len(),
            comment_close(buf@, pos as int) == comment_close(buf@, p as int),
        decreases len - p,
    {
        let s = skip_space(buf, p, len);
        if s >= len {
            return (len, len, false);
        }
        let e = token_end(buf, s, len);
        if keyword(buf, s, e) == 41 {
            return (s, e, true);
        }
        p = e;
    }
}

/// The words of the title of a heading: the words of the text between
/// `start` and `end`, up to the first word that begins like a heading.
fn heading_title(buf: &[u8], start: usize, end: usize) -> (title: Vec<Token>)
    requires
        start <= end <= buf@.len(),
    ensures
        words(&title) == title_words(buf@, start as int, end as int),
{
    let mut title: Vec<Token> = Vec::new();
    let mut p: usize = start;
    proof {
        assert(words(&title) =~= Seq::<Seq<u8>>::empty());
    }
    loop
        invariant
            start <= p <= end <= buf@.len(),
            title_words(buf@, start as int, end as int) == words(&title) + title_words(
                buf@,
                p as int,
                end as int,
            ),
        decreases end - p,
    {
        let s = skip_space(buf, p, end);
        if s >= end {
            assert(words(&title) + Seq::<Seq<u8>>::empty() =~= words(&title));
            return title;
        }
        let e = token_end(buf, s, end);
        if heading_level(buf, s, e) != 0 {
            assert(words(&title) + Seq::<Seq<u8>>::empty() =~= words(&title));
            return title;
        }
        let ghost before = words(&title);
        title.push(copy_range(buf, s, e));
        proof {
            assert(words(&title) =~= before.push(buf@.subrange(s as int, e as int)));
            assert(before + (seq![buf@.subrange(s as int, e as int)] + title_words(
                buf@,
                e as int,
                end as int,
            )) =~= words(&title) + title_words(buf@, e as int, end as int));
        }
        p = e;
    }
}

/// Reads the commands of an additional-information comment from the text
/// between `start` and `end`: words, or strings in single or double quotes,
/// each command closed by a semicolon. `None` when a string or the last
/// command is not closed.
fn parse_commands(buf: &[u8], start: usize, end: usize) -> (r: Option<Vec<Vec<Token>>>)
    requires
        start <= end <= buf@.len(),
    ensures
        match r {
            Some(commands) => commands_from(
                buf@,
                start as int,
                end as int,
                Seq::empty(),
                Seq::empty(),
            ) == Some(command_words(&commands)),
            None => commands_from(buf@, start as int, end as int, Seq::empty(), Seq::empty())
                is None,
        },
{
    let mut commands: Vec<Vec<Token>> = Vec::new();
    let mut current: Vec<Token> = Vec::new();
    let mut p: usize = start;
    proof {
        assert(command_words(&commands) =~= Seq::<Seq<Seq<u8>>>::empty());
        assert(words(&current) =~= Seq::<Seq<u8>>::empty());
    }
    loop
        invariant
            start <= p <= end <= buf@.len(),
            commands_from(buf@, start as int, end as int, Seq::empty(), Seq::empty())
                == commands_from(
                buf@,
                p as int,
                end as int,
                command_words(&commands),
                words(&current),
            ),
        decreases end - p,
    {
        let s = skip_space(buf, p, end);
        if s >= end {
            if current.len() > 0 {
                return None;
            }
            return Some(commands);
        }
        let b = buf[s];
        if b == 59 {
            let ghost before = command_words(&commands);
            let ghost word_list = words(&current);
            commands.push(current);
            current = Vec::new();
            proof {
                assert(command_words(&commands) =~= before.push(word_list));
                assert(words(&current) =~= Seq::<Seq<u8>>::empty());
            }
            p = s + 1;
        } else if b == 39 || b == 34 {
            let mut e: usize = s + 1;
            while e < end && buf[e] != b
                invariant
                    s < e <= end <= buf@.len(),
                    quote_end(buf@, s + 1, end as int, b) == quote_end(buf@, e as int, end as int, b),
                decreases end - e,
            {
                e += 1;
            }
            if e >= end {
                return None;
            }
            let ghost before = words(&current);
            current.push(copy_range(buf, s + 1, e));
            proof {
                assert(words(&current) =~= before.push(buf@.subrange(s + 1, e as int)));
            }
            p = e + 1;
        } else {
            let mut e: usize = s + 1;
            while e < end && !space(buf[e]) && buf[e] != 59
                invariant
                    s < e <= end <= buf@.len(),
                    bare_end(buf@, s + 1, end as int) == bare_end(buf@, e as int, end as int),
                decreases end - e,
            {
                e += 1;
            }
            let ghost before = words(&current);
            current.push(copy_range(buf, s, e));
            proof {
                assert(words(&current) =~= before.push(buf@.subrange(s as int, e as int)));
            }
            p = e;
        }
    }
}

/// Reads tokens from `pos` up to `$.`, or up to `$=` where `until_proof`
/// allows it, passing over comments. Returns the tokens, where reading goes
/// on, and how the string ended.
fn read_tokens(buf: &[u8], pos: usize, until_proof: bool) -> (r: (Vec<Token>, usize, Ending))
    requires
        pos <= buf@.len(),
    ensures
        pos <= r.1 <= buf@.len(),
        r.2 == Ending::Proof ==> until_proof,
        r.2 == Ending::Source ==> r.1 == buf@.len(),
        r.2 == Ending::Period || r.2 == Ending::Proof ==> pos < r.1,
        r.2 == Ending::Keyword ==> r.1 < buf@.len() && !is_space(buf@[r.1 as int]),
        (words(&r.0), r.1 as int, r.2) == tokens_from(buf@, pos as int, until_proof, Seq::empty()),
{
    let len = buf.len();
    let mut tokens: Vec<Token> = Vec::new();
    let mut p: usize = pos;
    proof {
        assert(words(&tokens) =~= Seq::<Seq<u8>>::empty());
    }
    loop
        invariant
            pos <= p <= len == buf@.len(),
            tokens_from(buf@, pos as int, until_proof, Seq::empty()) == tokens_from(
                buf@,
                p as int,
                until_proof,
                words(&tokens),
            ),
        decreases len - p,
    {
        let s = skip_space(buf, p, len);
        if s >= len {
            return (tokens, len, Ending::Source);
        }
        let e = token_end(buf, s, len);
        let k = keyword(buf, s, e);
        if k == 0 {
            let ghost before = words(&tokens);
            tokens.push(copy_range(buf, s, e));
            proof {
                assert(words(&tokens) =~= before.push(buf@.subrange(s as int, e as int)));
            }
            p = e;
        } else if k == 46 {
            return (tokens, e, Ending::Period);
        } else if k == 61 && until_proof {
            return (tokens, e, Ending::Proof);
        } else if k == 40 {
            let c = comment_end(buf, e);
            if !c.2 {
                return (tokens, len, Ending::Source);
            }
            p = c.1;
        } else {
            return (tokens, s, Ending::Keyword);
        }
    }
}

fn plain(stype: StatementType, start: usize, end: usize) -> (s: Statement)
    ensures
        s.stype == stype,
        s.math@.len() == 0,
        s.start == start,
        s.end == end,
        statement_view(&s) == plain_view(stype, start as int, end as int),
{
    let s = Statement {
        stype,
        label: Vec::new(),
        math: Vec::new(),
        proof: Vec::new(),
        commands: Vec::new(),
        start,
        end,
    };
    proof {
        assert(words(&s.math) =~= Seq::<Seq<u8>>::empty());
        assert(words(&s.proof) =~= Seq::<Seq<u8>>::empty());
        assert(command_words(&s.commands) =~= Seq::<Seq<Seq<u8>>>::empty());
    }
    s
}

/// The kind of statement that keyword `k` opens, and whether it takes a
/// label.
fn statement_kind(k: u8) -> (r: Option<(StatementType, bool)>)
    ensures
        r == kind_of(k),
        r matches Some(kind) ==> kind.0 != StatementType::Eof && kind.0
            != StatementType::FileInclude,
{
    if k == 99 {
        Some((StatementType::Constant, false))
    } else if k == 118 {
        Some((StatementType::Variable, false))
    } else if k == 100 {
        Some((StatementType::Disjoint, false))
    } else if k == 102 {
        Some((StatementType::Floating, true))
    } else if k == 101 {
        Some((StatementType::Essential, true))
    } else if k == 97 {
        Some((StatementType::Axiom, true))
    } else if k == 112 {
        Some((StatementType::Provable, true))
    } else {
        None
    }
}

/// What has been read, in the terms of the source format.
pub open spec fn read_view(r: (Option<Statement>, Option<Diagnostic>, usize)) -> Read {
    Read {
        statement: match r.0 {
            Some(st) => Some(statement_view(&st)),
            None => None,
        },
        diagnostic: r.1,
        next: r.2 as int,
    }
}

/// The diagnostic for a label before a statement that takes none.
fn spurious_label(label: &Token) -> (r: Option<Diagnostic>)
    ensures
        r == spurious(label@),
{
    if label.len() > 0 {
        Some(Diagnostic::SpuriousLabel)
    } else {
        None
    }
}

/// Reads the statement that starts at `pos`, which holds no white space.
/// Returns the statement, the diagnostic it earns if any, and where reading
/// goes on. A comment that is no statement gives `None`.
fn read_statement(buf: &[u8], pos: usize) -> (r: (Option<Statement>, Option<Diagnostic>, usize))
    requires
        pos < buf@.len(),
        !is_space(buf@[pos as int]),
    ensures
        pos < r.2 <= buf@.len(),
        r.0 matches Some(s) ==> s.stype != StatementType::Eof && (s.stype
            == StatementType::FileInclude ==> s.math@.len() == 1) && s.start == pos && s.end == r.2,
        read_view(r) == statement_from(buf@, pos as int),
{
    let len = buf.len();
    let first_end = token_end(buf, pos, len);
    let k = keyword(buf, pos, first_end);
    if k != 0 {
        return read_keyword(buf, pos, Vec::new(), first_end, k);
    }
    // A label; the keyword has to follow.
    let s = skip_space(buf, first_end, len);
    if s >= len {
        return (Some(plain(StatementType::Invalid, pos, len)), Some(Diagnostic::SpuriousLabel), len);
    }
    let e = token_end(buf, s, len);
    let k2 = keyword(buf, s, e);
    if k2 == 0 {
        return (
            Some(plain(StatementType::Invalid, pos, first_end)),
            Some(Diagnostic::SpuriousLabel),
            first_end,
        );
    }
    read_keyword(buf, pos, copy_range(buf, pos, first_end), e, k2)
}

/// Reads the statement that starts at `pos` with the label `label`, or with
/// none if `label` is empty, and whose keyword `key` ends at `key_end`.
fn read_keyword(buf: &[u8], pos: usize, label: Token, key_end: usize, key: u8) -> (r: (
    Option<Statement>,
    Option<Diagnostic>,
    usize,
))
    requires
        pos < key_end <= buf@.len(),
        key != 0,
    ensures
        pos < r.2 <= buf@.len(),
        r.0 matches Some(s) ==> s.stype != StatementType::Eof && (s.stype
            == StatementType::FileInclude ==> s.math@.len() == 1) && s.start == pos && s.end == r.2,
        read_view(r) == keyword_statement(buf@, pos as int, label@, key_end as int, key),
{
    if key == 40 {
        read_comment(buf, pos, label, key_end)
    } else if key == 91 {
        read_include(buf, pos, label, key_end)
    } else if key == 123 || key == 125 {
        let stype = if key == 123 {
            StatementType::OpenGroup
        } else {
            StatementType::CloseGroup
        };
        (Some(plain(stype, pos, key_end)), spurious_label(&label), key_end)
    } else {
        match statement_kind(key) {
            None => (
                Some(plain(StatementType::Invalid, pos, key_end)),
                Some(Diagnostic::UnknownKeyword),
                key_end,
            ),
            Some(kind) => read_math(buf, pos, label, key_end, kind),
        }
    }
}

/// Reads a comment: a statement if it holds commands or opens a heading.
fn read_comment(buf: &[u8], pos: usize, label: Token, key_end: usize) -> (r: (
    Option<Statement>,
    Option<Diagnostic>,
    usize,
))
    requires
        pos < key_end <= buf@.len(),
    ensures
        pos < r.2 <= buf@.len(),
        r.0 matches Some(s) ==> s.stype != StatementType::Eof && s.stype
            != StatementType::FileInclude && s.start == pos && s.end == r.2,
        read_view(r) == comment_statement(buf@, pos as int, label@, key_end as int),
{
    let len = buf.len();
    let s = skip_space(buf, key_end, len);
    let c = comment_end(buf, key_end);
    if !c.2 {
        return (Some(plain(StatementType::Invalid, pos, len)), Some(Diagnostic::UnclosedComment), len);
    }
    let diag = spurious_label(&label);
    if s >= c.0 {
        return (None, diag, c.1);
    }
    proof {
        lemma_skip_within(buf@, key_end as int, c.0 as int, len as int);
    }
    let e = token_end(buf, s, c.0);
    if e - s == 2 && buf[s] == 36 && buf[s + 1] == 106 {
        let mut st = plain(StatementType::AdditionalInfoComment, pos, c.1);
        match parse_commands(buf, e, c.0) {
            Some(commands) => {
                st.commands = commands;
                return (Some(st), diag, c.1);
            },
            None => {
                return (Some(st), Some(Diagnostic::BadCommand), c.1);
            },
        }
    }
    let level = heading_level(buf, s, e);
    if level != 0 {
        let mut st = plain(StatementType::HeadingComment(level), pos, c.1);
        st.math = heading_title(buf, e, c.0);
        return (Some(st), diag, c.1);
    }
    (None, diag, c.1)
}

/// Skipping white space up to a nearer end gives the same place, if that
/// place lies before the nearer end.
proof fn lemma_skip_within(buf: Seq<u8>, pos: int, near: int, far: int)
    requires
        0 <= pos <= near <= far <= buf.len(),
    ensures
        skip(buf, pos, far) < near ==> skip(buf, pos, near) == skip(buf, pos, far),
        skip(buf, pos, far) >= near ==> skip(buf, pos, near) == near,
        pos <= skip(buf, pos, far) <= far,
    decreases far - pos,
{
    if pos < far && is_space(buf[pos]) {
        if pos < near {
            lemma_skip_within(buf, pos + 1, near, far);
        } else {
            lemma_skip_within(buf, pos + 1, pos + 1, far);
        }
    }
}

/// Reads an inclusion.
fn read_include(buf: &[u8], pos: usize, label: Token, key_end: usize) -> (r: (
    Option<Statement>,
    Option<Diagnostic>,
    usize,
))
    requires
        pos < key_end <= buf@.len(),
    ensures
        pos < r.2 <= buf@.len(),
        r.0 matches Some(s) ==> s.stype != StatementType::Eof && (s.stype
            == StatementType::FileInclude ==> s.math@.len() == 1) && s.start == pos && s.end == r.2,
        read_view(r) == include_statement(buf@, pos as int, label@, key_end as int),
{
    let len = buf.len();
    let r = read_tokens(buf, key_end, false);
    let mut p: usize = r.1;
    let mut closed = false;
    if r.2 == Ending::Keyword {
        let e = token_end(buf, p, len);
        if keyword(buf, p, e) == 93 {
            closed = true;
        }
        p = e;
    }
    if closed && r.0.len() == 1 && label.len() == 0 {
        let mut st = plain(StatementType::FileInclude, pos, p);
        st.math = r.0;
        return (Some(st), None, p);
    }
    let q: usize = if p > key_end {
        p
    } else {
        key_end
    };
    (Some(plain(StatementType::Invalid, pos, q)), Some(Diagnostic::UnclosedInclude), q)
}

/// Reads a statement with a math string.
fn read_math(
    buf: &[u8],
    pos: usize,
    label: Token,
    key_end: usize,
    kind: (StatementType, bool),
) -> (r: (Option<Statement>, Option<Diagnostic>, usize))
    requires
        pos < key_end <= buf@.len(),
        kind.0 != StatementType::Eof,
        kind.0 != StatementType::FileInclude,
    ensures
        pos < r.2 <= buf@.len(),
        r.0 matches Some(s) ==> s.stype == kind.0 && s.start == pos && s.end == r.2,
        read_view(r) == math_statement(buf@, pos as int, label@, key_end as int, kind),
{
    let mut diag: Option<Diagnostic> = None;
    if kind.1 && label.len() == 0 {
        diag = Some(Diagnostic::MissingLabel);
    } else if !kind.1 && label.len() > 0 {
        diag = Some(Diagnostic::SpuriousLabel);
    }
    let provable = kind.0 == StatementType::Provable;
    let m = read_tokens(buf, key_end, provable);
    let mut p: usize = m.1;
    let mut ending = m.2;
    let mut st = plain(kind.0, pos, p);
    st.label = label;
    st.math = m.0;
    if kind.1 && st.math.len() == 0 && diag.is_none() {
        diag = Some(Diagnostic::EmptyMathString);
    }
    if ending == Ending::Proof {
        let q = read_tokens(buf, p, false);
        st.proof = q.0;
        p = q.1;
        ending = q.2;
    } else if provable && ending == Ending::Period && diag.is_none() {
        diag = Some(Diagnostic::MissingProof);
    }
    if ending == Ending::Keyword || ending == Ending::Proof {
        diag = Some(Diagnostic::UnknownKeyword);
    } else if ending == Ending::Source {
        diag = Some(Diagnostic::UnclosedMath);
    }
    let q: usize = if p > key_end {
        p
    } else {
        key_end
    };
    st.end = q;
    (Some(st), diag, q)
}

/// Every statement lies between `base` and `limit` in the source.
pub open spec fn spans_within(segments: &Vec<Segment>, base: int, limit: int) -> bool {
    forall|i: int, k: int|
        0 <= i < segments@.len() && 0 <= k < segments@[i].statements@.len() ==> base <= (
        #[trigger] segments@[i].statements@[k]).start <= segments@[i].statements@[k].end <= limit
}

/// The views of statements.
pub open spec fn statement_views(statements: Seq<Statement>) -> Seq<StatementView> {
    Seq::new(statements.len(), |k: int| statement_view(&statements[k]))
}

/// Parses the text of one file into its segments.
pub fn parse_segments(buf: &[u8]) -> (segments: Vec<Segment>)
    ensures
        file_wf(&segments),
        spans_within(&segments, 0, buf@.len() as int),
        segment_views(segments@) == piece(buf@, 0),
{
    let len = buf.len();
    assert(0 + buf@.len() <= usize::MAX);
    parse_piece(buf, 0)
}

/// Parses a piece of a file, which starts at `base` in the file, into its
/// segments.
pub fn parse_piece(buf: &[u8], base: usize) -> (segments: Vec<Segment>)
    requires
        base + buf@.len() <= usize::MAX,
    ensures
        file_wf(&segments),
        spans_within(&segments, base as int, base + buf@.len()),
        segment_views(segments@) == piece(buf@, base as int),
{
    let len = buf.len();
    let mut segments: Vec<Segment> = Vec::new();
    let mut statements: Vec<Statement> = Vec::new();
    let mut diagnostics: Vec<(StatementIndex, Diagnostic)> = Vec::new();
    let mut depth: usize = 0;
    let mut p: usize = 0;
    proof {
        assert(segment_views(segments@) =~= Seq::<SegmentView>::empty());
        assert(statement_views(statements@) =~= Seq::<StatementView>::empty());
    }
    loop
        invariant
            0 <= p <= len == buf@.len(),
            base + len <= usize::MAX,
            forall|i: int| 0 <= i < segments@.len() ==> segment_wf(#[trigger] &segments@[i]),
            forall|i: int|
                0 <= i < segments@.len() ==> (#[trigger] segments@[i]).statements@.last().stype
                    == StatementType::FileInclude,
            forall|i: int|
                0 <= i < statements@.len() ==> (#[trigger] statements@[i]).stype
                    != StatementType::Eof && statements@[i].stype != StatementType::FileInclude,
            forall|i: int|
                0 <= i < diagnostics@.len() ==> (#[trigger] diagnostics@[i]).0 < statements@.len(),
            spans_within(&segments, base as int, base + len),
            forall|k: int|
                0 <= k < statements@.len() ==> base <= (#[trigger] statements@[k]).start
                    <= statements@[k].end <= base + len,
            piece(buf@, base as int) == piece_from(
                buf@,
                base as int,
                p as int,
                Progress {
                    segments: segment_views(segments@),
                    statements: statement_views(statements@),
                    diagnostics: diagnostics@,
                    depth,
                },
            ),
        decreases len - p,
    {
        let ghost g = Progress {
            segments: segment_views(segments@),
            statements: statement_views(statements@),
            diagnostics: diagnostics@,
            depth,
        };
        let s = skip_space(buf, p, len);
        if s >= len {
            let index = statements.len();
            let ghost before_statements = statement_views(statements@);
            statements.push(plain(StatementType::Eof, base + len, base + len));
            if depth > 0 {
                diagnostics.push((index, Diagnostic::UnclosedGroup));
            }
            let last = Segment { statements, diagnostics };
            assert(segment_wf(&last));
            let ghost before = segments@;
            segments.push(last);
            proof {
                assert forall|i: int, k: int|
                    0 <= i < segments@.len() && 0 <= k < segments@[i].statements@.len() implies base
                    <= (#[trigger] segments@[i].statements@[k]).start
                    <= segments@[i].statements@[k].end <= base + len by {
                    if i < before.len() {
                        assert(segments@[i] == before[i]);
                    }
                }
                assert(statement_views(last.statements@) =~= before_statements.push(
                    plain_view(StatementType::Eof, base + len, base + len),
                ));
                assert(segment_views(segments@) =~= segment_views(before).push(segment_view(&last)));
                assert(segment_views(segments@) == finished(g, base as int, len as int));
            }
            return segments;
        }
        let r = read_statement(buf, s);
        p = r.2;
        match r.0 {
            None => {},
            Some(st) => {
                let index = statements.len();
                let stype = st.stype;
                let ghost local = statement_view(&st);
                let mut st = st;
                st.start = base + st.start;
                st.end = base + st.end;
                let ghost view = statement_view(&st);
                proof {
                    assert(view == moved(local, base as int));
                }
                let ghost before_statements = statement_views(statements@);
                statements.push(st);
                proof {
                    assert(statement_views(statements@) =~= before_statements.push(view));
                }
                match r.1 {
                    Some(d) => {
                        diagnostics.push((index, d));
                    },
                    None => {
                        match stype {
                            StatementType::OpenGroup => {
                                if depth < usize::MAX {
                                    depth += 1;
                                }
                            },
                            StatementType::CloseGroup => {
                                if depth == 0 {
                                    diagnostics.push((index, Diagnostic::UnmatchedCloseGroup));
                                } else {
                                    depth -= 1;
                                }
                            },
                            StatementType::Essential => {
                                if depth == 0 {
                                    diagnostics.push((index, Diagnostic::EssentialAtTopLevel));
                                }
                            },
                            _ => {},
                        }
                    },
                }
                if stype == StatementType::FileInclude {
                    if depth > 0 {
                        diagnostics.push((index, Diagnostic::UnclosedGroup));
                        depth = 0;
                    }
                    let done = Segment { statements, diagnostics };
                    assert(segment_wf(&done));
                    let ghost before = segments@;
                    segments.push(done);
                    proof {
                        assert forall|i: int, k: int|
                            0 <= i < segments@.len() && 0 <= k
                                < segments@[i].statements@.len() implies base <= (
                        #[trigger] segments@[i].statements@[k]).start
                            <= segments@[i].statements@[k].end <= base + len by {
                            if i < before.len() {
                                assert(segments@[i] == before[i]);
                            }
                        }
                        assert(segment_views(segments@) =~= segment_views(before).push(
                            segment_view(&done),
                        ));
                    }
                    statements = Vec::new();
                    diagnostics = Vec::new();
                    proof {
                        assert(statement_views(statements@) =~= Seq::<StatementView>::empty());
                    }
                }
                proof {
                    let next = Progress {
                        segments: segment_views(segments@),
                        statements: statement_views(statements@),
                        diagnostics: diagnostics@,
                        depth,
                    };
                    assert(next == with_statement(g, view, r.1));
                }
            },
        }
    }
}

/// The mark of a chapter: a line that opens a comment, and `#*#*` at the
/// start of the next line.
pub open spec fn chapter_mark() -> Seq<u8> {
    seq![10u8, 36u8, 40u8, 10u8, 35u8, 42u8, 35u8, 42u8]
}

/// Whether a chapter heading starts at `p`: the comment that opens there
/// stands at the start of a line, and its text starts with `#*#*` on the
/// next line.
pub open spec fn chapter_at(buf: Seq<u8>, p: int) -> bool {
    1 <= p && p + 7 <= buf.len() && buf.subrange(p - 1, p + 7) == chapter_mark()
}

/// The places from `p` on where chapter headings start, in rising order.
pub open spec fn chapters(buf: Seq<u8>, p: int) -> Seq<usize>
    decreases buf.len() - p,
{
    if p < 1 || p + 7 > buf.len() {
        Seq::empty()
    } else if chapter_at(buf, p) {
        seq![p as usize] + chapters(buf, p + 1)
    } else {
        chapters(buf, p + 1)
    }
}

/// The places where chapter headings start, in rising order.
pub fn split_points(buf: &[u8]) -> (points: Vec<usize>)
    ensures
        points@ == chapters(buf@, 1),
        forall|i: int| 0 <= i < points@.len() ==> chapter_at(buf@, #[trigger] points@[i] as int),
        forall|i: int, j: int| 0 <= i < j < points@.len() ==> points@[i] < points@[j],
        forall|p: int| chapter_at(buf@, p) ==> points@.contains(p as usize),
{
    let mut points: Vec<usize> = Vec::new();
    let len = buf.len();
    let mut p: usize = 1;
    while p < len && len - p >= 7
        invariant
            1 <= p,
            len == buf@.len(),
            chapters(buf@, 1) == points@ + chapters(buf@, p as int),
            forall|i: int| 0 <= i < points@.len() ==> chapter_at(buf@, #[trigger] points@[i] as int),
            forall|i: int| 0 <= i < points@.len() ==> (#[trigger] points@[i]) < p,
            forall|i: int, j: int| 0 <= i < j < points@.len() ==> points@[i] < points@[j],
            forall|q: int| 1 <= q < p && chapter_at(buf@, q) ==> points@.contains(q as usize),
        decreases len - p,
    {
        let found = buf[p - 1] == 10 && buf[p] == 36 && buf[p + 1] == 40 && buf[p + 2] == 10 && buf[p
            + 3] == 35 && buf[p + 4] == 42 && buf[p + 5] == 35 && buf[p + 6] == 42;
        proof {
            let window = buf@.subrange(p - 1, p + 7);
            if found {
                assert(window =~= chapter_mark());
            } else {
                assert(window[0] == buf@[p - 1]);
                assert(window[1] == buf@[p as int]);
                assert(window[2] == buf@[p + 1]);
                assert(window[3] == buf@[p + 2]);
                assert(window[4] == buf@[p + 3]);
                assert(window[5] == buf@[p + 4]);
                assert(window[6] == buf@[p + 5]);
                assert(window[7] == buf@[p + 6]);
                assert(!chapter_at(buf@, p as int));
            }
        }
        if found {
            let ghost before = points@;
            points.push(p);
            proof {
                assert(before + (seq![p] + chapters(buf@, p + 1)) =~= points@ + chapters(
                    buf@,
                    p + 1,
                ));
                assert forall|q: int| 1 <= q < p + 1 && chapter_at(buf@, q) implies points@.contains(
                    q as usize,
                ) by {
                    if q < p {
                        let i = choose|i: int| 0 <= i < before.len() && before[i] == q as usize;
                        assert(points@[i] == q as usize);
                    } else {
                        assert(points@[points@.len() - 1] == p);
                    }
                }
            }
        }
        p += 1;
    }
    proof {
        assert(chapters(buf@, p as int) =~= Seq::<usize>::empty());
        assert(points@ + Seq::<usize>::empty() =~= points@);
    }
    points
}

/// The segments of a file that is read piece by piece: those of the piece
/// from `from` to the next of the `points`, from point `i` on, and behind
/// them those of the pieces that follow.
pub open spec fn pieces(buf: Seq<u8>, points: Seq<usize>, i: int, from: int) -> Seq<SegmentView>
    decreases points.len() - i,
{
    if i < 0 || i >= points.len() {
        piece(buf.subrange(from, buf.len() as int), from)
    } else {
        piece(buf.subrange(from, points[i] as int), from) + pieces(buf, points, i + 1, points[i] as int)
    }
}

/// Parses the text of one file piece by piece, a new piece starting with
/// each chapter heading. Each piece is parsed on its own; its segments come
/// behind those of the piece before.
pub fn parse_split(buf: &[u8]) -> (segments: Vec<Segment>)
    ensures
        segments@.len() > 0,
        forall|i: int| 0 <= i < segments@.len() ==> segment_wf(#[trigger] &segments@[i]),
        spans_within(&segments, 0, buf@.len() as int),
        segment_views(segments@) == pieces(buf@, chapters(buf@, 1), 0, 0),
{
    let points = split_points(buf);
    let len = buf.len();
    let count = points.len();
    let mut segments: Vec<Segment> = Vec::new();
    let mut from: usize = 0;
    let mut i: usize = 0;
    let mut done = false;
    proof {
        assert(segment_views(segments@) =~= Seq::<SegmentView>::empty());
    }
    while !done
        invariant
            count == points@.len(),
            points@ == chapters(buf@, 1),
            0 <= i <= points@.len(),
            done ==> segments@.len() > 0,
            len == buf@.len(),
            0 <= from <= len,
            forall|k: int| 0 <= k < points@.len() ==> chapter_at(buf@, #[trigger] points@[k] as int),
            forall|k: int, j: int| 0 <= k < j < points@.len() ==> points@[k] < points@[j],
            !done && i > 0 ==> from == points@[i - 1],
            !done && i == 0 ==> from == 0,
            forall|k: int| 0 <= k < segments@.len() ==> segment_wf(#[trigger] &segments@[k]),
            spans_within(&segments, 0, len as int),
            !done ==> pieces(buf@, points@, 0, 0) == segment_views(segments@) + pieces(
                buf@,
                points@,
                i as int,
                from as int,
            ),
            done ==> pieces(buf@, points@, 0, 0) == segment_views(segments@),
        decreases points@.len() - i + if done { 0int } else { 1int },
    {
        let to: usize = if i < points.len() {
            points[i]
        } else {
            len
        };
        proof {
            if i < points@.len() {
                assert(chapter_at(buf@, points@[i as int] as int));
                if i > 0 {
                    assert(points@[i - 1] < points@[i as int]);
                }
            }
        }
        let piece_text = vstd::slice::slice_subrange(buf, from, to);
        let mut parsed = reversed_segments(parse_piece(piece_text, from));
        let ghost total = segments@.len() + parsed@.len();
        let ghost before_views = segment_views(segments@);
        let ghost parsed_views = segment_views(parsed@.reverse());
        proof {
            assert(parsed@.reverse().reverse() =~= parsed@);
            assert(parsed_views == piece(buf@.subrange(from as int, to as int), from as int));
        }
        let ghost all_parsed = parsed@.reverse();
        while parsed.len() > 0
            invariant
                len == buf@.len(),
                forall|k: int| 0 <= k < segments@.len() ==> segment_wf(#[trigger] &segments@[k]),
                spans_within(&segments, 0, len as int),
                forall|k: int| 0 <= k < parsed@.len() ==> segment_wf(#[trigger] &parsed@[k]),
                spans_within(&parsed, 0, len as int),
                total == segments@.len() + parsed@.len(),
                total > 0,
                parsed@.len() <= all_parsed.len(),
                forall|k: int|
                    0 <= k < parsed@.len() ==> parsed@[k] == all_parsed[all_parsed.len() - 1 - k],
                segment_views(segments@) == before_views + segment_views(
                    all_parsed.subrange(0, all_parsed.len() - parsed@.len()),
                ),
            decreases parsed@.len(),
        {
            let ghost before = segments@;
            let ghost rest = parsed@;
            let segment = parsed.pop().unwrap();
            assert(segment == rest[rest.len() - 1]);
            segments.push(segment);
            proof {
                assert forall|a: int, b: int|
                    0 <= a < segments@.len() && 0 <= b < segments@[a].statements@.len() implies 0
                    <= (#[trigger] segments@[a].statements@[b]).start
                    <= segments@[a].statements@[b].end <= len by {
                    if a < before.len() {
                        assert(segments@[a] == before[a]);
                    } else {
                        assert(segments@[a] == rest[rest.len() - 1]);
                    }
                }
                assert forall|a: int, b: int|
                    0 <= a < parsed@.len() && 0 <= b < parsed@[a].statements@.len() implies 0 <= (
                #[trigger] parsed@[a].statements@[b]).start <= parsed@[a].statements@[b].end
                    <= len by {
                    assert(parsed@[a] == rest[a]);
                }
                let n = all_parsed.len() - rest.len();
                assert(segment == all_parsed[n]);
                assert(all_parsed.subrange(0, n + 1) =~= all_parsed.subrange(0, n).push(segment));
                assert(segment_views(all_parsed.subrange(0, n + 1)) =~= segment_views(
                    all_parsed.subrange(0, n),
                ).push(segment_view(&segment)));
                assert(segment_views(segments@) =~= segment_views(before).push(
                    segment_view(&segment),
                ));
                assert(segment_views(segments@) =~= before_views + segment_views(
                    all_parsed.subrange(0, n + 1),
                ));
            }
        }
        proof {
            assert(all_parsed.subrange(0, all_parsed.len() as int) =~= all_parsed);
            assert(segment_views(segments@) == before_views + parsed_views);
            if i < count {
                assert(pieces(buf@, points@, i as int, from as int) == parsed_views + pieces(
                    buf@,
                    points@,
                    i + 1,
                    to as int,
                ));
                assert(before_views + (parsed_views + pieces(buf@, points@, i + 1, to as int))
                    =~= (before_views + parsed_views) + pieces(buf@, points@, i + 1, to as int));
            } else {
                assert(pieces(buf@, points@, i as int, from as int) == parsed_views);
            }
        }
        from = to;
        if i < count {
            i += 1;
        } else {
            done = true;
        }
    }
    segments
}

/// The segments in reverse order.
fn reversed_segments(segments: Vec<Segment>) -> (r: Vec<Segment>)
    ensures
        r@ == segments@.reverse(),
{
    let mut segments = segments;
    let ghost all = segments@;
    let mut r: Vec<Segment> = Vec::new();
    while segments.len() > 0
        invariant
            segments@ == all.subrange(0, segments@.len() as int),
            segments@.len() <= all.len(),
            r@.len() == all.len() - segments@.len(),
            forall|i: int| 0 <= i < r@.len() ==> r@[i] == all[all.len() - 1 - i],
        decreases segments@.len(),
    {
        let x = segments.pop().unwrap();
        r.push(x);
    }
    assert(r@ =~= all.reverse());
    r
}

} // verus!
