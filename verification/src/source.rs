//! What the statements of a Metamath source text are: how the text falls
//! into tokens, the tokens into statements, and the statements of a file
//! into segments.

use crate::diag::Diagnostic;
use crate::parser::is_space;
use crate::parser::Segment;
use crate::parser::Statement;
use crate::parser::StatementType;
use crate::parser::Token;
use vstd::prelude::*;

verus! {

/// A statement, with its tokens as sequences of bytes.
pub ghost struct StatementView {
    pub stype: StatementType,
    pub label: Seq<u8>,
    pub math: Seq<Seq<u8>>,
    pub proof: Seq<Seq<u8>>,
    pub commands: Seq<Seq<Seq<u8>>>,
    pub start: int,
    pub end: int,
}

/// A segment, with its statements as views.
pub ghost struct SegmentView {
    pub statements: Seq<StatementView>,
    pub diagnostics: Seq<(usize, Diagnostic)>,
}

/// The tokens as sequences of bytes.
pub open spec fn words(tokens: &Vec<Token>) -> Seq<Seq<u8>> {
    Seq::new(tokens@.len(), |i: int| tokens@[i]@)
}

/// The commands as sequences of words.
pub open spec fn command_words(commands: &Vec<Vec<Token>>) -> Seq<Seq<Seq<u8>>> {
    Seq::new(commands@.len(), |i: int| words(&commands@[i]))
}

/// The view of a statement.
pub open spec fn statement_view(st: &Statement) -> StatementView {
    StatementView {
        stype: st.stype,
        label: st.label@,
        math: words(&st.math),
        proof: words(&st.proof),
        commands: command_words(&st.commands),
        start: st.start as int,
        end: st.end as int,
    }
}

/// The view of a segment.
pub open spec fn segment_view(segment: &Segment) -> SegmentView {
    SegmentView {
        statements: Seq::new(
            segment.statements@.len(),
            |k: int| statement_view(&segment.statements@[k]),
        ),
        diagnostics: segment.diagnostics@,
    }
}

/// The views of segments.
pub open spec fn segment_views(segments: Seq<Segment>) -> Seq<SegmentView> {
    Seq::new(segments.len(), |i: int| segment_view(&segments[i]))
}

/// The first position from `pos` on that holds no white space, or `end`.
pub open spec fn skip(buf: Seq<u8>, pos: int, end: int) -> int
    decreases end - pos,
{
    if 0 <= pos < end && pos < buf.len() && is_space(buf[pos]) {
        skip(buf, pos + 1, end)
    } else {
        pos
    }
}

/// The first position from `pos` on that holds white space, or `end`.
pub open spec fn word_end(buf: Seq<u8>, pos: int, end: int) -> int
    decreases end - pos,
{
    if 0 <= pos < end && pos < buf.len() && !is_space(buf[pos]) {
        word_end(buf, pos + 1, end)
    } else {
        pos
    }
}

/// The keyword that the token from `start` to `end` is: its second byte for
/// a `$` and one more byte, 1 for another token that starts with `$`, 0 for
/// any other token.
pub open spec fn keyword_of(buf: Seq<u8>, start: int, end: int) -> u8 {
    if buf[start] != 36 {
        0
    } else if end - start == 2 && buf[start + 1] > 1 {
        buf[start + 1]
    } else {
        1
    }
}

/// Whether the token from `start` to `end` begins with the four bytes.
pub open spec fn begins_with(buf: Seq<u8>, start: int, end: int, a: u8, b: u8, c: u8, d: u8) -> bool {
    end - start >= 4 && buf[start] == a && buf[start + 1] == b && buf[start + 2] == c && buf[start
        + 3] == d
}

/// The depth of the heading that a comment opens whose first word runs from
/// `start` to `end`: 1 for `####`, 2 for `#*#*`, 3 for `=-=-`, 4 for `-.-.`,
/// and 0 if it opens none.
pub open spec fn heading_level_of(buf: Seq<u8>, start: int, end: int) -> u8 {
    if begins_with(buf, start, end, 35, 35, 35, 35) {
        1
    } else if begins_with(buf, start, end, 35, 42, 35, 42) {
        2
    } else if begins_with(buf, start, end, 61, 45, 61, 45) {
        3
    } else if begins_with(buf, start, end, 45, 46, 45, 46) {
        4
    } else {
        0
    }
}

/// Where the comment ends whose text starts at `pos`: where its text ends,
/// where reading goes on behind its `$)`, and whether there is a `$)`.
pub open spec fn comment_close(buf: Seq<u8>, pos: int) -> (int, int, bool)
    decreases buf.len() - pos,
{
    let s = skip(buf, pos, buf.len() as int);
    if s >= buf.len() || s < pos {
        (buf.len() as int, buf.len() as int, false)
    } else {
        let e = word_end(buf, s, buf.len() as int);
        if keyword_of(buf, s, e) == 41 {
            (s, e, true)
        } else if pos < e <= buf.len() {
            comment_close(buf, e)
        } else {
            (buf.len() as int, buf.len() as int, false)
        }
    }
}

/// The words of the title of a heading: the words from `pos` up to the
/// first that begins like a heading, or up to `end`.
pub open spec fn title_words(buf: Seq<u8>, pos: int, end: int) -> Seq<Seq<u8>>
    decreases end - pos,
{
    let s = skip(buf, pos, end);
    if s >= end || s < pos {
        Seq::empty()
    } else {
        let e = word_end(buf, s, end);
        if heading_level_of(buf, s, e) != 0 || e <= pos || e > end {
            Seq::empty()
        } else {
            seq![buf.subrange(s, e)] + title_words(buf, e, end)
        }
    }
}

/// The first position from `pos` on that holds the byte `quote`, or `end`.
pub open spec fn quote_end(buf: Seq<u8>, pos: int, end: int, quote: u8) -> int
    decreases end - pos,
{
    if 0 <= pos < end && pos < buf.len() && buf[pos] != quote {
        quote_end(buf, pos + 1, end, quote)
    } else {
        pos
    }
}

/// The first position from `pos` on that holds white space or a semicolon,
/// or `end`.
pub open spec fn bare_end(buf: Seq<u8>, pos: int, end: int) -> int
    decreases end - pos,
{
    if 0 <= pos < end && pos < buf.len() && !is_space(buf[pos]) && buf[pos] != 59 {
        bare_end(buf, pos + 1, end)
    } else {
        pos
    }
}

/// The commands of the text from `pos` to `end`, behind the commands `done`
/// and the words `current` of the command that is being read: words, or
/// strings in single or double quotes, each command closed by a semicolon.
/// `None` when a string or the last command is not closed.
pub open spec fn commands_from(
    buf: Seq<u8>,
    pos: int,
    end: int,
    done: Seq<Seq<Seq<u8>>>,
    current: Seq<Seq<u8>>,
) -> Option<Seq<Seq<Seq<u8>>>>
    decreases end - pos,
{
    let s = skip(buf, pos, end);
    if s >= end || s < pos {
        if current.len() > 0 {
            None
        } else {
            Some(done)
        }
    } else if buf[s] == 59 {
        commands_from(buf, s + 1, end, done.push(current), Seq::empty())
    } else if buf[s] == 39 || buf[s] == 34 {
        let e = quote_end(buf, s + 1, end, buf[s]);
        if e >= end || e <= s {
            None
        } else {
            commands_from(buf, e + 1, end, done, current.push(buf.subrange(s + 1, e)))
        }
    } else {
        let e = bare_end(buf, s + 1, end);
        if e <= pos || e > end {
            None
        } else {
            commands_from(buf, e, end, done, current.push(buf.subrange(s, e)))
        }
    }
}

/// How a math string or a proof ends.
#[derive(Clone, Copy, PartialEq, Eq, Structural)]
pub enum Ending {
    /// With `$.`.
    Period,
    /// With `$=`.
    Proof,
    /// With another keyword, which is not part of it.
    Keyword,
    /// With the source.
    Source,
}

/// The tokens from `pos` up to `$.`, or up to `$=` where `until_proof`
/// allows it, behind the tokens `read`; comments are passed over. With the
/// tokens come the place where reading goes on and the way the string ends.
pub open spec fn tokens_from(buf: Seq<u8>, pos: int, until_proof: bool, read: Seq<Seq<u8>>) -> (
    Seq<Seq<u8>>,
    int,
    Ending,
)
    decreases buf.len() - pos,
{
    let len = buf.len() as int;
    let s = skip(buf, pos, len);
    if s >= len || s < pos {
        (read, len, Ending::Source)
    } else {
        let e = word_end(buf, s, len);
        let k = keyword_of(buf, s, e);
        if e <= pos || e > len {
            (read, len, Ending::Source)
        } else if k == 0 {
            tokens_from(buf, e, until_proof, read.push(buf.subrange(s, e)))
        } else if k == 46 {
            (read, e, Ending::Period)
        } else if k == 61 && until_proof {
            (read, e, Ending::Proof)
        } else if k == 40 {
            let c = comment_close(buf, e);
            if !c.2 || c.1 <= pos || c.1 > len {
                (read, len, Ending::Source)
            } else {
                tokens_from(buf, c.1, until_proof, read)
            }
        } else {
            (read, s, Ending::Keyword)
        }
    }
}

/// The kind of statement that keyword `k` opens, and whether it takes a
/// label.
pub open spec fn kind_of(k: u8) -> Option<(StatementType, bool)> {
    if k == 99 {
        Some((StatementType::Constant, false))
    } else if k == 118 {
        Some((StatementType::Variable, false))
    } else if k == 100 {
        Some((StatementType::Disjoint, false))
    } else if k == 102 {
        Some((StatementType::Floating, true))
    } else if k == 101 {
        Some((StatementType::Essential, true))
    } else if k == 97 {
        Some((StatementType::Axiom, true))
    } else if k == 112 {
        Some((StatementType::Provable, true))
    } else {
        None
    }
}

/// A statement of the kind given from `start` to `end`, with nothing else
/// to it.
pub open spec fn plain_view(stype: StatementType, start: int, end: int) -> StatementView {
    StatementView {
        stype,
        label: Seq::empty(),
        math: Seq::empty(),
        proof: Seq::empty(),
        commands: Seq::empty(),
        start,
        end,
    }
}

/// What is read at `pos`: a statement, or none for a comment that is no
/// statement; the diagnostic that it earns, if any; and where reading goes
/// on.
pub ghost struct Read {
    pub statement: Option<StatementView>,
    pub diagnostic: Option<Diagnostic>,
    pub next: int,
}

/// The statement that starts at `pos`, where a token starts: the token is a
/// keyword, or a label with the keyword behind it.
pub open spec fn statement_from(buf: Seq<u8>, pos: int) -> Read {
    let len = buf.len() as int;
    let first_end = word_end(buf, pos, len);
    let k = keyword_of(buf, pos, first_end);
    if k != 0 {
        keyword_statement(buf, pos, Seq::empty(), first_end, k)
    } else {
        let s = skip(buf, first_end, len);
        if s >= len {
            Read {
                statement: Some(plain_view(StatementType::Invalid, pos, len)),
                diagnostic: Some(Diagnostic::SpuriousLabel),
                next: len,
            }
        } else {
            let e = word_end(buf, s, len);
            let k2 = keyword_of(buf, s, e);
            if k2 == 0 {
                Read {
                    statement: Some(plain_view(StatementType::Invalid, pos, first_end)),
                    diagnostic: Some(Diagnostic::SpuriousLabel),
                    next: first_end,
                }
            } else {
                keyword_statement(buf, pos, buf.subrange(pos, first_end), e, k2)
            }
        }
    }
}

/// The diagnostic for a label before a statement that takes none.
pub open spec fn spurious(label: Seq<u8>) -> Option<Diagnostic> {
    if label.len() > 0 {
        Some(Diagnostic::SpuriousLabel)
    } else {
        None
    }
}

/// The statement that starts at `pos` with the label `label`, or with none
/// if `label` is empty, and whose keyword `key` ends at `key_end`.
pub open spec fn keyword_statement(buf: Seq<u8>, pos: int, label: Seq<u8>, key_end: int, key: u8) -> Read {
    if key == 40 {
        comment_statement(buf, pos, label, key_end)
    } else if key == 91 {
        include_statement(buf, pos, label, key_end)
    } else if key == 123 || key == 125 {
        Read {
            statement: Some(
                plain_view(
                    if key == 123 {
                        StatementType::OpenGroup
                    } else {
                        StatementType::CloseGroup
                    },
                    pos,
                    key_end,
                ),
            ),
            diagnostic: spurious(label),
            next: key_end,
        }
    } else {
        match kind_of(key) {
            None => Read {
                statement: Some(plain_view(StatementType::Invalid, pos, key_end)),
                diagnostic: Some(Diagnostic::UnknownKeyword),
                next: key_end,
            },
            Some(kind) => math_statement(buf, pos, label, key_end, kind),
        }
    }
}

/// A comment: a statement if it holds commands or opens a heading.
pub open spec fn comment_statement(buf: Seq<u8>, pos: int, label: Seq<u8>, key_end: int) -> Read {
    let len = buf.len() as int;
    let s = skip(buf, key_end, len);
    let c = comment_close(buf, key_end);
    if !c.2 {
        Read {
            statement: Some(plain_view(StatementType::Invalid, pos, len)),
            diagnostic: Some(Diagnostic::UnclosedComment),
            next: len,
        }
    } else if s >= c.0 {
        Read { statement: None, diagnostic: spurious(label), next: c.1 }
    } else {
        let e = word_end(buf, s, c.0);
        if e - s == 2 && buf[s] == 36 && buf[s + 1] == 106 {
            match commands_from(buf, e, c.0, Seq::empty(), Seq::empty()) {
                Some(commands) => Read {
                    statement: Some(
                        StatementView {
                            commands,
                            ..plain_view(StatementType::AdditionalInfoComment, pos, c.1)
                        },
                    ),
                    diagnostic: spurious(label),
                    next: c.1,
                },
                None => Read {
                    statement: Some(plain_view(StatementType::AdditionalInfoComment, pos, c.1)),
                    diagnostic: Some(Diagnostic::BadCommand),
                    next: c.1,
                },
            }
        } else if heading_level_of(buf, s, e) != 0 {
            Read {
                statement: Some(
                    StatementView {
                        math: title_words(buf, e, c.0),
                        ..plain_view(
                            StatementType::HeadingComment(heading_level_of(buf, s, e)),
                            pos,
                            c.1,
                        )
                    },
                ),
                diagnostic: spurious(label),
                next: c.1,
            }
        } else {
            Read { statement: None, diagnostic: spurious(label), next: c.1 }
        }
    }
}

/// An inclusion: `$[`, the name of a file, `$]`.
pub open spec fn include_statement(buf: Seq<u8>, pos: int, label: Seq<u8>, key_end: int) -> Read {
    let len = buf.len() as int;
    let r = tokens_from(buf, key_end, false, Seq::empty());
    let e = word_end(buf, r.1, len);
    let closed = r.2 == Ending::Keyword && keyword_of(buf, r.1, e) == 93;
    let p = if r.2 == Ending::Keyword {
        e
    } else {
        r.1
    };
    if closed && r.0.len() == 1 && label.len() == 0 {
        Read {
            statement: Some(
                StatementView { math: r.0, ..plain_view(StatementType::FileInclude, pos, p) },
            ),
            diagnostic: None,
            next: p,
        }
    } else {
        let q = if p > key_end {
            p
        } else {
            key_end
        };
        Read {
            statement: Some(plain_view(StatementType::Invalid, pos, q)),
            diagnostic: Some(Diagnostic::UnclosedInclude),
            next: q,
        }
    }
}

/// A statement with a math string: its tokens up to `$.`, and for a `$p`
/// the tokens of its proof behind `$=`.
pub open spec fn math_statement(
    buf: Seq<u8>,
    pos: int,
    label: Seq<u8>,
    key_end: int,
    kind: (StatementType, bool),
) -> Read {
    let provable = kind.0 == StatementType::Provable;
    let m = tokens_from(buf, key_end, provable, Seq::empty());
    let q = tokens_from(buf, m.1, false, Seq::empty());
    let proved = m.2 == Ending::Proof;
    let p = if proved {
        q.1
    } else {
        m.1
    };
    let ending = if proved {
        q.2
    } else {
        m.2
    };
    let first = if kind.1 && label.len() == 0 {
        Some(Diagnostic::MissingLabel)
    } else if !kind.1 && label.len() > 0 {
        Some(Diagnostic::SpuriousLabel)
    } else {
        None
    };
    let second = if kind.1 && m.0.len() == 0 && first is None {
        Some(Diagnostic::EmptyMathString)
    } else {
        first
    };
    let third = if !proved && provable && m.2 == Ending::Period && second is None {
        Some(Diagnostic::MissingProof)
    } else {
        second
    };
    let last = if ending == Ending::Keyword || ending == Ending::Proof {
        Some(Diagnostic::UnknownKeyword)
    } else if ending == Ending::Source {
        Some(Diagnostic::UnclosedMath)
    } else {
        third
    };
    let end = if p > key_end {
        p
    } else {
        key_end
    };
    Read {
        statement: Some(
            StatementView {
                stype: kind.0,
                label,
                math: m.0,
                proof: if proved {
                    q.0
                } else {
                    Seq::empty()
                },
                commands: Seq::empty(),
                start: pos,
                end,
            },
        ),
        diagnostic: last,
        next: end,
    }
}

/// What has been read of a piece: the segments that are closed, and the
/// statements and the diagnostics of the segment that is open, with the
/// number of its groups that are open.
pub ghost struct Progress {
    pub segments: Seq<SegmentView>,
    pub statements: Seq<StatementView>,
    pub diagnostics: Seq<(usize, Diagnostic)>,
    pub depth: usize,
}

/// The statement with its place in the file: the piece starts at `base`.
pub open spec fn moved(st: StatementView, base: int) -> StatementView {
    StatementView { start: base + st.start, end: base + st.end, ..st }
}

/// What has been read once the statement `st` has been, which earns the
/// diagnostic `diagnostic`, if any: the statement goes to the open segment;
/// a group that opens or closes changes the number of open groups; a `$}`
/// that closes nothing and an `$e` outside any group earn a diagnostic; an
/// inclusion closes the segment, and with it every group that is open, at
/// the price of a diagnostic.
pub open spec fn with_statement(
    g: Progress,
    st: StatementView,
    diagnostic: Option<Diagnostic>,
) -> Progress {
    let index = g.statements.len() as usize;
    let statements = g.statements.push(st);
    let noted = match diagnostic {
        Some(d) => g.diagnostics.push((index, d)),
        None => if st.stype == StatementType::CloseGroup && g.depth == 0 {
            g.diagnostics.push((index, Diagnostic::UnmatchedCloseGroup))
        } else if st.stype == StatementType::Essential && g.depth == 0 {
            g.diagnostics.push((index, Diagnostic::EssentialAtTopLevel))
        } else {
            g.diagnostics
        },
    };
    let depth: usize = if diagnostic is Some {
        g.depth
    } else if st.stype == StatementType::OpenGroup && g.depth < usize::MAX {
        (g.depth + 1) as usize
    } else if st.stype == StatementType::CloseGroup && g.depth > 0 {
        (g.depth - 1) as usize
    } else {
        g.depth
    };
    if st.stype == StatementType::FileInclude {
        Progress {
            segments: g.segments.push(
                SegmentView {
                    statements,
                    diagnostics: if depth > 0 {
                        noted.push((index, Diagnostic::UnclosedGroup))
                    } else {
                        noted
                    },
                },
            ),
            statements: Seq::empty(),
            diagnostics: Seq::empty(),
            depth: 0,
        }
    } else {
        Progress { segments: g.segments, statements, diagnostics: noted, depth }
    }
}

/// The segments of a piece once its end has been reached: the open segment
/// is closed with the end of the file, and with a diagnostic if a group is
/// open.
pub open spec fn finished(g: Progress, base: int, len: int) -> Seq<SegmentView> {
    let index = g.statements.len() as usize;
    g.segments.push(
        SegmentView {
            statements: g.statements.push(plain_view(StatementType::Eof, base + len, base + len)),
            diagnostics: if g.depth > 0 {
                g.diagnostics.push((index, Diagnostic::UnclosedGroup))
            } else {
                g.diagnostics
            },
        },
    )
}

/// The segments of the piece `buf`, which starts at `base` in its file,
/// when `g` has been read of it up to `pos`.
pub open spec fn piece_from(buf: Seq<u8>, base: int, pos: int, g: Progress) -> Seq<SegmentView>
    decreases buf.len() - pos,
{
    let len = buf.len() as int;
    let s = skip(buf, pos, len);
    if s >= len || s < pos {
        finished(g, base, len)
    } else {
        let r = statement_from(buf, s);
        if r.next <= pos || r.next > len {
            finished(g, base, len)
        } else {
            piece_from(
                buf,
                base,
                r.next,
                match r.statement {
                    Some(st) => with_statement(g, moved(st, base), r.diagnostic),
                    None => g,
                },
            )
        }
    }
}

/// The segments of the piece `buf`, which starts at `base` in its file.
pub open spec fn piece(buf: Seq<u8>, base: int) -> Seq<SegmentView> {
    piece_from(
        buf,
        base,
        0,
        Progress {
            segments: Seq::empty(),
            statements: Seq::empty(),
            diagnostics: Seq::empty(),
            depth: 0,
        },
    )
}

} // verus!
