//! The problems that the passes report. A diagnostic is a value attached to
//! the address of a statement; it never interrupts a pass.

use crate::parser::StatementAddress;
use vstd::prelude::*;

verus! {

/// The pass that a diagnostic comes from.
#[derive(Clone, Copy, Debug, PartialEq, Eq, Structural)]
pub enum DiagnosticClass {
    /// Reading and splitting the source.
    Parse,
    /// Names and scopes.
    Scope,
    /// Proofs.
    Verify,
    /// Building the grammar.
    Grammar,
    /// Parsing statements as formulas.
    StmtParse,
}

/// One problem found in the source. A number is the position of the
/// offending token in the math string or proof of the statement.
#[derive(Clone, Copy, Debug, PartialEq, Eq, Structural)]
pub enum Diagnostic {
    /// A comment that no `$)` closes.
    UnclosedComment,
    /// The source ends inside a statement.
    UnclosedMath,
    /// The source ends inside an inclusion.
    UnclosedInclude,
    /// A `$f`, `$e`, `$a` or `$p` without a label.
    MissingLabel,
    /// A label before a statement that takes none.
    SpuriousLabel,
    /// A `$` token that is no keyword, or one out of place.
    UnknownKeyword,
    /// A labelled statement without a math string.
    EmptyMathString,
    /// A `$p` without `$=`.
    MissingProof,
    /// A `$}` that closes nothing.
    UnmatchedCloseGroup,
    /// A `${` that nothing closes before its segment ends.
    UnclosedGroup,
    /// A `$e` outside any group.
    EssentialAtTopLevel,
    /// An additional-information comment whose commands cannot be read.
    BadCommand,
    /// An included file that is not among the buffers given.
    IncludeNotFound,
    /// A label already given to the statement at the address.
    DuplicateLabel(StatementAddress),
    /// A symbol already declared by the statement at the address.
    SymbolRedeclared(usize, StatementAddress),
    /// A symbol that no `$c` or `$v` declares.
    UndeclaredSymbol(usize),
    /// A math string whose first symbol is not a constant.
    TypecodeNotConstant,
    /// A `$f` that is not a typecode followed by one symbol.
    BadFloating,
    /// A `$f` for a symbol that is no variable.
    FloatNotVariable(usize),
    /// A variable for which no `$f` gives a typecode.
    VariableMissingFloat(usize),
    /// A variable that a second `$f` types.
    FloatRedeclared(StatementAddress),
    /// A proof step that names no hypothesis or assertion before it.
    StepMissing(usize),
    /// A proof step that finds too few entries on the stack.
    ProofUnderflow(usize),
    /// A proof step whose hypothesis does not match the stack.
    StepHypothesisMismatch(usize),
    /// A proof step that breaks a distinct-variable condition.
    ProofDvViolation(usize),
    /// A proof that leaves no entry, or more than one.
    ProofExcessEnd,
    /// A proof whose result is not the statement.
    ProofWrongResult,
    /// A proof with an unknown step `?`.
    ProofIncomplete,
    /// A compressed proof that cannot be decoded.
    ProofMalformedCompressed(usize),
    /// A syntax axiom with the math string of the axiom at the address.
    GrammarAmbiguous(StatementAddress),
    /// A syntax axiom with more variables than a node can hold.
    GrammarTooManyVariables,
    /// A statement that the grammar does not derive.
    UnparseableStatement,
}

} // verus!

verus! {

/// A diagnostic with the place in the source that it is about.
pub struct Notation {
    /// The name of the file.
    pub file: Vec<u8>,
    /// Where the statement starts in the file.
    pub start: usize,
    /// Where the statement ends in the file.
    pub end: usize,
    /// The statement.
    pub address: StatementAddress,
    /// The problem.
    pub diagnostic: Diagnostic,
    /// The problem in words.
    pub message: &'static str,
}

/// The diagnostic in words.
pub open spec fn message_of(diagnostic: Diagnostic) -> &'static str {
    match diagnostic {
        Diagnostic::UnclosedComment => "comment is not closed",
        Diagnostic::UnclosedMath => "statement is not closed",
        Diagnostic::UnclosedInclude => "malformed file inclusion",
        Diagnostic::MissingLabel => "statement needs a label",
        Diagnostic::SpuriousLabel => "label before a statement that takes none",
        Diagnostic::UnknownKeyword => "unknown or misplaced keyword",
        Diagnostic::EmptyMathString => "math string is empty",
        Diagnostic::MissingProof => "provable statement has no proof",
        Diagnostic::UnmatchedCloseGroup => "nothing to close",
        Diagnostic::UnclosedGroup => "group is not closed",
        Diagnostic::EssentialAtTopLevel => "essential hypothesis outside any group",
        Diagnostic::BadCommand => "malformed command",
        Diagnostic::IncludeNotFound => "included file was not found",
        Diagnostic::DuplicateLabel(_) => "label is already in use",
        Diagnostic::SymbolRedeclared(_, _) => "symbol is already declared",
        Diagnostic::UndeclaredSymbol(_) => "symbol is not declared",
        Diagnostic::TypecodeNotConstant => "typecode is not a constant",
        Diagnostic::BadFloating => "floating hypothesis needs a typecode and a variable",
        Diagnostic::FloatNotVariable(_) => "floating hypothesis for a symbol that is no variable",
        Diagnostic::VariableMissingFloat(_) => "variable has no floating hypothesis",
        Diagnostic::FloatRedeclared(_) => "variable has a floating hypothesis already",
        Diagnostic::StepMissing(_) => "proof step names nothing that can be used",
        Diagnostic::ProofUnderflow(_) => "proof step finds too little on the stack",
        Diagnostic::StepHypothesisMismatch(_) => "hypothesis does not match the stack",
        Diagnostic::ProofDvViolation(_) => "distinct-variable condition is broken",
        Diagnostic::ProofExcessEnd => "proof does not leave exactly one statement",
        Diagnostic::ProofWrongResult => "proof does not prove the statement",
        Diagnostic::ProofIncomplete => "proof is incomplete",
        Diagnostic::ProofMalformedCompressed(_) => "compressed proof cannot be decoded",
        Diagnostic::GrammarAmbiguous(_) => "syntax axiom repeats another",
        Diagnostic::GrammarTooManyVariables => "syntax axiom has too many variables",
        Diagnostic::UnparseableStatement => "statement cannot be parsed",
    }
}

/// The diagnostic in words.
pub fn message(diagnostic: Diagnostic) -> (text: &'static str)
    ensures
        text == message_of(diagnostic),
{
    match diagnostic {
        Diagnostic::UnclosedComment => "comment is not closed",
        Diagnostic::UnclosedMath => "statement is not closed",
        Diagnostic::UnclosedInclude => "malformed file inclusion",
        Diagnostic::MissingLabel => "statement needs a label",
        Diagnostic::SpuriousLabel => "label before a statement that takes none",
        Diagnostic::UnknownKeyword => "unknown or misplaced keyword",
        Diagnostic::EmptyMathString => "math string is empty",
        Diagnostic::MissingProof => "provable statement has no proof",
        Diagnostic::UnmatchedCloseGroup => "nothing to close",
        Diagnostic::UnclosedGroup => "group is not closed",
        Diagnostic::EssentialAtTopLevel => "essential hypothesis outside any group",
        Diagnostic::BadCommand => "malformed command",
        Diagnostic::IncludeNotFound => "included file was not found",
        Diagnostic::DuplicateLabel(_) => "label is already in use",
        Diagnostic::SymbolRedeclared(_, _) => "symbol is already declared",
        Diagnostic::UndeclaredSymbol(_) => "symbol is not declared",
        Diagnostic::TypecodeNotConstant => "typecode is not a constant",
        Diagnostic::BadFloating => "floating hypothesis needs a typecode and a variable",
        Diagnostic::FloatNotVariable(_) => "floating hypothesis for a symbol that is no variable",
        Diagnostic::VariableMissingFloat(_) => "variable has no floating hypothesis",
        Diagnostic::FloatRedeclared(_) => "variable has a floating hypothesis already",
        Diagnostic::StepMissing(_) => "proof step names nothing that can be used",
        Diagnostic::ProofUnderflow(_) => "proof step finds too little on the stack",
        Diagnostic::StepHypothesisMismatch(_) => "hypothesis does not match the stack",
        Diagnostic::ProofDvViolation(_) => "distinct-variable condition is broken",
        Diagnostic::ProofExcessEnd => "proof does not leave exactly one statement",
        Diagnostic::ProofWrongResult => "proof does not prove the statement",
        Diagnostic::ProofIncomplete => "proof is incomplete",
        Diagnostic::ProofMalformedCompressed(_) => "compressed proof cannot be decoded",
        Diagnostic::GrammarAmbiguous(_) => "syntax axiom repeats another",
        Diagnostic::GrammarTooManyVariables => "syntax axiom has too many variables",
        Diagnostic::UnparseableStatement => "statement cannot be parsed",
    }
}

} // verus!

verus! {

/// What a notation for `diagnostic` at `address` has to say: the file of
/// the statement and where the statement stands in it, if the database has
/// the statement.
pub open spec fn annotates(
    notation: &Notation,
    sset: &crate::segment_set::SegmentSet,
    address: StatementAddress,
    diagnostic: Diagnostic,
) -> bool {
    &&& notation.address == address
    &&& notation.diagnostic == diagnostic
    &&& notation.message == message_of(diagnostic)
    &&& match sset.statement_at(address) {
        Some(st) => notation.start == st.start && notation.end == st.end && exists|i: int|
            sset.holds(i, address) && notation.file@ == (#[trigger] sset.entries()[i]).file@,
        None => notation.start == 0 && notation.end == 0 && notation.file@.len() == 0,
    }
}

/// Puts each diagnostic together with the place of its statement in the
/// source and with its message.
pub fn to_annotations(
    sset: &crate::segment_set::SegmentSet,
    diagnostics: Vec<(StatementAddress, Diagnostic)>,
) -> (r: Vec<Notation>)
    requires
        sset.wf(),
    ensures
        r@.len() == diagnostics@.len(),
        forall|i: int|
            0 <= i < r@.len() ==> annotates(
                #[trigger] &r@[i],
                sset,
                diagnostics@[i].0,
                diagnostics@[i].1,
            ),
{
    let mut r: Vec<Notation> = Vec::new();
    let mut i: usize = 0;
    while i < diagnostics.len()
        invariant
            sset.wf(),
            0 <= i <= diagnostics@.len(),
            r@.len() == i,
            forall|k: int|
                0 <= k < i ==> annotates(
                    #[trigger] &r@[k],
                    sset,
                    diagnostics@[k].0,
                    diagnostics@[k].1,
                ),
        decreases diagnostics@.len() - i,
    {
        let address = diagnostics[i].0;
        let diagnostic = diagnostics[i].1;
        let mut file: Vec<u8> = Vec::new();
        let mut start: usize = 0;
        let mut end: usize = 0;
        match sset.statement(address) {
            Some(sref) => {
                start = sref.statement.start;
                end = sref.statement.end;
                match sset.segment_index(address.segment_id) {
                    Some(s) => {
                        let name = &sset.segments()[s].file;
                        file = crate::parser::copy_range(name.as_slice(), 0, name.len());
                        proof {
                            assert(name@.subrange(0, name@.len() as int) =~= name@);
                            sset.lemma_statement_at_entry(s as int, address);
                        }
                    },
                    None => {
                        proof {
                            let i = choose|i: int| sset.holds(i, address);
                            assert(sset.holds(i, address));
                        }
                    },
                }
            },
            None => {},
        }
        r.push(Notation { file, start, end, address, diagnostic, message: message(diagnostic) });
        i += 1;
    }
    r
}

} // verus!
