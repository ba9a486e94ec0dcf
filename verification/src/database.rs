//! The database: the segments of the source and the results of the analysis
//! passes, each computed when it is first asked for and kept until the
//! source is read again.

use crate::diag::to_annotations;
use crate::diag::Diagnostic;
use crate::diag::DiagnosticClass;
use crate::diag::Notation;
use crate::formula::Label;
use crate::grammar::parse_statements;
use crate::grammar::problems;
use crate::rules::typecodes_of;
use crate::rules::with_segments;
use crate::grammar::Grammar;
use crate::grammar::StmtParse;
use crate::nameck::Nameset;
use crate::names::names_of;
use crate::outline::build_outline;
use crate::outline::heading_comments;
use crate::outline::nested;
use crate::outline::node_headings;
use crate::outline::OutlineNode;
use crate::parser::SegmentId;
use crate::parser::StatementAddress;
use crate::pass_cache::ensured;
use crate::pass_cache::parsed;
use crate::pass_cache::requested;
use crate::pass_cache::CacheView;
use crate::pass_cache::Pass;
use crate::proofs::proof_problems;
use crate::scopeck::scope_check;
use crate::scopeck::ScopeResult;
use crate::scopes::scoped_segments;
use crate::segment_set::files_of;
use crate::segment_set::files_wf;
use crate::segment_set::keeps_order;
use crate::segment_set::name_bytes;
use crate::segment_set::parse_files;
use crate::segment_set::kept_ids;
use crate::segment_set::left_ids;
use crate::segment_set::spliced;
use crate::segment_set::wanted_len;
use crate::segment_set::ParsedFile;
use crate::segment_set::SegmentEntry;
use crate::segment_order::SegmentOrder;
use crate::segment_set::SegmentSet;
use crate::segment_set::StatementRef;
use crate::syntax::syntax_of;
use crate::verify::verify;
use crate::verify::VerifyResult;
use std::sync::Arc;
use vstd::prelude::*;
use vstd::string::StringSliceAdditionalSpecFns;

verus! {

/// The options of a database, which stay as they are for as long as the
/// database lives.
#[derive(Copy, Clone, Debug)]
pub struct DbOptions {
    /// Whether large files are split into pieces at their chapter headings.
    pub autosplit: bool,
    /// Whether the time of each pass is reported.
    pub timing: bool,
    /// Whether the segments that a pass computes anew are reported.
    pub trace_recalc: bool,
    /// Whether what each segment uses is recorded, for later reuse.
    pub incremental: bool,
    /// The number of jobs that may run at the same time.
    pub jobs: usize,
}

impl Default for DbOptions {
    fn default() -> (r: Self)
        ensures
            r == (DbOptions {
                autosplit: false,
                timing: false,
                trace_recalc: false,
                incremental: false,
                jobs: 1,
            }),
    {
        DbOptions { autosplit: false, timing: false, trace_recalc: false, incremental: false, jobs: 1 }
    }
}

/// Takes the value out of the pointer if no other pointer shares it;
/// otherwise gives the pointer back.
///
/// This is `Arc::try_unwrap`, of which it is believed that the value that
/// comes out is the value that the pointer held, and that the pointer that
/// comes back is the pointer that went in.
#[verifier::external_body]
fn unshare<T>(shared: Arc<T>) -> (r: Result<T, Arc<T>>)
    ensures
        match r {
            Ok(value) => value == *shared,
            Err(same) => same == shared,
        },
{
    Arc::try_unwrap(shared)
}

/// A database: the segments of the source, and for each pass its result, if
/// it is up to date, and the result that it had last.
pub struct Database {
    // A value is dropped field by field in this order: what rests on other
    // results goes before them.
    stmt_parse: Option<Arc<StmtParse>>,
    grammar: Option<Arc<Grammar>>,
    prev_verify: Option<Arc<VerifyResult>>,
    verify: Option<Arc<VerifyResult>>,
    prev_scopes: Option<Arc<ScopeResult>>,
    scopes: Option<Arc<ScopeResult>>,
    prev_nameset: Option<Arc<Nameset>>,
    nameset: Option<Arc<Nameset>>,
    outline: Option<Arc<OutlineNode>>,
    segments: Arc<SegmentSet>,
    options: DbOptions,
    computed: Ghost<Seq<Pass>>,
    seeded: Ghost<Seq<Seq<u8>>>,
}

impl Default for Database {
    fn default() -> (db: Self)
        ensures
            db.wf(),
            db.options() == (DbOptions {
                autosplit: false,
                timing: false,
                trace_recalc: false,
                incremental: false,
                jobs: 1,
            }),
            db.segment_set().entries().len() == 0,
            db.segment_set().order() == seq![SegmentOrder::start_id()],
            db.segment_set().freed() == Seq::<SegmentId>::empty(),
            db.segment_set().high_water() == 2,
            db.cache() == (CacheView { current: Set::empty(), computed: Seq::empty() }),
            db.nothing_current(),
            db.previous_names() is None,
            db.previous_frames() is None,
            db.previous_verified() is None,
    {
        Database::new(DbOptions::default())
    }
}

impl Database {
    /// The segments.
    pub closed spec fn segment_set(&self) -> SegmentSet {
        *self.segments
    }

    /// The names, if they are up to date.
    pub closed spec fn names(&self) -> Option<Nameset> {
        match self.nameset {
            Some(n) => Some(*n),
            None => None,
        }
    }

    /// The names as they were last found.
    pub closed spec fn previous_names(&self) -> Option<Nameset> {
        match self.prev_nameset {
            Some(n) => Some(*n),
            None => None,
        }
    }

    /// The frames as they were last found.
    pub closed spec fn previous_frames(&self) -> Option<ScopeResult> {
        match self.prev_scopes {
            Some(s) => Some(*s),
            None => None,
        }
    }

    /// The result of the proof check as it was last found.
    pub closed spec fn previous_verified(&self) -> Option<VerifyResult> {
        match self.prev_verify {
            Some(v) => Some(*v),
            None => None,
        }
    }

    /// No result is up to date.
    pub open spec fn nothing_current(&self) -> bool {
        &&& self.names() is None
        &&& self.frames() is None
        &&& self.verified() is None
        &&& self.outlined() is None
        &&& self.grammar() is None
        &&& self.formulas() is None
    }

    /// The results that were found last are those of `before`, but for the
    /// passes that were not up to date in `before` and are here: of those
    /// the result found last is the result that is up to date.
    pub open spec fn follows_previous(&self, before: &Database) -> bool {
        &&& self.previous_names() == if before.names() is None && self.names() is Some {
            self.names()
        } else {
            before.previous_names()
        }
        &&& self.previous_frames() == if before.frames() is None && self.frames() is Some {
            self.frames()
        } else {
            before.previous_frames()
        }
        &&& self.previous_verified() == if before.verified() is None && self.verified() is Some {
            self.verified()
        } else {
            before.previous_verified()
        }
    }

    /// The names that the atoms had before the names were last found.
    pub closed spec fn seed_names(&self) -> Seq<Seq<u8>> {
        self.seeded@
    }

    /// The frames, if they are up to date.
    pub closed spec fn frames(&self) -> Option<ScopeResult> {
        match self.scopes {
            Some(s) => Some(*s),
            None => None,
        }
    }

    /// The result of the proof check, if it is up to date.
    pub closed spec fn verified(&self) -> Option<VerifyResult> {
        match self.verify {
            Some(v) => Some(*v),
            None => None,
        }
    }

    /// The outline, if it is up to date.
    pub closed spec fn outlined(&self) -> Option<OutlineNode> {
        match self.outline {
            Some(o) => Some(*o),
            None => None,
        }
    }

    /// The grammar, if it is up to date.
    pub closed spec fn grammar(&self) -> Option<Grammar> {
        match self.grammar {
            Some(g) => Some(*g),
            None => None,
        }
    }

    /// The formulas of the statements, if they are up to date.
    pub closed spec fn formulas(&self) -> Option<StmtParse> {
        match self.stmt_parse {
            Some(s) => Some(*s),
            None => None,
        }
    }

    /// The options that the database was made with.
    pub closed spec fn options(&self) -> DbOptions {
        self.options
    }

    /// The state of the pass cache.
    pub closed spec fn cache(&self) -> CacheView {
        CacheView {
            current: Set::new(
                |p: Pass|
                    match p {
                        Pass::Name => self.nameset is Some,
                        Pass::Scope => self.scopes is Some,
                        Pass::Verify => self.verify is Some,
                        Pass::Outline => self.outline is Some,
                        Pass::Grammar => self.grammar is Some,
                        Pass::StmtParse => self.stmt_parse is Some,
                    },
            ),
            computed: self.computed@,
        }
    }

    /// The invariant of the database: every result that is up to date
    /// belongs to the segments and to the results that it was computed
    /// from, which are up to date as well.
    pub closed spec fn wf(&self) -> bool {
        &&& self.segments.wf()
        &&& self.segments.splits() == self.options.autosplit
        &&& self.prev_nameset matches Some(n) ==> n.wf()
        &&& self.nameset matches Some(n) ==> n.wf() && n@ == names_of(self.seeded@, &*self.segments)
            && n.names_in(&*self.segments) && (n.atom_count() < u32::MAX ==> n.declared_upto(
            &*self.segments,
            self.segments.entries().len() as int,
            0,
        ))
        &&& self.scopes matches Some(s) ==> s.wf() && self.nameset is Some && s@ == scoped_segments(
            &*self.segments,
            &*self.nameset->0,
            self.segments.entries().len() as int,
        ).result
        &&& self.verify matches Some(v) ==> self.scopes is Some && v.found() == proof_problems(
            &*self.segments,
            &*self.nameset->0,
            self.scopes->0@.frames,
            self.scopes->0@.frames.len() as int,
        )
        &&& self.outline matches Some(o) ==> nested(*o) && node_headings(*o) == heading_comments(
            &*self.segments,
            self.segments.entries().len() as int,
        )
        &&& self.grammar matches Some(g) ==> self.scopes is Some && g.wf() && g.syntax()
            == syntax_of(&*self.segments, &*self.nameset->0) && built_from(
            &*g,
            &*self.segments,
            &*self.nameset->0,
        )
        &&& self.stmt_parse matches Some(s) ==> self.grammar is Some && s.wf() && s.round_trips(
            &*self.segments,
            &*self.nameset->0,
        ) && s.parses(&*self.segments, &*self.nameset->0, &*self.grammar->0) && s.found()
            == problems(
            &*self.segments,
            &*self.nameset->0,
            &*self.grammar->0,
            self.segments.entries().len() as int,
        )
    }

    /// Every result that was up to date in `before` is the same here.
    pub open spec fn keeps_results(&self, before: &Database) -> bool {
        &&& before.names() is Some ==> self.names() == before.names()
        &&& before.frames() is Some ==> self.frames() == before.frames()
        &&& before.verified() is Some ==> self.verified() == before.verified()
        &&& before.outlined() is Some ==> self.outlined() == before.outlined()
        &&& before.grammar() is Some ==> self.grammar() == before.grammar()
        &&& before.formulas() is Some ==> self.formulas() == before.formulas()
    }

    /// What `wf` says of the results that are up to date.
    pub proof fn lemma_wf(&self)
        requires
            self.wf(),
        ensures
            self.segment_set().wf(),
            self.segment_set().splits() == self.options().autosplit,
            self.names() matches Some(n) ==> n.wf() && n@ == names_of(
                self.seed_names(),
                &self.segment_set(),
            ) && n.names_in(&self.segment_set()) && (n.atom_count() < u32::MAX ==> n.declared_upto(
                &self.segment_set(),
                self.segment_set().entries().len() as int,
                0,
            )),
            self.frames() matches Some(s) ==> s.wf() && self.names() is Some && s@
                == scoped_segments(
                &self.segment_set(),
                &self.names()->0,
                self.segment_set().entries().len() as int,
            ).result,
            self.verified() matches Some(v) ==> self.frames() is Some && v.found()
                == proof_problems(
                &self.segment_set(),
                &self.names()->0,
                self.frames()->0@.frames,
                self.frames()->0@.frames.len() as int,
            ),
            self.outlined() matches Some(o) ==> nested(o) && node_headings(o) == heading_comments(
                &self.segment_set(),
                self.segment_set().entries().len() as int,
            ),
            self.grammar() matches Some(g) ==> self.frames() is Some && g.wf() && g.syntax()
                == syntax_of(&self.segment_set(), &self.names()->0) && built_from(
                &g,
                &self.segment_set(),
                &self.names()->0,
            ),
            self.formulas() matches Some(s) ==> self.grammar() is Some && s.wf() && s.round_trips(
                &self.segment_set(),
                &self.names()->0,
            ) && s.parses(&self.segment_set(), &self.names()->0, &self.grammar()->0) && s.found()
                == problems(
                &self.segment_set(),
                &self.names()->0,
                &self.grammar()->0,
                self.segment_set().entries().len() as int,
            ),
            self.cache().current.contains(Pass::Name) == (self.names() is Some),
            self.cache().current.contains(Pass::Scope) == (self.frames() is Some),
            self.cache().current.contains(Pass::Verify) == (self.verified() is Some),
            self.cache().current.contains(Pass::Outline) == (self.outlined() is Some),
            self.cache().current.contains(Pass::Grammar) == (self.grammar() is Some),
            self.cache().current.contains(Pass::StmtParse) == (self.formulas() is Some),
    {
    }

    /// A database without segments, of which nothing has been computed.
    pub fn new(options: DbOptions) -> (db: Database)
        ensures
            db.wf(),
            db.options() == options,
            db.segment_set().entries().len() == 0,
            db.segment_set().order() == seq![SegmentOrder::start_id()],
            db.segment_set().freed() == Seq::<SegmentId>::empty(),
            db.segment_set().high_water() == 2,
            db.cache() == (CacheView { current: Set::empty(), computed: Seq::empty() }),
            db.nothing_current(),
            db.previous_names() is None,
            db.previous_frames() is None,
            db.previous_verified() is None,
    {
        let db = Database {
            options,
            segments: Arc::new(SegmentSet::with_autosplit(options.autosplit)),
            prev_nameset: None,
            nameset: None,
            prev_scopes: None,
            scopes: None,
            prev_verify: None,
            verify: None,
            outline: None,
            grammar: None,
            stmt_parse: None,
            computed: Ghost(Seq::empty()),
            seeded: Ghost(Seq::empty()),
        };
        assert(db.cache().current =~= Set::<Pass>::empty());
        db
    }

    /// The options that the database was made with.
    pub fn get_options(&self) -> (r: DbOptions)
        ensures
            r == self.options(),
    {
        self.options
    }

    /// Replaces the content of the database by what the file `start` and
    /// the files that it includes hold; `text` gives the content of each
    /// file under its name. The segments of an included file come behind
    /// the segment that ends with its inclusion, where it is included
    /// first. No result is up to date afterwards; the last results stay,
    /// for the passes to start from.
    ///
    /// A segment keeps the identifier of the segment of its origin that
    /// was there, as long as the segments come in the order in which they
    /// were. Any other segment gets the identifier that was freed last, or
    /// the one with the next number. Identifiers that stay live keep their
    /// order.
    pub fn parse(&mut self, start: String, text: Vec<(String, Vec<u8>)>)
        requires
            old(self).wf(),
        ensures
            final(self).wf(),
            final(self).options() == old(self).options(),
            final(self).cache() == parsed(old(self).cache()),
            final(self).nothing_current(),
            final(self).previous_names() == old(self).previous_names(),
            final(self).previous_frames() == old(self).previous_frames(),
            final(self).previous_verified() == old(self).previous_verified(),
            keeps_order(old(self).segment_set().order(), final(self).segment_set().order()),
            kept_ids(&old(self).segment_set(), &final(self).segment_set()),
            left_ids(&old(self).segment_set(), &final(self).segment_set()),
            exists|files: Seq<ParsedFile>|
                #![trigger files_wf(files)]
                {
                    &&& files_wf(files)
                    &&& files_of(files, text@, old(self).options().autosplit)
                    &&& spliced(
                        final(self).segment_set().entries(),
                        files,
                        vstd::utf8::encode_utf8(start@),
                    )
                    &&& old(self).segment_set().order().len() + wanted_len(
                        files,
                        vstd::utf8::encode_utf8(start@),
                    ) < u32::MAX ==> final(self).segment_set().entries().len() == wanted_len(
                        files,
                        vstd::utf8::encode_utf8(start@),
                    )
                },
    {
        let files = parse_files(&text, self.options.autosplit);
        let ghost parsed = files@;
        self.splice(start, files);
        proof {
            assert(files_wf(parsed) && files_of(parsed, text@, old(self).options().autosplit)
                && spliced(
                self.segment_set().entries(),
                parsed,
                vstd::utf8::encode_utf8(start@),
            ));
        }
    }

    /// Replaces the content of the database by what the file `start` and
    /// the files that it includes hold, as `parse` does; `files` gives the
    /// files as they were parsed, each by `parse_file`.
    pub fn splice(&mut self, start: String, files: Vec<ParsedFile>)
        requires
            old(self).wf(),
            files_wf(files@),
        ensures
            final(self).wf(),
            final(self).options() == old(self).options(),
            final(self).cache() == parsed(old(self).cache()),
            final(self).nothing_current(),
            final(self).previous_names() == old(self).previous_names(),
            final(self).previous_frames() == old(self).previous_frames(),
            final(self).previous_verified() == old(self).previous_verified(),
            keeps_order(old(self).segment_set().order(), final(self).segment_set().order()),
            kept_ids(&old(self).segment_set(), &final(self).segment_set()),
            left_ids(&old(self).segment_set(), &final(self).segment_set()),
            spliced(final(self).segment_set().entries(), files@, vstd::utf8::encode_utf8(start@)),
            old(self).segment_set().order().len() + wanted_len(
                files@,
                vstd::utf8::encode_utf8(start@),
            ) < u32::MAX ==> final(self).segment_set().entries().len() == wanted_len(
                files@,
                vstd::utf8::encode_utf8(start@),
            ),
    {
        let mut shared = Arc::new(SegmentSet::new());
        std::mem::swap(&mut shared, &mut self.segments);
        let mut segments = match unshare(shared) {
            Ok(segments) => segments,
            Err(shared) => shared.seed(),
        };
        let root = name_bytes(&start);
        segments.splice(&root, files);
        self.segments = Arc::new(segments);
        self.nameset = None;
        self.scopes = None;
        self.verify = None;
        self.outline = None;
        self.grammar = None;
        self.stmt_parse = None;
        assert(self.cache().current =~= Set::<Pass>::empty());
    }

    /// Empties the database: every result goes, the last ones too, what
    /// rests on other results before them, and then the segments.
    pub fn clear(&mut self)
        requires
            old(self).wf(),
        ensures
            final(self).wf(),
            final(self).options() == old(self).options(),
            final(self).cache() == parsed(old(self).cache()),
            final(self).nothing_current(),
            final(self).previous_names() is None,
            final(self).previous_frames() is None,
            final(self).previous_verified() is None,
            final(self).segment_set().entries().len() == 0,
            final(self).segment_set().order() == seq![SegmentOrder::start_id()],
            final(self).segment_set().freed() == Seq::<SegmentId>::empty(),
            final(self).segment_set().high_water() == 2,
    {
        self.stmt_parse = None;
        self.grammar = None;
        self.prev_verify = None;
        self.verify = None;
        self.prev_scopes = None;
        self.scopes = None;
        self.prev_nameset = None;
        self.nameset = None;
        self.outline = None;
        self.segments = Arc::new(SegmentSet::with_autosplit(self.options.autosplit));
        assert(self.cache().current =~= Set::<Pass>::empty());
    }

    /// The segments.
    pub fn parse_result(&self) -> (r: &Arc<SegmentSet>)
        ensures
            **r == self.segment_set(),
    {
        &self.segments
    }

    /// Brings the names up to date: unless they are, they are found from
    /// the segments, starting from the names as they were last found.
    fn ensure_names(&mut self)
        requires
            old(self).wf(),
        ensures
            final(self).wf(),
            final(self).options == old(self).options,
            final(self).cache() == ensured(old(self).cache(), Pass::Name),
            final(self).segments == old(self).segments,
            old(self).nameset is Some ==> *final(self) == *old(self),
            final(self).nameset is Some,
            final(self).scopes == old(self).scopes,
            final(self).verify == old(self).verify,
            final(self).outline == old(self).outline,
            final(self).grammar == old(self).grammar,
            final(self).stmt_parse == old(self).stmt_parse,
            final(self).prev_scopes == old(self).prev_scopes,
            final(self).prev_verify == old(self).prev_verify,
            old(self).nameset is None ==> final(self).previous_names() == final(self).names(),
            old(self).nameset is None ==> match old(self).prev_nameset {
                Some(p) => final(self).nameset->0.keeps_atoms(&*p) && final(self).seeded@
                    == p@.names,
                None => final(self).seeded@ == seq![Seq::<u8>::empty()],
            },
    {
        if self.nameset.is_some() {
            return ;
        }
        let mut names = match self.prev_nameset.take() {
            Some(previous) => match unshare(previous) {
                Ok(names) => names,
                Err(shared) => shared.seed(),
            },
            None => Nameset::new(),
        };
        let ghost seed = names;
        self.seeded = Ghost(seed@.names);
        names.update(&self.segments);
        let names = Arc::new(names);
        self.prev_nameset = Some(names.clone());
        self.nameset = Some(names);
        self.computed = Ghost(self.computed@.push(Pass::Name));
        proof {
            assert(self.cache().current =~= old(self).cache().current.insert(Pass::Name));
            if old(self).prev_nameset is Some {
                let p = old(self).prev_nameset->0;
                p.lemma_keeps_atoms_self();
                assert(seed.keeps_atoms(&*p));
                self.nameset->0.lemma_keeps_atoms_trans(&seed, &*p);
            }
        }
    }

    /// Brings the frames up to date; the names have to be.
    fn ensure_scopes(&mut self)
        requires
            old(self).wf(),
            old(self).nameset is Some,
        ensures
            final(self).wf(),
            final(self).options == old(self).options,
            final(self).cache() == ensured(old(self).cache(), Pass::Scope),
            final(self).segments == old(self).segments,
            old(self).scopes is Some ==> *final(self) == *old(self),
            final(self).scopes is Some,
            final(self).nameset == old(self).nameset,
            final(self).prev_nameset == old(self).prev_nameset,
            final(self).verify == old(self).verify,
            final(self).outline == old(self).outline,
            final(self).grammar == old(self).grammar,
            final(self).stmt_parse == old(self).stmt_parse,
            final(self).prev_verify == old(self).prev_verify,
            old(self).scopes is None ==> final(self).previous_frames() == final(self).frames(),
    {
        if self.scopes.is_some() {
            return ;
        }
        let mut scopes = match self.prev_scopes.take() {
            Some(previous) => match unshare(previous) {
                Ok(scopes) => scopes,
                Err(_) => ScopeResult::new(),
            },
            None => ScopeResult::new(),
        };
        scope_check(&mut scopes, &self.segments, self.nameset.as_ref().unwrap());
        let scopes = Arc::new(scopes);
        self.prev_scopes = Some(scopes.clone());
        self.scopes = Some(scopes);
        self.computed = Ghost(self.computed@.push(Pass::Scope));
        proof {
            assert(self.cache().current =~= old(self).cache().current.insert(Pass::Scope));
        }
    }

    /// Brings the proof check up to date; the frames have to be.
    fn ensure_verify(&mut self)
        requires
            old(self).wf(),
            old(self).scopes is Some,
        ensures
            final(self).wf(),
            final(self).options == old(self).options,
            final(self).cache() == ensured(old(self).cache(), Pass::Verify),
            final(self).segments == old(self).segments,
            old(self).verify is Some ==> *final(self) == *old(self),
            final(self).verify is Some,
            final(self).nameset == old(self).nameset,
            final(self).prev_nameset == old(self).prev_nameset,
            final(self).scopes == old(self).scopes,
            final(self).outline == old(self).outline,
            final(self).grammar == old(self).grammar,
            final(self).stmt_parse == old(self).stmt_parse,
            final(self).prev_scopes == old(self).prev_scopes,
            old(self).verify is None ==> final(self).previous_verified() == final(self).verified(),
    {
        if self.verify.is_some() {
            return ;
        }
        let mut result = match self.prev_verify.take() {
            Some(previous) => match unshare(previous) {
                Ok(result) => result,
                Err(_) => VerifyResult::new(),
            },
            None => VerifyResult::new(),
        };
        verify(
            &mut result,
            &self.segments,
            self.nameset.as_ref().unwrap(),
            self.scopes.as_ref().unwrap(),
        );
        let result = Arc::new(result);
        self.prev_verify = Some(result.clone());
        self.verify = Some(result);
        self.computed = Ghost(self.computed@.push(Pass::Verify));
        proof {
            assert(self.cache().current =~= old(self).cache().current.insert(Pass::Verify));
        }
    }

    /// Brings the grammar up to date; the frames have to be.
    fn ensure_grammar(&mut self)
        requires
            old(self).wf(),
            old(self).scopes is Some,
        ensures
            final(self).wf(),
            final(self).options == old(self).options,
            final(self).cache() == ensured(old(self).cache(), Pass::Grammar),
            final(self).segments == old(self).segments,
            old(self).grammar is Some ==> *final(self) == *old(self),
            final(self).grammar is Some,
            final(self).nameset == old(self).nameset,
            final(self).prev_nameset == old(self).prev_nameset,
            final(self).scopes == old(self).scopes,
            final(self).verify == old(self).verify,
            final(self).outline == old(self).outline,
            final(self).stmt_parse == old(self).stmt_parse,
            final(self).prev_scopes == old(self).prev_scopes,
            final(self).prev_verify == old(self).prev_verify,
    {
        if self.grammar.is_some() {
            return ;
        }
        let grammar = Grammar::new(&self.segments, self.nameset.as_ref().unwrap());
        self.grammar = Some(Arc::new(grammar));
        self.computed = Ghost(self.computed@.push(Pass::Grammar));
        proof {
            assert(self.cache().current =~= old(self).cache().current.insert(Pass::Grammar));
        }
    }

    /// Finds the names of the database, unless they are up to date, and
    /// returns them: every symbol and every label that a statement
    /// declares, each from the first statement that declares it. The atoms
    /// of the names that were found last keep their names; new names get
    /// the next atoms, in the order in which the statements bring them.
    pub fn name_pass(&mut self) -> (r: &Arc<Nameset>)
        requires
            old(self).wf(),
        ensures
            final(self).wf(),
            final(self).options() == old(self).options(),
            final(self).cache() == requested(old(self).cache(), Pass::Name),
            final(self).keeps_results(old(self)),
            final(self).follows_previous(old(self)),
            final(self).segment_set() == old(self).segment_set(),
            old(self).names() is Some ==> *final(self) == *old(self),
            final(self).names() == Some(**r),
            r.wf(),
            r.names_in(&final(self).segment_set()),
            r.atom_count() < u32::MAX ==> r.declared_upto(
                &final(self).segment_set(),
                final(self).segment_set().entries().len() as int,
                0,
            ),
            r@ == names_of(final(self).seed_names(), &final(self).segment_set()),
            old(self).names() is None ==> match old(self).previous_names() {
                Some(p) => r.keeps_atoms(&p) && final(self).seed_names() == p@.names,
                None => final(self).seed_names() == seq![Seq::<u8>::empty()],
            },
    {
        self.ensure_names();
        self.name_result()
    }

    /// The names of the database, which have to be up to date.
    pub fn name_result(&self) -> (r: &Arc<Nameset>)
        requires
            self.names() is Some,
        ensures
            self.names() == Some(**r),
    {
        self.nameset.as_ref().unwrap()
    }

    /// Finds the frames of the database, unless they are up to date, and
    /// returns them. The names are brought up to date first.
    pub fn scope_pass(&mut self) -> (r: &Arc<ScopeResult>)
        requires
            old(self).wf(),
        ensures
            final(self).wf(),
            final(self).options() == old(self).options(),
            final(self).cache() == requested(old(self).cache(), Pass::Scope),
            final(self).keeps_results(old(self)),
            final(self).follows_previous(old(self)),
            final(self).segment_set() == old(self).segment_set(),
            old(self).frames() is Some ==> *final(self) == *old(self),
            final(self).frames() == Some(**r),
            final(self).names() is Some,
            r.wf(),
            r@ == scoped_segments(
                &final(self).segment_set(),
                &final(self).names()->0,
                final(self).segment_set().entries().len() as int,
            ).result,
    {
        if self.scopes.is_none() {
            self.ensure_names();
            self.ensure_scopes();
        }
        self.scope_result()
    }

    /// The frames of the database, which have to be up to date.
    pub fn scope_result(&self) -> (r: &Arc<ScopeResult>)
        requires
            self.frames() is Some,
        ensures
            self.frames() == Some(**r),
    {
        self.scopes.as_ref().unwrap()
    }

    /// Checks the proofs of the database, unless the result is up to date,
    /// and returns the result. Names and frames are brought up to date
    /// first.
    pub fn verify_pass(&mut self) -> (r: &Arc<VerifyResult>)
        requires
            old(self).wf(),
        ensures
            final(self).wf(),
            final(self).options() == old(self).options(),
            final(self).cache() == requested(old(self).cache(), Pass::Verify),
            final(self).keeps_results(old(self)),
            final(self).follows_previous(old(self)),
            final(self).segment_set() == old(self).segment_set(),
            old(self).verified() is Some ==> *final(self) == *old(self),
            final(self).verified() == Some(**r),
            final(self).names() is Some,
            final(self).frames() is Some,
            r.found() == proof_problems(
                &final(self).segment_set(),
                &final(self).names()->0,
                final(self).frames()->0@.frames,
                final(self).frames()->0@.frames.len() as int,
            ),
    {
        if self.verify.is_none() {
            self.ensure_names();
            self.ensure_scopes();
            self.ensure_verify();
        }
        self.verify_result()
    }

    /// The result of the proof check, which has to be up to date.
    pub fn verify_result(&self) -> (r: &Arc<VerifyResult>)
        requires
            self.verified() is Some,
        ensures
            self.verified() == Some(**r),
    {
        self.verify.as_ref().unwrap()
    }

    /// Builds the outline of the database, unless it is up to date, and
    /// returns its root, under which the headings of the source stand in
    /// their order, each below the last heading before it that is less
    /// deep.
    pub fn outline_pass(&mut self) -> (r: &Arc<OutlineNode>)
        requires
            old(self).wf(),
        ensures
            final(self).wf(),
            final(self).options() == old(self).options(),
            final(self).cache() == requested(old(self).cache(), Pass::Outline),
            final(self).keeps_results(old(self)),
            final(self).follows_previous(old(self)),
            final(self).segment_set() == old(self).segment_set(),
            old(self).outlined() is Some ==> *final(self) == *old(self),
            final(self).outlined() == Some(**r),
            nested(**r),
            node_headings(**r) == heading_comments(
                &final(self).segment_set(),
                final(self).segment_set().entries().len() as int,
            ),
    {
        if self.outline.is_none() {
            let outline = build_outline(&self.segments);
            self.outline = Some(Arc::new(outline));
            self.computed = Ghost(self.computed@.push(Pass::Outline));
            proof {
                assert(self.cache().current =~= old(self).cache().current.insert(Pass::Outline));
            }
        }
        self.outline_result()
    }

    /// The root of the outline, which has to be up to date.
    pub fn outline_result(&self) -> (r: &Arc<OutlineNode>)
        requires
            self.outlined() is Some,
        ensures
            self.outlined() == Some(**r),
    {
        self.outline.as_ref().unwrap()
    }

    /// The root of the outline, if it is up to date; nothing is computed.
    pub fn get_outline(&self) -> (r: Option<&Arc<OutlineNode>>)
        ensures
            match r {
                Some(o) => self.outlined() == Some(**o),
                None => self.outlined() is None,
            },
    {
        self.outline.as_ref()
    }

    /// Builds the grammar of the database, unless it is up to date, and
    /// returns it. Names and frames are brought up to date first. The
    /// grammar has the typecodes that the commands of the database name and
    /// the rules that its statements give, and gives every label the syntax
    /// that the database gives it.
    pub fn grammar_pass(&mut self) -> (r: &Arc<Grammar>)
        requires
            old(self).wf(),
        ensures
            final(self).wf(),
            final(self).options() == old(self).options(),
            final(self).cache() == requested(old(self).cache(), Pass::Grammar),
            final(self).keeps_results(old(self)),
            final(self).follows_previous(old(self)),
            final(self).segment_set() == old(self).segment_set(),
            old(self).grammar() is Some ==> *final(self) == *old(self),
            final(self).grammar() == Some(**r),
            r.wf(),
            final(self).names() is Some,
            r.syntax() == syntax_of(&final(self).segment_set(), &final(self).names()->0),
            built_from(&**r, &final(self).segment_set(), &final(self).names()->0),
    {
        if self.grammar.is_none() {
            self.ensure_names();
            self.ensure_scopes();
            self.ensure_grammar();
        }
        self.grammar_result()
    }

    /// The grammar of the database, which has to be up to date.
    pub fn grammar_result(&self) -> (r: &Arc<Grammar>)
        requires
            self.grammar() is Some,
        ensures
            self.grammar() == Some(**r),
    {
        self.grammar.as_ref().unwrap()
    }

    /// Parses the statements of the database as formulas, unless the result
    /// is up to date, and returns the result. Names, frames and grammar are
    /// brought up to date first. A statement that is parsed has a formula
    /// if the grammar derives it, and earns a diagnostic if not. Every
    /// formula stands for its statement: written out, it gives the math
    /// symbols of the statement behind the typecode.
    pub fn stmt_parse_pass(&mut self) -> (r: &Arc<StmtParse>)
        requires
            old(self).wf(),
        ensures
            final(self).wf(),
            final(self).options() == old(self).options(),
            final(self).cache() == requested(old(self).cache(), Pass::StmtParse),
            final(self).keeps_results(old(self)),
            final(self).follows_previous(old(self)),
            final(self).segment_set() == old(self).segment_set(),
            old(self).formulas() is Some ==> *final(self) == *old(self),
            final(self).formulas() == Some(**r),
            r.wf(),
            final(self).names() is Some,
            final(self).grammar() is Some,
            r.round_trips(&final(self).segment_set(), &final(self).names()->0),
            r.parses(
                &final(self).segment_set(),
                &final(self).names()->0,
                &final(self).grammar()->0,
            ),
            r.found() == problems(
                &final(self).segment_set(),
                &final(self).names()->0,
                &final(self).grammar()->0,
                final(self).segment_set().entries().len() as int,
            ),
    {
        if self.stmt_parse.is_none() {
            self.ensure_names();
            self.ensure_scopes();
            self.ensure_grammar();
            let ghost before = self.cache();
            let formulas = parse_statements(
                &self.segments,
                self.nameset.as_ref().unwrap(),
                self.grammar.as_ref().unwrap(),
            );
            self.stmt_parse = Some(Arc::new(formulas));
            self.computed = Ghost(self.computed@.push(Pass::StmtParse));
            proof {
                assert(self.cache().current =~= before.current.insert(Pass::StmtParse));
                assert(self.cache() == ensured(before, Pass::StmtParse));
            }
        }
        self.stmt_parse_result()
    }

    /// The formulas of the statements, which have to be up to date.
    pub fn stmt_parse_result(&self) -> (r: &Arc<StmtParse>)
        requires
            self.formulas() is Some,
        ensures
            self.formulas() == Some(**r),
    {
        self.stmt_parse.as_ref().unwrap()
    }

    /// The statement with the label `name`, if there is one. The names have
    /// to be up to date.
    pub fn statement(&self, name: &str) -> (r: Option<StatementRef<'_>>)
        requires
            self.wf(),
            self.names() is Some,
        ensures
            match self.names()->0.label(name.spec_bytes()) {
                Some(l) => match self.segment_set().statement_at(l.address) {
                    Some(st) => r matches Some(s) && s.address == l.address && *s.statement == st,
                    None => r is None,
                },
                None => r is None,
            },
    {
        match self.nameset.as_ref().unwrap().lookup_label(name.as_bytes()) {
            Some(l) => self.segments.statement(l.address),
            None => None,
        }
    }

    /// The statement whose label has the atom `label`, if there is one. The
    /// names have to be up to date.
    pub fn statement_by_label(&self, label: Label) -> (r: Option<StatementRef<'_>>)
        requires
            self.wf(),
            self.names() is Some,
        ensures
            match (if label < self.names()->0.atom_count() {
                self.names()->0.label_at(label)
            } else {
                None
            }) {
                Some(l) => match self.segment_set().statement_at(l.address) {
                    Some(st) => r matches Some(s) && s.address == l.address && *s.statement == st,
                    None => r is None,
                },
                None => r is None,
            },
    {
        match self.nameset.as_ref().unwrap().label_by_atom(label) {
            Some(l) => self.segments.statement(l.address),
            None => None,
        }
    }

    /// All statements, segment by segment in logical order.
    pub fn statements(&self) -> (r: Vec<StatementRef<'_>>)
        requires
            self.wf(),
        ensures
            r@.len() == addresses(
                self.segment_set().entries(),
                self.segment_set().entries().len() as int,
            ).len(),
            forall|i: int|
                0 <= i < r@.len() ==> (#[trigger] r@[i]).address == addresses(
                    self.segment_set().entries(),
                    self.segment_set().entries().len() as int,
                )[i] && self.segment_set().statement_at(r@[i].address) == Some(*r@[i].statement),
    {
        let mut r: Vec<StatementRef<'_>> = Vec::new();
        let segments = self.segments.segments();
        let mut i: usize = 0;
        while i < segments.len()
            invariant
                0 <= i <= segments@.len(),
                segments@ == self.segment_set().entries(),
                self.segment_set().wf(),
                r@.len() == addresses(segments@, i as int).len(),
                forall|m: int|
                    0 <= m < r@.len() ==> (#[trigger] r@[m]).address == addresses(
                        segments@,
                        i as int,
                    )[m] && self.segment_set().statement_at(r@[m].address) == Some(
                        *r@[m].statement,
                    ),
            decreases segments@.len() - i,
        {
            let entry = &segments[i];
            let ghost before = addresses(segments@, i as int);
            let mut k: usize = 0;
            while k < entry.segment.statements.len()
                invariant
                    0 <= i < segments@.len(),
                    segments@ == self.segment_set().entries(),
                    *entry == segments@[i as int],
                    self.segment_set().wf(),
                    0 <= k <= entry.segment.statements@.len(),
                    before == addresses(segments@, i as int),
                    r@.len() == before.len() + k,
                    forall|m: int|
                        0 <= m < r@.len() ==> (#[trigger] r@[m]).address == (before
                            + segment_addresses(entry.id, k as int))[m]
                            && self.segment_set().statement_at(r@[m].address) == Some(
                            *r@[m].statement,
                        ),
                decreases entry.segment.statements@.len() - k,
            {
                proof {
                    self.segment_set().lemma_statement_at(i as int, k);
                }
                r.push(
                    StatementRef {
                        address: StatementAddress { segment_id: entry.id, index: k },
                        statement: &entry.segment.statements[k],
                    },
                );
                k += 1;
            }
            i += 1;
        }
        r
    }

    /// Writes out the formula of every statement that has one and compares
    /// what comes with the statement. Returns the statements that differ:
    /// none, as every formula stands for its statement. Needs the formulas.
    pub fn verify_parse_stmt(&self) -> (r: Vec<(StatementAddress, Diagnostic)>)
        requires
            self.wf(),
            self.formulas() is Some,
        ensures
            self.names() is Some,
            r@ == self.formulas()->0.differing(
                &self.segment_set(),
                &self.names()->0,
                self.segment_set().entries().len() as int,
            ),
            r@.len() == 0,
    {
        let formulas = self.stmt_parse.as_ref().unwrap();
        let names = self.nameset.as_ref().unwrap();
        proof {
            formulas.lemma_round_trips(
                &*self.segments,
                &**names,
                self.segments.entries().len() as int,
            );
        }
        formulas.verify(&self.segments, names)
    }

    /// The diagnostics of the classes `types`, each with the place of its
    /// statement in the source: those of reading first, then those of the
    /// scopes, of the proofs, of the grammar and of the statements as
    /// formulas. The pass of each class that is asked for is brought up to
    /// date, with the passes that it rests on; no other pass is.
    pub fn diag_notations(&mut self, types: &[DiagnosticClass]) -> (r: Vec<Notation>)
        requires
            old(self).wf(),
        ensures
            final(self).wf(),
            final(self).options() == old(self).options(),
            final(self).segment_set() == old(self).segment_set(),
            final(self).cache() == requested_all(old(self).cache(), types@),
            final(self).keeps_results(old(self)),
            final(self).follows_previous(old(self)),
            r@.len() == diagnostics_of(final(self), types@).len(),
            forall|i: int|
                0 <= i < r@.len() ==> crate::diag::annotates(
                    #[trigger] &r@[i],
                    &final(self).segment_set(),
                    diagnostics_of(final(self), types@)[i].0,
                    diagnostics_of(final(self), types@)[i].1,
                ),
    {
        let mut found: Vec<(StatementAddress, Diagnostic)> = Vec::new();
        if has_class(types, DiagnosticClass::Parse) {
            found = self.segments.parse_diagnostics();
        }
        let ghost d0 = found@;
        if has_class(types, DiagnosticClass::Scope) {
            let scopes = self.scope_pass();
            extend(&mut found, scopes.diagnostics());
        }
        let ghost d1 = found@;
        let ghost db1 = *self;
        if has_class(types, DiagnosticClass::Verify) {
            let verified = self.verify_pass();
            extend(&mut found, verified.diagnostics());
        }
        let ghost d2 = found@;
        let ghost db2 = *self;
        if has_class(types, DiagnosticClass::Grammar) {
            let grammar = self.grammar_pass();
            extend(&mut found, grammar.diagnostics());
        }
        let ghost d3 = found@;
        let ghost db3 = *self;
        if has_class(types, DiagnosticClass::StmtParse) {
            let formulas = self.stmt_parse_pass();
            extend(&mut found, formulas.diagnostics());
        }
        proof {
            let scope_part = if types@.contains(DiagnosticClass::Scope) {
                self.frames()->0.found()
            } else {
                Seq::empty()
            };
            let verify_part = if types@.contains(DiagnosticClass::Verify) {
                self.verified()->0.found()
            } else {
                Seq::empty()
            };
            let grammar_part = if types@.contains(DiagnosticClass::Grammar) {
                self.grammar()->0.found()
            } else {
                Seq::empty()
            };
            let formula_part = if types@.contains(DiagnosticClass::StmtParse) {
                self.formulas()->0.found()
            } else {
                Seq::empty()
            };
            assert(d1 =~= d0 + scope_part);
            assert(d2 =~= d1 + verify_part);
            assert(d3 =~= d2 + grammar_part);
            assert(found@ =~= d3 + formula_part);
            assert(found@ =~= diagnostics_of(self, types@));
        }
        to_annotations(&self.segments, found)
    }
}

/// Whether the grammar is the grammar of the database: it has the typecodes
/// that the commands name, and the rules and the diagnostics that the
/// statements give.
pub open spec fn built_from(g: &Grammar, sset: &SegmentSet, nset: &Nameset) -> bool {
    &&& g.provable() == typecodes_of(sset, nset, sset.entries().len() as int).provable
    &&& g.logic() == typecodes_of(sset, nset, sset.entries().len() as int).logic
    &&& g@ == with_segments(sset, nset, g.provable(), sset.entries().len() as int)
}

/// The addresses of the first `k` statements of the segment `id`.
pub open spec fn segment_addresses(id: SegmentId, k: int) -> Seq<StatementAddress> {
    Seq::new(
        if k < 0 {
            0nat
        } else {
            k as nat
        },
        |j: int| StatementAddress { segment_id: id, index: j as usize },
    )
}

/// The addresses of the statements of the first `n` segments, in logical
/// order.
pub open spec fn addresses(entries: Seq<SegmentEntry>, n: int) -> Seq<StatementAddress>
    decreases n,
{
    if n <= 0 {
        Seq::empty()
    } else {
        addresses(entries, n - 1) + segment_addresses(
            entries[n - 1].id,
            entries[n - 1].segment.statements@.len() as int,
        )
    }
}

/// The state of the cache after the passes behind the classes `types` were
/// asked for, in the order of the classes.
pub open spec fn requested_all(v: CacheView, types: Seq<DiagnosticClass>) -> CacheView {
    let v1 = if types.contains(DiagnosticClass::Scope) {
        requested(v, Pass::Scope)
    } else {
        v
    };
    let v2 = if types.contains(DiagnosticClass::Verify) {
        requested(v1, Pass::Verify)
    } else {
        v1
    };
    let v3 = if types.contains(DiagnosticClass::Grammar) {
        requested(v2, Pass::Grammar)
    } else {
        v2
    };
    if types.contains(DiagnosticClass::StmtParse) {
        requested(v3, Pass::StmtParse)
    } else {
        v3
    }
}

/// The diagnostics of the classes `types` that the database holds: for each
/// class that is asked for what its pass found, where that is up to date.
pub open spec fn diagnostics_of(db: &Database, types: Seq<DiagnosticClass>) -> Seq<
    (StatementAddress, Diagnostic),
> {
    (if types.contains(DiagnosticClass::Parse) {
        crate::segment_set::parse_diagnostics_of(
            db.segment_set().entries(),
            db.segment_set().entries().len() as int,
        )
    } else {
        Seq::empty()
    }) + (if types.contains(DiagnosticClass::Scope) && db.frames() is Some {
        db.frames()->0.found()
    } else {
        Seq::empty()
    }) + (if types.contains(DiagnosticClass::Verify) && db.verified() is Some {
        db.verified()->0.found()
    } else {
        Seq::empty()
    }) + (if types.contains(DiagnosticClass::Grammar) && db.grammar() is Some {
        db.grammar()->0.found()
    } else {
        Seq::empty()
    }) + (if types.contains(DiagnosticClass::StmtParse) && db.formulas() is Some {
        db.formulas()->0.found()
    } else {
        Seq::empty()
    })
}

/// Whether `class` is among `types`.
fn has_class(types: &[DiagnosticClass], class: DiagnosticClass) -> (r: bool)
    ensures
        r == types@.contains(class),
{
    let mut i: usize = 0;
    while i < types.len()
        invariant
            0 <= i <= types@.len(),
            forall|k: int| 0 <= k < i ==> types@[k] != class,
        decreases types@.len() - i,
    {
        if types[i] == class {
            return true;
        }
        i += 1;
    }
    false
}

/// Puts the diagnostics `more` behind `found`.
fn extend(found: &mut Vec<(StatementAddress, Diagnostic)>, more: &Vec<(StatementAddress, Diagnostic)>)
    ensures
        final(found)@ == old(found)@ + more@,
{
    let mut i: usize = 0;
    while i < more.len()
        invariant
            0 <= i <= more@.len(),
            found@ == old(found)@ + more@.subrange(0, i as int),
        decreases more@.len() - i,
    {
        found.push(more[i]);
        assert(found@ =~= old(found)@ + more@.subrange(0, i + 1));
        i += 1;
    }
    assert(more@.subrange(0, more@.len() as int) =~= more@);
}

} // verus!
