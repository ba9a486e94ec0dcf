//! The segments of a database in their logical order, kept in step with the
//! buffers that they are read from.

use crate::diag::Diagnostic;
use crate::parser::bytes_eq;
use crate::parser::chapters;
use crate::parser::copy_range;
use crate::parser::parse_segments;
use crate::parser::pieces;
use crate::parser::segment_wf;
use crate::parser::Segment;
use crate::parser::SegmentId;
use crate::parser::Statement;
use crate::parser::StatementAddress;
use crate::parser::StatementType;
use crate::parser::Token;
use crate::segment_order::lemma_position;
use crate::segment_order::SegmentOrder;
use crate::source::piece;
use crate::source::segment_views;
use crate::source::words;
use crate::source::SegmentView;
use vstd::prelude::*;

verus! {

/// A segment with its identifier and its origin.
pub struct SegmentEntry {
    /// The identifier of the segment.
    pub id: SegmentId,
    /// The name of the file that the segment comes from.
    pub file: Token,
    /// The position of the segment among those of its file.
    pub index: usize,
    /// The statements.
    pub segment: Segment,
}

/// A statement together with its address.
pub struct StatementRef<'a> {
    /// Where the statement stands.
    pub address: StatementAddress,
    /// The statement.
    pub statement: &'a Statement,
}

/// The origin of a segment: its file and its position among the segments of
/// that file.
pub type SegmentKey = (Seq<u8>, usize);

/// The elements of `v` in reverse order.
pub fn reversed<T>(v: Vec<T>) -> (r: Vec<T>)
    ensures
        r@ == v@.reverse(),
{
    let mut v = v;
    let ghost all = v@;
    let mut r: Vec<T> = Vec::new();
    while v.len() > 0
        invariant
            v@ == all.subrange(0, v@.len() as int),
            v@.len() <= all.len(),
            r@.len() == all.len() - v@.len(),
            forall|i: int| 0 <= i < r@.len() ==> r@[i] == all[all.len() - 1 - i],
        decreases v@.len(),
    {
        let x = v.pop().unwrap();
        r.push(x);
    }
    assert(r@ =~= all.reverse());
    r
}

/// Putting a new element into a sequence without repetitions moves the
/// elements behind it by one place and leaves the others where they are.
pub proof fn lemma_insert_position<A>(s: Seq<A>, p: int, x: A, a: A)
    requires
        s.no_duplicates(),
        !s.contains(x),
        0 <= p <= s.len(),
        s.contains(a),
    ensures
        s.insert(p, x).no_duplicates(),
        s.insert(p, x).contains(a),
        s.insert(p, x).contains(x),
        s.insert(p, x).index_of(x) == p,
        s.insert(p, x).index_of(a) == if s.index_of(a) < p {
            s.index_of(a)
        } else {
            s.index_of(a) + 1
        },
{
    let t = s.insert(p, x);
    let i = s.index_of(a);
    assert(0 <= i < s.len() && s[i] == a);
    assert forall|j: int, k: int| 0 <= j < t.len() && 0 <= k < t.len() && j != k implies t[j]
        != t[k] by {
        let oj = if j < p {
            j
        } else {
            j - 1
        };
        let ok = if k < p {
            k
        } else {
            k - 1
        };
        if j != p && k != p {
            assert(t[j] == s[oj] && t[k] == s[ok]);
        } else if j == p {
            assert(t[k] == s[ok]);
        } else {
            assert(t[j] == s[oj]);
        }
    }
    let ni = if i < p {
        i
    } else {
        i + 1
    };
    assert(t[ni] == a);
    assert(t[p] == x);
    lemma_position(t, ni);
    lemma_position(t, p);
}

/// Taking an element out of a sequence without repetitions moves the
/// elements behind it by one place and leaves the others where they are.
pub proof fn lemma_remove_position<A>(s: Seq<A>, p: int, a: A)
    requires
        s.no_duplicates(),
        0 <= p < s.len(),
        s.contains(a),
        a != s[p],
    ensures
        s.remove(p).no_duplicates(),
        s.remove(p).contains(a),
        !s.remove(p).contains(s[p]),
        s.remove(p).index_of(a) == if s.index_of(a) < p {
            s.index_of(a)
        } else {
            s.index_of(a) - 1
        },
{
    let t = s.remove(p);
    let i = s.index_of(a);
    assert(0 <= i < s.len() && s[i] == a);
    assert forall|j: int| 0 <= j < t.len() implies #[trigger] t[j] == s[if j < p {
        j
    } else {
        j + 1
    }] by {}
    assert forall|j: int, k: int| 0 <= j < t.len() && 0 <= k < t.len() && j != k implies t[j]
        != t[k] by {}
    let ni = if i < p {
        i
    } else {
        i - 1
    };
    assert(t[ni] == a);
    lemma_position(t, ni);
    if t.contains(s[p]) {
        let k = choose|k: int| 0 <= k < t.len() && t[k] == s[p];
        assert(t[k] == s[if k < p {
            k
        } else {
            k + 1
        }]);
    }
}

/// The number of entries of `visited` that are not set.
pub open spec fn unvisited(visited: Seq<bool>) -> nat
    decreases visited.len(),
{
    if visited.len() == 0 {
        0
    } else {
        unvisited(visited.drop_last()) + if visited.last() {
            0nat
        } else {
            1nat
        }
    }
}

proof fn lemma_unvisited_grows(before: Seq<bool>, after: Seq<bool>)
    requires
        before.len() == after.len(),
        forall|i: int| 0 <= i < before.len() && before[i] ==> after[i],
    ensures
        unvisited(after) <= unvisited(before),
        forall|k: int|
            0 <= k < before.len() && !before[k] && after[k] ==> unvisited(after) < unvisited(before),
    decreases before.len(),
{
    if before.len() > 0 {
        let b = before.drop_last();
        let a = after.drop_last();
        assert forall|i: int| 0 <= i < b.len() && b[i] implies a[i] by {
            assert(before[i] && after[i] == a[i]);
        }
        lemma_unvisited_grows(b, a);
        assert forall|k: int| 0 <= k < before.len() && !before[k] && after[k] implies unvisited(
            after,
        ) < unvisited(before) by {
            if k < before.len() - 1 {
                assert(!b[k] && a[k]);
            }
        }
    }
}

/// The segments that the parser made of one file.
#[derive(Clone)]
pub struct ParsedFile {
    /// The name of the file.
    pub name: Token,
    /// Its segments, in the order of the source.
    pub segments: Vec<Segment>,
}

/// Every segment of every file is as the parser leaves it.
pub open spec fn files_wf(files: Seq<ParsedFile>) -> bool {
    forall|f: int, k: int|
        0 <= f < files.len() && 0 <= k < files[f].segments@.len() ==> segment_wf(
            #[trigger] &files[f].segments@[k],
        )
}

/// The name of the file that the segment ends with the inclusion of, if it
/// ends with one.
pub open spec fn included(segment: &Segment) -> Option<Seq<u8>> {
    if segment.statements@.len() > 0 && segment.statements@.last().stype
        == StatementType::FileInclude && segment.statements@.last().math@.len() == 1 {
        Some(segment.statements@.last().math@[0]@)
    } else {
        None
    }
}

/// The first file from `from` on that has the name.
pub open spec fn first_named(files: Seq<ParsedFile>, name: Seq<u8>, from: int) -> Option<int>
    decreases files.len() - from,
{
    if from < 0 || from >= files.len() {
        None
    } else if files[from].name@ == name {
        Some(from)
    } else {
        first_named(files, name, from + 1)
    }
}

/// A segment of a file: the place of the file among the files, and the
/// place of the segment among those of the file.
pub type Origin = (int, int);

/// The segments that file `f` brings, in logical order, and the files that
/// have been read once it is read, given those that had been before: the
/// segments of the file in their order, and behind each that ends with the
/// inclusion of a file not read yet, what that file brings.
pub open spec fn expand_file(files: Seq<ParsedFile>, f: int, visited: Seq<bool>) -> (
    Seq<Origin>,
    Seq<bool>,
)
    decreases unvisited(visited), 0nat, 0nat,
{
    if 0 <= f < files.len() && visited.len() == files.len() && !visited[f] && unvisited(
        visited.update(f, true),
    ) < unvisited(visited) {
        expand_segments(files, f, 0, visited.update(f, true))
    } else {
        (Seq::empty(), visited)
    }
}

/// The same, of the segments of file `f` from segment `k` on.
pub open spec fn expand_segments(files: Seq<ParsedFile>, f: int, k: int, visited: Seq<bool>) -> (
    Seq<Origin>,
    Seq<bool>,
)
    decreases unvisited(visited), 1nat, files[f].segments@.len() - k,
{
    if !(0 <= f < files.len() && 0 <= k < files[f].segments@.len() && visited.len()
        == files.len()) {
        (Seq::empty(), visited)
    } else {
        let inner = match included(&files[f].segments@[k]) {
            Some(name) => match first_named(files, name, 0) {
                Some(g) => expand_file(files, g, visited),
                None => (Seq::empty(), visited),
            },
            None => (Seq::empty(), visited),
        };
        if inner.1.len() == visited.len() && unvisited(inner.1) <= unvisited(visited) {
            let rest = expand_segments(files, f, k + 1, inner.1);
            (seq![(f, k)] + inner.0 + rest.0, rest.1)
        } else {
            (seq![(f, k)] + inner.0, inner.1)
        }
    }
}

/// The diagnostic that a segment earns in a set of files: one for its
/// inclusion, if it ends with the inclusion of a file that is not among
/// them.
pub open spec fn missing_note(files: Seq<ParsedFile>, segment: &Segment) -> Seq<
    (usize, Diagnostic),
> {
    match included(segment) {
        Some(name) => if first_named(files, name, 0) is None {
            seq![((segment.statements@.len() - 1) as usize, Diagnostic::IncludeNotFound)]
        } else {
            Seq::empty()
        },
        None => Seq::empty(),
    }
}

/// Whether the file, the place and the segment are those of the origin: the
/// statements as the parser made them, and its diagnostics with the one for
/// a missing file behind them.
pub open spec fn holds_origin(
    file: Seq<u8>,
    index: usize,
    segment: &Segment,
    files: Seq<ParsedFile>,
    origin: Origin,
) -> bool {
    let parsed = files[origin.0].segments@[origin.1];
    &&& 0 <= origin.0 < files.len()
    &&& 0 <= origin.1 < files[origin.0].segments@.len()
    &&& file == files[origin.0].name@
    &&& index == origin.1
    &&& segment.statements == parsed.statements
    &&& segment.diagnostics@ == parsed.diagnostics@ + missing_note(files, &parsed)
}

/// Setting an entry that was not set leaves one unset entry less.
proof fn lemma_unvisited_update(visited: Seq<bool>, f: int)
    requires
        0 <= f < visited.len(),
        !visited[f],
    ensures
        unvisited(visited.update(f, true)) < unvisited(visited),
{
    let after = visited.update(f, true);
    lemma_unvisited_grows(visited, after);
}

/// A segment that has been read and has no identifier yet.
struct Pending {
    file: Token,
    index: usize,
    segment: Segment,
}

/// The bytes of a name.
pub fn name_bytes(name: &String) -> (r: Token)
    ensures
        r@ == vstd::utf8::encode_utf8(name@),
{
    let bytes = name.as_str().as_bytes();
    crate::parser::copy_range(bytes, 0, bytes.len())
}

/// The place of the first of `names` that is `name`.
fn find_name(names: &Vec<Token>, name: &Token, Ghost(files): Ghost<Seq<ParsedFile>>) -> (r: Option<
    usize,
>)
    requires
        names@.len() == files.len(),
        forall|i: int| 0 <= i < names@.len() ==> (#[trigger] names@[i])@ == files[i].name@,
    ensures
        match r {
            Some(i) => i < names@.len() && first_named(files, name@, 0) == Some(i as int),
            None => first_named(files, name@, 0) is None,
        },
{
    let mut i: usize = 0;
    while i < names.len()
        invariant
            0 <= i <= names@.len(),
            names@.len() == files.len(),
            forall|i: int| 0 <= i < names@.len() ==> (#[trigger] names@[i])@ == files[i].name@,
            first_named(files, name@, 0) == first_named(files, name@, i as int),
        decreases names@.len() - i,
    {
        if bytes_eq(names[i].as_slice(), name.as_slice()) {
            return Some(i);
        }
        i += 1;
    }
    None
}

/// Whether the pending segments from `from` on are those of the origins.
spec fn pending_hold(
    out: Seq<Pending>,
    from: int,
    files: Seq<ParsedFile>,
    origins: Seq<Origin>,
) -> bool {
    &&& out.len() == from + origins.len()
    &&& forall|i: int|
        0 <= i < origins.len() ==> holds_origin(
            (#[trigger] out[from + i]).file@,
            out[from + i].index,
            &out[from + i].segment,
            files,
            origins[i],
        )
}

/// Takes the segments that file `file` brings and puts them onto `out`, in
/// logical order. `rest` holds for each file its segments, turned round, as
/// long as the file has not been read.
fn expand(
    names: &Vec<Token>,
    rest: &mut Vec<Vec<Segment>>,
    Ghost(files): Ghost<Seq<ParsedFile>>,
    file: usize,
    visited: &mut Vec<bool>,
    out: &mut Vec<Pending>,
) -> (added: Ghost<Seq<Origin>>)
    requires
        files_wf(files),
        names@.len() == files.len(),
        old(rest)@.len() == files.len(),
        old(visited)@.len() == files.len(),
        forall|i: int| 0 <= i < names@.len() ==> (#[trigger] names@[i])@ == files[i].name@,
        forall|i: int|
            0 <= i < files.len() && !old(visited)@[i] ==> (#[trigger] old(rest)@[i])@
                == files[i].segments@.reverse(),
        file < files.len(),
        !old(visited)@[file as int],
    ensures
        (added@, final(visited)@) == expand_file(files, file as int, old(visited)@),
        final(rest)@.len() == files.len(),
        final(visited)@.len() == files.len(),
        forall|i: int| 0 <= i < files.len() && old(visited)@[i] ==> final(visited)@[i],
        final(visited)@[file as int],
        forall|i: int|
            0 <= i < files.len() && !final(visited)@[i] ==> (#[trigger] final(rest)@[i])@
                == files[i].segments@.reverse(),
        final(out)@.len() == old(out)@.len() + added@.len(),
        final(out)@.subrange(0, old(out)@.len() as int) == old(out)@,
        pending_hold(final(out)@, old(out)@.len() as int, files, added@),
    decreases unvisited(old(visited)@),
{
    visited[file] = true;
    proof {
        lemma_unvisited_update(old(visited)@, file as int);
        assert(visited@ =~= old(visited)@.update(file as int, true));
    }
    let ghost first = visited@;
    let mut mine: Vec<Segment> = Vec::new();
    std::mem::swap(&mut mine, &mut rest[file]);
    let ghost all = files[file as int].segments@;
    let total = mine.len();
    let ghost mut added: Seq<Origin> = Seq::empty();
    let ghost base = old(out)@.len() as int;
    let mut index: usize = 0;
    proof {
        assert(out@.subrange(0, base) =~= old(out)@);
    }
    while mine.len() > 0
        invariant
            files_wf(files),
            names@.len() == files.len(),
            rest@.len() == files.len(),
            visited@.len() == files.len(),
            forall|i: int| 0 <= i < names@.len() ==> (#[trigger] names@[i])@ == files[i].name@,
            forall|i: int|
                0 <= i < files.len() && !visited@[i] ==> (#[trigger] rest@[i])@
                    == files[i].segments@.reverse(),
            file < files.len(),
            visited@[file as int],
            all == files[file as int].segments@,
            total == all.len(),
            index + mine@.len() == all.len(),
            forall|i: int| 0 <= i < mine@.len() ==> mine@[i] == all[all.len() - 1 - i],
            forall|i: int| 0 <= i < files.len() && old(visited)@[i] ==> visited@[i],
            unvisited(visited@) < unvisited(old(visited)@),
            base == old(out)@.len(),
            out@.len() == base + added.len(),
            out@.subrange(0, base) == old(out)@,
            pending_hold(out@, base, files, added),
            expand_segments(files, file as int, 0, first) == ({
                let rest_of = expand_segments(files, file as int, index as int, visited@);
                (added + rest_of.0, rest_of.1)
            }),
        decreases mine@.len(),
    {
        let ghost parsed = all[index as int];
        let ghost before_visited = visited@;
        let ghost before_out = out@;
        let ghost before_added = added;
        let mut segment = mine.pop().unwrap();
        assert(segment == parsed);
        assert(segment_wf(&files[file as int].segments@[index as int]));
        let last = segment.statements.len() - 1;
        let mut inner: Option<usize> = None;
        if segment.statements[last].stype == StatementType::FileInclude {
            match find_name(names, &segment.statements[last].math[0], Ghost(files)) {
                Some(i) => {
                    if !visited[i] {
                        inner = Some(i);
                    }
                },
                None => {
                    segment.diagnostics.push((last, Diagnostic::IncludeNotFound));
                },
            }
        }
        proof {
            assert(segment.diagnostics@ =~= parsed.diagnostics@ + missing_note(files, &parsed));
        }
        let name = crate::parser::copy_range(names[file].as_slice(), 0, names[file].len());
        proof {
            assert(names@[file as int]@.subrange(0, names@[file as int]@.len() as int)
                =~= names@[file as int]@);
        }
        out.push(Pending { file: name, index, segment });
        proof {
            added = added.push((file as int, index as int));
            assert(out@.subrange(0, base) =~= old(out)@);
            assert forall|i: int| 0 <= i < added.len() implies holds_origin(
                (#[trigger] out@[base + i]).file@,
                out@[base + i].index,
                &out@[base + i].segment,
                files,
                added[i],
            ) by {
                if i < before_added.len() {
                    assert(out@[base + i] == before_out[base + i]);
                }
            }
        }
        let ghost mid_out = out@;
        let ghost mid_added = added;
        let ghost mut inner_added: Seq<Origin> = Seq::empty();
        match inner {
            Some(i) => {
                let got = expand(names, rest, Ghost(files), i, visited, out);
                proof {
                    inner_added = got@;
                    lemma_unvisited_grows(before_visited, visited@);
                    added = added + inner_added;
                    assert(out@.subrange(0, base) =~= old(out)@) by {
                        assert forall|j: int| 0 <= j < base implies out@[j] == old(out)@[j] by {
                            assert(out@.subrange(0, mid_out.len() as int)[j] == mid_out[j]);
                            assert(mid_out.subrange(0, base)[j] == old(out)@[j]);
                        }
                    }
                    assert forall|j: int| 0 <= j < added.len() implies holds_origin(
                        (#[trigger] out@[base + j]).file@,
                        out@[base + j].index,
                        &out@[base + j].segment,
                        files,
                        added[j],
                    ) by {
                        if j < mid_added.len() {
                            assert(out@.subrange(0, mid_out.len() as int)[base + j] == mid_out[base
                                + j]);
                        } else {
                            assert(added[j] == inner_added[j - mid_added.len()]);
                            assert(out@[mid_out.len() + (j - mid_added.len())] == out@[base + j]);
                        }
                    }
                }
            },
            None => {},
        }
        proof {
            // One step of the definition.
            let step = expand_segments(files, file as int, index as int, before_visited);
            let inner_spec = match included(&files[file as int].segments@[index as int]) {
                Some(name) => match first_named(files, name, 0) {
                    Some(g) => expand_file(files, g, before_visited),
                    None => (Seq::<Origin>::empty(), before_visited),
                },
                None => (Seq::<Origin>::empty(), before_visited),
            };
            assert(inner_spec == (inner_added, visited@));
            lemma_unvisited_grows(before_visited, visited@);
            let rest_of = expand_segments(files, file as int, index + 1, visited@);
            assert(step == (seq![(file as int, index as int)] + inner_added + rest_of.0, rest_of.1));
            assert(before_added + (seq![(file as int, index as int)] + inner_added + rest_of.0)
                =~= added + rest_of.0);
        }
        index = index + 1;
    }
    proof {
        let rest_of = expand_segments(files, file as int, index as int, visited@);
        assert(rest_of == (Seq::<Origin>::empty(), visited@));
        assert(added + rest_of.0 =~= added);
    }
    Ghost(added)
}

} // verus!

verus! {

/// Every identifier that is live in both orders stands on the same side of
/// every other such identifier in both.
pub open spec fn keeps_order(before: Seq<SegmentId>, after: Seq<SegmentId>) -> bool {
    forall|a: SegmentId, b: SegmentId|
        #![trigger before.index_of(a), before.index_of(b)]
        #![trigger after.index_of(a), after.index_of(b)]
        before.contains(a) && before.contains(b) && after.contains(a) && after.contains(b) ==> (
        before.index_of(a) < before.index_of(b)) == (after.index_of(a) < after.index_of(b))
}

/// The first entry from `from` on that has the origin given.
fn find_key(old: &Vec<SegmentEntry>, from: usize, file: &Token, index: usize) -> (r: Option<usize>)
    requires
        from <= old@.len(),
    ensures
        match r {
            Some(q) => from <= q < old@.len() && old@[q as int].file@ == file@ && old@[q as int].index
                == index && forall|k: int|
                from <= k < q ==> !((#[trigger] old@[k]).file@ == file@ && old@[k].index == index),
            None => forall|k: int|
                from <= k < old@.len() ==> !((#[trigger] old@[k]).file@ == file@ && old@[k].index
                    == index),
        },
        match r {
            Some(q) => first_key(entry_keys(old@), (file@, index), from as int) == Some(q as int),
            None => first_key(entry_keys(old@), (file@, index), from as int) is None,
        },
{
    let mut q: usize = from;
    while q < old.len()
        invariant
            from <= q <= old@.len(),
            first_key(entry_keys(old@), (file@, index), from as int) == first_key(
                entry_keys(old@),
                (file@, index),
                q as int,
            ),
            forall|k: int|
                from <= k < q ==> !((#[trigger] old@[k]).file@ == file@ && old@[k].index == index),
        decreases old@.len() - q,
    {
        if old[q].index == index && bytes_eq(old[q].file.as_slice(), file.as_slice()) {
            return Some(q);
        }
        q += 1;
    }
    None
}

/// Takes the identifiers of `gone` out of the order.
fn release(order: &mut SegmentOrder, gone: &Vec<SegmentId>)
    requires
        old(order).wf(),
        gone@.no_duplicates(),
        forall|i: int|
            0 <= i < gone@.len() ==> old(order)@.contains(#[trigger] gone@[i]) && gone@[i]
                != SegmentOrder::start_id(),
    ensures
        final(order).wf(),
        forall|a: SegmentId| final(order)@.contains(a) == (old(order)@.contains(a) && !gone@.contains(a)),
        keeps_order(old(order)@, final(order)@),
        final(order).freed() == old(order).freed() + gone@,
        final(order).high_water() == old(order).high_water(),
{
    let mut k: usize = 0;
    proof {
        assert(order.freed() =~= old(order).freed() + gone@.subrange(0, 0));
    }
    while k < gone.len()
        invariant
            0 <= k <= gone@.len(),
            order.wf(),
            order.freed() == old(order).freed() + gone@.subrange(0, k as int),
            order.high_water() == old(order).high_water(),
            gone@.no_duplicates(),
            forall|i: int|
                0 <= i < gone@.len() ==> old(order)@.contains(#[trigger] gone@[i]) && gone@[i]
                    != SegmentOrder::start_id(),
            forall|a: SegmentId|
                order@.contains(a) == (old(order)@.contains(a) && !gone@.subrange(0, k as int).contains(a)),
            keeps_order(old(order)@, order@),
        decreases gone@.len() - k,
    {
        let id = gone[k];
        let ghost cur = order@;
        proof {
            order.lemma_wf();
            if gone@.subrange(0, k as int).contains(id) {
                let i = choose|i: int| 0 <= i < k && gone@.subrange(0, k as int)[i] == id;
                assert(gone@[i] == id);
            }
            assert(cur.contains(id));
        }
        order.free_id(id);
        proof {
            assert(gone@.subrange(0, k + 1) =~= gone@.subrange(0, k as int).push(id));
            assert(order.freed() =~= old(order).freed() + gone@.subrange(0, k + 1));
            let p = cur.index_of(id);
            assert(0 <= p < cur.len() && cur[p] == id);
            let next = order@;
            assert forall|a: SegmentId|
                next.contains(a) == (old(order)@.contains(a) && !gone@.subrange(0, k + 1).contains(a)) by {
                let pre = gone@.subrange(0, k as int);
                let post = gone@.subrange(0, k + 1);
                assert(post[k as int] == id);
                if cur.contains(a) && a != id {
                    lemma_remove_position(cur, p, a);
                    if post.contains(a) {
                        let i = choose|i: int| 0 <= i < post.len() && post[i] == a;
                        assert(pre[i] == a);
                    }
                } else if a == id {
                    lemma_remove_position(cur, p, SegmentOrder::start_id());
                } else {
                    if next.contains(a) {
                        let i = choose|i: int| 0 <= i < next.len() && next[i] == a;
                        assert(cur[if i < p {
                            i
                        } else {
                            i + 1
                        }] == a);
                    }
                    if old(order)@.contains(a) && !post.contains(a) {
                        if pre.contains(a) {
                            let i = choose|i: int| 0 <= i < pre.len() && pre[i] == a;
                            assert(post[i] == a);
                        }
                    }
                }
            }
            assert forall|a: SegmentId, b: SegmentId|
                old(order)@.contains(a) && old(order)@.contains(b) && next.contains(a)
                    && next.contains(b) implies (old(order)@.index_of(a) < old(order)@.index_of(b))
                == (next.index_of(a) < next.index_of(b)) by {
                assert(a != id && b != id) by {
                    assert(gone@.subrange(0, k + 1)[k as int] == id);
                }
                assert(cur.contains(a) && cur.contains(b)) by {
                    let i = choose|i: int| 0 <= i < next.len() && next[i] == a;
                    assert(cur[if i < p {
                        i
                    } else {
                        i + 1
                    }] == a);
                    let j = choose|j: int| 0 <= j < next.len() && next[j] == b;
                    assert(cur[if j < p {
                        j
                    } else {
                        j + 1
                    }] == b);
                }
                lemma_remove_position(cur, p, a);
                lemma_remove_position(cur, p, b);
                let ia = cur.index_of(a);
                let ib = cur.index_of(b);
                assert(0 <= ia < cur.len() && cur[ia] == a);
                assert(0 <= ib < cur.len() && cur[ib] == b);
                assert((old(order)@.index_of(a) < old(order)@.index_of(b)) == (cur.index_of(a)
                    < cur.index_of(b)));
            }
        }
        k += 1;
    }
    assert(gone@.subrange(0, k as int) =~= gone@);
}

} // verus!

verus! {

/// The segments that the file named `start` brings, in logical order.
pub open spec fn wanted(files: Seq<ParsedFile>, start: Seq<u8>) -> Seq<Origin> {
    match first_named(files, start, 0) {
        Some(f) => expand_file(files, f, Seq::new(files.len(), |i: int| false)).0,
        None => Seq::empty(),
    }
}

/// The number of segments that reading `start` gives: those that the file
/// brings, or one, which holds the diagnostic, if there is no such file.
pub open spec fn wanted_len(files: Seq<ParsedFile>, start: Seq<u8>) -> nat {
    match first_named(files, start, 0) {
        Some(f) => wanted(files, start).len(),
        None => 1,
    }
}

/// The segment that stands for a file `start` that is not there: nothing
/// but the end of the file, and the diagnostic.
pub open spec fn is_missing_root(entry: &SegmentEntry, start: Seq<u8>) -> bool {
    &&& entry.file@ == start
    &&& entry.index == 0
    &&& entry.segment.statements@.len() == 1
    &&& entry.segment.statements@[0].stype == StatementType::Eof
    &&& entry.segment.diagnostics@ == seq![(0usize, Diagnostic::IncludeNotFound)]
}

/// Whether the entries are the first of the segments that the file named
/// `start` brings, in logical order.
pub open spec fn spliced(entries: Seq<SegmentEntry>, files: Seq<ParsedFile>, start: Seq<u8>) -> bool {
    match first_named(files, start, 0) {
        Some(f) => entries.len() <= wanted(files, start).len() && forall|i: int|
            0 <= i < entries.len() ==> holds_origin(
                (#[trigger] entries[i]).file@,
                entries[i].index,
                &entries[i].segment,
                files,
                wanted(files, start)[i],
            ),
        None => entries.len() <= 1 && forall|i: int|
            0 <= i < entries.len() ==> is_missing_root(#[trigger] &entries[i], start),
    }
}

/// The segments of a file with the content `buf`: with `autosplit`, a file
/// of more than `SPLIT_FROM` bytes is read piece by piece, a new piece
/// starting with each chapter heading.
pub open spec fn file_segments(buf: Seq<u8>, autosplit: bool) -> Seq<SegmentView> {
    if autosplit && buf.len() > SPLIT_FROM {
        pieces(buf, chapters(buf, 1), 0, 0)
    } else {
        piece(buf, 0)
    }
}

/// Whether the files are those of the buffers: one for each, in the order
/// of the buffers, under its name and with the segments of its content.
pub open spec fn files_of(
    files: Seq<ParsedFile>,
    text: Seq<(String, Vec<u8>)>,
    autosplit: bool,
) -> bool {
    &&& files.len() == text.len()
    &&& forall|i: int|
        0 <= i < files.len() ==> (#[trigger] files[i]).name@ == vstd::utf8::encode_utf8(text[i].0@)
            && segment_views(files[i].segments@) == file_segments(text[i].1@, autosplit)
}

/// The size from which a file is split into pieces, where splitting is
/// asked for: one mebibyte.
pub const SPLIT_FROM: usize = 1048576;

/// Parses the content of the file `name`. With `autosplit`, a content of
/// more than `SPLIT_FROM` bytes is parsed piece by piece, a new piece
/// starting with each chapter heading.
pub fn parse_file(name: &String, content: &[u8], autosplit: bool) -> (file: ParsedFile)
    ensures
        forall|k: int| 0 <= k < file.segments@.len() ==> segment_wf(#[trigger] &file.segments@[k]),
        file.name@ == vstd::utf8::encode_utf8(name@),
        segment_views(file.segments@) == file_segments(content@, autosplit),
{
    let segments = if autosplit && content.len() > SPLIT_FROM {
        crate::parser::parse_split(content)
    } else {
        parse_segments(content)
    };
    ParsedFile { name: name_bytes(name), segments }
}

/// Parses each buffer of `text`, as `parse_file` does.
pub fn parse_files(text: &Vec<(String, Vec<u8>)>, autosplit: bool) -> (files: Vec<ParsedFile>)
    ensures
        files_wf(files@),
        files_of(files@, text@, autosplit),
{
    let mut files: Vec<ParsedFile> = Vec::new();
    let mut i: usize = 0;
    while i < text.len()
        invariant
            0 <= i <= text@.len(),
            files@.len() == i,
            files_wf(files@),
            forall|k: int|
                0 <= k < i ==> (#[trigger] files@[k]).name@ == vstd::utf8::encode_utf8(text@[k].0@)
                    && segment_views(files@[k].segments@) == file_segments(text@[k].1@, autosplit),
        decreases text@.len() - i,
    {
        let ghost before = files@;
        files.push(parse_file(&text[i].0, text[i].1.as_slice(), autosplit));
        proof {
            assert forall|f: int, k: int|
                0 <= f < files@.len() && 0 <= k < files@[f].segments@.len() implies segment_wf(
                #[trigger] &files@[f].segments@[k],
            ) by {
                if f < before.len() {
                    assert(files@[f] == before[f]);
                    assert(segment_wf(&before[f].segments@[k]));
                }
            }
        }
        i += 1;
    }
    files
}

/// Whether the segment is as the parser leaves it.
pub fn segment_ok(segment: &Segment) -> (r: bool)
    ensures
        r == segment_wf(segment),
{
    let n = segment.statements.len();
    if n == 0 {
        return false;
    }
    let mut i: usize = 0;
    while i < n
        invariant
            0 <= i <= n == segment.statements@.len(),
            forall|k: int|
                0 <= k < i && k < n - 1 ==> (#[trigger] segment.statements@[k]).stype
                    != StatementType::Eof && segment.statements@[k].stype
                    != StatementType::FileInclude,
            forall|k: int|
                0 <= k < i && (#[trigger] segment.statements@[k]).stype == StatementType::FileInclude
                    ==> segment.statements@[k].math@.len() == 1,
        decreases n - i,
    {
        let st = &segment.statements[i];
        if i < n - 1 && (st.stype == StatementType::Eof || st.stype == StatementType::FileInclude) {
            return false;
        }
        if st.stype == StatementType::FileInclude && st.math.len() != 1 {
            return false;
        }
        i += 1;
    }
    let mut d: usize = 0;
    while d < segment.diagnostics.len()
        invariant
            0 <= d <= segment.diagnostics@.len(),
            n == segment.statements@.len(),
            forall|k: int| 0 <= k < d ==> (#[trigger] segment.diagnostics@[k]).0 < n,
        decreases segment.diagnostics@.len() - d,
    {
        if segment.diagnostics[d].0 >= n {
            return false;
        }
        d += 1;
    }
    true
}

/// Whether every segment of every file is as the parser leaves it.
pub fn files_ok(files: &Vec<ParsedFile>) -> (r: bool)
    ensures
        r == files_wf(files@),
{
    let mut f: usize = 0;
    while f < files.len()
        invariant
            0 <= f <= files@.len(),
            forall|a: int, k: int|
                0 <= a < f && 0 <= k < files@[a].segments@.len() ==> segment_wf(
                    #[trigger] &files@[a].segments@[k],
                ),
        decreases files@.len() - f,
    {
        let mut k: usize = 0;
        while k < files[f].segments.len()
            invariant
                0 <= f < files@.len(),
                0 <= k <= files@[f as int].segments@.len(),
                forall|j: int|
                    0 <= j < k ==> segment_wf(#[trigger] &files@[f as int].segments@[j]),
            decreases files@[f as int].segments@.len() - k,
        {
            if !segment_ok(&files[f].segments[k]) {
                assert(!segment_wf(&files@[f as int].segments@[k as int]));
                return false;
            }
            k += 1;
        }
        f += 1;
    }
    true
}

/// The segments of a database in their logical order.
pub struct SegmentSet {
    autosplit: bool,
    order: SegmentOrder,
    segments: Vec<SegmentEntry>,
}

/// The first `n` origins are the same in both sequences.
pub open spec fn keys_agree(new_keys: Seq<SegmentKey>, old_keys: Seq<SegmentKey>, n: int) -> bool {
    &&& n <= new_keys.len()
    &&& n <= old_keys.len()
    &&& forall|k: int| 0 <= k < n ==> new_keys[k] == old_keys[k]
}

/// The place of the first of the origins from `from` on that is `key`.
pub open spec fn first_key(keys: Seq<SegmentKey>, key: SegmentKey, from: int) -> Option<int>
    decreases keys.len() - from,
{
    if from < 0 || from >= keys.len() {
        None
    } else if keys[from] == key {
        Some(from)
    } else {
        first_key(keys, key, from + 1)
    }
}

/// The whole numbers from `a` to `b`, `b` left out.
pub open spec fn numbers(a: int, b: int) -> Seq<int> {
    Seq::new(
        if b > a {
            (b - a) as nat
        } else {
            0nat
        },
        |i: int| a + i,
    )
}

/// How far the segments that are read have been matched with the segments
/// that were there: the place from which the next is looked for, the
/// number of those that found no match, and the places of the segments
/// that were passed over.
pub ghost struct Matching {
    pub next: int,
    pub fresh: int,
    pub lost: Seq<int>,
}

/// The matching of the first `n` segments that are read, whose origins are
/// `new_keys`, with the segments that were there, whose origins are
/// `old_keys`: each is matched with the first segment of its origin that
/// was there and stands behind the one that was matched last.
pub open spec fn matching(new_keys: Seq<SegmentKey>, old_keys: Seq<SegmentKey>, n: int) -> Matching
    decreases n,
{
    if n <= 0 {
        Matching { next: 0, fresh: 0, lost: Seq::empty() }
    } else {
        let m = matching(new_keys, old_keys, n - 1);
        match first_key(old_keys, new_keys[n - 1], m.next) {
            Some(q) => Matching { next: q + 1, fresh: m.fresh, lost: m.lost + numbers(m.next, q) },
            None => Matching { next: m.next, fresh: m.fresh + 1, lost: m.lost },
        }
    }
}

/// The identifier that comes as number `t` of those that are made live
/// anew: first those that wait, the one that was taken out last first,
/// then those that no segment has had, by their numbers.
pub open spec fn fresh_id(freed: Seq<SegmentId>, high_water: u32, t: int) -> SegmentId {
    if t < freed.len() {
        freed[freed.len() - 1 - t]
    } else {
        SegmentId((high_water + (t - freed.len())) as u32)
    }
}

/// The identifier of segment `i` of those that are read: that of the
/// segment it is matched with, or one that is made live anew.
pub open spec fn id_for(
    old_keys: Seq<SegmentKey>,
    old_ids: Seq<SegmentId>,
    freed: Seq<SegmentId>,
    high_water: u32,
    new_keys: Seq<SegmentKey>,
    i: int,
) -> SegmentId {
    let m = matching(new_keys, old_keys, i);
    match first_key(old_keys, new_keys[i], m.next) {
        Some(q) => old_ids[q],
        None => fresh_id(freed, high_water, m.fresh),
    }
}

/// The identifiers at the places `places`.
pub open spec fn ids_at(ids: Seq<SegmentId>, places: Seq<int>) -> Seq<SegmentId> {
    Seq::new(places.len(), |i: int| ids[places[i]])
}

/// Whether the segments of `after` have the identifiers that a reading
/// gives them when `before` was there: a segment keeps the identifier of
/// the segment of its origin that was there, as long as the segments come
/// in the order in which they were; any other gets an identifier anew.
pub open spec fn kept_ids(before: &SegmentSet, after: &SegmentSet) -> bool {
    forall|i: int|
        0 <= i < after.entries().len() ==> #[trigger] after.ids()[i] == id_for(
            before.keys(),
            before.ids(),
            before.freed(),
            before.high_water(),
            after.keys(),
            i,
        )
}

/// Whether `after` has left of the identifiers what a reading leaves when
/// `before` was there: the identifiers of the segments that were passed
/// over wait to be given again, behind those that waited and were not
/// given.
pub open spec fn left_ids(before: &SegmentSet, after: &SegmentSet) -> bool {
    let m = matching(after.keys(), before.keys(), after.keys().len() as int);
    let waited = before.freed().len();
    &&& after.freed() == before.freed().subrange(
        0,
        if m.fresh < waited {
            waited - m.fresh
        } else {
            0
        },
    ) + ids_at(before.ids(), m.lost + numbers(m.next, before.keys().len() as int))
    &&& after.high_water() == before.high_water() + if m.fresh < waited {
        0
    } else {
        m.fresh - waited
    }
}

/// The matching of the first `n` segments depends on their origins only.
pub proof fn lemma_matching_prefix(
    a: Seq<SegmentKey>,
    b: Seq<SegmentKey>,
    old_keys: Seq<SegmentKey>,
    n: int,
)
    requires
        n <= a.len(),
        n <= b.len(),
        forall|k: int| 0 <= k < n ==> a[k] == b[k],
    ensures
        matching(a, old_keys, n) == matching(b, old_keys, n),
    decreases n,
{
    if n > 0 {
        lemma_matching_prefix(a, b, old_keys, n - 1);
    }
}

/// As long as the origins are those that were there, each segment is
/// matched with the segment at its place.
pub proof fn lemma_matching_same(new_keys: Seq<SegmentKey>, old_keys: Seq<SegmentKey>, n: int)
    requires
        0 <= n,
        keys_agree(new_keys, old_keys, n),
    ensures
        matching(new_keys, old_keys, n) == (Matching { next: n, fresh: 0, lost: Seq::empty() }),
    decreases n,
{
    if n > 0 {
        lemma_matching_same(new_keys, old_keys, n - 1);
        assert(new_keys[n - 1] == old_keys[n - 1]);
        assert(first_key(old_keys, new_keys[n - 1], n - 1) == Some(n - 1));
        assert(numbers(n - 1, n - 1) =~= Seq::<int>::empty());
        assert(Seq::<int>::empty() + numbers(n - 1, n - 1) =~= Seq::<int>::empty());
    }
}

/// A segment up to which the origins are those that were there has the
/// identifier that the segment at its place had.
pub proof fn lemma_ids_kept(before: &SegmentSet, after: &SegmentSet, i: int)
    requires
        kept_ids(before, after),
        0 <= i < after.entries().len(),
        keys_agree(after.keys(), before.keys(), i + 1),
    ensures
        after.ids()[i] == before.ids()[i],
{
    lemma_matching_same(after.keys(), before.keys(), i);
    assert(after.keys()[i] == before.keys()[i]);
    assert(first_key(before.keys(), after.keys()[i], i) == Some(i));
}

/// Identifiers are stable: if the segments come from the same places of the
/// same files as before, whatever they hold, each has the identifier that
/// it had.
pub proof fn lemma_ids_stable(before: &SegmentSet, after: &SegmentSet)
    requires
        kept_ids(before, after),
        after.keys() == before.keys(),
    ensures
        after.ids() == before.ids(),
{
    assert(after.ids().len() == before.ids().len()) by {
        assert(after.keys().len() == after.entries().len());
        assert(before.keys().len() == before.entries().len());
    }
    assert forall|i: int| 0 <= i < after.ids().len() implies after.ids()[i] == before.ids()[i] by {
        assert(keys_agree(after.keys(), before.keys(), i + 1));
        lemma_ids_kept(before, after, i);
    }
    assert(after.ids() =~= before.ids());
}

/// A segment that comes between the segments that were there leaves them
/// their identifiers: if the origins are those that were there, with one
/// that was not there put in at place `p`, the segments before it and
/// behind it have the identifiers that they had, and the new one has the
/// first identifier that is made live anew.
pub proof fn lemma_ids_around(before: &SegmentSet, after: &SegmentSet, p: int, key: SegmentKey)
    requires
        kept_ids(before, after),
        0 <= p <= before.keys().len(),
        after.keys() == before.keys().insert(p, key),
        !before.keys().contains(key),
    ensures
        forall|i: int| 0 <= i < p ==> after.ids()[i] == before.ids()[i],
        after.ids()[p] == fresh_id(before.freed(), before.high_water(), 0),
        forall|i: int| p <= i < before.keys().len() ==> after.ids()[i + 1] == before.ids()[i],
{
    let old_keys = before.keys();
    let new_keys = after.keys();
    assert(new_keys.len() == after.entries().len());
    assert(old_keys.len() == before.entries().len());
    assert forall|i: int| 0 <= i < p implies after.ids()[i] == before.ids()[i] by {
        assert(keys_agree(new_keys, old_keys, i + 1));
        lemma_ids_kept(before, after, i);
    }
    lemma_matching_same(new_keys, old_keys, p);
    lemma_first_key_none(old_keys, key, p);
    assert(new_keys[p] == key);
    lemma_matching_around(new_keys, old_keys, p, key, old_keys.len() as int);
    assert forall|i: int| p <= i < old_keys.len() implies after.ids()[i + 1] == before.ids()[i] by {
        lemma_matching_around(new_keys, old_keys, p, key, i);
        assert(new_keys[i + 1] == old_keys[i]);
        assert(first_key(old_keys, new_keys[i + 1], i) == Some(i));
    }
}

/// Where no segment was there, none is matched.
pub proof fn lemma_matching_first(new_keys: Seq<SegmentKey>, n: int)
    requires
        0 <= n,
    ensures
        matching(new_keys, Seq::empty(), n) == (Matching { next: 0, fresh: n, lost: Seq::empty() }),
    decreases n,
{
    if n > 0 {
        lemma_matching_first(new_keys, n - 1);
    }
}

/// On a first reading the segments get their identifiers in their order:
/// where no segment was there and no identifier waits, segment `i` gets
/// the identifier with the number `i` above the least that no identifier
/// has had, which after `new` is 2.
pub proof fn lemma_ids_first(before: &SegmentSet, after: &SegmentSet, i: int)
    requires
        kept_ids(before, after),
        before.entries().len() == 0,
        before.freed().len() == 0,
        0 <= i < after.entries().len(),
    ensures
        after.ids()[i] == SegmentId((before.high_water() + i) as u32),
{
    assert(before.keys() =~= Seq::<SegmentKey>::empty());
    lemma_matching_first(after.keys(), i);
}

/// An origin that is not among the origins is not found.
pub proof fn lemma_first_key_none(keys: Seq<SegmentKey>, key: SegmentKey, from: int)
    requires
        0 <= from,
        forall|k: int| from <= k < keys.len() ==> keys[k] != key,
    ensures
        first_key(keys, key, from) is None,
    decreases keys.len() - from,
{
    if from < keys.len() {
        lemma_first_key_none(keys, key, from + 1);
    }
}

/// Behind a segment that was put in at place `p`, each segment is matched
/// with the segment that stood one place before.
pub proof fn lemma_matching_around(
    new_keys: Seq<SegmentKey>,
    old_keys: Seq<SegmentKey>,
    p: int,
    key: SegmentKey,
    i: int,
)
    requires
        0 <= p <= i <= old_keys.len(),
        new_keys == old_keys.insert(p, key),
        !old_keys.contains(key),
    ensures
        matching(new_keys, old_keys, i + 1) == (Matching { next: i, fresh: 1, lost: Seq::empty() }),
    decreases i - p,
{
    if i == p {
        lemma_matching_same(new_keys, old_keys, p);
        lemma_first_key_none(old_keys, key, p);
        assert(new_keys[p] == key);
    } else {
        lemma_matching_around(new_keys, old_keys, p, key, i - 1);
        assert(new_keys[i] == old_keys[i - 1]);
        assert(first_key(old_keys, new_keys[i], i - 1) == Some(i - 1));
        assert(numbers(i - 1, i - 1) =~= Seq::<int>::empty());
        assert(Seq::<int>::empty() + numbers(i - 1, i - 1) =~= Seq::<int>::empty());
    }
}

/// The identifiers of the entries.
pub open spec fn entry_ids(entries: Seq<SegmentEntry>) -> Seq<SegmentId> {
    Seq::new(entries.len(), |i: int| entries[i].id)
}

/// The origins of the entries.
pub open spec fn entry_keys(entries: Seq<SegmentEntry>) -> Seq<SegmentKey> {
    Seq::new(entries.len(), |i: int| (entries[i].file@, entries[i].index))
}

/// The entries are live in `order`, behind the mark and in rising places, and
/// each holds a segment as the parser leaves it.
pub open spec fn entries_wf(order: &SegmentOrder, entries: Seq<SegmentEntry>) -> bool {
    &&& order.wf()
    &&& forall|i: int|
        0 <= i < entries.len() ==> order@.contains((#[trigger] entries[i]).id) && entries[i].id
            != SegmentOrder::start_id() && segment_wf(&entries[i].segment)
    &&& forall|i: int, k: int|
        0 <= i < k < entries.len() ==> order.position((#[trigger] entries[i]).id) < order.position(
            (#[trigger] entries[k]).id,
        )
}

impl SegmentSet {
    /// The segments with their identifiers and origins, in logical order.
    pub closed spec fn entries(&self) -> Seq<SegmentEntry> {
        self.segments@
    }

    /// The identifiers that are live, in their order; the first is the mark
    /// that stands before every segment.
    pub closed spec fn order(&self) -> Seq<SegmentId> {
        self.order@
    }

    /// The identifiers that wait to be given again, the one that is given
    /// next last.
    pub closed spec fn freed(&self) -> Seq<SegmentId> {
        self.order.freed()
    }

    /// The least number that no identifier has had yet.
    pub closed spec fn high_water(&self) -> u32 {
        self.order.high_water()
    }

    /// The identifiers of the segments, in logical order.
    pub open spec fn ids(&self) -> Seq<SegmentId> {
        entry_ids(self.entries())
    }

    /// The origins of the segments, in logical order.
    pub open spec fn keys(&self) -> Seq<SegmentKey> {
        entry_keys(self.entries())
    }

    /// The invariant of the set: the identifiers of the segments are live and
    /// ordered as the segments are.
    pub closed spec fn wf(&self) -> bool {
        entries_wf(&self.order, self.segments@)
    }

    /// In a well-formed set every segment is as the parser leaves it, and no
    /// identifier is used twice.
    pub proof fn lemma_wf(&self)
        requires
            self.wf(),
        ensures
            forall|i: int|
                0 <= i < self.entries().len() ==> segment_wf(&(#[trigger] self.entries()[i]).segment),
            forall|i: int|
                0 <= i < self.entries().len() ==> self.order().contains(
                    (#[trigger] self.entries()[i]).id,
                ),
            forall|i: int, k: int|
                0 <= i < k < self.entries().len() ==> (#[trigger] self.entries()[i]).id != (
                #[trigger] self.entries()[k]).id,
            forall|i: int, k: int|
                0 <= i < k < self.entries().len() ==> self.order().index_of(
                    (#[trigger] self.entries()[i]).id,
                ) < self.order().index_of((#[trigger] self.entries()[k]).id),
    {
    }

    /// In a well-formed set statement `k` of entry `i` is the statement at
    /// the address made of the entry's identifier and `k`.
    pub proof fn lemma_statement_at(&self, i: int, k: usize)
        requires
            self.wf(),
            0 <= i < self.entries().len(),
            k < self.entries()[i].segment.statements@.len(),
        ensures
            self.statement_at(StatementAddress { segment_id: self.entries()[i].id, index: k })
                == Some(self.entries()[i].segment.statements@[k as int]),
    {
        self.lemma_wf();
        let address = StatementAddress { segment_id: self.entries()[i].id, index: k };
        assert(self.holds(i, address));
        let c = choose|c: int| self.holds(c, address);
        assert(self.holds(c, address));
        if c < i {
            assert(self.entries()[c].id != self.entries()[i].id);
        } else if i < c {
            assert(self.entries()[i].id != self.entries()[c].id);
        }
    }

    /// In a well-formed set the entry with the identifier of an address
    /// holds the statement at the address, if it has that many statements.
    pub proof fn lemma_statement_at_entry(&self, i: int, address: StatementAddress)
        requires
            self.wf(),
            0 <= i < self.entries().len(),
            self.entries()[i].id == address.segment_id,
            self.statement_at(address) is Some,
        ensures
            self.holds(i, address),
    {
        self.lemma_wf();
        let c = choose|c: int| self.holds(c, address);
        assert(self.holds(c, address));
        if c < i {
            assert(self.entries()[c].id != self.entries()[i].id);
        } else if i < c {
            assert(self.entries()[i].id != self.entries()[c].id);
        }
    }

    /// Whether large files are read piece by piece.
    pub closed spec fn splits(&self) -> bool {
        self.autosplit
    }

    /// A set without segments, which reads every file in one piece.
    pub fn new() -> (s: SegmentSet)
        ensures
            s.wf(),
            s.entries().len() == 0,
            s.order() == seq![SegmentOrder::start_id()],
            s.freed() == Seq::<SegmentId>::empty(),
            s.high_water() == 2,
            !s.splits(),
    {
        SegmentSet { autosplit: false, order: SegmentOrder::new(), segments: Vec::new() }
    }

    /// A set without segments, which reads large files piece by piece if
    /// `autosplit` says so.
    pub fn with_autosplit(autosplit: bool) -> (s: SegmentSet)
        ensures
            s.wf(),
            s.entries().len() == 0,
            s.order() == seq![SegmentOrder::start_id()],
            s.freed() == Seq::<SegmentId>::empty(),
            s.high_water() == 2,
            s.splits() == autosplit,
    {
        SegmentSet { autosplit, order: SegmentOrder::new(), segments: Vec::new() }
    }

    /// A set with the identifiers and the origins of this one, and segments
    /// without statements in place of its segments: what a later reading
    /// needs of the set that was there before.
    pub fn seed(&self) -> (s: SegmentSet)
        requires
            self.wf(),
        ensures
            s.wf(),
            s.ids() == self.ids(),
            s.keys() == self.keys(),
            s.order() == self.order(),
            s.freed() == self.freed(),
            s.high_water() == self.high_water(),
            s.splits() == self.splits(),
    {
        let order = self.order.duplicate();
        let mut segments: Vec<SegmentEntry> = Vec::new();
        let mut i: usize = 0;
        while i < self.segments.len()
            invariant
                0 <= i <= self.segments@.len(),
                segments@.len() == i,
                forall|k: int|
                    0 <= k < i ==> (#[trigger] segments@[k]).id == self.segments@[k].id
                        && segments@[k].file@ == self.segments@[k].file@ && segments@[k].index
                        == self.segments@[k].index && segment_wf(&segments@[k].segment),
            decreases self.segments@.len() - i,
        {
            let entry = &self.segments[i];
            let mut statements: Vec<Statement> = Vec::new();
            statements.push(
                Statement {
                    stype: StatementType::Eof,
                    label: Vec::new(),
                    math: Vec::new(),
                    proof: Vec::new(),
                    commands: Vec::new(),
                    start: 0,
                    end: 0,
                },
            );
            let segment = Segment { statements, diagnostics: Vec::new() };
            assert(segment_wf(&segment));
            let file = crate::parser::copy_range(entry.file.as_slice(), 0, entry.file.len());
            assert(entry.file@.subrange(0, entry.file@.len() as int) =~= entry.file@);
            segments.push(SegmentEntry { id: entry.id, file, index: entry.index, segment });
            i += 1;
        }
        let s = SegmentSet { autosplit: self.autosplit, order, segments };
        proof {
            assert(s.ids() =~= self.ids());
            assert(s.keys() =~= self.keys());
            assert forall|i: int, k: int| 0 <= i < k < s.segments@.len() implies s.order.position(
                (#[trigger] s.segments@[i]).id,
            ) < s.order.position((#[trigger] s.segments@[k]).id) by {
                assert(self.order.position(self.segments@[i].id) < self.order.position(
                    self.segments@[k].id,
                ));
            }
            assert forall|i: int| 0 <= i < s.segments@.len() implies s.order@.contains(
                (#[trigger] s.segments@[i]).id,
            ) && s.segments@[i].id != SegmentOrder::start_id() by {
                assert(self.order@.contains(self.segments@[i].id));
            }
        }
        s
    }

    /// Forgets every segment.
    pub fn clear(&mut self)
        ensures
            final(self).wf(),
            final(self).entries().len() == 0,
            final(self).order() == seq![SegmentOrder::start_id()],
            final(self).freed() == Seq::<SegmentId>::empty(),
            final(self).high_water() == 2,
            final(self).splits() == old(self).splits(),
    {
        self.order = SegmentOrder::new();
        self.segments = Vec::new();
    }

    /// The segments in logical order.
    pub fn segments(&self) -> (r: &Vec<SegmentEntry>)
        ensures
            r@ == self.entries(),
    {
        &self.segments
    }

    /// The number of segments.
    pub fn len(&self) -> (n: usize)
        ensures
            n == self.entries().len(),
    {
        self.segments.len()
    }

    /// The position, in logical order, of the segment with identifier `id`.
    pub fn segment_index(&self, id: SegmentId) -> (r: Option<usize>)
        ensures
            match r {
                Some(i) => i < self.entries().len() && self.entries()[i as int].id == id,
                None => forall|i: int| 0 <= i < self.entries().len() ==> self.entries()[i].id != id,
            },
    {
        let mut i: usize = 0;
        while i < self.segments.len()
            invariant
                0 <= i <= self.segments@.len(),
                forall|k: int| 0 <= k < i ==> self.segments@[k].id != id,
            decreases self.segments@.len() - i,
        {
            if self.segments[i].id == id {
                return Some(i);
            }
            i += 1;
        }
        None
    }

    /// The statement at `address`, if there is one.
    pub open spec fn statement_at(&self, address: StatementAddress) -> Option<Statement> {
        if exists|i: int| self.holds(i, address) {
            let i = choose|i: int| self.holds(i, address);
            Some(self.entries()[i].segment.statements@[address.index as int])
        } else {
            None
        }
    }

    /// Entry `i` is the segment of `address` and has a statement there.
    pub open spec fn holds(&self, i: int, address: StatementAddress) -> bool {
        &&& 0 <= i < self.entries().len()
        &&& self.entries()[i].id == address.segment_id
        &&& address.index < self.entries()[i].segment.statements@.len()
    }

    /// The statement at `address`, if there is one.
    pub fn statement(&self, address: StatementAddress) -> (r: Option<StatementRef<'_>>)
        requires
            self.wf(),
        ensures
            match r {
                Some(s) => s.address == address && self.statement_at(address) == Some(*s.statement),
                None => self.statement_at(address) is None,
            },
    {
        proof {
            self.lemma_wf();
        }
        match self.segment_index(address.segment_id) {
            Some(i) => {
                if address.index < self.segments[i].segment.statements.len() {
                    assert(self.holds(i as int, address));
                    Some(
                        StatementRef {
                            address,
                            statement: &self.segments[i].segment.statements[address.index],
                        },
                    )
                } else {
                    assert forall|k: int| !self.holds(k, address) by {
                        if self.holds(k, address) {
                            assert(self.entries()[k].id == self.entries()[i as int].id);
                        }
                    }
                    None
                }
            },
            None => None,
        }
    }
}

} // verus!

verus! {

impl SegmentSet {
    /// Replaces the segments by those that the file named `start` brings:
    /// its own, and behind each that ends with the inclusion of a file that
    /// has not been read yet, what that file brings. `files` holds the
    /// files that there are; where several have one name, the first counts.
    /// An inclusion of a file that is not among them earns a diagnostic; so
    /// does `start` itself, in a segment of its own, if no file has that
    /// name.
    ///
    /// A segment takes the identifier that the segment of the same origin
    /// had, where that keeps the identifiers in order; any other gets an
    /// identifier that was not live: the one that was freed last, or the one
    /// with the next number. The identifiers of the segments that are gone
    /// are freed, in their order. Identifiers that stay live keep their
    /// places relative to each other. Should the identifiers run out, the
    /// segments that get none are left out.
    pub fn splice(&mut self, start: &Token, files: Vec<ParsedFile>)
        requires
            old(self).wf(),
            files_wf(files@),
        ensures
            final(self).wf(),
            keeps_order(old(self).order(), final(self).order()),
            kept_ids(old(self), final(self)),
            left_ids(old(self), final(self)),
            forall|i: int|
                0 <= i < final(self).entries().len() ==> old(self).ids().contains(
                    #[trigger] final(self).ids()[i],
                ) || !old(self).order().contains(final(self).ids()[i]),
            final(self).splits() == old(self).splits(),
            spliced(final(self).entries(), files@, start@),
            old(self).order().len() + wanted_len(files@, start@) < u32::MAX ==> final(self).entries().len()
                == wanted_len(files@, start@),
    {
        // Take the files apart.
        let ghost all_files = files@;
        let mut files = files;
        let mut names: Vec<Token> = Vec::new();
        let mut rest: Vec<Vec<Segment>> = Vec::new();
        while files.len() > 0
            invariant
                files@.len() <= all_files.len(),
                files@ == all_files.subrange(0, files@.len() as int),
                names@.len() == all_files.len() - files@.len(),
                rest@.len() == names@.len(),
                forall|i: int|
                    0 <= i < names@.len() ==> (#[trigger] names@[i])@ == all_files[all_files.len()
                        - 1 - i].name@,
                forall|i: int|
                    0 <= i < rest@.len() ==> (#[trigger] rest@[i])@ == all_files[all_files.len() - 1
                        - i].segments@.reverse(),
            decreases files@.len(),
        {
            let ghost n = files@.len();
            let file = files.pop().unwrap();
            assert(file == all_files[n - 1]);
            names.push(file.name);
            rest.push(reversed(file.segments));
        }
        let names = reversed(names);
        let mut rest = reversed(rest);
        let mut visited: Vec<bool> = Vec::new();
        let mut n: usize = 0;
        while n < names.len()
            invariant
                0 <= n <= names@.len(),
                visited@.len() == n,
                forall|i: int| 0 <= i < n ==> !visited@[i],
            decreases names@.len() - n,
        {
            visited.push(false);
            n += 1;
        }
        proof {
            assert(visited@ =~= Seq::new(all_files.len(), |i: int| false));
        }
        // Put the segments in their order.
        let mut pending: Vec<Pending> = Vec::new();
        let ghost mut want: Seq<Origin> = Seq::empty();
        match find_name(&names, start, Ghost(all_files)) {
            Some(file) => {
                let added = expand(
                    &names,
                    &mut rest,
                    Ghost(all_files),
                    file,
                    &mut visited,
                    &mut pending,
                );
                proof {
                    want = added@;
                    assert(want == wanted(all_files, start@));
                }
            },
            None => {
                let mut statements: Vec<Statement> = Vec::new();
                statements.push(
                    Statement {
                        stype: StatementType::Eof,
                        label: Vec::new(),
                        math: Vec::new(),
                        proof: Vec::new(),
                        commands: Vec::new(),
                        start: 0,
                        end: 0,
                    },
                );
                let mut diagnostics: Vec<(usize, Diagnostic)> = Vec::new();
                diagnostics.push((0, Diagnostic::IncludeNotFound));
                let segment = Segment { statements, diagnostics };
                assert(segment_wf(&segment));
                let file = crate::parser::copy_range(start.as_slice(), 0, start.len());
                assert(start@.subrange(0, start@.len() as int) =~= start@);
                pending.push(Pending { file, index: 0, segment });
            },
        }
        let ghost pend = pending@;
        proof {
            assert(pend.len() == wanted_len(all_files, start@));
            assert forall|i: int| 0 <= i < pend.len() implies segment_wf(
                &(#[trigger] pend[i]).segment,
            ) by {
                if first_named(all_files, start@, 0) is Some {
                    let o = want[i];
                    assert(holds_origin(
                        pend[0 + i].file@,
                        pend[0 + i].index,
                        &pend[0 + i].segment,
                        all_files,
                        o,
                    ));
                    let parsed = all_files[o.0].segments@[o.1];
                    assert(segment_wf(&all_files[o.0].segments@[o.1]));
                    assert(pend[i].segment.statements == parsed.statements);
                    let d = pend[i].segment.diagnostics@;
                    assert forall|k: int| 0 <= k < d.len() implies (#[trigger] d[k]).0
                        < pend[i].segment.statements@.len() by {
                        if k < parsed.diagnostics@.len() {
                            assert(d[k] == parsed.diagnostics@[k]);
                        }
                    }
                }
            }
        }
        // Give each segment its identifier.
        let mut previous: Vec<SegmentEntry> = Vec::new();
        std::mem::swap(&mut previous, &mut self.segments);
        let ghost order0 = old(self).order@;
        let ghost old_keys = entry_keys(previous@);
        let ghost old_ids = entry_ids(previous@);
        let ghost freed0 = old(self).order.freed();
        let ghost water0 = old(self).order.high_water();
        let ghost pend_keys = Seq::new(pend.len(), |i: int| (pend[i].file@, pend[i].index));
        proof {
            old(self).order.lemma_wf();
        }
        let mut rest = reversed(pending);
        let mut out: Vec<SegmentEntry> = Vec::new();
        let mut gone: Vec<SegmentId> = Vec::new();
        let mut j: usize = 0;
        let mut last = self.order.start();
        let mut full = false;
        // For each entry of `out` the entry of `previous` whose identifier it
        // took, or -1; for each entry of `gone` the entry it was.
        let ghost mut source: Seq<int> = Seq::empty();
        let ghost mut lost: Seq<int> = Seq::empty();
        while rest.len() > 0 && !full
            invariant
                self.autosplit == old(self).autosplit,
                self.order.wf(),
                previous@ == old(self).segments@,
                entries_wf(&old(self).order, previous@),
                order0 == old(self).order@,
                old_keys == entry_keys(previous@),
                0 <= j <= previous@.len(),
                forall|a: SegmentId| order0.contains(a) ==> self.order@.contains(a),
                keeps_order(order0, self.order@),
                self.order@.contains(last),
                out@.len() == 0 ==> last == SegmentOrder::start_id(),
                out@.len() > 0 ==> last == out@.last().id,
                forall|i: int|
                    0 <= i < out@.len() ==> self.order@.contains((#[trigger] out@[i]).id)
                        && out@[i].id != SegmentOrder::start_id() && segment_wf(&out@[i].segment),
                forall|i: int, k: int|
                    0 <= i < k < out@.len() ==> self.order.position((#[trigger] out@[i]).id)
                        < self.order.position((#[trigger] out@[k]).id),
                forall|q: int|
                    j <= q < previous@.len() ==> self.order.position(last) < self.order.position(
                        (#[trigger] previous@[q]).id,
                    ),
                source.len() == out@.len(),
                forall|i: int|
                    0 <= i < out@.len() ==> if (#[trigger] source[i]) < 0 {
                        !order0.contains(out@[i].id)
                    } else {
                        source[i] < j && previous@[source[i]].id == out@[i].id
                    },
                lost.len() == gone@.len(),
                forall|i: int|
                    0 <= i < gone@.len() ==> 0 <= (#[trigger] lost[i]) < j && previous@[lost[i]].id
                        == gone@[i],
                forall|i: int, k: int| 0 <= i < k < gone@.len() ==> lost[i] < lost[k],
                forall|i: int, k: int|
                    0 <= i < out@.len() && 0 <= k < gone@.len() ==> (#[trigger] source[i]) != (
                    #[trigger] lost[k]),
                old_ids == entry_ids(previous@),
                freed0 == old(self).order.freed(),
                water0 == old(self).order.high_water(),
                pend_keys == Seq::new(pend.len(), |i: int| (pend[i].file@, pend[i].index)),
                matching(pend_keys, old_keys, out@.len() as int).next == j,
                matching(pend_keys, old_keys, out@.len() as int).lost == lost,
                matching(pend_keys, old_keys, out@.len() as int).fresh >= 0,
                ({
                    let t = matching(pend_keys, old_keys, out@.len() as int).fresh;
                    if t <= freed0.len() {
                        self.order.freed() == freed0.subrange(0, freed0.len() - t)
                            && self.order.high_water() == water0
                    } else {
                        self.order.freed().len() == 0 && self.order.high_water() == water0 + (t
                            - freed0.len())
                    }
                }),
                forall|i: int|
                    0 <= i < out@.len() ==> (#[trigger] out@[i]).id == id_for(
                        old_keys,
                        old_ids,
                        freed0,
                        water0,
                        pend_keys,
                        i,
                    ),
                out@.len() <= pend.len(),
                !full ==> out@.len() + rest@.len() == pend.len(),
                !full ==> forall|i: int|
                    0 <= i < rest@.len() ==> (#[trigger] rest@[i]) == pend[pend.len() - 1 - i],
                forall|i: int|
                    0 <= i < out@.len() ==> (#[trigger] out@[i]).file == pend[i].file
                        && out@[i].index == pend[i].index && out@[i].segment == pend[i].segment,
                forall|i: int| 0 <= i < pend.len() ==> segment_wf(&(#[trigger] pend[i]).segment),
                self.order@.len() <= order0.len() + out@.len(),
                full ==> order0.len() + pend.len() >= u32::MAX,
            decreases rest@.len() + if full { 0int } else { 1int },
        {
            let item = rest.pop().unwrap();
            let ghost cur = self.order@;
            let ghost out_before = out@;
            proof {
                self.order.lemma_wf();
                assert(item == pend[out@.len() as int]);
            }
            let id: SegmentId;
            match find_key(&previous, j, &item.file, item.index) {
                Some(q) => {
                    // The entries passed over lose their identifiers.
                    let mut k: usize = j;
                    let ghost lost0 = lost;
                    proof {
                        assert(lost =~= lost0 + numbers(j as int, j as int));
                    }
                    while k < q
                        invariant
                            j <= k <= q < previous@.len(),
                            lost == lost0 + numbers(j as int, k as int),
                            lost.len() == gone@.len(),
                            forall|i: int|
                                0 <= i < gone@.len() ==> 0 <= (#[trigger] lost[i]) < k
                                    && previous@[lost[i]].id == gone@[i],
                            forall|i: int, m: int| 0 <= i < m < gone@.len() ==> lost[i] < lost[m],
                            forall|i: int, m: int|
                                0 <= i < out@.len() && 0 <= m < gone@.len() ==> (
                                #[trigger] source[i]) != (#[trigger] lost[m]),
                            source.len() == out@.len(),
                            forall|i: int| 0 <= i < out@.len() ==> (#[trigger] source[i]) < j,
                        decreases q - k,
                    {
                        gone.push(previous[k].id);
                        proof {
                            lost = lost.push(k as int);
                            assert(lost =~= lost0 + numbers(j as int, k + 1));
                        }
                        k += 1;
                    }
                    id = previous[q].id;
                    proof {
                        assert(pend_keys[out@.len() as int] == (item.file@, item.index));
                        assert(old_ids[q as int] == id);
                        source = source.push(q as int);
                        assert(old(self).order@.contains(id));
                        let pid = self.order.position(id);
                        assert forall|i: int| 0 <= i < out_before.len() implies self.order.position(
                            (#[trigger] out_before[i]).id,
                        ) < pid by {
                            if i < out_before.len() - 1 {
                                assert(self.order.position(out_before[i].id) < self.order.position(
                                    out_before[out_before.len() - 1].id,
                                ));
                            }
                        }
                        assert forall|r: int| q < r < previous@.len() implies pid
                            < self.order.position((#[trigger] previous@[r]).id) by {
                            let a = previous@[q as int].id;
                            let b = previous@[r].id;
                            assert(old(self).order.position(a) < old(self).order.position(b));
                            assert(order0.index_of(a) < order0.index_of(b));
                            assert(cur.index_of(a) < cur.index_of(b));
                        }
                    }
                    let total = previous.len();
                    assert(q < total);
                    j = q + 1;
                },
                None => {
                    let fresh = if j < previous.len() {
                        self.order.insert_between(last, previous[j].id)
                    } else {
                        self.order.insert_after(last)
                    };
                    match fresh {
                        Some(f) => {
                            id = f;
                        },
                        None => {
                            full = true;
                            continue ;
                        },
                    }
                    proof {
                        assert(pend_keys[out@.len() as int] == (item.file@, item.index));
                        let t = matching(pend_keys, old_keys, out@.len() as int).fresh;
                        assert(id == fresh_id(freed0, water0, t));
                        source = source.push(-1);
                        let p = cur.index_of(last) + 1;
                        let next = self.order@;
                        assert(0 <= p - 1 < cur.len() && cur[p - 1] == last);
                        assert forall|a: SegmentId| cur.contains(a) implies next.contains(a)
                            && next.index_of(a) == if cur.index_of(a) < p {
                            cur.index_of(a)
                        } else {
                            cur.index_of(a) + 1
                        } by {
                            lemma_insert_position(cur, p, id, a);
                        }
                        lemma_insert_position(cur, p, id, last);
                        assert forall|a: SegmentId, b: SegmentId|
                            order0.contains(a) && order0.contains(b) && next.contains(a)
                                && next.contains(b) implies (order0.index_of(a) < order0.index_of(b))
                            == (next.index_of(a) < next.index_of(b)) by {
                            assert(cur.contains(a) && cur.contains(b));
                            assert((order0.index_of(a) < order0.index_of(b)) == (cur.index_of(a)
                                < cur.index_of(b)));
                        }
                        assert(id != SegmentOrder::start_id()) by {
                            assert(cur.contains(SegmentOrder::start_id()));
                        }
                        assert forall|i: int| 0 <= i < out_before.len() implies self.order.position(
                            (#[trigger] out_before[i]).id,
                        ) < self.order.position(id) by {
                            if i < out_before.len() - 1 {
                                assert(cur.index_of(out_before[i].id) < cur.index_of(
                                    out_before[out_before.len() - 1].id,
                                ));
                            }
                        }
                        assert forall|i: int, k: int|
                            0 <= i < k < out_before.len() implies self.order.position(
                            (#[trigger] out_before[i]).id,
                        ) < self.order.position((#[trigger] out_before[k]).id) by {
                            assert(cur.index_of(out_before[i].id) < cur.index_of(out_before[k].id));
                        }
                    }
                },
            }
            let ghost key = (item.file@, item.index);
            out.push(SegmentEntry { id, file: item.file, index: item.index, segment: item.segment });
            last = id;
            proof {
                let n = out_before.len() as int;
                assert(out@.len() == n + 1);
                assert forall|i: int| 0 <= i < out@.len() implies (#[trigger] out@[i]).id == id_for(
                    old_keys,
                    old_ids,
                    freed0,
                    water0,
                    pend_keys,
                    i,
                ) by {
                    if i < n {
                        assert(out@[i] == out_before[i]);
                    }
                }
            }
        }
        // What is left of the previous entries loses its identifier too.
        let ghost matched = matching(pend_keys, old_keys, out@.len() as int);
        proof {
            assert(lost =~= matched.lost + numbers(matched.next, j as int));
        }
        while j < previous.len()
            invariant
                0 <= j <= previous@.len(),
                matched.next <= j,
                lost == matched.lost + numbers(matched.next, j as int),
                lost.len() == gone@.len(),
                forall|i: int|
                    0 <= i < gone@.len() ==> 0 <= (#[trigger] lost[i]) < j && previous@[lost[i]].id
                        == gone@[i],
                forall|i: int, k: int| 0 <= i < k < gone@.len() ==> lost[i] < lost[k],
                forall|i: int, k: int|
                    0 <= i < out@.len() && 0 <= k < gone@.len() ==> (#[trigger] source[i]) != (
                    #[trigger] lost[k]),
                source.len() == out@.len(),
                forall|i: int| 0 <= i < out@.len() ==> (#[trigger] source[i]) < j,
            decreases previous@.len() - j,
        {
            gone.push(previous[j].id);
            proof {
                lost = lost.push(j as int);
                assert(lost =~= matched.lost + numbers(matched.next, j + 1));
            }
            j += 1;
        }
        let ghost order1 = self.order@;
        let ghost freed1 = self.order.freed();
        let ghost water1 = self.order.high_water();
        proof {
            assert forall|i: int, k: int| 0 <= i < k < gone@.len() implies gone@[i] != gone@[k] by {
                assert(lost[i] < lost[k]);
                assert(old(self).order.position(previous@[lost[i]].id) < old(self).order.position(
                    previous@[lost[k]].id,
                ));
            }
            assert forall|i: int| 0 <= i < gone@.len() implies order1.contains(#[trigger] gone@[i])
                && gone@[i] != SegmentOrder::start_id() by {
                assert(previous@[lost[i]].id == gone@[i]);
            }
        }
        release(&mut self.order, &gone);
        proof {
            let fin = self.order@;
            assert forall|i: int| 0 <= i < out@.len() implies fin.contains((#[trigger] out@[i]).id) by {
                let a = out@[i].id;
                if gone@.contains(a) {
                    let k = choose|k: int| 0 <= k < gone@.len() && gone@[k] == a;
                    assert(previous@[lost[k]].id == a);
                    assert(order0.contains(a));
                    assert(source[i] >= 0);
                    assert(source[i] != lost[k]);
                    if source[i] < lost[k] {
                        assert(old(self).order.position(previous@[source[i]].id) < old(
                            self,
                        ).order.position(previous@[lost[k]].id));
                    } else {
                        assert(old(self).order.position(previous@[lost[k]].id) < old(
                            self,
                        ).order.position(previous@[source[i]].id));
                    }
                }
            }
            assert forall|i: int, k: int| 0 <= i < k < out@.len() implies self.order.position(
                (#[trigger] out@[i]).id,
            ) < self.order.position((#[trigger] out@[k]).id) by {
                assert(order1.index_of(out@[i].id) < order1.index_of(out@[k].id));
            }
            assert forall|a: SegmentId, b: SegmentId|
                order0.contains(a) && order0.contains(b) && fin.contains(a) && fin.contains(
                    b,
                ) implies (order0.index_of(a) < order0.index_of(b)) == (fin.index_of(a)
                < fin.index_of(b)) by {
                assert(order1.contains(a) && order1.contains(b));
                assert((order0.index_of(a) < order0.index_of(b)) == (order1.index_of(a)
                    < order1.index_of(b)));
                assert((order1.index_of(a) < order1.index_of(b)) == (fin.index_of(a)
                    < fin.index_of(b)));
            }
        }
        self.segments = out;
        proof {
            let new_keys = final(self).keys();
            let count = new_keys.len() as int;
            assert(old(self).keys() == old_keys);
            assert(old(self).ids() == old_ids);
            let new_ids = final(self).ids();
            assert forall|i: int| 0 <= i < new_ids.len() implies #[trigger] new_ids[i] == id_for(
                old_keys,
                old_ids,
                freed0,
                water0,
                new_keys,
                i,
            ) by {
                assert(new_keys[i] == pend_keys[i]);
                lemma_matching_prefix(new_keys, pend_keys, old_keys, i);
            }
            lemma_matching_prefix(new_keys, pend_keys, old_keys, count);
            assert(matching(new_keys, old_keys, count) == matched);
            assert(gone@ =~= ids_at(old_ids, lost)) by {
                assert forall|i: int| 0 <= i < gone@.len() implies gone@[i] == ids_at(
                    old_ids,
                    lost,
                )[i] by {
                    assert(previous@[lost[i]].id == gone@[i]);
                }
            }
            assert(final(self).order.freed() == freed1 + gone@);
            assert forall|i: int| 0 <= i < final(self).entries().len() implies old(
                self,
            ).ids().contains(#[trigger] final(self).ids()[i]) || !old(self).order().contains(
                final(self).ids()[i],
            ) by {
                if source[i] >= 0 {
                    assert(old(self).ids()[source[i]] == final(self).ids()[i]);
                }
            }
            let entries = self.segments@;
            if first_named(all_files, start@, 0) is Some {
                assert forall|i: int| 0 <= i < entries.len() implies holds_origin(
                    (#[trigger] entries[i]).file@,
                    entries[i].index,
                    &entries[i].segment,
                    all_files,
                    wanted(all_files, start@)[i],
                ) by {
                    assert(holds_origin(
                        pend[0 + i].file@,
                        pend[0 + i].index,
                        &pend[0 + i].segment,
                        all_files,
                        want[i],
                    ));
                }
            } else {
                assert forall|i: int| 0 <= i < entries.len() implies is_missing_root(
                    #[trigger] &entries[i],
                    start@,
                ) by {
                    assert(entries[i].segment == pend[i].segment);
                }
            }
        }
    }

    /// Parses the buffers of `text` and replaces the segments by those that
    /// the file `start` brings, as `splice` says: there are files, one for
    /// each buffer, with the segments that the content of the buffer
    /// parses into, which `splice` makes the segments of.
    pub fn read(&mut self, start: String, text: Vec<(String, Vec<u8>)>)
        requires
            old(self).wf(),
        ensures
            final(self).wf(),
            final(self).splits() == old(self).splits(),
            keeps_order(old(self).order(), final(self).order()),
            kept_ids(old(self), final(self)),
            left_ids(old(self), final(self)),
            forall|i: int|
                0 <= i < final(self).entries().len() ==> old(self).ids().contains(
                    #[trigger] final(self).ids()[i],
                ) || !old(self).order().contains(final(self).ids()[i]),
            exists|files: Seq<ParsedFile>|
                #![trigger files_wf(files)]
                {
                    &&& files_wf(files)
                    &&& files_of(files, text@, old(self).splits())
                    &&& spliced(final(self).entries(), files, vstd::utf8::encode_utf8(start@))
                    &&& old(self).order().len() + wanted_len(files, vstd::utf8::encode_utf8(start@))
                        < u32::MAX ==> final(self).entries().len() == wanted_len(
                        files,
                        vstd::utf8::encode_utf8(start@),
                    )
                },
    {
        let files = parse_files(&text, self.autosplit);
        let ghost parsed = files@;
        let root = name_bytes(&start);
        self.splice(&root, files);
        proof {
            assert(files_wf(parsed) && files_of(parsed, text@, old(self).splits()) && spliced(
                self.entries(),
                parsed,
                vstd::utf8::encode_utf8(start@),
            ));
        }
    }

    /// The diagnostics of reading, each with the address of its statement.
    pub fn parse_diagnostics(&self) -> (r: Vec<(StatementAddress, Diagnostic)>)
        ensures
            r@ == parse_diagnostics_of(self.entries(), self.entries().len() as int),
    {
        let mut r: Vec<(StatementAddress, Diagnostic)> = Vec::new();
        let mut i: usize = 0;
        while i < self.segments.len()
            invariant
                0 <= i <= self.segments@.len(),
                r@ == parse_diagnostics_of(self.entries(), i as int),
            decreases self.segments@.len() - i,
        {
            let entry = &self.segments[i];
            let ghost base = r@;
            let mut k: usize = 0;
            while k < entry.segment.diagnostics.len()
                invariant
                    0 <= k <= entry.segment.diagnostics@.len(),
                    r@ == base + segment_diagnostics(*entry).subrange(0, k as int),
                decreases entry.segment.diagnostics@.len() - k,
            {
                let d = entry.segment.diagnostics[k];
                r.push((StatementAddress { segment_id: entry.id, index: d.0 }, d.1));
                assert(r@ =~= base + segment_diagnostics(*entry).subrange(0, k + 1));
                k += 1;
            }
            assert(segment_diagnostics(*entry).subrange(0, k as int) =~= segment_diagnostics(
                *entry,
            ));
            i += 1;
        }
        r
    }
}

/// The names of the files that the first `n` of the diagnostics `found`
/// miss: for each inclusion that was not found the name of its file, each
/// name once, in the order of the diagnostics.
pub open spec fn missing_among(
    sset: &SegmentSet,
    found: Seq<(StatementAddress, Diagnostic)>,
    n: int,
) -> Seq<Seq<u8>>
    decreases n,
{
    if n <= 0 {
        Seq::empty()
    } else {
        let before = missing_among(sset, found, n - 1);
        match (found[n - 1].1, sset.statement_at(found[n - 1].0)) {
            (Diagnostic::IncludeNotFound, Some(st)) => if st.math@.len() > 0 && !before.contains(
                st.math@[0]@,
            ) {
                before.push(st.math@[0]@)
            } else {
                before
            },
            _ => before,
        }
    }
}

/// Whether `name` is among `names`.
fn has_name(names: &Vec<Token>, name: &Token) -> (r: bool)
    ensures
        r == words(names).contains(name@),
{
    let mut i: usize = 0;
    while i < names.len()
        invariant
            0 <= i <= names@.len(),
            forall|k: int| 0 <= k < i ==> words(names)[k] != name@,
        decreases names@.len() - i,
    {
        if bytes_eq(names[i].as_slice(), name.as_slice()) {
            assert(words(names)[i as int] == name@);
            return true;
        }
        i += 1;
    }
    false
}

impl SegmentSet {
    /// The names of the files that the set misses: those whose inclusion
    /// was not found, each once, in the order of the source.
    pub fn missing_files(&self) -> (r: Vec<Token>)
        requires
            self.wf(),
        ensures
            words(&r) == missing_among(
                self,
                parse_diagnostics_of(self.entries(), self.entries().len() as int),
                parse_diagnostics_of(self.entries(), self.entries().len() as int).len() as int,
            ),
    {
        let found = self.parse_diagnostics();
        let mut r: Vec<Token> = Vec::new();
        let mut i: usize = 0;
        proof {
            assert(words(&r) =~= Seq::<Seq<u8>>::empty());
        }
        while i < found.len()
            invariant
                self.wf(),
                0 <= i <= found@.len(),
                words(&r) == missing_among(self, found@, i as int),
            decreases found@.len() - i,
        {
            match found[i].1 {
                Diagnostic::IncludeNotFound => match self.statement(found[i].0) {
                    Some(sref) => {
                        if sref.statement.math.len() > 0 && !has_name(&r, &sref.statement.math[0]) {
                            let name = &sref.statement.math[0];
                            let ghost before = words(&r);
                            r.push(copy_range(name.as_slice(), 0, name.len()));
                            proof {
                                assert(name@.subrange(0, name@.len() as int) =~= name@);
                                assert(words(&r) =~= before.push(name@));
                            }
                        }
                    },
                    None => {},
                },
                _ => {},
            }
            i += 1;
        }
        r
    }
}

/// The diagnostics of one segment, each with the address of its statement.
pub open spec fn segment_diagnostics(entry: SegmentEntry) -> Seq<(StatementAddress, Diagnostic)> {
    Seq::new(
        entry.segment.diagnostics@.len(),
        |k: int|
            (
                StatementAddress { segment_id: entry.id, index: entry.segment.diagnostics@[k].0 },
                entry.segment.diagnostics@[k].1,
            ),
    )
}

/// The diagnostics of the first `n` segments, in logical order.
pub open spec fn parse_diagnostics_of(entries: Seq<SegmentEntry>, n: int) -> Seq<
    (StatementAddress, Diagnostic),
>
    decreases n,
{
    if n <= 0 {
        Seq::empty()
    } else {
        parse_diagnostics_of(entries, n - 1) + segment_diagnostics(entries[n - 1])
    }
}

} // verus!
