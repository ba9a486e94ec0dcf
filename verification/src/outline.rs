//! The outline of a database: the tree of its heading comments.

use crate::parser::copy_range;
use crate::parser::Statement;
use crate::parser::StatementAddress;
use crate::parser::StatementType;
use crate::parser::Token;
use crate::segment_set::SegmentSet;
use crate::source::words;
use vstd::prelude::*;

verus! {

/// A heading of the database with the headings below it.
pub struct OutlineNode {
    /// The depth of the heading: 0 for the database as a whole, then from 1
    /// for a major part to 4.
    pub level: u8,
    /// The words of the title.
    pub name: Vec<Token>,
    /// The heading comment; for the database as a whole, nothing.
    pub address: Option<StatementAddress>,
    /// The headings directly below, in order.
    pub children: Vec<OutlineNode>,
}

/// A heading of the source: its depth, its comment, and the words of its
/// title.
pub ghost struct Heading {
    pub level: u8,
    pub address: StatementAddress,
    pub name: Seq<Seq<u8>>,
}

/// The headings of `nodes` and below, in the order of the source.
pub open spec fn headings(nodes: Seq<OutlineNode>) -> Seq<Heading>
    decreases nodes,
{
    if nodes.len() == 0 {
        Seq::empty()
    } else {
        headings(nodes.drop_last()) + node_headings(nodes.last())
    }
}

/// The heading of `node`, unless it is the database as a whole, and the
/// headings below it, in the order of the source.
pub open spec fn node_headings(node: OutlineNode) -> Seq<Heading>
    decreases node,
{
    (match node.address {
        Some(a) => seq![Heading { level: node.level, address: a, name: words(&node.name) }],
        None => Seq::empty(),
    }) + headings(node.children@)
}

/// Every node below `node` is a heading, and stands below the last heading
/// before it that is less deep: it lies deeper than the heading it is
/// below, and no heading that is below the same heading and comes before
/// it is less deep than it.
pub open spec fn nested(node: OutlineNode) -> bool
    decreases node,
{
    &&& forall|i: int|
        0 <= i < node.children@.len() ==> node.level < (#[trigger] node.children@[i]).level
            && node.children@[i].address is Some && nested(node.children@[i])
    &&& forall|i: int, j: int|
        #![trigger node.children@[i], node.children@[j]]
        0 <= i < j < node.children@.len() ==> node.children@[j].level
            <= node.children@[i].level
}

/// The heading comments of the first `n` segments, in the order of the
/// source, each with its depth.
pub open spec fn heading_comments(sset: &SegmentSet, n: int) -> Seq<Heading>
    decreases n,
{
    if n <= 0 {
        Seq::empty()
    } else {
        heading_comments(sset, n - 1) + segment_headings(
            sset,
            n - 1,
            sset.entries()[n - 1].segment.statements@.len() as int,
        )
    }
}

/// The heading comments among the first `k` statements of segment `i`.
pub open spec fn segment_headings(sset: &SegmentSet, i: int, k: int) -> Seq<Heading>
    decreases k,
{
    if k <= 0 {
        Seq::empty()
    } else {
        segment_headings(sset, i, k - 1) + statement_heading(
            &sset.entries()[i].segment.statements@[k - 1],
            StatementAddress { segment_id: sset.entries()[i].id, index: (k - 1) as usize },
        )
    }
}

/// The heading that the statement at `address` is, if it is one: a heading
/// comment of a depth from 1 on, whose words are the title.
pub open spec fn statement_heading(st: &Statement, address: StatementAddress) -> Seq<Heading> {
    match st.stype {
        StatementType::HeadingComment(level) => if level > 0 {
            seq![Heading { level, address, name: words(&st.math) }]
        } else {
            Seq::empty()
        },
        _ => Seq::empty(),
    }
}

/// A copy of the words.
fn copy_words(tokens: &Vec<Token>) -> (r: Vec<Token>)
    ensures
        words(&r) == words(tokens),
{
    let mut r: Vec<Token> = Vec::new();
    let mut w: usize = 0;
    while w < tokens.len()
        invariant
            0 <= w <= tokens@.len(),
            r@.len() == w,
            forall|i: int| 0 <= i < w ==> (#[trigger] r@[i])@ == tokens@[i]@,
        decreases tokens@.len() - w,
    {
        let word = copy_range(tokens[w].as_slice(), 0, tokens[w].len());
        assert(word@ =~= tokens@[w as int]@);
        r.push(word);
        w += 1;
    }
    assert(words(&r) =~= words(tokens));
    r
}

/// The open headings while the outline is built: the database as a whole at
/// the bottom, then each heading that is still open, deeper and deeper.
struct Open {
    stack: Vec<OutlineNode>,
}

impl Open {
    spec fn wf(&self) -> bool {
        &&& self.stack@.len() > 0
        &&& self.stack@[0].level == 0
        &&& self.stack@[0].address is None
        &&& self.stack@[0].name@.len() == 0
        &&& forall|i: int| 0 <= i < self.stack@.len() ==> nested(#[trigger] self.stack@[i])
        &&& forall|i: int|
            0 < i < self.stack@.len() ==> (#[trigger] self.stack@[i]).address is Some
                && self.stack@[i - 1].level < self.stack@[i].level
        &&& forall|i: int, c: int|
            #![trigger self.stack@[i], self.stack@[i - 1].children@[c]]
            0 < i < self.stack@.len() && 0 <= c < self.stack@[i - 1].children@.len()
                ==> self.stack@[i].level <= self.stack@[i - 1].children@[c].level
    }

    /// The headings seen so far, in the order of the source.
    spec fn seen(&self) -> Seq<Heading> {
        open_headings(self.stack@)
    }

    /// Closes the innermost open heading: it goes below the one before.
    fn close(&mut self)
        requires
            old(self).wf(),
            old(self).stack@.len() > 1,
        ensures
            final(self).wf(),
            final(self).stack@.len() == old(self).stack@.len() - 1,
            final(self).seen() == old(self).seen(),
            final(self).stack@.last().level == old(self).stack@[old(self).stack@.len() - 2].level,
            final(self).stack@.last().children@ == old(self).stack@[old(self).stack@.len()
                - 2].children@.push(old(self).stack@.last()),
    {
        let ghost before = self.stack@;
        let node = self.stack.pop().unwrap();
        let mut parent = self.stack.pop().unwrap();
        let ghost kids = parent.children@;
        let ghost old_parent = parent;
        parent.children.push(node);
        proof {
            assert(parent.children@.drop_last() =~= kids);
            assert(headings(parent.children@) == headings(kids) + node_headings(node));
            assert(node_headings(parent) =~= node_headings(old_parent) + node_headings(node));
            assert(before[before.len() - 1] == node);
            assert(before[before.len() - 2] == old_parent);
            assert forall|i: int| 0 <= i < parent.children@.len() implies parent.level < (
            #[trigger] parent.children@[i]).level && parent.children@[i].address is Some
                && nested(parent.children@[i]) by {
                if i < kids.len() {
                    assert(parent.children@[i] == old_parent.children@[i]);
                }
            }
            assert forall|i: int, j: int|
                #![trigger parent.children@[i], parent.children@[j]]
                0 <= i < j < parent.children@.len() implies parent.children@[j].level
                <= parent.children@[i].level by {
                assert(parent.children@[i] == old_parent.children@[i]);
                if j < kids.len() {
                    assert(parent.children@[j] == old_parent.children@[j]);
                } else {
                    assert(before[before.len() - 1].level <= before[before.len()
                        - 2].children@[i].level);
                }
            }
            assert(nested(parent));
        }
        self.stack.push(parent);
        proof {
            let after = self.stack@;
            let n = before.len() as int;
            assert(before.drop_last().drop_last() =~= after.drop_last());
            assert(before.drop_last().last() == old_parent);
            assert(open_headings(before) == open_headings(before.drop_last()) + node_headings(
                node,
            ));
            assert(open_headings(before.drop_last()) == open_headings(after.drop_last())
                + node_headings(old_parent));
            assert(open_headings(after) == open_headings(after.drop_last()) + node_headings(
                parent,
            ));
            assert(open_headings(after) =~= open_headings(before));
            assert forall|i: int| 0 <= i < after.len() implies nested(#[trigger] after[i]) by {
                if i < after.len() - 1 {
                    assert(after[i] == before[i]);
                }
            }
            assert forall|i: int| 0 < i < after.len() implies (#[trigger] after[i]).address is Some
                && after[i - 1].level < after[i].level by {
                assert(before[i].address is Some);
                assert(before[i - 1].level < before[i].level);
                if i < after.len() - 1 {
                    assert(after[i] == before[i]);
                }
                if i - 1 < after.len() - 1 {
                    assert(after[i - 1] == before[i - 1]);
                }
            }
            assert forall|i: int, c: int|
                #![trigger after[i], after[i - 1].children@[c]]
                0 < i < after.len() && 0 <= c < after[i - 1].children@.len() implies after[i].level
                <= after[i - 1].children@[c].level by {
                assert(after[i - 1] == before[i - 1]);
                assert(after[i].level == before[i].level);
                assert(before[i].level <= before[i - 1].children@[c].level);
            }
        }
    }
}

/// The headings of the open nodes and below them, in the order of the source.
spec fn open_headings(stack: Seq<OutlineNode>) -> Seq<Heading>
    decreases stack.len(),
{
    if stack.len() == 0 {
        Seq::empty()
    } else {
        open_headings(stack.drop_last()) + node_headings(stack.last())
    }
}

/// Builds the outline of the database: a heading comes below the last
/// heading before it that is less deep.
pub fn build_outline(sset: &SegmentSet) -> (root: OutlineNode)
    ensures
        root.level == 0,
        root.address is None,
        root.name@.len() == 0,
        nested(root),
        node_headings(root) == heading_comments(sset, sset.entries().len() as int),
{
    let mut open = Open { stack: Vec::new() };
    open.stack.push(OutlineNode { level: 0, name: Vec::new(), address: None, children: Vec::new() });
    proof {
        let s = open.stack@;
        assert(s.drop_last() =~= Seq::<OutlineNode>::empty());
        assert(s.last() == s[0]);
        assert(s[0].children@ =~= Seq::<OutlineNode>::empty());
        assert(headings(s[0].children@) =~= Seq::<Heading>::empty());
        assert(node_headings(s[0]) =~= Seq::<Heading>::empty());
        assert(open_headings(s.drop_last()) =~= Seq::<Heading>::empty());
        assert(open.seen() =~= Seq::<Heading>::empty());
        assert(nested(s[0]));
    }
    let segments = sset.segments();
    let mut i: usize = 0;
    while i < segments.len()
        invariant
            0 <= i <= segments@.len(),
            segments@ == sset.entries(),
            open.wf(),
            open.stack@.last().children@.len() == 0,
            open.seen() == heading_comments(sset, i as int),
        decreases segments@.len() - i,
    {
        let entry = &segments[i];
        proof {
            assert(segment_headings(sset, i as int, 0) =~= Seq::<Heading>::empty());
        }
        let mut k: usize = 0;
        while k < entry.segment.statements.len()
            invariant
                0 <= i < segments@.len(),
                segments@ == sset.entries(),
                *entry == segments@[i as int],
                0 <= k <= entry.segment.statements@.len(),
                open.wf(),
                open.stack@.last().children@.len() == 0,
                open.seen() == heading_comments(sset, i as int) + segment_headings(
                    sset,
                    i as int,
                    k as int,
                ),
            decreases entry.segment.statements@.len() - k,
        {
            let st = &entry.segment.statements[k];
            let ghost so_far = heading_comments(sset, i as int) + segment_headings(
                sset,
                i as int,
                k as int,
            );
            proof {
                let address = StatementAddress { segment_id: entry.id, index: k };
                assert(segment_headings(sset, i as int, k + 1) == segment_headings(
                    sset,
                    i as int,
                    k as int,
                ) + statement_heading(st, address));
                assert(heading_comments(sset, i as int) + segment_headings(sset, i as int, k + 1)
                    =~= so_far + statement_heading(st, address));
            }
            match st.stype {
                StatementType::HeadingComment(level) => {
                    if level > 0 {
                        let address = StatementAddress { segment_id: entry.id, index: k };
                        let ghost base = open.seen();
                        while open.stack.len() > 1 && open.stack[open.stack.len() - 1].level
                            >= level
                            invariant
                                open.wf(),
                                open.seen() == base,
                                forall|c: int|
                                    0 <= c < open.stack@.last().children@.len() ==> level <= (
                                    #[trigger] open.stack@.last().children@[c]).level,
                            decreases open.stack@.len(),
                        {
                            let ghost before = open.stack@;
                            open.close();
                            proof {
                                let n = before.len() as int;
                                assert forall|c: int|
                                    0 <= c < open.stack@.last().children@.len() implies level <= (
                                #[trigger] open.stack@.last().children@[c]).level by {
                                    if c < before[n - 2].children@.len() {
                                        assert(before[n - 1].level <= before[n
                                            - 2].children@[c].level);
                                    }
                                }
                            }
                        }
                        let name = copy_words(&st.math);
                        let node = OutlineNode {
                            level,
                            name,
                            address: Some(address),
                            children: Vec::new(),
                        };
                        let ghost before = open.stack@;
                        open.stack.push(node);
                        proof {
                            assert(open.stack@.drop_last() =~= before);
                            assert(headings(node.children@) =~= Seq::<Heading>::empty());
                            assert(node.children@ =~= Seq::<OutlineNode>::empty());
                            assert(node_headings(node) =~= seq![
                                Heading { level, address, name: words(&st.math) },
                            ]);
                            assert(open.stack@.last() == node);
                            assert(open.seen() == open_headings(before) + node_headings(node));
                            assert forall|j: int| 0 <= j < open.stack@.len() implies nested(
                                #[trigger] open.stack@[j],
                            ) by {
                                if j < before.len() {
                                    assert(open.stack@[j] == before[j]);
                                }
                            }
                        }
                    }
                },
                _ => {},
            }
            k += 1;
        }
        proof {
            assert(heading_comments(sset, i + 1) == heading_comments(sset, i as int)
                + segment_headings(sset, i as int, entry.segment.statements@.len() as int));
        }
        i += 1;
    }
    while open.stack.len() > 1
        invariant
            open.wf(),
            open.seen() == heading_comments(sset, sset.entries().len() as int),
        decreases open.stack@.len(),
    {
        open.close();
    }
    let root = open.stack.pop().unwrap();
    proof {
        assert(open.stack@ =~= Seq::<OutlineNode>::empty());
    }
    root
}

} // verus!
