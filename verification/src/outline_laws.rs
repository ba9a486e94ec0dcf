//! What pins an outline: its headings in the order of the source, and the
//! rule that each stands below the last heading before it that is less
//! deep.

use crate::outline::headings;
use crate::outline::nested;
use crate::outline::node_headings;
use crate::outline::Heading;
use crate::outline::OutlineNode;
use crate::source::words;
use vstd::prelude::*;

verus! {

/// Whether the two outlines are the same: the nodes have the same depth,
/// the same comment and the same title, and as many nodes below them, which
/// are the same one by one.
pub open spec fn same_outline(a: OutlineNode, b: OutlineNode) -> bool
    decreases a,
{
    &&& a.level == b.level
    &&& a.address == b.address
    &&& words(&a.name) == words(&b.name)
    &&& a.children@.len() == b.children@.len()
    &&& forall|i: int|
        0 <= i < a.children@.len() && i < b.children@.len() ==> same_outline(
            #[trigger] a.children@[i],
            b.children@[i],
        )
}

/// Headings that stand side by side: each is a heading with what is below
/// it nested, and none is less deep than one that comes after it.
pub open spec fn side_by_side(nodes: Seq<OutlineNode>) -> bool {
    &&& forall|i: int|
        0 <= i < nodes.len() ==> (#[trigger] nodes[i]).address is Some && nested(nodes[i])
    &&& forall|i: int, j: int|
        #![trigger nodes[i], nodes[j]]
        0 <= i < j < nodes.len() ==> nodes[j].level <= nodes[i].level
}

/// The heading that a node is.
pub open spec fn heading_of(node: OutlineNode) -> Heading {
    Heading { level: node.level, address: node.address->0, name: words(&node.name) }
}

/// The headings of a heading start with the heading itself, and those
/// behind it are deeper.
pub proof fn lemma_node_levels(node: OutlineNode)
    requires
        nested(node),
        node.address is Some,
    ensures
        node_headings(node).len() >= 1,
        node_headings(node)[0] == heading_of(node),
        node_headings(node).skip(1) == headings(node.children@),
        forall|k: int|
            1 <= k < node_headings(node).len() ==> (#[trigger] node_headings(node)[k]).level
                > node.level,
    decreases node, 1nat,
{
    let below = headings(node.children@);
    lemma_forest_levels(node.children@, node.level + 1);
    assert(node_headings(node) =~= seq![heading_of(node)] + below);
    assert(node_headings(node).skip(1) =~= below);
    assert forall|k: int| 1 <= k < node_headings(node).len() implies (#[trigger] node_headings(
        node,
    )[k]).level > node.level by {
        assert(node_headings(node)[k] == below[k - 1]);
    }
}

/// The headings of nodes that are headings of a depth of `low` at least,
/// with what is below them nested, have a depth of `low` at least.
pub proof fn lemma_forest_levels(nodes: Seq<OutlineNode>, low: int)
    requires
        forall|i: int|
            0 <= i < nodes.len() ==> (#[trigger] nodes[i]).address is Some && nested(nodes[i])
                && nodes[i].level >= low,
    ensures
        forall|k: int| 0 <= k < headings(nodes).len() ==> (#[trigger] headings(nodes)[k]).level >= low,
        nodes.len() > 0 ==> headings(nodes).len() > 0,
    decreases nodes, 0nat,
{
    if nodes.len() > 0 {
        let front = nodes.drop_last();
        let last = nodes.last();
        assert forall|i: int| 0 <= i < front.len() implies (#[trigger] front[i]).address is Some
            && nested(front[i]) && front[i].level >= low by {
            assert(front[i] == nodes[i]);
        }
        lemma_forest_levels(front, low);
        lemma_node_levels(last);
        assert forall|k: int| 0 <= k < headings(nodes).len() implies (#[trigger] headings(
            nodes,
        )[k]).level >= low by {
            let a = headings(front);
            let b = node_headings(last);
            if k < a.len() {
                assert(headings(nodes)[k] == a[k]);
            } else {
                assert(headings(nodes)[k] == b[k - a.len()]);
                if k - a.len() > 0 {
                    assert(b[k - a.len()].level > last.level);
                }
            }
        }
    }
}

/// Two headings with the same headings, with what is below them nested,
/// are the same outline.
pub proof fn lemma_same_node(a: OutlineNode, b: OutlineNode)
    requires
        nested(a),
        nested(b),
        a.address is Some,
        b.address is Some,
        node_headings(a) == node_headings(b),
    ensures
        same_outline(a, b),
    decreases a, 1nat,
{
    lemma_node_levels(a);
    lemma_node_levels(b);
    assert(heading_of(a) == heading_of(b));
    lemma_children_side_by_side(a);
    lemma_children_side_by_side(b);
    lemma_same_forest(a.children@, b.children@);
}

/// The nodes below a node whose content is nested stand side by side.
pub proof fn lemma_children_side_by_side(node: OutlineNode)
    requires
        nested(node),
    ensures
        side_by_side(node.children@),
{
}

/// Two rows of headings side by side with the same headings are the same,
/// outline by outline.
pub proof fn lemma_same_forest(f: Seq<OutlineNode>, g: Seq<OutlineNode>)
    requires
        side_by_side(f),
        side_by_side(g),
        headings(f) == headings(g),
    ensures
        f.len() == g.len(),
        forall|i: int| 0 <= i < f.len() ==> same_outline(#[trigger] f[i], g[i]),
    decreases f, 0nat,
{
    lemma_forest_levels(f, 0);
    lemma_forest_levels(g, 0);
    if f.len() > 0 {
        assert(g.len() > 0);
        let ff = f.drop_last();
        let gf = g.drop_last();
        let fl = f.last();
        let gl = g.last();
        let all = headings(f);
        let a = headings(ff);
        let b = node_headings(fl);
        let a2 = headings(gf);
        let b2 = node_headings(gl);
        assert(all == a + b);
        assert(all == a2 + b2);
        assert(side_by_side(ff)) by {
            assert forall|i: int| 0 <= i < ff.len() implies (#[trigger] ff[i]).address is Some
                && nested(ff[i]) by {
                assert(ff[i] == f[i]);
            }
            assert forall|i: int, j: int|
                #![trigger ff[i], ff[j]]
                0 <= i < j < ff.len() implies ff[j].level <= ff[i].level by {
                assert(ff[i] == f[i] && ff[j] == f[j]);
            }
        }
        assert(side_by_side(gf)) by {
            assert forall|i: int| 0 <= i < gf.len() implies (#[trigger] gf[i]).address is Some
                && nested(gf[i]) by {
                assert(gf[i] == g[i]);
            }
            assert forall|i: int, j: int|
                #![trigger gf[i], gf[j]]
                0 <= i < j < gf.len() implies gf[j].level <= gf[i].level by {
                assert(gf[i] == g[i] && gf[j] == g[j]);
            }
        }
        // Whatever comes before the last heading is as deep as it at
        // least, whatever comes behind it is deeper.
        assert forall|i: int| 0 <= i < ff.len() implies (#[trigger] ff[i]).address is Some
            && nested(ff[i]) && ff[i].level >= fl.level by {
            assert(ff[i] == f[i]);
            assert(f[f.len() - 1].level <= f[i].level);
        }
        assert forall|i: int| 0 <= i < gf.len() implies (#[trigger] gf[i]).address is Some
            && nested(gf[i]) && gf[i].level >= gl.level by {
            assert(gf[i] == g[i]);
            assert(g[g.len() - 1].level <= g[i].level);
        }
        lemma_forest_levels(ff, fl.level as int);
        lemma_forest_levels(gf, gl.level as int);
        lemma_node_levels(fl);
        lemma_node_levels(gl);
        if a.len() < a2.len() {
            let p = a.len() as int;
            let q = a2.len() as int;
            assert(all[p] == b[0]);
            assert(all[p] == a2[p]);
            assert(all[q] == b2[0]);
            assert(all[q] == b[q - p]);
            assert(false);
        }
        if a2.len() < a.len() {
            let p = a2.len() as int;
            let q = a.len() as int;
            assert(all[p] == b2[0]);
            assert(all[p] == a[p]);
            assert(all[q] == b[0]);
            assert(all[q] == b2[q - p]);
            assert(false);
        }
        assert(a =~= all.subrange(0, a.len() as int));
        assert(a2 =~= all.subrange(0, a.len() as int));
        assert(b =~= all.subrange(a.len() as int, all.len() as int));
        assert(b2 =~= all.subrange(a.len() as int, all.len() as int));
        lemma_same_node(fl, gl);
        lemma_same_forest(ff, gf);
        assert forall|i: int| 0 <= i < f.len() implies same_outline(#[trigger] f[i], g[i]) by {
            if i < f.len() - 1 {
                assert(f[i] == ff[i] && g[i] == gf[i]);
            }
        }
    } else {
        if g.len() > 0 {
            assert(headings(g).len() > 0);
            assert(headings(f) =~= Seq::<Heading>::empty());
        }
    }
}

/// An outline is pinned by its headings: two outlines whose roots stand for
/// the database as a whole, in which every heading stands below the last
/// heading before it that is less deep, and which have the same headings
/// in the same order, are the same.
pub proof fn lemma_outline_unique(a: OutlineNode, b: OutlineNode)
    requires
        a.level == b.level,
        a.address is None,
        b.address is None,
        a.name@.len() == 0,
        b.name@.len() == 0,
        nested(a),
        nested(b),
        node_headings(a) == node_headings(b),
    ensures
        same_outline(a, b),
{
    assert(node_headings(a) =~= headings(a.children@));
    assert(node_headings(b) =~= headings(b.children@));
    lemma_children_side_by_side(a);
    lemma_children_side_by_side(b);
    lemma_same_forest(a.children@, b.children@);
    assert(words(&a.name) =~= words(&b.name));
}

} // verus!
