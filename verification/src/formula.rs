//! A formula is the tree of a parsed math statement: every node carries the
//! label of a syntax axiom or floating hypothesis, and its children are the
//! trees of that statement's variables, in the order in which they occur.

use crate::bit_set::Bitset;
use crate::flatten::flatten;
use crate::flatten::flatten_from;
use crate::flatten::flatten_steps;
use crate::flatten::flattenable;
use crate::flatten::lemma_variables_before;
use crate::flatten::variables_before;
use crate::listing::digits;
use crate::listing::push_number;
use crate::listing::show_all;
use crate::listing::texts;
use crate::nameck::Atom;
use crate::nameck::Nameset;
use crate::segment_set::SegmentSet;
use crate::syntax::statement_syntax;
use crate::syntax::syntax_of;
use crate::syntax::MathSymbol;
use crate::syntax::Syntax;
use crate::tree::NodeId;
use crate::tree::Tree;
use std::collections::HashMap;
use std::sync::Arc;
use vstd::prelude::*;
use vstd::string::StringSliceAdditionalSpecFns;
use vstd::utf8::decode_utf8;
use vstd::utf8::valid_utf8;

verus! {

/// An atom naming a typecode.
pub type TypeCode = Atom;

/// An atom naming a math symbol.
pub type Symbol = Atom;

/// An atom naming a statement label.
pub type Label = Atom;

/// The mathematical value of a formula node: its label, whether it marks a
/// variable occurrence, and its children in order.
pub ghost struct Term {
    pub label: Label,
    pub is_variable: bool,
    pub children: Seq<Term>,
}

/// The mathematical value of a formula: a typecode and the term at its root.
pub ghost struct FormulaView {
    pub typecode: TypeCode,
    pub term: Term,
}

/// The term rooted at node `id` of `tree`, with the nodes in `variables`
/// marked as variables.
pub open spec fn term_of(tree: &Tree, variables: Set<int>, id: int) -> Term
    decreases id,
{
    Term {
        label: tree.label_of(id),
        is_variable: variables.contains(id),
        children: Seq::new(
            tree.children_of(id).len(),
            |k: int|
                {
                    let c = tree.children_of(id)[k] as int;
                    if 0 <= k < tree.children_of(id).len() && 0 <= c < id {
                        term_of(tree, variables, c)
                    } else {
                        Term { label: 0, is_variable: false, children: Seq::empty() }
                    }
                },
        ),
    }
}

/// Equality of terms as formulas compare: equal labels, children present on
/// both sides or on neither, and equal children pair by pair as far as both
/// sides have them. Variable marks are not compared.
pub open spec fn term_eq(s: Term, o: Term) -> bool
    decreases s,
{
    &&& s.label == o.label
    &&& (s.children.len() > 0) == (o.children.len() > 0)
    &&& forall|k: int|
        0 <= k < s.children.len() && k < o.children.len() ==> term_eq(
            #[trigger] s.children[k],
            o.children[k],
        )
}

/// The term reached from `t` by taking, for each element of `path` in turn,
/// the child with that number, counting from one.
pub open spec fn term_at(t: Term, path: Seq<usize>) -> Option<Term>
    decreases path.len(),
{
    if path.len() == 0 {
        Some(t)
    } else if 1 <= path[0] <= t.children.len() {
        term_at(t.children[path[0] - 1], path.skip(1))
    } else {
        None
    }
}

/// The terms of a set of substitutions, without their typecodes.
pub open spec fn terms(subs: Map<Label, FormulaView>) -> Map<Label, Term> {
    Map::new(|l: Label| subs.contains_key(l), |l: Label| subs[l].term)
}

/// The substitutions that give every term of `ts` the typecode `typecode`.
pub open spec fn tagged(ts: Map<Label, Term>, typecode: TypeCode) -> Map<Label, FormulaView> {
    Map::new(|l: Label| ts.contains_key(l), |l: Label| FormulaView { typecode, term: ts[l] })
}

/// Matches the term `s` against the pattern `o`, extending `subs`.
///
/// A variable of the pattern that is already bound must be bound to a term
/// equal to `s`; an unbound one is bound to `s`. Any other node must carry the
/// label of `s` and have children exactly when `s` has; the children are then
/// matched pair by pair, from left to right.
pub open spec fn unify_term(s: Term, o: Term, subs: Map<Label, Term>) -> Option<Map<Label, Term>>
    decreases o, 1nat,
{
    if o.is_variable {
        if subs.contains_key(o.label) {
            if term_eq(s, subs[o.label]) {
                Some(subs)
            } else {
                None
            }
        } else {
            Some(subs.insert(o.label, s))
        }
    } else if s.label == o.label && (s.children.len() > 0) == (o.children.len() > 0) {
        unify_children(s, o, 0, subs)
    } else {
        None
    }
}

/// Matches the children of `s` against those of `o` from position `k` on.
pub open spec fn unify_children(s: Term, o: Term, k: int, subs: Map<Label, Term>) -> Option<
    Map<Label, Term>,
>
    decreases o, 0nat, o.children.len() - k,
{
    if 0 <= k < s.children.len() && k < o.children.len() {
        match unify_term(s.children[k], o.children[k], subs) {
            Some(next) => unify_children(s, o, k + 1, next),
            None => None,
        }
    } else {
        Some(subs)
    }
}

/// The bindings that matching the term `s` against the pattern `o` leaves,
/// whether the match succeeds or not: a match that fails leaves the
/// bindings that were made before it failed.
pub open spec fn bound_term(s: Term, o: Term, subs: Map<Label, Term>) -> Map<Label, Term>
    decreases o, 1nat,
{
    if o.is_variable {
        if subs.contains_key(o.label) {
            subs
        } else {
            subs.insert(o.label, s)
        }
    } else if s.label == o.label && (s.children.len() > 0) == (o.children.len() > 0) {
        bound_children(s, o, 0, subs)
    } else {
        subs
    }
}

/// The bindings that matching the children of `s` against those of `o`
/// from position `k` on leaves.
pub open spec fn bound_children(s: Term, o: Term, k: int, subs: Map<Label, Term>) -> Map<
    Label,
    Term,
>
    decreases o, 0nat, o.children.len() - k,
{
    if 0 <= k < s.children.len() && k < o.children.len() {
        match unify_term(s.children[k], o.children[k], subs) {
            Some(next) => bound_children(s, o, k + 1, next),
            None => bound_term(s.children[k], o.children[k], subs),
        }
    } else {
        subs
    }
}

/// Replaces in `t` every variable node whose label `subs` binds by the bound
/// term; every other node is kept, with its children substituted.
pub open spec fn substitute_term(t: Term, subs: Map<Label, Term>) -> Term
    decreases t,
{
    if t.is_variable && subs.contains_key(t.label) {
        subs[t.label]
    } else {
        Term {
            label: t.label,
            is_variable: t.is_variable,
            children: Seq::new(
                t.children.len(),
                |k: int|
                    if 0 <= k < t.children.len() {
                        substitute_term(t.children[k], subs)
                    } else {
                        t
                    },
            ),
        }
    }
}

/// The stack after a reduction: the `var_count` entries that end `offset`
/// below the top become the children of one new entry, which takes their
/// place.
pub open spec fn reduced(
    stack: Seq<Term>,
    label: Label,
    var_count: int,
    offset: int,
    is_variable: bool,
) -> Seq<Term> {
    let start = stack.len() - var_count - offset;
    let end = stack.len() - offset;
    stack.subrange(0, start).push(
        Term { label, is_variable, children: stack.subrange(start, end) },
    ) + stack.subrange(end, stack.len() as int)
}

/// A table that extends another, with the same variable marks on the old
/// nodes, gives the old nodes the same terms.
pub proof fn lemma_term_of_extends(
    old_tree: &Tree,
    old_variables: Set<int>,
    new_tree: &Tree,
    new_variables: Set<int>,
    id: int,
)
    requires
        old_tree.wf(),
        new_tree.wf(),
        new_tree.extends(old_tree),
        forall|j: int| 0 <= j < old_tree.len() ==> old_variables.contains(j) == new_variables.contains(j),
        0 <= id < old_tree.len(),
    ensures
        term_of(new_tree, new_variables, id) == term_of(old_tree, old_variables, id),
    decreases id,
{
    lemma_term_of_children(old_tree, old_variables, id);
    lemma_term_of_children(new_tree, new_variables, id);
    let a = term_of(new_tree, new_variables, id);
    let b = term_of(old_tree, old_variables, id);
    assert forall|k: int| 0 <= k < a.children.len() implies a.children[k] == b.children[k] by {
        let c = old_tree.children_of(id)[k] as int;
        assert(c < id);
        lemma_term_of_extends(old_tree, old_variables, new_tree, new_variables, c);
    }
    assert(a.children =~= b.children);
}

/// In a well-formed table the children of a node's term are the terms of its
/// children.
pub proof fn lemma_term_of_children(tree: &Tree, variables: Set<int>, id: int)
    requires
        tree.wf(),
        0 <= id < tree.len(),
    ensures
        term_of(tree, variables, id).label == tree.label_of(id),
        term_of(tree, variables, id).is_variable == variables.contains(id),
        term_of(tree, variables, id).children.len() == tree.children_of(id).len(),
        forall|k: int|
            0 <= k < tree.children_of(id).len() ==> #[trigger] term_of(
                tree,
                variables,
                id,
            ).children[k] == term_of(tree, variables, tree.children_of(id)[k] as int),
{
    assert forall|k: int| 0 <= k < tree.children_of(id).len() implies #[trigger] term_of(
        tree,
        variables,
        id,
    ).children[k] == term_of(tree, variables, tree.children_of(id)[k] as int) by {
        assert(tree.children_of(id)[k] < id);
    }
}

/// A parsed formula.
pub struct Formula {
    typecode: TypeCode,
    tree: Arc<Tree>,
    root: NodeId,
    variables: Arc<Bitset>,
}

impl View for Formula {
    type V = FormulaView;

    closed spec fn view(&self) -> FormulaView {
        FormulaView { typecode: self.typecode, term: self.subterm(self.root as int) }
    }
}

/// A set of substitutions: formulas bound to variable labels.
pub struct Substitutions {
    map: HashMap<Label, Formula>,
}

impl View for Substitutions {
    type V = Map<Label, FormulaView>;

    closed spec fn view(&self) -> Map<Label, FormulaView> {
        Map::new(|l: Label| self.map@.contains_key(l), |l: Label| self.map@[l]@)
    }
}

impl Substitutions {
    /// No substitution at all.
    pub fn new() -> (s: Substitutions)
        ensures
            s@ == Map::<Label, FormulaView>::empty(),
    {
        let s = Substitutions { map: HashMap::new() };
        assert(s@ =~= Map::<Label, FormulaView>::empty());
        s
    }

    /// Binds `label` to `formula`, in place of any formula bound to it before.
    pub fn insert(&mut self, label: Label, formula: Formula)
        ensures
            final(self)@ == old(self)@.insert(label, formula@),
    {
        self.map.insert(label, formula);
        assert(final(self)@ =~= old(self)@.insert(label, formula@));
    }

    /// The formula bound to `label`, if any.
    pub fn get(&self, label: Label) -> (r: Option<&Formula>)
        ensures
            match r {
                Some(f) => self@.contains_key(label) && f@ == self@[label],
                None => !self@.contains_key(label),
            },
    {
        self.map.get(&label)
    }

    /// Whether `label` is bound.
    pub fn contains(&self, label: Label) -> (r: bool)
        ensures
            r == self@.contains_key(label),
    {
        self.map.get(&label).is_some()
    }
}

/// Builds a formula bottom-up, as a parser reduces: finished subformulas wait
/// on a stack until a reduction makes them the children of a new node.
pub struct FormulaBuilder {
    stack: Vec<NodeId>,
    tree: Tree,
    variables: Bitset,
}

impl FormulaBuilder {
    /// The invariant of a builder: the stack names nodes of the table, and
    /// the table is well formed.
    pub closed spec fn wf(&self) -> bool {
        &&& self.tree.wf()
        &&& forall|i: int| 0 <= i < self.stack@.len() ==> self.stack@[i] < self.tree.len()
        &&& forall|id: int| 0 <= id < self.tree.len() ==> self.tree.children_of(id).len() <= 255
        &&& forall|id: int| self.variables@.contains(id) ==> id < self.tree.len()
    }

    /// The terms that wait on the stack, bottom first.
    pub closed spec fn stack_terms(&self) -> Seq<Term> {
        Seq::new(
            self.stack@.len(),
            |i: int| term_of(&self.tree, self.variables@, self.stack@[i] as int),
        )
    }

    /// A builder with an empty stack and without nodes.
    pub fn new() -> (b: FormulaBuilder)
        ensures
            b.wf(),
            b.stack_terms() == Seq::<Term>::empty(),
            b.size() == 0,
    {
        let b = FormulaBuilder { stack: Vec::new(), tree: Tree::new(), variables: Bitset::new() };
        assert(b.stack_terms() =~= Seq::<Term>::empty());
        b
    }

    /// Replaces the `var_count` stack entries that end `offset` below the top
    /// by one new node labelled `label`, with those entries as its children in
    /// order. The `offset` entries above them stay where they are.
    pub fn reduce(&mut self, label: Label, var_count: u8, offset: u8, is_variable: bool)
        requires
            old(self).wf(),
            old(self).stack_terms().len() >= var_count + offset,
        ensures
            final(self).wf(),
            final(self).stack_terms() == reduced(
                old(self).stack_terms(),
                label,
                var_count as int,
                offset as int,
                is_variable,
            ),
            final(self).size() == old(self).size() + 1,
            forall|j: int| 0 <= j < old(self).size() ==> final(self).term(j) == old(self).term(j),
            final(self).term(old(self).size() as int) == (Term {
                label,
                is_variable,
                children: old(self).stack_terms().subrange(
                    old(self).stack_terms().len() - var_count - offset,
                    old(self).stack_terms().len() - offset,
                ),
            }),
    {
        let len = self.stack.len();
        let start: usize = len - (var_count as usize) - (offset as usize);
        let end: usize = len - (offset as usize);
        let mut tail = self.stack.split_off(end);
        let children = self.stack.split_off(start);
        let ghost kids = children@;
        let id = self.tree.add_node(label, children);
        if is_variable {
            self.variables.set_bit(id);
        }
        self.stack.push(id);
        self.stack.append(&mut tail);
        proof {
            let before = old(self).stack_terms();
            let after = final(self).stack_terms();
            let goal = reduced(before, label, var_count as int, offset as int, is_variable);
            let vars0 = old(self).variables@;
            let vars1 = final(self).variables@;
            assert(final(self).stack@ =~= old(self).stack@.subrange(0, start as int).push(id)
                + old(self).stack@.subrange(end as int, len as int));
            assert forall|j: int| 0 <= j < old(self).tree.len() implies vars0.contains(j)
                == vars1.contains(j) by {}
            assert forall|j: int| 0 <= j < old(self).tree.len() implies term_of(
                &final(self).tree,
                vars1,
                j,
            ) == term_of(&old(self).tree, vars0, j) by {
                lemma_term_of_extends(&old(self).tree, vars0, &final(self).tree, vars1, j);
            }
            lemma_term_of_children(&final(self).tree, vars1, id as int);
            let node = term_of(&final(self).tree, vars1, id as int);
            assert(node.children =~= before.subrange(start as int, end as int)) by {
                assert forall|k: int| 0 <= k < kids.len() implies node.children[k]
                    == before.subrange(start as int, end as int)[k] by {
                    assert(kids[k] == old(self).stack@[start + k]);
                }
            }
            assert(node.is_variable == is_variable);
            assert(after.len() == goal.len());
            assert forall|i: int| 0 <= i < after.len() implies after[i] == goal[i] by {
                if i < start {
                    assert(final(self).stack@[i] == old(self).stack@[i]);
                } else if i == start {
                } else {
                    assert(final(self).stack@[i] == old(self).stack@[end + (i - start - 1)]);
                }
            }
            assert(after =~= goal);
        }
    }

    /// The number of nodes made so far.
    pub closed spec fn size(&self) -> nat {
        self.tree.len()
    }

    /// The term at node `id`.
    pub closed spec fn term(&self, id: int) -> Term {
        term_of(&self.tree, self.variables@, id)
    }

    /// Makes a node with the given label and children, beside the stack, and
    /// returns it. The children are nodes made before.
    pub fn add_node(&mut self, label: Label, children: Vec<NodeId>, is_variable: bool) -> (id:
        NodeId)
        requires
            old(self).wf(),
            children@.len() <= 255,
            forall|k: int| 0 <= k < children@.len() ==> children@[k] < old(self).size(),
        ensures
            final(self).wf(),
            id == old(self).size(),
            final(self).size() == old(self).size() + 1,
            final(self).term(id as int) == (Term {
                label,
                is_variable,
                children: Seq::new(children@.len(), |k: int| old(self).term(children@[k] as int)),
            }),
            forall|j: int| 0 <= j < old(self).size() ==> final(self).term(j) == old(self).term(j),
            final(self).stack_terms() == old(self).stack_terms(),
    {
        let ghost kids = children@;
        let id = self.tree.add_node(label, children);
        if is_variable {
            self.variables.set_bit(id);
        }
        proof {
            let vars0 = old(self).variables@;
            let vars1 = self.variables@;
            assert forall|j: int| 0 <= j < old(self).tree.len() implies term_of(
                &self.tree,
                vars1,
                j,
            ) == term_of(&old(self).tree, vars0, j) by {
                lemma_term_of_extends(&old(self).tree, vars0, &self.tree, vars1, j);
            }
            lemma_term_of_children(&self.tree, vars1, id as int);
            let node = term_of(&self.tree, vars1, id as int);
            assert(node.children =~= Seq::new(
                kids.len(),
                |k: int| old(self).term(kids[k] as int),
            ));
            assert(self.stack_terms() =~= old(self).stack_terms());
        }
        id
    }

    /// Closes the builder with the node `root` as the root, whatever the
    /// stack holds.
    pub fn build_at(self, root: NodeId, typecode: TypeCode) -> (f: Formula)
        requires
            self.wf(),
            root < self.size(),
        ensures
            f@ == (FormulaView { typecode, term: self.term(root as int) }),
    {
        Formula {
            typecode,
            tree: Arc::new(self.tree),
            root,
            variables: Arc::new(self.variables),
        }
    }

    /// Closes the builder: the one entry left on the stack becomes the root.
    pub fn build(self, typecode: TypeCode) -> (f: Formula)
        requires
            self.wf(),
            self.stack_terms().len() == 1,
        ensures
            f@ == (FormulaView { typecode, term: self.stack_terms()[0] }),
    {
        let root = self.stack[0];
        Formula {
            typecode,
            tree: Arc::new(self.tree),
            root,
            variables: Arc::new(self.variables),
        }
    }
}

impl Formula {
    #[verifier::type_invariant]
    spec fn inv(self) -> bool {
        &&& self.tree.wf()
        &&& self.root < self.tree.len()
        &&& forall|id: int| 0 <= id < self.tree.len() ==> self.tree.children_of(id).len() <= 255
    }

    /// The term rooted at node `id`.
    pub closed spec fn subterm(&self, id: int) -> Term {
        term_of(&*self.tree, self.variables@, id)
    }

    /// The typecode of the formula.
    pub fn typecode(&self) -> (t: TypeCode)
        ensures
            t == self@.typecode,
    {
        self.typecode
    }

    /// Returns the label reached by following `path` from the root: each
    /// element is the number of the child to descend into, counting from one.
    /// `None` when an element is zero or exceeds the number of children.
    pub fn get_by_path(&self, path: &[usize]) -> (r: Option<Label>)
        ensures
            r == match term_at(self@.term, path@) {
                Some(t) => Some(t.label),
                None => None,
            },
    {
        proof {
            use_type_invariant(self);
        }
        let mut node_id = self.root;
        let mut i: usize = 0;
        assert(path@.skip(0) =~= path@);
        while i < path.len()
            invariant
                self.inv(),
                0 <= i <= path@.len(),
                node_id < self.tree.len(),
                term_at(self@.term, path@) == term_at(self.subterm(node_id as int), path@.skip(i as int)),
            decreases path@.len() - i,
        {
            proof {
                lemma_term_of_children(&*self.tree, self.variables@, node_id as int);
                assert(path@.skip(i as int)[0] == path@[i as int]);
                assert(path@.skip(i as int).skip(1) =~= path@.skip(i + 1));
            }
            match self.tree.nth_child(node_id, path[i]) {
                Some(child) => {
                    node_id = child;
                },
                None => {
                    return None;
                },
            }
            i += 1;
        }
        proof {
            lemma_term_of_children(&*self.tree, self.variables@, node_id as int);
        }
        Some(self.tree.label(node_id))
    }

    /// Whether node `node_id` marks a variable.
    fn is_variable(&self, node_id: NodeId) -> (r: bool)
        ensures
            r == self.variables@.contains(node_id as int),
    {
        self.variables.has_bit(node_id)
    }

    /// The formula rooted at `node_id`, which shares the nodes of this one.
    fn sub_formula(&self, node_id: NodeId) -> (f: Formula)
        requires
            node_id < self.tree.len(),
        ensures
            f@ == (FormulaView { typecode: self@.typecode, term: self.subterm(node_id as int) }),
    {
        proof {
            use_type_invariant(self);
        }
        Formula {
            typecode: self.typecode,
            tree: self.tree.clone(),
            root: node_id,
            variables: self.variables.clone(),
        }
    }

    /// Compares the terms at `node_id` here and at `other_node_id` in `other`.
    fn sub_eq(&self, node_id: NodeId, other: &Formula, other_node_id: NodeId) -> (r: bool)
        requires
            node_id < self.tree.len(),
            other_node_id < other.tree.len(),
        ensures
            r == term_eq(self.subterm(node_id as int), other.subterm(other_node_id as int)),
        decreases node_id,
    {
        proof {
            use_type_invariant(self);
            use_type_invariant(other);
            lemma_term_of_children(&*self.tree, self.variables@, node_id as int);
            lemma_term_of_children(&*other.tree, other.variables@, other_node_id as int);
        }
        if self.tree.label(node_id) != other.tree.label(other_node_id) {
            return false;
        }
        if self.tree.has_children(node_id) != other.tree.has_children(other_node_id) {
            return false;
        }
        let n = self.tree.child_count(node_id);
        let m = other.tree.child_count(other_node_id);
        let ghost s = self.subterm(node_id as int);
        let ghost o = other.subterm(other_node_id as int);
        let mut k: usize = 0;
        while k < n && k < m
            invariant
                self.inv(),
                other.inv(),
                node_id < self.tree.len(),
                other_node_id < other.tree.len(),
                n == self.tree.children_of(node_id as int).len(),
                m == other.tree.children_of(other_node_id as int).len(),
                s == self.subterm(node_id as int),
                o == other.subterm(other_node_id as int),
                s.children.len() == n,
                o.children.len() == m,
                forall|j: int|
                    0 <= j < n ==> #[trigger] s.children[j] == self.subterm(
                        self.tree.children_of(node_id as int)[j] as int,
                    ),
                forall|j: int|
                    0 <= j < m ==> #[trigger] o.children[j] == other.subterm(
                        other.tree.children_of(other_node_id as int)[j] as int,
                    ),
                0 <= k,
                forall|j: int| 0 <= j < k ==> term_eq(#[trigger] s.children[j], o.children[j]),
            decreases n - k,
        {
            let sc = self.tree.child(node_id, k);
            let oc = other.tree.child(other_node_id, k);
            if !self.sub_eq(sc, other, oc) {
                assert(!term_eq(s.children[k as int], o.children[k as int]));
                return false;
            }
            k += 1;
        }
        true
    }

    /// Unifies this formula with the pattern `other`, whose variable nodes
    /// stand for any term. On success the result binds every variable that
    /// the match met to the part of this formula found in its place.
    pub fn unify(&self, other: &Formula) -> (r: Option<Box<Substitutions>>)
        ensures
            match unify_term(self@.term, other@.term, Map::empty()) {
                Some(m) => r matches Some(s) && s@ == tagged(m, self@.typecode),
                None => r is None,
            },
    {
        proof {
            use_type_invariant(self);
            use_type_invariant(other);
        }
        let mut substitutions = Substitutions::new();
        assert(terms(substitutions@) =~= Map::<Label, Term>::empty());
        if self.sub_unify(self.root, other, other.root, &mut substitutions) {
            proof {
                let m = unify_term(self@.term, other@.term, Map::empty())->0;
                assert(substitutions@ =~= tagged(m, self@.typecode));
            }
            Some(Box::new(substitutions))
        } else {
            None
        }
    }

    /// Unifies the term at `node_id` with the pattern at `other_node_id`.
    fn sub_unify(
        &self,
        node_id: NodeId,
        other: &Formula,
        other_node_id: NodeId,
        substitutions: &mut Substitutions,
    ) -> (ok: bool)
        requires
            node_id < self.tree.len(),
            other_node_id < other.tree.len(),
        ensures
            match unify_term(
                self.subterm(node_id as int),
                other.subterm(other_node_id as int),
                terms(old(substitutions)@),
            ) {
                Some(m) => ok && terms(final(substitutions)@) == m,
                None => !ok,
            },
            terms(final(substitutions)@) == bound_term(
                self.subterm(node_id as int),
                other.subterm(other_node_id as int),
                terms(old(substitutions)@),
            ),
            (forall|l: Label| #[trigger]
                old(substitutions)@.contains_key(l) ==> old(substitutions)@[l].typecode
                    == self@.typecode) ==> (forall|l: Label| #[trigger]
                final(substitutions)@.contains_key(l) ==> final(substitutions)@[l].typecode
                    == self@.typecode),
            other.variables@.contains(other_node_id as int) && old(substitutions)@.contains_key(
                other.tree.label_of(other_node_id as int),
            ) ==> final(substitutions)@ == old(substitutions)@,
        decreases other_node_id,
    {
        proof {
            use_type_invariant(self);
            use_type_invariant(other);
            lemma_term_of_children(&*self.tree, self.variables@, node_id as int);
            lemma_term_of_children(&*other.tree, other.variables@, other_node_id as int);
        }
        let ghost s = self.subterm(node_id as int);
        let ghost o = other.subterm(other_node_id as int);
        let ghost subs0 = terms(substitutions@);
        let other_label = other.tree.label(other_node_id);
        if other.is_variable(other_node_id) {
            match substitutions.get(other_label) {
                Some(formula) => {
                    proof {
                        use_type_invariant(formula);
                    }
                    self.sub_eq(node_id, formula, formula.root)
                },
                None => {
                    let bound = self.sub_formula(node_id);
                    substitutions.insert(other_label, bound);
                    assert(terms(substitutions@) =~= subs0.insert(other_label, s));
                    true
                },
            }
        } else if self.tree.label(node_id) == other_label && self.tree.has_children(node_id)
            == other.tree.has_children(other_node_id) {
            let n = self.tree.child_count(node_id);
            let m = other.tree.child_count(other_node_id);
            let mut k: usize = 0;
            while k < n && k < m
                invariant
                    self.inv(),
                    other.inv(),
                    node_id < self.tree.len(),
                    other_node_id < other.tree.len(),
                    n == self.tree.children_of(node_id as int).len(),
                    m == other.tree.children_of(other_node_id as int).len(),
                    s == self.subterm(node_id as int),
                    o == other.subterm(other_node_id as int),
                    s.children.len() == n,
                    o.children.len() == m,
                    forall|j: int|
                        0 <= j < n ==> #[trigger] s.children[j] == self.subterm(
                            self.tree.children_of(node_id as int)[j] as int,
                        ),
                    forall|j: int|
                        0 <= j < m ==> #[trigger] o.children[j] == other.subterm(
                            other.tree.children_of(other_node_id as int)[j] as int,
                        ),
                    0 <= k,
                    subs0 == terms(old(substitutions)@),
                    unify_term(s, o, subs0) == unify_children(s, o, 0, subs0),
                    unify_children(s, o, 0, subs0) == unify_children(
                        s,
                        o,
                        k as int,
                        terms(substitutions@),
                    ),
                    !other.variables@.contains(other_node_id as int),
                    bound_term(s, o, subs0) == bound_children(s, o, 0, subs0),
                    bound_children(s, o, 0, subs0) == bound_children(
                        s,
                        o,
                        k as int,
                        terms(substitutions@),
                    ),
                    (forall|l: Label| #[trigger]
                        old(substitutions)@.contains_key(l) ==> old(substitutions)@[l].typecode
                            == self@.typecode) ==> (forall|l: Label| #[trigger]
                        substitutions@.contains_key(l) ==> substitutions@[l].typecode
                            == self@.typecode),
                decreases n - k,
            {
                let sc = self.tree.child(node_id, k);
                let oc = other.tree.child(other_node_id, k);
                let ghost current = terms(substitutions@);
                if !self.sub_unify(sc, other, oc, substitutions) {
                    assert(unify_term(s.children[k as int], o.children[k as int], current) is None);
                    assert(unify_children(s, o, k as int, current) is None);
                    assert(bound_children(s, o, k as int, current) == bound_term(
                        s.children[k as int],
                        o.children[k as int],
                        current,
                    ));
                    return false;
                }
                assert(unify_children(s, o, k as int, current) == unify_children(
                    s,
                    o,
                    k + 1,
                    terms(substitutions@),
                ));
                assert(bound_children(s, o, k as int, current) == bound_children(
                    s,
                    o,
                    k + 1,
                    terms(substitutions@),
                ));
                k += 1;
            }
            true
        } else {
            false
        }
    }

    /// A copy of this formula that holds the nodes below its root only.
    pub fn compact(&self) -> (f: Formula)
        ensures
            f@ == self@,
    {
        proof {
            use_type_invariant(self);
        }
        let mut formula_builder = FormulaBuilder::new();
        self.copy_sub_formula(self.root, &mut formula_builder);
        formula_builder.build(self.typecode)
    }

    /// Returns this formula with every variable node whose label
    /// `substitutions` binds replaced by the bound formula. Other nodes are
    /// copied as they are, unbound variables too.
    pub fn substitute(&self, substitutions: &Substitutions) -> (f: Formula)
        ensures
            f@ == (FormulaView {
                typecode: self@.typecode,
                term: substitute_term(self@.term, terms(substitutions@)),
            }),
    {
        proof {
            use_type_invariant(self);
        }
        let mut formula_builder = FormulaBuilder::new();
        self.sub_substitute(self.root, substitutions, &mut formula_builder);
        formula_builder.build(self.typecode)
    }

    /// Pushes onto the builder the term at `node_id` with `substitutions`
    /// applied.
    fn sub_substitute(
        &self,
        node_id: NodeId,
        substitutions: &Substitutions,
        formula_builder: &mut FormulaBuilder,
    )
        requires
            node_id < self.tree.len(),
            old(formula_builder).wf(),
        ensures
            final(formula_builder).wf(),
            final(formula_builder).stack_terms() == old(formula_builder).stack_terms().push(
                substitute_term(self.subterm(node_id as int), terms(substitutions@)),
            ),
        decreases node_id,
    {
        proof {
            use_type_invariant(self);
            lemma_term_of_children(&*self.tree, self.variables@, node_id as int);
        }
        let ghost t = self.subterm(node_id as int);
        let ghost subs = terms(substitutions@);
        let ghost base = formula_builder.stack_terms();
        let label = self.tree.label(node_id);
        let is_variable = self.is_variable(node_id);
        if is_variable {
            if let Some(formula) = substitutions.get(label) {
                proof {
                    use_type_invariant(formula);
                }
                formula.copy_sub_formula(formula.root, formula_builder);
                return ;
            }
        }
        let n = self.tree.child_count(node_id);
        let mut k: usize = 0;
        while k < n
            invariant
                self.inv(),
                node_id < self.tree.len(),
                n == self.tree.children_of(node_id as int).len(),
                n <= 255,
                t == self.subterm(node_id as int),
                subs == terms(substitutions@),
                t.children.len() == n,
                forall|j: int|
                    0 <= j < n ==> #[trigger] t.children[j] == self.subterm(
                        self.tree.children_of(node_id as int)[j] as int,
                    ),
                0 <= k <= n,
                formula_builder.wf(),
                formula_builder.stack_terms() == base + Seq::new(
                    k as nat,
                    |j: int| substitute_term(t.children[j], subs),
                ),
            decreases n - k,
        {
            let child = self.tree.child(node_id, k);
            let ghost before = formula_builder.stack_terms();
            self.sub_substitute(child, substitutions, formula_builder);
            assert(formula_builder.stack_terms() =~= base + Seq::new(
                (k + 1) as nat,
                |j: int| substitute_term(t.children[j], subs),
            ));
            k += 1;
        }
        let ghost before = formula_builder.stack_terms();
        formula_builder.reduce(label, n as u8, 0, is_variable);
        proof {
            let result = substitute_term(t, subs);
            assert(before.subrange(base.len() as int, before.len() as int) =~= result.children);
            assert(before.subrange(0, base.len() as int) =~= base);
            assert(before.subrange(before.len() as int, before.len() as int) =~= Seq::<
                Term,
            >::empty());
            assert(formula_builder.stack_terms() =~= base.push(result));
        }
    }

    /// Pushes onto the builder a copy of the term at `node_id`.
    fn copy_sub_formula(&self, node_id: NodeId, formula_builder: &mut FormulaBuilder)
        requires
            node_id < self.tree.len(),
            old(formula_builder).wf(),
        ensures
            final(formula_builder).wf(),
            final(formula_builder).stack_terms() == old(formula_builder).stack_terms().push(
                self.subterm(node_id as int),
            ),
        decreases node_id,
    {
        proof {
            use_type_invariant(self);
            lemma_term_of_children(&*self.tree, self.variables@, node_id as int);
        }
        let ghost t = self.subterm(node_id as int);
        let ghost base = formula_builder.stack_terms();
        let n = self.tree.child_count(node_id);
        let mut k: usize = 0;
        while k < n
            invariant
                self.inv(),
                node_id < self.tree.len(),
                n == self.tree.children_of(node_id as int).len(),
                n <= 255,
                t == self.subterm(node_id as int),
                t.children.len() == n,
                forall|j: int|
                    0 <= j < n ==> #[trigger] t.children[j] == self.subterm(
                        self.tree.children_of(node_id as int)[j] as int,
                    ),
                0 <= k <= n,
                formula_builder.wf(),
                formula_builder.stack_terms() == base + t.children.subrange(0, k as int),
            decreases n - k,
        {
            let child = self.tree.child(node_id, k);
            self.copy_sub_formula(child, formula_builder);
            assert(formula_builder.stack_terms() =~= base + t.children.subrange(0, k + 1));
            k += 1;
        }
        let ghost before = formula_builder.stack_terms();
        formula_builder.reduce(self.tree.label(node_id), n as u8, 0, self.is_variable(node_id));
        proof {
            assert(before.subrange(base.len() as int, before.len() as int) =~= t.children);
            assert(before.subrange(0, base.len() as int) =~= base);
            assert(before.subrange(before.len() as int, before.len() as int) =~= Seq::<
                Term,
            >::empty());
            assert(formula_builder.stack_terms() =~= base.push(t));
        }
    }
}

impl PartialEq for Formula {
    fn eq(&self, other: &Self) -> (r: bool) {
        proof {
            use_type_invariant(self);
            use_type_invariant(other);
        }
        self.sub_eq(self.root, other, other.root)
    }
}

impl vstd::std_specs::cmp::PartialEqSpecImpl for Formula {
    open spec fn obeys_eq_spec() -> bool {
        true
    }

    open spec fn eq_spec(&self, other: &Self) -> bool {
        term_eq(self@.term, other@.term)
    }
}

/// A node that is being written out: its syntax, the next symbol to write,
/// and the next child to descend into.
struct Frame {
    node: NodeId,
    tokens: Vec<MathSymbol>,
    next: usize,
    child: usize,
}

/// Walks through the symbols that a formula stands for, one at a time.
pub struct Flatten<'a> {
    formula: &'a Formula,
    sset: &'a SegmentSet,
    nset: &'a Nameset,
    stack: Vec<Frame>,
}

/// The symbols that the frames have yet to give, the last frame first.
spec fn frames_rest(formula: &Formula, syntax: Syntax, frames: Seq<Frame>) -> Seq<Symbol>
    decreases frames.len(),
{
    if frames.len() == 0 {
        Seq::empty()
    } else {
        flatten_from(
            formula.subterm(frames.last().node as int),
            syntax,
            frames.last().next as int,
            frames.last().child as int,
        ) + frames_rest(formula, syntax, frames.drop_last())
    }
}

/// The number of steps that the frames have yet to take.
spec fn frames_steps(formula: &Formula, syntax: Syntax, frames: Seq<Frame>) -> nat
    decreases frames.len(),
{
    if frames.len() == 0 {
        0
    } else {
        flatten_steps(
            formula.subterm(frames.last().node as int),
            syntax,
            frames.last().next as int,
            frames.last().child as int,
        ) + frames_steps(formula, syntax, frames.drop_last())
    }
}

impl<'a> Flatten<'a> {
    /// The syntax that the formula is written in.
    pub closed spec fn syntax(&self) -> Syntax {
        syntax_of(self.sset, self.nset)
    }

    spec fn frame_wf(&self, f: Frame) -> bool {
        let t = self.formula.subterm(f.node as int);
        &&& f.node < self.formula.tree.len()
        &&& self.syntax().contains_key(t.label)
        &&& f.tokens@ == self.syntax()[t.label]
        &&& f.next <= f.tokens@.len()
        &&& flattenable(t, self.syntax())
        &&& t.children.len() > 0 ==> f.child == variables_before(f.tokens@, f.next as int)
    }

    /// The invariant of the walk.
    pub closed spec fn wf(&self) -> bool {
        &&& self.sset.wf()
        &&& self.nset.wf()
        &&& self.formula.inv()
        &&& forall|i: int| 0 <= i < self.stack@.len() ==> self.frame_wf(#[trigger] self.stack@[i])
    }

    /// The symbols that are yet to come.
    pub closed spec fn remaining(&self) -> Seq<Symbol> {
        frames_rest(self.formula, self.syntax(), self.stack@)
    }

    /// Starts on the node `node_id`.
    fn step_into(&mut self, node_id: NodeId)
        requires
            old(self).wf(),
            node_id < old(self).formula.tree.len(),
            flattenable(old(self).formula.subterm(node_id as int), old(self).syntax()),
        ensures
            final(self).wf(),
            final(self).formula == old(self).formula,
            final(self).sset == old(self).sset,
            final(self).nset == old(self).nset,
            final(self).stack@.len() == old(self).stack@.len() + 1,
            final(self).stack@.drop_last() == old(self).stack@,
            final(self).stack@.last().node == node_id,
            final(self).stack@.last().next == 0,
            final(self).stack@.last().child == 0,
    {
        proof {
            lemma_term_of_children(&*self.formula.tree, self.formula.variables@, node_id as int);
        }
        let label = self.formula.tree.label(node_id);
        let tokens = match statement_syntax(self.sset, self.nset, label) {
            Some(tokens) => tokens,
            None => Vec::new(),
        };
        self.stack.push(Frame { node: node_id, tokens, next: 0, child: 0 });
        assert(self.stack@.drop_last() =~= old(self).stack@);
    }

    /// The next symbol, or `None` when the formula has been written out.
    pub fn next(&mut self) -> (r: Option<Symbol>)
        requires
            old(self).wf(),
        ensures
            final(self).wf(),
            final(self).syntax() == old(self).syntax(),
            match r {
                Some(symbol) => old(self).remaining().len() > 0 && symbol == old(
                    self,
                ).remaining()[0] && final(self).remaining() == old(self).remaining().skip(1),
                None => old(self).remaining().len() == 0 && final(self).remaining().len() == 0,
            },
    {
        loop
            invariant
                self.wf(),
                self.formula == old(self).formula,
                self.sset == old(self).sset,
                self.nset == old(self).nset,
                self.remaining() == old(self).remaining(),
            decreases frames_steps(self.formula, self.syntax(), self.stack@),
        {
            let ghost syntax = self.syntax();
            let ghost before = self.stack@;
            let mut frame = match self.stack.pop() {
                Some(frame) => frame,
                None => {
                    return None;
                },
            };
            let ghost below = self.stack@;
            let ghost t = self.formula.subterm(frame.node as int);
            proof {
                assert(before.drop_last() =~= below);
                assert(before.last() == frame);
                assert(self.frame_wf(before[before.len() - 1]));
                lemma_term_of_children(
                    &*self.formula.tree,
                    self.formula.variables@,
                    frame.node as int,
                );
                lemma_variables_before(frame.tokens@, frame.next as int, frame.tokens@.len() as int);
                if frame.next < frame.tokens@.len() {
                    lemma_variables_before(
                        frame.tokens@,
                        frame.next + 1,
                        frame.tokens@.len() as int,
                    );
                }
            }
            if frame.next < frame.tokens.len() {
                let token = frame.tokens[frame.next];
                if !token.is_variable || !self.formula.tree.has_children(frame.node) {
                    frame.next = frame.next + 1;
                    self.stack.push(frame);
                    proof {
                        let after = self.stack@;
                        assert(after.drop_last() =~= below);
                        assert(self.frame_wf(after[after.len() - 1]));
                        let tail = flatten_from(t, syntax, frame.next as int, frame.child as int)
                            + frames_rest(self.formula, syntax, below);
                        assert(old(self).remaining() =~= seq![token.atom] + tail);
                        assert(self.remaining() =~= tail);
                        assert(self.remaining() =~= old(self).remaining().skip(1));
                    }
                    return Some(token.atom);
                }
                let child = self.formula.tree.child(frame.node, frame.child);
                let ghost c = frame.child as int;
                let ghost j = frame.next as int;
                frame.next = frame.next + 1;
                frame.child = frame.child + 1;
                self.stack.push(frame);
                proof {
                    let after = self.stack@;
                    assert(after.drop_last() =~= below);
                    assert(self.frame_wf(after[after.len() - 1]));
                    assert(t.children[c] == self.formula.subterm(child as int));
                }
                let ghost middle = self.stack@;
                self.step_into(child);
                proof {
                    let after = self.stack@;
                    assert(after.drop_last() == middle);
                    assert(middle.drop_last() =~= below);
                    let rest = frames_rest(self.formula, syntax, below);
                    let first = flatten_from(t.children[c], syntax, 0, 0);
                    let second = flatten_from(t, syntax, j + 1, c + 1);
                    assert(frames_rest(self.formula, syntax, middle) == second + rest);
                    assert(frames_rest(self.formula, syntax, after) == first + (second + rest));
                    assert(frames_rest(self.formula, syntax, before) == (first + second) + rest);
                    assert(first + (second + rest) =~= (first + second) + rest);
                    assert(frames_steps(self.formula, syntax, middle) == flatten_steps(
                        t,
                        syntax,
                        j + 1,
                        c + 1,
                    ) + frames_steps(self.formula, syntax, below));
                    assert(frames_steps(self.formula, syntax, after) == flatten_steps(
                        t.children[c],
                        syntax,
                        0,
                        0,
                    ) + frames_steps(self.formula, syntax, middle));
                }
            } else {
                proof {
                    assert(flatten_from(t, syntax, frame.next as int, frame.child as int)
                        =~= Seq::<Symbol>::empty());
                    assert(frames_rest(self.formula, syntax, before) =~= frames_rest(
                        self.formula,
                        syntax,
                        below,
                    ));
                }
            }
        }
    }

    /// The symbols that are yet to come, all at once.
    pub fn collect(&mut self) -> (r: Vec<Symbol>)
        requires
            old(self).wf(),
        ensures
            final(self).wf(),
            r@ == old(self).remaining(),
            final(self).remaining().len() == 0,
    {
        let mut r: Vec<Symbol> = Vec::new();
        loop
            invariant
                self.wf(),
                r@ + self.remaining() == old(self).remaining(),
            decreases self.remaining().len(),
        {
            let ghost before = self.remaining();
            match self.next() {
                Some(symbol) => {
                    r.push(symbol);
                    assert(r@ + self.remaining() =~= old(self).remaining()) by {
                        assert(before =~= seq![symbol] + before.skip(1));
                    }
                },
                None => {
                    assert(r@ =~= r@ + before);
                    return r;
                },
            }
        }
    }
}

impl Formula {
    /// Walks through the math symbols that the formula stands for: each node
    /// gives the symbols of the statement that its label names, behind the
    /// typecode, with each variable replaced by what the next child gives.
    pub fn iter<'a>(&'a self, sset: &'a SegmentSet, nset: &'a Nameset) -> (f: Flatten<'a>)
        requires
            sset.wf(),
            nset.wf(),
            flattenable(self@.term, syntax_of(sset, nset)),
        ensures
            f.wf(),
            f.syntax() == syntax_of(sset, nset),
            f.remaining() == flatten(self@.term, syntax_of(sset, nset)),
    {
        proof {
            use_type_invariant(self);
        }
        let mut f = Flatten { formula: self, sset, nset, stack: Vec::new() };
        f.step_into(self.root);
        proof {
            let syntax = syntax_of(sset, nset);
            assert(f.stack@.drop_last() =~= Seq::<Frame>::empty());
            assert(frames_rest(self, syntax, f.stack@.drop_last()) =~= Seq::<Symbol>::empty());
            assert(f.remaining() =~= flatten(self@.term, syntax));
        }
        f
    }
}

/// The characters that `String::from_utf8_lossy` makes of the bytes.
pub uninterp spec fn utf8_lossy(bytes: Seq<u8>) -> Seq<char>;

/// Whether the text shows the bytes: it is what `String::from_utf8_lossy`
/// makes of them, which for bytes that are UTF-8 is the characters that
/// they encode.
pub open spec fn shows(text: Seq<char>, bytes: Seq<u8>) -> bool {
    text == utf8_lossy(bytes) && (valid_utf8(bytes) ==> text == decode_utf8(bytes))
}

/// The bytes as text.
///
/// This is `String::from_utf8_lossy`. Of bytes that are UTF-8 it makes the
/// characters that they encode; what it makes of other bytes is not stated
/// here, only named.
#[verifier::external_body]
pub(crate) fn lossy_text(bytes: &Vec<u8>) -> (text: String)
    ensures
        text@ == utf8_lossy(bytes@),
        valid_utf8(bytes@) ==> text@ == decode_utf8(bytes@),
{
    String::from_utf8_lossy(bytes).into_owned()
}

/// The names of the symbols, each behind a blank.
pub open spec fn spelled(nset: &Nameset, symbols: Seq<Symbol>) -> Seq<u8>
    decreases symbols.len(),
{
    if symbols.len() == 0 {
        Seq::empty()
    } else {
        spelled(nset, symbols.drop_last()) + seq![32u8] + nset.shown(symbols.last())
    }
}

impl Formula {
    /// The formula written out: the name of its typecode, then the names of
    /// the symbols that it stands for, each behind a blank.
    pub open spec fn spelling(&self, sset: &SegmentSet, nset: &Nameset) -> Seq<u8> {
        nset.shown(self@.typecode) + spelled(nset, flatten(self@.term, syntax_of(sset, nset)))
    }

    /// The formula written out, as bytes.
    pub fn spell(&self, sset: &SegmentSet, nset: &Nameset) -> (bytes: Vec<u8>)
        requires
            sset.wf(),
            nset.wf(),
            flattenable(self@.term, syntax_of(sset, nset)),
        ensures
            bytes@ == self.spelling(sset, nset),
    {
        let mut bytes: Vec<u8> = Vec::new();
        push_bytes(&mut bytes, nset.atom_name(self.typecode));
        let mut walk = self.iter(sset, nset);
        let ghost all = walk.remaining();
        let ghost mut done: Seq<Symbol> = Seq::empty();
        loop
            invariant
                nset.wf(),
                walk.wf(),
                all == flatten(self@.term, syntax_of(sset, nset)),
                done + walk.remaining() == all,
                bytes@ == nset.shown(self@.typecode) + spelled(nset, done),
            decreases walk.remaining().len(),
        {
            let ghost before = walk.remaining();
            match walk.next() {
                Some(symbol) => {
                    bytes.push(32);
                    push_bytes(&mut bytes, nset.atom_name(symbol));
                    proof {
                        let next = done.push(symbol);
                        assert(next.drop_last() =~= done);
                        assert(before =~= seq![symbol] + before.skip(1));
                        assert(next + walk.remaining() =~= all);
                        assert(bytes@ =~= nset.shown(self@.typecode) + spelled(nset, next));
                        done = next;
                    }
                },
                None => {
                    assert(done =~= all);
                    return bytes;
                },
            }
        }
    }

    /// The formula as text: the name of its typecode, then the names of the
    /// symbols that it stands for, each behind a blank. Bytes that are not
    /// UTF-8 are shown by replacement characters.
    pub fn display(&self, sset: &SegmentSet, nset: &Nameset) -> (text: String)
        requires
            sset.wf(),
            nset.wf(),
            flattenable(self@.term, syntax_of(sset, nset)),
        ensures
            shows(text@, self.spelling(sset, nset)),
    {
        let bytes = self.spell(sset, nset);
        lossy_text(&bytes)
    }
}

/// Puts `more` behind `bytes`.
pub fn push_bytes(bytes: &mut Vec<u8>, more: &[u8])
    ensures
        final(bytes)@ == old(bytes)@ + more@,
{
    let mut i: usize = 0;
    while i < more.len()
        invariant
            0 <= i <= more@.len(),
            bytes@ == old(bytes)@ + more@.subrange(0, i as int),
        decreases more@.len() - i,
    {
        bytes.push(more[i]);
        assert(bytes@ =~= old(bytes)@ + more@.subrange(0, i + 1));
        i += 1;
    }
    assert(more@.subrange(0, more@.len() as int) =~= more@);
}

impl Formula {
    /// The number of nodes of the table that holds the formula.
    pub closed spec fn node_count(&self) -> nat {
        self.tree.len()
    }

    /// The node of the table that is the root of the formula.
    pub closed spec fn root_node(&self) -> NodeId {
        self.root
    }

    /// The label of node `id` of the table.
    pub closed spec fn node_label(&self, id: int) -> Label {
        self.tree.label_of(id)
    }

    /// The children of node `id` of the table.
    pub closed spec fn node_children(&self, id: int) -> Seq<NodeId> {
        self.tree.children_of(id)
    }

    /// Whether node `id` of the table marks a variable.
    pub closed spec fn node_marked(&self, id: int) -> bool {
        self.variables@.contains(id)
    }

    /// The numbers of the first `n` of the nodes, each behind a blank.
    pub open spec fn child_numbers(children: Seq<NodeId>, n: int) -> Seq<u8>
        decreases n,
    {
        if n <= 0 {
            Seq::empty()
        } else {
            Self::child_numbers(children, n - 1) + seq![32u8] + digits(children[n - 1] as nat)
        }
    }

    /// The line of node `id` of the table: its number, the name of its
    /// label, a mark if it is a variable, and the numbers of its children.
    pub open spec fn node_line(&self, nset: &Nameset, id: int) -> Seq<u8> {
        "  ".spec_bytes() + digits(id as nat) + ": ".spec_bytes() + nset.shown(self.node_label(id))
            + (if self.node_marked(id) {
            " (variable)".spec_bytes()
        } else {
            Seq::empty()
        }) + Self::child_numbers(self.node_children(id), self.node_children(id).len() as int)
    }

    /// The lines that show how the formula is held: the number of its
    /// root, and each node of its table.
    pub open spec fn dump_lines(&self, nset: &Nameset) -> Seq<Seq<u8>> {
        seq!["  Root: ".spec_bytes() + digits(self.root_node() as nat)] + Seq::new(
            self.node_count(),
            |id: int| self.node_line(nset, id),
        )
    }

    /// How the formula is held, as lines of text: the number of its root,
    /// then each node of its table with its label and its children.
    pub fn dump(&self, nset: &Nameset) -> (r: Vec<String>)
        requires
            nset.wf(),
        ensures
            show_all(r@, self.dump_lines(nset)),
    {
        proof {
            use_type_invariant(self);
        }
        let ghost goal = self.dump_lines(nset);
        let mut lines: Vec<Vec<u8>> = Vec::new();
        let mut head: Vec<u8> = Vec::new();
        push_bytes(&mut head, "  Root: ".as_bytes());
        push_number(&mut head, self.root);
        lines.push(head);
        let count = self.tree.node_count();
        let mut id: usize = 0;
        proof {
            assert(crate::source::words(&lines) =~= goal.subrange(0, 1));
        }
        while id < count
            invariant
                nset.wf(),
                self.inv(),
                count == self.tree.len(),
                0 <= id <= count,
                goal == self.dump_lines(nset),
                goal.len() == count + 1,
                crate::source::words(&lines) == goal.subrange(0, id + 1),
            decreases count - id,
        {
            let mut line: Vec<u8> = Vec::new();
            push_bytes(&mut line, "  ".as_bytes());
            push_number(&mut line, id);
            push_bytes(&mut line, ": ".as_bytes());
            push_bytes(&mut line, nset.atom_name(self.tree.label(id)));
            if self.is_variable(id) {
                push_bytes(&mut line, " (variable)".as_bytes());
            }
            let ghost start = line@;
            let ghost children = self.tree.children_of(id as int);
            let n = self.tree.child_count(id);
            let mut k: usize = 0;
            proof {
                assert(line@ =~= start + Self::child_numbers(children, 0));
            }
            while k < n
                invariant
                    self.inv(),
                    id < self.tree.len(),
                    children == self.tree.children_of(id as int),
                    n == children.len(),
                    0 <= k <= n,
                    line@ == start + Self::child_numbers(children, k as int),
                decreases n - k,
            {
                line.push(32);
                push_number(&mut line, self.tree.child(id, k));
                proof {
                    assert(line@ =~= start + Self::child_numbers(children, k + 1));
                }
                k += 1;
            }
            let ghost before = crate::source::words(&lines);
            proof {
                assert(line@ =~= self.node_line(nset, id as int));
                assert(goal[id + 1] == self.node_line(nset, id as int));
            }
            lines.push(line);
            proof {
                assert(crate::source::words(&lines) =~= before.push(line@));
                assert(goal.subrange(0, id + 2) =~= goal.subrange(0, id + 1).push(goal[id + 1]));
            }
            id += 1;
        }
        proof {
            assert(goal.subrange(0, goal.len() as int) =~= goal);
        }
        texts(&lines)
    }
}

} // verus!
