//! The table of a chart parser: for every span of the input and every
//! typecode, the node found for it, if any.

use crate::tree::NodeId;
use vstd::arithmetic::div_mod::lemma_fundamental_div_mod_converse;
use vstd::prelude::*;

verus! {

/// A table over the spans of an input of `n` symbols and over `t` typecodes.
pub struct Chart {
    n: usize,
    t: usize,
    cells: Vec<Option<NodeId>>,
}

/// The cell of the span that starts at `start` and has `len` symbols, for
/// typecode `tc`.
pub open spec fn cell_index(n: int, t: int, start: int, len: int, tc: int) -> int {
    ((len - 1) * n + start) * t + tc
}

/// The cells of spans of an input are within the table, and no two spans
/// share one.
pub proof fn lemma_cell_index(n: int, t: int, start: int, len: int, tc: int)
    requires
        0 <= start,
        1 <= len,
        start + len <= n,
        0 <= tc < t,
    ensures
        0 <= cell_index(n, t, start, len, tc) < n * n * t,
        cell_index(n, t, start, len, tc) % t == tc,
        (cell_index(n, t, start, len, tc) / t) % n == start,
        (cell_index(n, t, start, len, tc) / t) / n == len - 1,
{
    let row = (len - 1) * n + start;
    assert(0 <= row < n * n) by (nonlinear_arith)
        requires
            0 <= start,
            1 <= len,
            start + len <= n,
            row == (len - 1) * n + start,
    ;
    assert(0 <= row * t + tc < n * n * t) by (nonlinear_arith)
        requires
            0 <= row < n * n,
            0 <= tc < t,
    ;
    lemma_fundamental_div_mod_converse(row * t + tc, t, row, tc);
    lemma_fundamental_div_mod_converse(row, n, len - 1, start);
}

impl Chart {
    /// The length of the input.
    pub closed spec fn input_len(&self) -> nat {
        self.n as nat
    }

    /// The number of typecodes.
    pub closed spec fn typecodes(&self) -> nat {
        self.t as nat
    }

    /// The invariant of the table: it has a cell for every span and typecode.
    pub closed spec fn wf(&self) -> bool {
        self.cells@.len() == self.n * self.n * self.t
    }

    /// Whether the span and the typecode are those of a cell.
    pub open spec fn valid(&self, start: int, len: int, tc: int) -> bool {
        0 <= start && 1 <= len && start + len <= self.input_len() && 0 <= tc < self.typecodes()
    }

    /// The node found for the span and the typecode.
    pub closed spec fn at(&self, start: int, len: int, tc: int) -> Option<NodeId> {
        self.cells@[cell_index(self.n as int, self.t as int, start, len, tc)]
    }

    /// An empty table for an input of `n` symbols and `t` typecodes; `None`
    /// when the number of spans or the number of cells is too large to
    /// index.
    pub fn new(n: usize, t: usize) -> (r: Option<Chart>)
        ensures
            r matches Some(c) ==> c.wf() && c.input_len() == n && c.typecodes() == t && forall|
                start: int,
                len: int,
                tc: int,
            | c.valid(start, len, tc) ==> c.at(start, len, tc) is None,
            r is None ==> t == 0 || n * n * t > usize::MAX,
            (r is Some) == (n * n <= usize::MAX && n * n * t <= usize::MAX),
    {
        let rows = match n.checked_mul(n) {
            Some(rows) => rows,
            None => {
                proof {
                    if t > 0 {
                        assert(n * n * t >= n * n) by (nonlinear_arith)
                            requires
                                t >= 1,
                        ;
                    }
                }
                return None;
            },
        };
        let size = match rows.checked_mul(t) {
            Some(size) => size,
            None => {
                return None;
            },
        };
        let mut cells: Vec<Option<NodeId>> = Vec::new();
        let mut i: usize = 0;
        while i < size
            invariant
                0 <= i <= size,
                cells@.len() == i,
                forall|k: int| 0 <= k < i ==> cells@[k] is None,
            decreases size - i,
        {
            cells.push(None);
            i += 1;
        }
        let c = Chart { n, t, cells };
        proof {
            assert forall|start: int, len: int, tc: int| c.valid(start, len, tc) implies c.at(
                start,
                len,
                tc,
            ) is None by {
                lemma_cell_index(n as int, t as int, start, len, tc);
            }
        }
        Some(c)
    }

    fn index(&self, start: usize, len: usize, tc: usize) -> (i: usize)
        requires
            self.wf(),
            self.valid(start as int, len as int, tc as int),
        ensures
            i == cell_index(self.n as int, self.t as int, start as int, len as int, tc as int),
            i < self.cells@.len(),
    {
        let total = self.cells.len();
        proof {
            lemma_cell_index(self.n as int, self.t as int, start as int, len as int, tc as int);
            let row = (len - 1) * self.n + start;
            assert(self.n * self.n <= self.n * self.n * self.t) by (nonlinear_arith)
                requires
                    1 <= self.t,
            ;
            assert(0 <= (len - 1) * self.n <= row < self.n * self.n) by (nonlinear_arith)
                requires
                    0 <= start,
                    1 <= len,
                    start + len <= self.n,
                    row == (len - 1) * self.n + start,
            ;
            assert(0 <= row * self.t <= row * self.t + tc < self.n * self.n * self.t)
                by (nonlinear_arith)
                requires
                    0 <= row < self.n * self.n,
                    0 <= tc < self.t,
            ;
        }
        ((len - 1) * self.n + start) * self.t + tc
    }

    /// The node found for the span and the typecode.
    pub fn get(&self, start: usize, len: usize, tc: usize) -> (r: Option<NodeId>)
        requires
            self.wf(),
            self.valid(start as int, len as int, tc as int),
        ensures
            r == self.at(start as int, len as int, tc as int),
    {
        let i = self.index(start, len, tc);
        self.cells[i]
    }

    /// Records `node` for the span and the typecode.
    pub fn set(&mut self, start: usize, len: usize, tc: usize, node: NodeId)
        requires
            old(self).wf(),
            old(self).valid(start as int, len as int, tc as int),
        ensures
            final(self).wf(),
            final(self).input_len() == old(self).input_len(),
            final(self).typecodes() == old(self).typecodes(),
            final(self).at(start as int, len as int, tc as int) == Some(node),
            forall|s: int, l: int, c: int|
                old(self).valid(s, l, c) && !(s == start && l == len && c == tc) ==> final(self).at(
                    s,
                    l,
                    c,
                ) == old(self).at(s, l, c),
    {
        let i = self.index(start, len, tc);
        self.cells[i] = Some(node);
        proof {
            assert forall|s: int, l: int, c: int|
                old(self).valid(s, l, c) && !(s == start && l == len && c == tc) implies self.at(
                s,
                l,
                c,
            ) == old(self).at(s, l, c) by {
                lemma_cell_index(self.n as int, self.t as int, s, l, c);
                lemma_cell_index(self.n as int, self.t as int, start as int, len as int, tc as int);
            }
        }
    }
}

} // verus!
