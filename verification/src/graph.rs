//! The shared read core of an index: flat row storage, per-node
//! neighbour lists, and entry points.
//!
//! Both the writable in-memory index and the read-only loaded index
//! present this same surface; the engine's search walks it without
//! caring which one stands behind it.

use vstd::prelude::*;
use crate::metric::Metric;

verus! {

/// For nonnegative `a <= b` and `c >= 0`, `a * c <= b * c`.
pub proof fn lemma_mul_le(a: int, b: int, c: int)
    requires
        a <= b,
        c >= 0,
    ensures
        a * c <= b * c,
{
    assert(a * c <= b * c) by (nonlinear_arith)
        requires
            a <= b,
            c >= 0,
    ;
}

/// Flat vector storage, adjacency lists and entry points of one index.
pub struct Graph {
    /// The fixed row width; every stored vector holds `dim` words.
    pub dim: usize,
    pub metric: Metric,
    /// The degree bound R: no adjacency list is ever longer.
    pub max_degree: usize,
    /// Row-major storage: node `i` occupies words `i*dim .. (i+1)*dim`.
    pub vectors: Vec<u32>,
    /// One neighbour list per present node.
    pub adjacency: Vec<Vec<u32>>,
    /// The node ids every search starts from.
    pub entry_points: Vec<u32>,
}

impl Graph {
    /// The number of present nodes.
    pub open spec fn spec_count(&self) -> int {
        self.adjacency@.len() as int
    }

    /// The stored row of node `i`.
    pub open spec fn row_spec(&self, i: int) -> Seq<u32> {
        self.vectors@.subrange(i * self.dim, i * self.dim + self.dim)
    }

    /// A neighbour list that node `i` may carry: short enough, no
    /// self-loop, every target present, no duplicate targets.
    pub open spec fn valid_neighbors(&self, i: int, l: Seq<u32>) -> bool {
        &&& l.len() <= self.max_degree
        &&& forall|j: int| 0 <= j < l.len() ==> (#[trigger] l[j]) < self.spec_count() && l[j] != i
        &&& forall|j1: int, j2: int| 0 <= j1 < j2 < l.len() ==> l[j1] != l[j2]
    }

    /// The structural core: storage exactly covers the present nodes,
    /// every neighbour list is valid for its node, and entry points are
    /// distinct present nodes.
    pub open spec fn wf_core(&self) -> bool {
        &&& self.dim >= 1
        &&& self.spec_count() <= u32::MAX as int
        &&& self.vectors@.len() == self.spec_count() * self.dim
        &&& forall|i: int|
            0 <= i < self.spec_count() ==> self.valid_neighbors(i, #[trigger] self.adjacency@[i]@)
        &&& forall|e: int|
            0 <= e < self.entry_points@.len() ==> (#[trigger] self.entry_points@[e])
                < self.spec_count()
        &&& forall|e1: int, e2: int|
            0 <= e1 < e2 < self.entry_points@.len() ==> self.entry_points@[e1]
                != self.entry_points@[e2]
    }

    /// The full invariant: the core, and at least one entry point once
    /// any node exists.  Appending the very first node passes through a
    /// state where only the core holds, until its entry point is added.
    pub open spec fn wf(&self) -> bool {
        &&& self.wf_core()
        &&& self.spec_count() > 0 ==> self.entry_points@.len() > 0
    }

    /// An empty graph of the given shape.
    pub fn new(dim: usize, metric: Metric, max_degree: usize) -> (r: Graph)
        requires
            dim >= 1,
        ensures
            r.wf(),
            r.spec_count() == 0,
            r.dim == dim,
            r.metric == metric,
            r.max_degree == max_degree,
            r.vectors@.len() == 0,
            r.entry_points@.len() == 0,
    {
        let r = Graph {
            dim,
            metric,
            max_degree,
            vectors: Vec::new(),
            adjacency: Vec::new(),
            entry_points: Vec::new(),
        };
        proof {
            assert(r.wf_core());
            assert(r.wf());
        }
        r
    }

    pub fn count(&self) -> (r: usize)
        ensures
            r == self.spec_count(),
    {
        self.adjacency.len()
    }

    /// A copy of the stored row of node `id`.
    pub fn row(&self, id: usize) -> (r: Vec<u32>)
        requires
            self.wf_core(),
            id < self.spec_count(),
        ensures
            r@ == self.row_spec(id as int),
            r@.len() == self.dim,
    {
        let _total: usize = self.vectors.len();
        proof {
            lemma_mul_le(id + 1, self.spec_count(), self.dim as int);
            assert((id + 1) * self.dim == id * self.dim + self.dim) by (nonlinear_arith);
            lemma_mul_le(0, id as int, self.dim as int);
            assert(id * self.dim + self.dim <= _total);
        }
        let offset: usize = id * self.dim;
        let s = vstd::slice::slice_subrange(self.vectors.as_slice(), offset, offset + self.dim);
        vstd::slice::slice_to_vec(s)
    }

    /// A copy of the neighbour list of node `id`.
    pub fn neighbors(&self, id: usize) -> (r: Vec<u32>)
        requires
            id < self.spec_count(),
        ensures
            r@ == self.adjacency@[id as int]@,
    {
        let mut out: Vec<u32> = Vec::new();
        let list: &Vec<u32> = &self.adjacency[id];
        let mut j: usize = 0;
        while j < list.len()
            invariant
                j <= list@.len(),
                out@ == list@.subrange(0, j as int),
            decreases list@.len() - j,
        {
            out.push(list[j]);
            j = j + 1;
        }
        proof {
            assert(out@ =~= list@);
        }
        out
    }

    /// Appends a fresh node: its row, its neighbour list, nothing else.
    /// The new node's id is the old count.
    pub fn push_node(&mut self, v: &Vec<u32>, neighbors: Vec<u32>)
        requires
            old(self).wf_core(),
            v@.len() == old(self).dim,
            old(self).spec_count() < u32::MAX as int,
            old(self).vectors@.len() + old(self).dim <= usize::MAX as int,
            old(self).valid_neighbors(old(self).spec_count(), neighbors@),
            forall|j: int|
                0 <= j < neighbors@.len() ==> (#[trigger] neighbors@[j])
                    < old(self).spec_count(),
        ensures
            final(self).wf_core(),
            old(self).entry_points@.len() > 0 ==> final(self).wf(),
            final(self).spec_count() == old(self).spec_count() + 1,
            final(self).dim == old(self).dim,
            final(self).metric == old(self).metric,
            final(self).max_degree == old(self).max_degree,
            final(self).vectors@ == old(self).vectors@ + v@,
            final(self).adjacency@ == old(self).adjacency@.push(neighbors),
            final(self).entry_points@ == old(self).entry_points@,
            final(self).row_spec(old(self).spec_count()) == v@,
            forall|i: int|
                0 <= i < old(self).spec_count() ==> final(self).row_spec(i) == old(self).row_spec(
                    i,
                ),
    {
        let ghost oldself = *self;
        let mut k: usize = 0;
        while k < v.len()
            invariant
                k <= v@.len(),
                self.vectors@ == oldself.vectors@ + v@.subrange(0, k as int),
                self.dim == oldself.dim,
                self.metric == oldself.metric,
                self.max_degree == oldself.max_degree,
                self.adjacency@ == oldself.adjacency@,
                self.entry_points@ == oldself.entry_points@,
                oldself.vectors@.len() + v@.len() <= usize::MAX as int,
                v@.len() == oldself.dim,
            decreases v@.len() - k,
        {
            self.vectors.push(v[k]);
            proof {
                assert(self.vectors@ =~= oldself.vectors@ + v@.subrange(0, k + 1));
            }
            k = k + 1;
        }
        proof {
            assert(self.vectors@ =~= oldself.vectors@ + v@);
        }
        self.adjacency.push(neighbors);
        proof {
            let newcount = oldself.spec_count() + 1;
            assert((oldself.spec_count() + 1) * self.dim == oldself.spec_count() * self.dim
                + self.dim) by (nonlinear_arith);
            assert(self.vectors@.len() == newcount * self.dim);
            assert forall|i: int| 0 <= i < newcount implies self.valid_neighbors(
                i,
                #[trigger] self.adjacency@[i]@,
            ) by {
                if i < oldself.spec_count() {
                    assert(oldself.valid_neighbors(i, oldself.adjacency@[i]@));
                }
            }
            assert forall|i: int| 0 <= i <= oldself.spec_count() implies self.row_spec(i) =~= (
            if i < oldself.spec_count() {
                oldself.row_spec(i)
            } else {
                v@
            }) by {
                assert((i + 1) * self.dim == i * self.dim + self.dim) by (nonlinear_arith);
                lemma_mul_le(i + 1, newcount, self.dim as int);
                lemma_mul_le(0, i, self.dim as int);
                if i < oldself.spec_count() {
                    lemma_mul_le(i + 1, oldself.spec_count(), self.dim as int);
                }
            }
        }
    }

    /// Replaces the neighbour list of node `id`.
    pub fn set_neighbors(&mut self, id: usize, neighbors: Vec<u32>)
        requires
            old(self).wf_core(),
            id < old(self).spec_count(),
            old(self).valid_neighbors(id as int, neighbors@),
        ensures
            final(self).wf_core(),
            old(self).wf() ==> final(self).wf(),
            *final(self) == (Graph {
                adjacency: final(self).adjacency,
                ..*old(self)
            }),
            final(self).adjacency@ == old(self).adjacency@.update(id as int, neighbors),
            final(self).spec_count() == old(self).spec_count(),
            forall|i: int|
                0 <= i < old(self).spec_count() ==> final(self).row_spec(i) == old(self).row_spec(
                    i,
                ),
    {
        self.adjacency.set(id, neighbors);
        proof {
            assert forall|i: int| 0 <= i < self.spec_count() implies self.valid_neighbors(
                i,
                #[trigger] self.adjacency@[i]@,
            ) by {
                if i != id {
                    assert(old(self).valid_neighbors(i, old(self).adjacency@[i]@));
                }
            }
        }
    }

    /// Records a further entry point.
    pub fn add_entry_point(&mut self, id: u32)
        requires
            old(self).wf_core(),
            id < old(self).spec_count(),
            forall|e: int|
                0 <= e < old(self).entry_points@.len() ==> (#[trigger] old(
                    self,
                ).entry_points@[e]) != id,
        ensures
            final(self).wf(),
            final(self).wf_core(),
            *final(self) == (Graph {
                entry_points: final(self).entry_points,
                ..*old(self)
            }),
            final(self).entry_points@ == old(self).entry_points@.push(id),
    {
        self.entry_points.push(id);
    }
}


/// Degree law: in a well-formed graph no node's neighbour list
/// exceeds the degree bound.
pub proof fn lemma_degree_bound(g: Graph, i: int)
    requires
        g.wf(),
        0 <= i < g.spec_count(),
    ensures
        g.adjacency@[i]@.len() <= g.max_degree,
{
    assert(g.valid_neighbors(i, g.adjacency@[i]@));
}

/// Neighbour soundness law: in a well-formed graph every neighbour of
/// every node is a present node other than the node itself.
pub proof fn lemma_neighbors_present(g: Graph, i: int, j: int)
    requires
        g.wf(),
        0 <= i < g.spec_count(),
        0 <= j < g.adjacency@[i]@.len(),
    ensures
        g.adjacency@[i]@[j] < g.spec_count(),
        g.adjacency@[i]@[j] != i,
{
    assert(g.valid_neighbors(i, g.adjacency@[i]@));
}

} // verus!
