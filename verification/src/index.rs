//! The index instances: the writable in-memory index, the read-only
//! disk-backed index, and the unified handle over both.

use vstd::prelude::*;
use vstd::slice::slice_to_vec;
use crate::errors::IndexError;
use crate::engine;
use crate::engine::seq_has_u32;
use crate::graph::Graph;
use crate::metric::Metric;
use crate::model::DistanceModel;
use crate::quantize::SQ8Params;
use crate::quantize::Sq8Store;

verus! {

/// A writable in-memory index backed by the graph engine.
pub struct InMemoryIndex {
    pub name: String,
    pub graph: Graph,
    pub build_complexity: u32,
    /// The raw words of the construction parameter alpha, kept for
    /// reporting; the behavioural alpha lives in the distance strategy
    /// handed to each insert.
    pub alpha_bits: u32,
    /// The optional SQ8 companion store.
    pub quantized: Option<Sq8Store>,
}

impl InMemoryIndex {
    pub open spec fn wf(&self) -> bool {
        &&& self.graph.wf()
        &&& self.graph.dim <= u32::MAX as int
        &&& self.graph.max_degree <= u32::MAX as int
        &&& match self.quantized {
            Some(qs) => qs.wf(self.graph.dim as int, self.graph.spec_count()),
            None => true,
        }
    }

    /// The number of stored vectors; labels are dense, so this is also
    /// the next label to be assigned.
    pub open spec fn spec_len(&self) -> int {
        self.graph.spec_count()
    }

    /// An empty, unregistered index.  The dimension must be positive;
    /// everything else is taken as given.
    pub fn new_detached(
        dimension: usize,
        metric: Metric,
        max_degree: u32,
        build_complexity: u32,
        alpha_bits: u32,
    ) -> (r: Result<InMemoryIndex, IndexError>)
        ensures
            dimension == 0 || dimension > u32::MAX ==> r == Err::<InMemoryIndex, IndexError>(
                IndexError::InvalidArgument,
            ),
            0 < dimension <= u32::MAX ==> match r {
                Ok(idx) => {
                    &&& idx.wf()
                    &&& idx.spec_len() == 0
                    &&& idx.graph.dim == dimension
                    &&& idx.graph.metric == metric
                    &&& idx.graph.max_degree == max_degree
                    &&& idx.build_complexity == build_complexity
                    &&& idx.alpha_bits == alpha_bits
                    &&& idx.name@ == Seq::<char>::empty()
                    &&& idx.quantized is None
                    &&& idx.graph.entry_points@.len() == 0
                },
                Err(_) => false,
            },
    {
        if dimension == 0 || dimension > u32::MAX as usize {
            return Err(IndexError::InvalidArgument);
        }
        Ok(
            InMemoryIndex {
                name: String::new(),
                graph: Graph::new(dimension, metric, max_degree as usize),
                build_complexity,
                alpha_bits,
                quantized: None,
            },
        )
    }

    /// Adds one vector under the distance strategy `dm` and returns
    /// the assigned label: labels are dense and monotonic, and a
    /// refused vector leaves the index untouched.
    pub fn add<K: DistanceModel>(&mut self, dm: &K, vector: &Vec<u32>) -> (r: Result<
        u32,
        IndexError,
    >)
        requires
            old(self).wf(),
            old(self).spec_len() < u32::MAX as int,
            old(self).graph.vectors@.len() + old(self).graph.dim <= usize::MAX as int,
        ensures
            final(self).wf(),
            vector@.len() != old(self).graph.dim ==> r == Err::<u32, IndexError>(
                IndexError::InvalidArgument,
            ) && *final(self) == *old(self),
            vector@.len() == old(self).graph.dim ==> {
                &&& r == Ok::<u32, IndexError>(old(self).spec_len() as u32)
                &&& final(self).spec_len() == old(self).spec_len() + 1
                &&& final(self).graph.vectors@ == old(self).graph.vectors@ + vector@
                &&& final(self).graph.row_spec(old(self).spec_len()) == vector@
                &&& forall|i: int|
                    0 <= i < old(self).spec_len() ==> final(self).graph.row_spec(i) == old(
                        self,
                    ).graph.row_spec(i)
                &&& final(self).graph.dim == old(self).graph.dim
                &&& final(self).graph.metric == old(self).graph.metric
                &&& final(self).graph.max_degree == old(self).graph.max_degree
                &&& final(self).name == old(self).name
                &&& final(self).build_complexity == old(self).build_complexity
                &&& final(self).alpha_bits == old(self).alpha_bits
                &&& final(self).quantized == old(self).quantized
                &&& (old(self).spec_len() == 0 ==> final(self).graph.entry_points@ =~= seq![0u32])
                &&& (old(self).spec_len() > 0 ==> final(self).graph.entry_points@ == old(
                    self,
                ).graph.entry_points@)
                &&& (old(self).spec_len() > 0 ==> engine::insert_wired(
                    dm,
                    old(self).graph,
                    final(self).graph,
                    vector@,
                ))
            },
    {
        if vector.len() != self.graph.dim {
            return Err(IndexError::InvalidArgument);
        }
        let label: u32 = self.graph.count() as u32;
        let bc = self.build_complexity;
        proof {
            crate::graph::lemma_mul_le(0, old(self).spec_len(), old(self).graph.dim as int);
        }
        engine::graph_insert(&mut self.graph, dm, vector, bc as usize);
        Ok(label)
    }

    /// Searches for the `k` approximate nearest neighbours of `query`
    /// under the strategy `dm`, with beam width `search_complexity`
    /// (the build complexity where zero).
    pub fn search<K: DistanceModel>(
        &self,
        dm: &K,
        query: &Vec<u32>,
        k: usize,
        search_complexity: u32,
    ) -> (r: Result<Vec<(u64, u64)>, IndexError>)
        requires
            self.wf(),
        ensures
            query@.len() != self.graph.dim ==> r == Err::<Vec<(u64, u64)>, IndexError>(
                IndexError::InvalidArgument,
            ),
            query@.len() == self.graph.dim ==> match r {
                Ok(out) => search_post(out@, &self.graph, dm, query@, k as int),
                Err(_) => false,
            },
    {
        if query.len() != self.graph.dim {
            return Err(IndexError::InvalidArgument);
        }
        let base: usize = if search_complexity > 0 {
            search_complexity as usize
        } else {
            self.build_complexity as usize
        };
        Ok(engine::graph_search(&self.graph, dm, query, k, base))
    }

    /// The stored vector of `label`, or nothing for an absent label.
    pub fn get_vector(&self, label: u32) -> (r: Option<Vec<u32>>)
        requires
            self.wf(),
        ensures
            (label as int) < self.spec_len() ==> match r {
                Some(v) => v@ == self.graph.row_spec(label as int),
                None => false,
            },
            (label as int) >= self.spec_len() ==> r is None,
    {
        let count = self.graph.count();
        if (label as usize) < count {
            Some(self.graph.row(label as usize))
        } else {
            None
        }
    }

    /// The number of stored vectors.
    pub fn len(&self) -> (r: usize)
        ensures
            r == self.spec_len(),
    {
        self.graph.count()
    }

    /// The next label an insertion would take.
    pub fn next_label(&self) -> (r: u32)
        requires
            self.wf(),
        ensures
            r == self.spec_len(),
    {
        self.graph.count() as u32
    }

    /// Adjacency lists for ids `0..count`, each cut to `max_deg`
    /// targets; absent ids give empty lists.
    pub fn get_all_adjacency(&self, count: usize, max_deg: usize) -> (r: Vec<Vec<u32>>)
        requires
            self.wf(),
        ensures
            r@.len() == count,
            forall|i: int|
                0 <= i < count ==> (#[trigger] r@[i])@ == (if i < self.spec_len() {
                    self.graph.adjacency@[i]@.take(
                        if self.graph.adjacency@[i]@.len() <= max_deg {
                            self.graph.adjacency@[i]@.len() as int
                        } else {
                            max_deg as int
                        },
                    )
                } else {
                    Seq::<u32>::empty()
                }),
    {
        let present = self.graph.count();
        let mut r: Vec<Vec<u32>> = Vec::new();
        let mut i: usize = 0;
        while i < count
            invariant
                i <= count,
                self.wf(),
                present == self.spec_len(),
                r@.len() == i,
                forall|t: int|
                    0 <= t < i ==> (#[trigger] r@[t])@ == (if t < self.spec_len() {
                        self.graph.adjacency@[t]@.take(
                            if self.graph.adjacency@[t]@.len() <= max_deg {
                                self.graph.adjacency@[t]@.len() as int
                            } else {
                                max_deg as int
                            },
                        )
                    } else {
                        Seq::<u32>::empty()
                    }),
            decreases count - i,
        {
            if i < present {
                let mut adj = self.graph.neighbors(i);
                let ghost full = adj@;
                if adj.len() > max_deg {
                    adj.truncate(max_deg);
                }
                proof {
                    if full.len() <= max_deg {
                        assert(adj@ =~= full.take(full.len() as int));
                    } else {
                        assert(adj@ =~= full.take(max_deg as int));
                    }
                }
                r.push(adj);
            } else {
                let empty: Vec<u32> = Vec::new();
                r.push(empty);
            }
            i = i + 1;
        }
        r
    }

    /// The entry point ids, in insertion order.
    pub fn get_entry_points(&self) -> (r: Vec<u32>)
        ensures
            r@ == self.graph.entry_points@,
    {
        slice_to_vec(self.graph.entry_points.as_slice())
    }

    /// Whether an SQ8 companion store is installed.
    pub fn is_quantized(&self) -> (r: bool)
        ensures
            r == (self.quantized is Some),
    {
        matches!(self.quantized, Some(_))
    }

    /// The SQ8 parameters, where installed.
    pub fn get_sq8_params(&self) -> (r: Option<SQ8Params>)
        ensures
            match r {
                Some(p) => match self.quantized {
                    Some(qs) => p.min_bits@ == qs.params.min_bits@ && p.scale_bits@
                        == qs.params.scale_bits@,
                    None => false,
                },
                None => self.quantized is None,
            },
    {
        match &self.quantized {
            Some(qs) => Some(
                SQ8Params {
                    min_bits: slice_to_vec(qs.params.min_bits.as_slice()),
                    scale_bits: slice_to_vec(qs.params.scale_bits.as_slice()),
                },
            ),
            None => None,
        }
    }

    /// The raw SQ8 codes, where installed.
    pub fn get_quantized_data(&self) -> (r: Option<Vec<u8>>)
        ensures
            match r {
                Some(d) => match self.quantized {
                    Some(qs) => d@ == qs.data@,
                    None => false,
                },
                None => self.quantized is None,
            },
    {
        match &self.quantized {
            Some(qs) => Some(slice_to_vec(qs.data.as_slice())),
            None => None,
        }
    }


    /// The bytes the vector storage occupies: four per full-precision
    /// word, plus the quantized codes and their parameter words.
    pub fn vector_memory_bytes(&self) -> (r: usize)
        requires
            self.wf(),
            self.graph.vectors@.len() * 4 + (match self.quantized {
                Some(qs) => qs.data@.len() + qs.params.min_bits@.len() * 8,
                None => 0nat,
            }) <= usize::MAX as int,
        ensures
            r == self.graph.vectors@.len() * 4 + (match self.quantized {
                Some(qs) => qs.data@.len() + qs.params.min_bits@.len() * 8,
                None => 0nat,
            }),
    {
        let mut size: usize = self.graph.vectors.len() * 4;
        match &self.quantized {
            Some(qs) => {
                size = size + qs.data.len();
                size = size + qs.params.min_bits.len() * 8;
            },
            None => {},
        }
        size
    }

    /// Installs SQ8 codes and parameters, replacing any present pair.
    /// The shapes must agree with the index: whole rows, no more rows
    /// than stored, one parameter pair per dimension.
    pub fn load_sq8(&mut self, data: Vec<u8>, params: SQ8Params) -> (r: Result<(), IndexError>)
        requires
            old(self).wf(),
        ensures
            final(self).wf(),
            ({
                let qs = Sq8Store { data: data, params: params };
                if qs.wf(old(self).graph.dim as int, old(self).spec_len()) {
                    r is Ok && *final(self) == (InMemoryIndex {
                        quantized: Some(qs),
                        ..*old(self)
                    })
                } else {
                    r == Err::<(), IndexError>(IndexError::InvalidArgument) && *final(self)
                        == *old(self)
                }
            }),
    {
        let dim = self.graph.dim;
        let count = self.graph.count();
        proof {
            crate::graph::lemma_mul_le(0, old(self).spec_len(), dim as int);
        }
        let rows_ok = data.len() % dim == 0 && {
            let rows = data.len() / dim;
            rows <= count
        };
        proof {
            if data@.len() % (dim as nat) == 0 {
                let rows = data@.len() as int / dim as int;
                assert(rows * dim == data@.len()) by (nonlinear_arith)
                    requires
                        dim >= 1,
                        data@.len() % (dim as nat) == 0,
                        rows == data@.len() as int / dim as int,
                ;
                if rows <= count {
                    crate::graph::lemma_mul_le(rows, count as int, dim as int);
                }
                if data@.len() <= count * dim {
                    assert(rows <= count) by (nonlinear_arith)
                        requires
                            dim >= 1,
                            rows * dim == data@.len(),
                            data@.len() <= count * dim,
                    ;
                }
            }
        }
        if rows_ok && params.min_bits.len() == dim && params.scale_bits.len() == dim {
            self.quantized = Some(Sq8Store { data, params });
            Ok(())
        } else {
            Err(IndexError::InvalidArgument)
        }
    }
}

/// What a successful search promises: at most `min(k, count)` results,
/// keys ascending, labels distinct and present, every key the
/// strategy's key of that node from the query, nothing for an empty
/// index or `k == 0`, at least one result otherwise, and exactly the
/// single node for a one-node index.
pub open spec fn search_post<K: DistanceModel>(
    out: Seq<(u64, u64)>,
    g: &Graph,
    dm: &K,
    q: Seq<u32>,
    k: int,
) -> bool {
    &&& g.spec_count() == 0 ==> out.len() == 0
    &&& k == 0 ==> out.len() == 0
    &&& out.len() <= k
    &&& out.len() <= g.spec_count()
    &&& k > 0 && g.spec_count() > 0 ==> out.len() >= 1
    &&& forall|i: int, j: int| 0 <= i < j < out.len() ==> out[i].1 <= out[j].1
    &&& forall|i: int, j: int| 0 <= i < j < out.len() ==> out[i].0 != out[j].0
    &&& forall|i: int| 0 <= i < out.len() ==> (#[trigger] out[i]).0 < g.spec_count()
    &&& forall|i: int|
        0 <= i < out.len() ==> (#[trigger] out[i]).1 == dm.distance_spec(
            g.metric,
            q,
            g.row_spec(out[i].0 as int),
        )
    &&& forall|i: int| 0 <= i < out.len() ==> engine::reachable(g, (#[trigger] out[i]).0 as u32)
    &&& ((forall|id: u32| (id as int) < g.spec_count() ==> engine::reachable(g, id))
        ==> out.len() == (if k <= g.spec_count() {
        k
    } else {
        g.spec_count()
    }))
    &&& g.spec_count() == 1 && k > 0 ==> out =~= seq![
        (0u64, dm.distance_spec(g.metric, q, g.row_spec(0))),
    ]
}


/// The old labels kept by compaction over `0..count`: those not in
/// `deleted`, ascending.
pub open spec fn spec_kept(deleted: Seq<u32>, count: int) -> Seq<u32>
    decreases count,
{
    if count <= 0 {
        Seq::empty()
    } else {
        let pre = spec_kept(deleted, count - 1);
        if seq_has_u32(deleted, (count - 1) as u32) {
            pre
        } else {
            pre.push((count - 1) as u32)
        }
    }
}

/// Kept labels are ascending, below `count`, and never deleted.
pub proof fn lemma_kept_props(deleted: Seq<u32>, count: int)
    requires
        0 <= count <= u32::MAX as int,
    ensures
        spec_kept(deleted, count).len() <= count,
        forall|j: int|
            0 <= j < spec_kept(deleted, count).len() ==> (#[trigger] spec_kept(deleted, count)[j])
                < count,
        forall|j: int|
            0 <= j < spec_kept(deleted, count).len() ==> !seq_has_u32(
                deleted,
                #[trigger] spec_kept(deleted, count)[j],
            ),
        forall|j1: int, j2: int|
            0 <= j1 < j2 < spec_kept(deleted, count).len() ==> spec_kept(deleted, count)[j1]
                < spec_kept(deleted, count)[j2],
    decreases count,
{
    if count > 0 {
        lemma_kept_props(deleted, count - 1);
    }
}

/// With nothing deleted, compaction keeps every label in place.
pub proof fn lemma_kept_empty(deleted: Seq<u32>, count: int)
    requires
        0 <= count <= u32::MAX as int,
        deleted.len() == 0,
    ensures
        spec_kept(deleted, count).len() == count,
        forall|j: int| 0 <= j < count ==> (#[trigger] spec_kept(deleted, count)[j]) == j,
    decreases count,
{
    if count > 0 {
        lemma_kept_empty(deleted, count - 1);
        assert(!seq_has_u32(deleted, (count - 1) as u32)) by {
            if seq_has_u32(deleted, (count - 1) as u32) {
                let j = choose|j: int| 0 <= j < deleted.len() && deleted[j] == (count - 1) as u32;
            }
        }
        assert forall|j: int| 0 <= j < count implies (#[trigger] spec_kept(deleted, count)[j])
            == j by {
            if j < count - 1 {
                assert(spec_kept(deleted, count)[j] == spec_kept(deleted, count - 1)[j]);
            }
        }
    }
}

impl InMemoryIndex {
    /// Rebuilds the index without the deleted labels: the kept vectors
    /// are reinserted in ascending old-label order — each through the
    /// full insert protocol, whose own contract pins the wiring — so
    /// new labels are dense, and the returned map pairs each kept old
    /// label with its new one.  The index being compacted is left as
    /// it was.
    pub fn compact<K: DistanceModel>(&self, dm: &K, deleted_labels: &Vec<u32>) -> (r: Result<
        (InMemoryIndex, Vec<(u32, u32)>),
        IndexError,
    >)
        requires
            self.wf(),
        ensures
            match r {
                Ok(p) => {
                    let kept = spec_kept(deleted_labels@, self.spec_len());
                    &&& p.0.wf()
                    &&& p.0.graph.dim == self.graph.dim
                    &&& p.0.graph.metric == self.graph.metric
                    &&& p.0.graph.max_degree == self.graph.max_degree
                    &&& p.0.build_complexity == self.build_complexity
                    &&& p.0.alpha_bits == self.alpha_bits
                    &&& p.0.quantized is None
                    &&& p.0.spec_len() == kept.len()
                    &&& p.1@.len() == kept.len()
                    &&& forall|j: int|
                        0 <= j < kept.len() ==> (#[trigger] p.1@[j]) == (kept[j], j as u32)
                    &&& forall|j: int|
                        0 <= j < kept.len() ==> p.0.graph.row_spec(j) == self.graph.row_spec(
                            (#[trigger] kept[j]) as int,
                        )
                },
                Err(_) => false,
            },
    {
        let count = self.graph.count();
        let _total_words: usize = self.graph.vectors.len();
        let new0 = InMemoryIndex::new_detached(
            self.graph.dim,
            self.graph.metric,
            self.graph.max_degree as u32,
            self.build_complexity,
            self.alpha_bits,
        );
        let mut fresh = match new0 {
            Ok(idx) => idx,
            Err(_) => {
                proof {
                    assert(false);
                }
                return Err(IndexError::EngineInternal);
            },
        };
        let mut map: Vec<(u32, u32)> = Vec::new();
        let mut i: usize = 0;
        proof {
            lemma_kept_props(deleted_labels@, self.spec_len());
        }
        while i < count
            invariant
                i <= count,
                count == self.spec_len(),
                self.wf(),
                self.graph.vectors@.len() <= usize::MAX as int,
                fresh.wf(),
                fresh.graph.dim == self.graph.dim,
                fresh.graph.metric == self.graph.metric,
                fresh.graph.max_degree == self.graph.max_degree,
                fresh.build_complexity == self.build_complexity,
                fresh.alpha_bits == self.alpha_bits,
                fresh.quantized is None,
                fresh.spec_len() == spec_kept(deleted_labels@, i as int).len(),
                map@.len() == fresh.spec_len(),
                forall|j: int|
                    0 <= j < map@.len() ==> (#[trigger] map@[j]) == (
                        spec_kept(deleted_labels@, i as int)[j],
                        j as u32,
                    ),
                forall|j: int|
                    0 <= j < fresh.spec_len() ==> fresh.graph.row_spec(j) == self.graph.row_spec(
                        (#[trigger] spec_kept(deleted_labels@, i as int)[j]) as int,
                    ),
            decreases count - i,
        {
            proof {
                lemma_kept_props(deleted_labels@, i + 1);
                lemma_kept_props(deleted_labels@, i as int);
            }
            if !engine::contains_u32(deleted_labels, i as u32) {
                let v = self.graph.row(i);
                let new_label = fresh.graph.count() as u32;
                proof {
                    lemma_kept_props(deleted_labels@, i as int);
                    assert(fresh.spec_len() <= i);
                    crate::graph::lemma_mul_le(
                        fresh.spec_len() + 1,
                        count as int,
                        self.graph.dim as int,
                    );
                    assert((fresh.spec_len() + 1) * self.graph.dim == fresh.spec_len()
                        * self.graph.dim + self.graph.dim) by (nonlinear_arith);
                    assert(_total_words <= usize::MAX as int);
                    crate::graph::lemma_mul_le(0, fresh.spec_len(), self.graph.dim as int);
                }
                let ghost oldfresh = fresh;
                let added = fresh.add(dm, &v);
                match added {
                    Ok(_) => {},
                    Err(_) => {
                        proof {
                            assert(false);
                        }
                        return Err(IndexError::EngineInternal);
                    },
                }
                map.push((i as u32, new_label));
                proof {
                    assert forall|j: int| 0 <= j < fresh.spec_len() implies fresh.graph.row_spec(
                        j,
                    ) == self.graph.row_spec(
                        (#[trigger] spec_kept(deleted_labels@, i + 1)[j]) as int,
                    ) by {
                        if j < oldfresh.spec_len() {
                            assert(spec_kept(deleted_labels@, i + 1)[j] == spec_kept(
                                deleted_labels@,
                                i as int,
                            )[j]);
                        }
                    }
                }
            }
            i = i + 1;
        }
        Ok((fresh, map))
    }
}

/// A read-only index loaded from its serialized form.
pub struct DiskIndex {
    pub name: String,
    pub path: String,
    pub build_complexity: u32,
    pub graph: Graph,
}

impl DiskIndex {
    pub open spec fn wf(&self) -> bool {
        &&& self.graph.wf()
        &&& self.graph.max_degree <= u32::MAX as int
    }

    /// Searches the loaded graph; the beam width falls back to the
    /// stored build complexity where none is given.
    pub fn search<K: DistanceModel>(
        &self,
        dm: &K,
        query: &Vec<u32>,
        k: usize,
        search_complexity: u32,
    ) -> (r: Result<Vec<(u64, u64)>, IndexError>)
        requires
            self.wf(),
        ensures
            query@.len() != self.graph.dim ==> r == Err::<Vec<(u64, u64)>, IndexError>(
                IndexError::InvalidArgument,
            ),
            query@.len() == self.graph.dim ==> match r {
                Ok(out) => search_post(out@, &self.graph, dm, query@, k as int),
                Err(_) => false,
            },
    {
        if query.len() != self.graph.dim {
            return Err(IndexError::InvalidArgument);
        }
        let base: usize = if search_complexity > 0 {
            search_complexity as usize
        } else {
            self.build_complexity as usize
        };
        Ok(engine::graph_search(&self.graph, dm, query, k, base))
    }
}

/// Either a writable in-memory index or a read-only disk-backed one,
/// under one surface.
pub enum ManagedIndex {
    InMemory(InMemoryIndex),
    Disk(DiskIndex),
}

impl ManagedIndex {
    pub open spec fn wf(&self) -> bool {
        match self {
            ManagedIndex::InMemory(idx) => idx.wf(),
            ManagedIndex::Disk(idx) => idx.wf(),
        }
    }

    pub open spec fn spec_name(&self) -> Seq<char> {
        match self {
            ManagedIndex::InMemory(idx) => idx.name@,
            ManagedIndex::Disk(idx) => idx.name@,
        }
    }

    pub open spec fn spec_graph(&self) -> Graph {
        match self {
            ManagedIndex::InMemory(idx) => idx.graph,
            ManagedIndex::Disk(idx) => idx.graph,
        }
    }

    pub fn name(&self) -> (r: &String)
        ensures
            r@ == self.spec_name(),
    {
        match self {
            ManagedIndex::InMemory(idx) => &idx.name,
            ManagedIndex::Disk(idx) => &idx.name,
        }
    }

    pub fn dimension(&self) -> (r: usize)
        ensures
            r == self.spec_graph().dim,
    {
        match self {
            ManagedIndex::InMemory(idx) => idx.graph.dim,
            ManagedIndex::Disk(idx) => idx.graph.dim,
        }
    }

    pub fn len(&self) -> (r: usize)
        ensures
            r == self.spec_graph().spec_count(),
    {
        match self {
            ManagedIndex::InMemory(idx) => idx.len(),
            ManagedIndex::Disk(idx) => idx.graph.count(),
        }
    }

    pub fn metric(&self) -> (r: Metric)
        ensures
            r == self.spec_graph().metric,
    {
        match self {
            ManagedIndex::InMemory(idx) => idx.graph.metric,
            ManagedIndex::Disk(idx) => idx.graph.metric,
        }
    }

    pub fn max_degree(&self) -> (r: u32)
        requires
            self.wf(),
        ensures
            r == self.spec_graph().max_degree,
    {
        match self {
            ManagedIndex::InMemory(idx) => idx.graph.max_degree as u32,
            ManagedIndex::Disk(idx) => idx.graph.max_degree as u32,
        }
    }

    pub fn build_complexity(&self) -> (r: u32)
        ensures
            match self {
                ManagedIndex::InMemory(idx) => r == idx.build_complexity,
                ManagedIndex::Disk(idx) => r == idx.build_complexity,
            },
    {
        match self {
            ManagedIndex::InMemory(idx) => idx.build_complexity,
            ManagedIndex::Disk(idx) => idx.build_complexity,
        }
    }

    /// The stored alpha words; a disk-backed index reports zero, the
    /// words of 0.0.
    pub fn alpha(&self) -> (r: u32)
        ensures
            match self {
                ManagedIndex::InMemory(idx) => r == idx.alpha_bits,
                ManagedIndex::Disk(_) => r == 0,
            },
    {
        match self {
            ManagedIndex::InMemory(idx) => idx.alpha_bits,
            ManagedIndex::Disk(_) => 0,
        }
    }

    pub fn is_read_only(&self) -> (r: bool)
        ensures
            r == (self is Disk),
    {
        matches!(self, ManagedIndex::Disk(_))
    }

    /// Adds to the in-memory variant; a disk-backed index refuses.
    pub fn add<K: DistanceModel>(&mut self, dm: &K, vector: &Vec<u32>) -> (r: Result<
        u32,
        IndexError,
    >)
        requires
            old(self).wf(),
            old(self).spec_graph().spec_count() < u32::MAX as int,
            old(self).spec_graph().vectors@.len() + old(self).spec_graph().dim <= usize::MAX
                as int,
        ensures
            final(self).wf(),
            *old(self) is Disk ==> r == Err::<u32, IndexError>(IndexError::ReadOnly) && *final(self)
                == *old(self),
            *old(self) is InMemory && vector@.len() != old(self).spec_graph().dim ==> r == Err::<
                u32,
                IndexError,
            >(IndexError::InvalidArgument) && *final(self) == *old(self),
            *old(self) is InMemory && vector@.len() == old(self).spec_graph().dim ==> r == Ok::<
                u32,
                IndexError,
            >(old(self).spec_graph().spec_count() as u32) && final(self).spec_graph().spec_count()
                == old(self).spec_graph().spec_count() + 1 && *final(self) is InMemory,
    {
        match self {
            ManagedIndex::InMemory(idx) => idx.add(dm, vector),
            ManagedIndex::Disk(_) => Err(IndexError::ReadOnly),
        }
    }

    /// Searches either variant.
    pub fn search<K: DistanceModel>(
        &self,
        dm: &K,
        query: &Vec<u32>,
        k: usize,
        search_complexity: u32,
    ) -> (r: Result<Vec<(u64, u64)>, IndexError>)
        requires
            self.wf(),
        ensures
            query@.len() != self.spec_graph().dim ==> r == Err::<Vec<(u64, u64)>, IndexError>(
                IndexError::InvalidArgument,
            ),
            query@.len() == self.spec_graph().dim ==> match r {
                Ok(out) => search_post(out@, &self.spec_graph(), dm, query@, k as int),
                Err(_) => false,
            },
    {
        match self {
            ManagedIndex::InMemory(idx) => idx.search(dm, query, k, search_complexity),
            ManagedIndex::Disk(idx) => idx.search(dm, query, k, search_complexity),
        }
    }
}


/// Tombstone law: no label that a compacted index can ever return
/// maps back, through the emitted label map, to a deleted old label.
/// The map pairs each kept old label with its dense new label, kept
/// labels are exactly those not deleted, and any search on the new
/// index returns only present new labels.
pub proof fn lemma_compacted_search_avoids_deleted(
    deleted: Seq<u32>,
    count: int,
    map: Seq<(u32, u32)>,
    out: Seq<(u64, u64)>,
)
    requires
        0 <= count <= u32::MAX as int,
        map.len() == spec_kept(deleted, count).len(),
        forall|j: int|
            0 <= j < map.len() ==> (#[trigger] map[j]) == (spec_kept(deleted, count)[j], j as u32),
    ensures
        forall|t: int, j: int|
            0 <= t < out.len() && 0 <= j < map.len() && (#[trigger] map[j]).1 == (
            #[trigger] out[t]).0 ==> !seq_has_u32(deleted, map[j].0),
{
    lemma_kept_props(deleted, count);
    assert forall|t: int, j: int|
        0 <= t < out.len() && 0 <= j < map.len() && (#[trigger] map[j]).1 == (
        #[trigger] out[t]).0 implies !seq_has_u32(deleted, map[j].0) by {
        assert(map[j].0 == spec_kept(deleted, count)[j]);
    }
}

} // verus!
