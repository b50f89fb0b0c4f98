//! The named registry of index instances.
//!
//! One registry value maps each name to one index; the embedding owns
//! the registry and serializes access to it.

use vstd::prelude::*;
use vstd::string::StringExecFns;
use crate::codec;
use crate::errors::IndexError;
use crate::index::DiskIndex;
use crate::index::InMemoryIndex;
use crate::index::ManagedIndex;
use crate::metric::Metric;
use crate::model::DistanceModel;

verus! {

/// What a registry reports about one index.
pub struct IndexInfo {
    pub name: String,
    pub dimension: usize,
    pub count: usize,
    pub metric: Metric,
    pub max_degree: u32,
    pub build_complexity: u32,
    /// The raw words of the construction parameter alpha; zero for a
    /// disk-backed index.
    pub alpha: u32,
    pub read_only: bool,
}

/// The name-to-index map, names unique.
pub struct Registry {
    pub entries: Vec<(String, ManagedIndex)>,
}

impl Registry {
    pub open spec fn wf(&self) -> bool {
        &&& forall|i: int, j: int|
            0 <= i < j < self.entries@.len() ==> (#[trigger] self.entries@[i]).0@ != (
            #[trigger] self.entries@[j]).0@
        &&& forall|i: int|
            0 <= i < self.entries@.len() ==> (#[trigger] self.entries@[i]).1.wf()
    }

    /// Whether some entry carries this name.
    pub open spec fn has_name(&self, nm: Seq<char>) -> bool {
        exists|i: int| 0 <= i < self.entries@.len() && (#[trigger] self.entries@[i]).0@ == nm
    }

    /// The position of the entry with this name.
    pub open spec fn idx_of(&self, nm: Seq<char>) -> int {
        choose|i: int| 0 <= i < self.entries@.len() && (#[trigger] self.entries@[i]).0@ == nm
    }

    /// The index bound to this name.
    pub open spec fn at_name(&self, nm: Seq<char>) -> ManagedIndex {
        self.entries@[self.idx_of(nm)].1
    }

    /// An empty registry.
    pub fn new() -> (r: Registry)
        ensures
            r.wf(),
            r.entries@.len() == 0,
    {
        Registry { entries: Vec::new() }
    }

    /// The position of the entry with this name, if any.
    fn find(&self, name: &String) -> (r: Option<usize>)
        requires
            self.wf(),
        ensures
            match r {
                Some(i) => i < self.entries@.len() && self.entries@[i as int].0@ == name@
                    && self.idx_of(name@) == i && self.has_name(name@),
                None => !self.has_name(name@),
            },
    {
        let mut i: usize = 0;
        while i < self.entries.len()
            invariant
                i <= self.entries@.len(),
                self.wf(),
                forall|t: int| 0 <= t < i ==> (#[trigger] self.entries@[t]).0@ != name@,
            decreases self.entries@.len() - i,
        {
            if self.entries[i].0 == *name {
                proof {
                    let w = self.idx_of(name@);
                    if w != i {
                        assert(self.entries@[w].0@ != self.entries@[i as int].0@);
                    }
                }
                return Some(i);
            }
            i = i + 1;
        }
        None
    }

    /// Whether an index of this name is registered.
    pub fn index_exists(&self, name: &str) -> (r: bool)
        requires
            self.wf(),
        ensures
            r == self.has_name(name@),
    {
        let owned = name.to_owned();
        match self.find(&owned) {
            Some(_) => true,
            None => false,
        }
    }

    /// Creates a fresh in-memory index under this name: refused when
    /// the name is taken or the dimension is unusable, and the
    /// registry is then unchanged.
    pub fn create_index(
        &mut self,
        name: &str,
        dimension: usize,
        metric: Metric,
        max_degree: u32,
        build_complexity: u32,
        alpha_bits: u32,
    ) -> (r: Result<(), IndexError>)
        requires
            old(self).wf(),
        ensures
            final(self).wf(),
            old(self).has_name(name@) ==> r == Err::<(), IndexError>(IndexError::AlreadyExists)
                && *final(self) == *old(self),
            !old(self).has_name(name@) && (dimension == 0 || dimension > u32::MAX) ==> r == Err::<
                (),
                IndexError,
            >(IndexError::InvalidArgument) && *final(self) == *old(self),
            !old(self).has_name(name@) && 0 < dimension <= u32::MAX ==> {
                &&& r is Ok
                &&& final(self).entries@.len() == old(self).entries@.len() + 1
                &&& forall|i: int|
                    0 <= i < old(self).entries@.len() ==> final(self).entries@[i] == old(
                        self,
                    ).entries@[i]
                &&& final(self).entries@.last().0@ == name@
                &&& match final(self).entries@.last().1 {
                    ManagedIndex::InMemory(idx) => {
                        &&& idx.spec_len() == 0
                        &&& idx.graph.dim == dimension
                        &&& idx.graph.metric == metric
                        &&& idx.graph.max_degree == max_degree
                        &&& idx.build_complexity == build_complexity
                        &&& idx.alpha_bits == alpha_bits
                        &&& idx.name@ == name@
                    },
                    ManagedIndex::Disk(_) => false,
                }
                &&& final(self).has_name(name@)
            },
    {
        let owned = name.to_owned();
        match self.find(&owned) {
            Some(_) => Err(IndexError::AlreadyExists),
            None => {
                match InMemoryIndex::new_detached(
                    dimension,
                    metric,
                    max_degree,
                    build_complexity,
                    alpha_bits,
                ) {
                    Err(e) => Err(e),
                    Ok(mut idx) => {
                        idx.name = name.to_owned();
                        let entry_name = name.to_owned();
                        let ghost oldentries = self.entries@;
                        self.entries.push((entry_name, ManagedIndex::InMemory(idx)));
                        proof {
                            assert forall|i: int, j: int|
                                0 <= i < j < self.entries@.len() implies (
                            #[trigger] self.entries@[i]).0@ != (
                            #[trigger] self.entries@[j]).0@ by {
                                if j < oldentries.len() {
                                    assert(oldentries[i].0@ != oldentries[j].0@);
                                } else {
                                    assert(!old(self).has_name(name@));
                                    assert(oldentries[i].0@ != name@);
                                }
                            }
                            let last = self.entries@.len() - 1;
                            assert(self.entries@[last].0@ == name@);
                        }
                        Ok(())
                    },
                }
            },
        }
    }


    /// Adds a vector to the named index under the strategy `dm`,
    /// returning the assigned label.  Absent names, read-only indexes
    /// and mismatched dimensions are reported, and the registry is
    /// then unchanged.
    pub fn add_vector<K: DistanceModel>(&mut self, name: &str, dm: &K, vector: &Vec<u32>) -> (r:
        Result<u32, IndexError>)
        requires
            old(self).wf(),
            old(self).has_name(name@) ==> old(self).at_name(name@).spec_graph().spec_count()
                < u32::MAX as int && old(self).at_name(name@).spec_graph().vectors@.len()
                + old(self).at_name(name@).spec_graph().dim <= usize::MAX as int,
        ensures
            final(self).wf(),
            !old(self).has_name(name@) ==> r == Err::<u32, IndexError>(IndexError::NotFound)
                && final(self).entries@ == old(self).entries@,
            old(self).has_name(name@) ==> {
                let m = old(self).at_name(name@);
                let i = old(self).idx_of(name@);
                &&& (m is Disk ==> r == Err::<u32, IndexError>(IndexError::ReadOnly)
                    && final(self).entries@ == old(self).entries@)
                &&& (m is InMemory && vector@.len() != m.spec_graph().dim ==> r == Err::<
                    u32,
                    IndexError,
                >(IndexError::InvalidArgument) && final(self).entries@ == old(self).entries@)
                &&& (m is InMemory && vector@.len() == m.spec_graph().dim ==> {
                    &&& r == Ok::<u32, IndexError>(m.spec_graph().spec_count() as u32)
                    &&& final(self).entries@.len() == old(self).entries@.len()
                    &&& forall|j: int|
                        0 <= j < old(self).entries@.len() && j != i ==> final(self).entries@[j]
                            == old(self).entries@[j]
                    &&& final(self).entries@[i].0 == old(self).entries@[i].0
                    &&& final(self).entries@[i].1.spec_graph().spec_count() == m.spec_graph(
                    ).spec_count() + 1
                    &&& final(self).entries@[i].1 is InMemory
                })
            },
    {
        let owned = name.to_owned();
        match self.find(&owned) {
            None => Err(IndexError::NotFound),
            Some(i) => {
                let ghost oldentries = self.entries@;
                let pair = &mut self.entries[i];
                let r = pair.1.add(dm, vector);
                proof {
                    if r is Err {
                        assert(self.entries@[i as int] == oldentries[i as int]);
                        assert(self.entries@ =~= oldentries);
                    }
                    assert forall|a: int, b: int|
                        0 <= a < b < self.entries@.len() implies (
                    #[trigger] self.entries@[a]).0@ != (#[trigger] self.entries@[b]).0@ by {
                        assert(self.entries@[a].0 == oldentries[a].0);
                        assert(self.entries@[b].0 == oldentries[b].0);
                        assert(oldentries[a].0@ != oldentries[b].0@);
                    }
                    assert forall|t: int| 0 <= t < self.entries@.len() implies (
                    #[trigger] self.entries@[t]).1.wf() by {
                        if t != i {
                            assert(self.entries@[t] == oldentries[t]);
                        }
                    }
                }
                r
            },
        }
    }


    /// Removes the binding of this name; absent names are reported.
    pub fn destroy_index(&mut self, name: &str) -> (r: Result<(), IndexError>)
        requires
            old(self).wf(),
        ensures
            final(self).wf(),
            !old(self).has_name(name@) ==> r == Err::<(), IndexError>(IndexError::NotFound)
                && *final(self) == *old(self),
            old(self).has_name(name@) ==> {
                &&& r is Ok
                &&& final(self).entries@ == old(self).entries@.remove(old(self).idx_of(name@))
                &&& !final(self).has_name(name@)
            },
    {
        let owned = name.to_owned();
        match self.find(&owned) {
            None => Err(IndexError::NotFound),
            Some(i) => {
                let ghost oldentries = self.entries@;
                self.entries.remove(i);
                proof {
                    oldentries.remove_ensures(i as int);
                    assert forall|a: int, b: int|
                        0 <= a < b < self.entries@.len() implies (
                    #[trigger] self.entries@[a]).0@ != (#[trigger] self.entries@[b]).0@ by {
                        let a0: int = if a < i {
                            a
                        } else {
                            a + 1
                        };
                        let b0: int = if b < i {
                            b
                        } else {
                            b + 1
                        };
                        assert(self.entries@[a] == oldentries[a0]);
                        assert(self.entries@[b] == oldentries[b0]);
                        assert(oldentries[a0].0@ != oldentries[b0].0@);
                    }
                    assert forall|t: int| 0 <= t < self.entries@.len() implies (
                    #[trigger] self.entries@[t]).1.wf() by {
                        let t0: int = if t < i {
                            t
                        } else {
                            t + 1
                        };
                        assert(self.entries@[t] == oldentries[t0]);
                    }
                    assert(!self.has_name(name@)) by {
                        if self.has_name(name@) {
                            let t = choose|t: int|
                                0 <= t < self.entries@.len() && (
                                #[trigger] self.entries@[t]).0@ == name@;
                            let t0: int = if t < i {
                                t
                            } else {
                                t + 1
                            };
                            assert(self.entries@[t] == oldentries[t0]);
                            assert(oldentries[t0].0@ != oldentries[i as int].0@);
                        }
                    }
                }
                Ok(())
            },
        }
    }

    /// The index bound to this name.
    pub fn get_index(&self, name: &str) -> (r: Result<&ManagedIndex, IndexError>)
        requires
            self.wf(),
        ensures
            match r {
                Ok(m) => self.has_name(name@) && *m == self.at_name(name@) && m.wf(),
                Err(e) => e == IndexError::NotFound && !self.has_name(name@),
            },
    {
        let owned = name.to_owned();
        match self.find(&owned) {
            None => Err(IndexError::NotFound),
            Some(i) => Ok(&self.entries[i].1),
        }
    }

    /// The serialized form of the named in-memory index; a disk-backed
    /// index is already a file and is refused.
    pub fn save_index(&self, name: &str) -> (r: Result<Vec<u8>, IndexError>)
        requires
            self.wf(),
        ensures
            !self.has_name(name@) ==> r == Err::<Vec<u8>, IndexError>(IndexError::NotFound),
            self.has_name(name@) ==> match self.at_name(name@) {
                ManagedIndex::InMemory(idx) => match r {
                    Ok(b) => b@ == codec::spec_serialize(idx.graph, idx.build_complexity),
                    Err(_) => false,
                },
                ManagedIndex::Disk(_) => r == Err::<Vec<u8>, IndexError>(IndexError::ReadOnly),
            },
    {
        let owned = name.to_owned();
        match self.find(&owned) {
            None => Err(IndexError::NotFound),
            Some(i) => match &self.entries[i].1 {
                ManagedIndex::InMemory(idx) => idx.serialize_to_bytes(),
                ManagedIndex::Disk(_) => Err(IndexError::ReadOnly),
            },
        }
    }

    /// Loads serialized bytes as a read-only disk-backed index under
    /// this name; the stored build complexity is used when the given
    /// one is zero.
    pub fn load_index(
        &mut self,
        name: &str,
        path: &str,
        data: &Vec<u8>,
        build_complexity: u32,
    ) -> (r: Result<(), IndexError>)
        requires
            old(self).wf(),
        ensures
            final(self).wf(),
            old(self).has_name(name@) ==> r == Err::<(), IndexError>(IndexError::AlreadyExists)
                && *final(self) == *old(self),
            !old(self).has_name(name@) && !codec::valid_index_bytes(data@) ==> r == Err::<
                (),
                IndexError,
            >(IndexError::MalformedInput) && *final(self) == *old(self),
            !old(self).has_name(name@) && codec::valid_index_bytes(data@) ==> {
                &&& r is Ok
                &&& final(self).entries@.len() == old(self).entries@.len() + 1
                &&& forall|i: int|
                    0 <= i < old(self).entries@.len() ==> final(self).entries@[i] == old(
                        self,
                    ).entries@[i]
                &&& final(self).entries@.last().0@ == name@
                &&& match final(self).entries@.last().1 {
                    ManagedIndex::Disk(dx) => {
                        &&& dx.graph.dim == codec::ser_dim(data@)
                        &&& dx.graph.metric == crate::metric::spec_metric_from_u8(
                            codec::ser_metric(data@),
                        )
                        &&& dx.graph.max_degree == codec::ser_deg(data@)
                        &&& dx.graph.spec_count() == codec::ser_count(data@)
                        &&& dx.graph.vectors@ == codec::ser_vec_words(data@)
                        &&& dx.graph.entry_points@ == codec::ser_eps(data@)
                        &&& forall|i: int|
                            0 <= i < codec::ser_count(data@) ==> (
                            #[trigger] dx.graph.adjacency@[i])@ == codec::ser_adj_row(data@, i)
                        &&& dx.build_complexity == (if build_complexity > 0 {
                            build_complexity
                        } else {
                            codec::ser_bc(data@)
                        })
                        &&& dx.name@ == name@
                        &&& dx.path@ == path@
                    },
                    ManagedIndex::InMemory(_) => false,
                }
            },
    {
        let owned = name.to_owned();
        match self.find(&owned) {
            Some(_) => Err(IndexError::AlreadyExists),
            None => {
                match codec::from_bytes(data, 0) {
                    Err(e) => Err(e),
                    Ok(parsed) => {
                        let bc = if build_complexity > 0 {
                            build_complexity
                        } else {
                            parsed.build_complexity
                        };
                        let disk = DiskIndex {
                            name: name.to_owned(),
                            path: path.to_owned(),
                            build_complexity: bc,
                            graph: parsed.graph,
                        };
                        let ghost oldentries = self.entries@;
                        self.entries.push((owned, ManagedIndex::Disk(disk)));
                        proof {
                            assert forall|i: int, j: int|
                                0 <= i < j < self.entries@.len() implies (
                            #[trigger] self.entries@[i]).0@ != (
                            #[trigger] self.entries@[j]).0@ by {
                                if j < oldentries.len() {
                                    assert(oldentries[i].0@ != oldentries[j].0@);
                                } else {
                                    assert(!old(self).has_name(name@));
                                    assert(oldentries[i].0@ != name@);
                                }
                            }
                        }
                        Ok(())
                    },
                }
            },
        }
    }

    /// One info record per registered index, in registration order.
    pub fn list_indexes(&self) -> (r: Vec<IndexInfo>)
        requires
            self.wf(),
        ensures
            r@.len() == self.entries@.len(),
            forall|i: int|
                0 <= i < r@.len() ==> info_matches(#[trigger] r@[i], self.entries@[i].1)
                    && r@[i].name@ == self.entries@[i].0@,
    {
        let mut r: Vec<IndexInfo> = Vec::new();
        let mut i: usize = 0;
        while i < self.entries.len()
            invariant
                i <= self.entries@.len(),
                self.wf(),
                r@.len() == i,
                forall|t: int|
                    0 <= t < i ==> info_matches(#[trigger] r@[t], self.entries@[t].1)
                        && r@[t].name@ == self.entries@[t].0@,
            decreases self.entries@.len() - i,
        {
            let m = &self.entries[i].1;
            let info = IndexInfo {
                name: self.entries[i].0.clone(),
                dimension: m.dimension(),
                count: m.len(),
                metric: m.metric(),
                max_degree: m.max_degree(),
                build_complexity: m.build_complexity(),
                alpha: m.alpha(),
                read_only: m.is_read_only(),
            };
            r.push(info);
            i = i + 1;
        }
        r
    }

    /// The info record of the named index.
    pub fn get_info(&self, name: &str) -> (r: Result<IndexInfo, IndexError>)
        requires
            self.wf(),
        ensures
            match r {
                Ok(info) => self.has_name(name@) && info_matches(info, self.at_name(name@))
                    && info.name@ == name@,
                Err(e) => e == IndexError::NotFound && !self.has_name(name@),
            },
    {
        let owned = name.to_owned();
        match self.find(&owned) {
            None => Err(IndexError::NotFound),
            Some(i) => {
                let m = &self.entries[i].1;
                Ok(
                    IndexInfo {
                        name: self.entries[i].0.clone(),
                        dimension: m.dimension(),
                        count: m.len(),
                        metric: m.metric(),
                        max_degree: m.max_degree(),
                        build_complexity: m.build_complexity(),
                        alpha: m.alpha(),
                        read_only: m.is_read_only(),
                    },
                )
            },
        }
    }
}

/// An info record faithfully describes an index.
pub open spec fn info_matches(info: IndexInfo, m: ManagedIndex) -> bool {
    &&& info.dimension == m.spec_graph().dim
    &&& info.count == m.spec_graph().spec_count()
    &&& info.metric == m.spec_graph().metric
    &&& info.max_degree == m.spec_graph().max_degree
    &&& info.read_only == (m is Disk)
    &&& match m {
        ManagedIndex::InMemory(idx) => info.build_complexity == idx.build_complexity
            && info.alpha == idx.alpha_bits,
        ManagedIndex::Disk(dx) => info.build_complexity == dx.build_complexity && info.alpha == 0,
    }
}

} // verus!
