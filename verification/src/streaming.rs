//! The two-pass streaming builder.
//!
//! From a corpus laid out as a count, a dimension, and then the rows,
//! it builds a pilot index over a sample, ranks every remaining row
//! against the pilot and against the already-streamed rows, injects
//! one back-edge per streamed row so each stays reachable, and emits
//! a serialized index that is proven loadable.

use vstd::prelude::*;
use crate::codec;
use crate::engine;
use crate::engine::Candidate;
use crate::errors::IndexError;
use crate::graph::Graph;
use crate::index::InMemoryIndex;
use crate::metric::Metric;
use crate::model::DistanceModel;

verus! {

/// What a finished streaming build reports.
pub struct StreamingBuildResult {
    pub num_vectors: u32,
    pub dimension: u32,
    pub sample_size: u32,
}

/// Reads the corpus header: the vector count and the dimension.
pub fn read_vec_header(data: &Vec<u8>) -> (r: Result<(u32, u32), IndexError>)
    ensures
        data@.len() < 8 ==> r == Err::<(u32, u32), IndexError>(IndexError::MalformedInput),
        data@.len() >= 8 ==> r == Ok::<(u32, u32), IndexError>(
            (codec::le32_at(data@, 0), codec::le32_at(data@, 4)),
        ),
{
    if data.len() < 8 {
        return Err(IndexError::MalformedInput);
    }
    let n = codec::read_le32(data, 0);
    let d = codec::read_le32(data, 4);
    Ok((n, d))
}

/// The integer square root, rounded down.
pub fn isqrt32(n: u32) -> (r: u32)
    ensures
        (r as int) * (r as int) <= n,
        ((r as int) + 1) * ((r as int) + 1) > n,
{
    let mut lo: u64 = 0;
    let mut hi: u64 = 0x1_0000;
    while lo + 1 < hi
        invariant
            lo < hi <= 0x1_0000,
            (lo as int) * (lo as int) <= n,
            (hi as int) * (hi as int) > n,
        decreases hi - lo,
    {
        let mid: u64 = lo + (hi - lo) / 2;
        proof {
            assert((mid as int) * (mid as int) <= 0x1_0000 * 0x1_0000) by (nonlinear_arith)
                requires
                    0 <= mid <= 0x1_0000,
            ;
        }
        if mid * mid <= n as u64 {
            lo = mid;
        } else {
            hi = mid;
        }
    }
    lo as u32
}

/// `s` is the integer square root of `n`, rounded down.
pub open spec fn is_isqrt(s: u32, n: u32) -> bool {
    (s as int) * (s as int) <= n && ((s as int) + 1) * ((s as int) + 1) > n
}

/// The sample size the builder settles on: the request capped to the
/// corpus, or, unrequested, the square root of the corpus clamped
/// between 1000 and the corpus.
pub fn derive_sample_n(n: u32, requested: u32) -> (r: u32)
    requires
        n >= 1,
    ensures
        1 <= r <= n,
        requested > 0 ==> r == (if requested <= n {
            requested
        } else {
            n
        }),
        requested == 0 ==> exists|s: u32|
            #[trigger] is_isqrt(s, n) && r == (if (if s >= 1000 {
                s
            } else {
                1000u32
            }) <= n {
                (if s >= 1000 {
                    s
                } else {
                    1000u32
                })
            } else {
                n
            }),
{
    if requested > 0 {
        if requested <= n {
            requested
        } else {
            n
        }
    } else {
        let s = isqrt32(n);
        let clamped = if s >= 1000 {
            s
        } else {
            1000
        };
        let r = if clamped <= n {
            clamped
        } else {
            n
        };
        proof {
            assert(is_isqrt(s, n));
        }
        r
    }
}

/// The candidate id comes from the first ranked list.
pub open spec fn from_first(a: Seq<(u64, u64)>, id: u32) -> bool {
    exists|s: int| 0 <= s < a.len() && (#[trigger] a[s]).0 == id
}

/// The candidate id comes from the second ranked list, shifted.
pub open spec fn from_second(b: Seq<(u64, u64)>, offset: u32, id: u32) -> bool {
    exists|s: int| 0 <= s < b.len() && offset + (#[trigger] b[s]).0 == id
}

/// Merges two ranked result lists — the second's labels shifted by
/// `offset` — into one id list sorted by key, duplicate-free, cut to
/// `cap`.
fn merge_ranked(a: &Vec<(u64, u64)>, b: &Vec<(u64, u64)>, offset: u32, cap: usize) -> (out: Vec<
    u32,
>)
    requires
        forall|t: int| 0 <= t < a@.len() ==> (#[trigger] a@[t]).0 < offset,
        forall|t1: int, t2: int| 0 <= t1 < t2 < a@.len() ==> a@[t1].0 != a@[t2].0,
        forall|t: int| 0 <= t < b@.len() ==> offset + (#[trigger] b@[t]).0 <= u32::MAX,
        forall|t1: int, t2: int| 0 <= t1 < t2 < b@.len() ==> b@[t1].0 != b@[t2].0,
    ensures
        out@.len() <= cap,
        forall|t1: int, t2: int| 0 <= t1 < t2 < out@.len() ==> out@[t1] != out@[t2],
        forall|t: int|
            0 <= t < out@.len() ==> from_first(a@, #[trigger] out@[t]) || from_second(
                b@,
                offset,
                out@[t],
            ),
{
    let mut pool: Vec<Candidate> = Vec::new();
    let mut t: usize = 0;
    while t < a.len()
        invariant
            t <= a@.len(),
            forall|s: int| 0 <= s < a@.len() ==> (#[trigger] a@[s]).0 < offset,
            forall|t1: int, t2: int| 0 <= t1 < t2 < a@.len() ==> a@[t1].0 != a@[t2].0,
            engine::sorted_by_key(pool@),
            engine::distinct_ids(pool@),
            forall|s: int|
                0 <= s < pool@.len() ==> exists|s2: int|
                    0 <= s2 < t && a@[s2].0 == (#[trigger] pool@[s]).id,
        decreases a@.len() - t,
    {
        let c = Candidate { key: a[t].1, id: a[t].0 as u32 };
        proof {
            assert(c.id == a@[t as int].0);
            assert(!engine::contains_id(pool@, c.id)) by {
                if engine::contains_id(pool@, c.id) {
                    let s = choose|s: int| 0 <= s < pool@.len() && pool@[s].id == c.id;
                    let s2 = choose|s2: int| 0 <= s2 < t && a@[s2].0 == pool@[s].id;
                    assert(a@[s2].0 != a@[t as int].0);
                }
            }
        }
        let ghost oldpool = pool@;
        let p = engine::insert_sorted(&mut pool, c);
        proof {
            oldpool.insert_ensures(p as int, c);
            assert forall|s: int, s2: int| 0 <= s < s2 < pool@.len() implies pool@[s].id
                != pool@[s2].id by {
                if s < p {
                    assert(pool@[s] == oldpool[s]);
                } else if s > p {
                    assert(pool@[(s - 1) + 1] == oldpool[s - 1]);
                }
                if s2 < p {
                    assert(pool@[s2] == oldpool[s2]);
                } else if s2 > p {
                    assert(pool@[(s2 - 1) + 1] == oldpool[s2 - 1]);
                }
                assert(forall|u: int| 0 <= u < oldpool.len() ==> oldpool[u].id != c.id);
            }
            assert forall|s: int| 0 <= s < pool@.len() implies exists|s2: int|
                0 <= s2 < t + 1 && a@[s2].0 == (#[trigger] pool@[s]).id by {
                if s < p {
                    assert(pool@[s] == oldpool[s]);
                    let s2 = choose|s2: int| 0 <= s2 < t && a@[s2].0 == oldpool[s].id;
                    assert(0 <= s2 < t + 1 && a@[s2].0 == pool@[s].id);
                } else if s == p {
                    assert(a@[t as int].0 == pool@[s].id);
                } else {
                    assert(pool@[(s - 1) + 1] == oldpool[s - 1]);
                    let s2 = choose|s2: int| 0 <= s2 < t && a@[s2].0 == oldpool[s - 1].id;
                    assert(0 <= s2 < t + 1 && a@[s2].0 == pool@[s].id);
                }
            }
        }
        t = t + 1;
    }
    let ghost apool = pool@;
    let mut u: usize = 0;
    while u < b.len()
        invariant
            u <= b@.len(),
            forall|s: int| 0 <= s < b@.len() ==> offset + (#[trigger] b@[s]).0 <= u32::MAX,
            forall|t1: int, t2: int| 0 <= t1 < t2 < b@.len() ==> b@[t1].0 != b@[t2].0,
            engine::sorted_by_key(pool@),
            engine::distinct_ids(pool@),
            forall|s: int|
                0 <= s < pool@.len() ==> from_first(a@, (#[trigger] pool@[s]).id) || (exists|
                s2: int|
                0 <= s2 < u && offset + b@[s2].0 == pool@[s].id),
            forall|s: int| 0 <= s < a@.len() ==> (#[trigger] a@[s]).0 < offset,
        decreases b@.len() - u,
    {
        let id32: u32 = offset + b[u].0 as u32;
        proof {
            assert(id32 == offset + b@[u as int].0);
            assert(!engine::contains_id(pool@, id32)) by {
                if engine::contains_id(pool@, id32) {
                    let s = choose|s: int| 0 <= s < pool@.len() && pool@[s].id == id32;
                    if from_first(a@, pool@[s].id) {
                        let s2 = choose|s2: int| 0 <= s2 < a@.len() && a@[s2].0 == pool@[s].id;
                        assert(a@[s2].0 < offset);
                    } else {
                        let s2 = choose|s2: int|
                            0 <= s2 < u && offset + b@[s2].0 == pool@[s].id;
                        assert(b@[s2].0 != b@[u as int].0);
                    }
                }
            }
        }
        let c = Candidate { key: b[u].1, id: id32 };
        let ghost oldpool = pool@;
        let p = engine::insert_sorted(&mut pool, c);
        proof {
            oldpool.insert_ensures(p as int, c);
            assert forall|s: int, s2: int| 0 <= s < s2 < pool@.len() implies pool@[s].id
                != pool@[s2].id by {
                if s < p {
                    assert(pool@[s] == oldpool[s]);
                } else if s > p {
                    assert(pool@[(s - 1) + 1] == oldpool[s - 1]);
                }
                if s2 < p {
                    assert(pool@[s2] == oldpool[s2]);
                } else if s2 > p {
                    assert(pool@[(s2 - 1) + 1] == oldpool[s2 - 1]);
                }
                assert(forall|v: int| 0 <= v < oldpool.len() ==> oldpool[v].id != c.id);
            }
            assert forall|s: int| 0 <= s < pool@.len() implies from_first(
                a@,
                (#[trigger] pool@[s]).id,
            ) || (exists|s2: int| 0 <= s2 < u + 1 && offset + b@[s2].0 == pool@[s].id) by {
                if s < p {
                    assert(pool@[s] == oldpool[s]);
                } else if s == p {
                    assert(offset + b@[u as int].0 == pool@[s].id);
                } else {
                    assert(pool@[(s - 1) + 1] == oldpool[s - 1]);
                }
            }
        }
        u = u + 1;
    }
    let take: usize = if cap < pool.len() {
        cap
    } else {
        pool.len()
    };
    let mut out: Vec<u32> = Vec::new();
    let mut w: usize = 0;
    while w < take
        invariant
            w <= take,
            take <= pool@.len(),
            engine::distinct_ids(pool@),
            forall|s: int|
                0 <= s < pool@.len() ==> from_first(a@, (#[trigger] pool@[s]).id) || from_second(
                    b@,
                    offset,
                    pool@[s].id,
                ),
            out@.len() == w,
            forall|s: int| 0 <= s < w ==> (#[trigger] out@[s]) == pool@[s].id,
        decreases take - w,
    {
        out.push(pool[w].id);
        w = w + 1;
    }
    out
}


/// A neighbour list a built row may carry: bounded, no self-loop,
/// targets present, duplicate-free.
pub open spec fn srow_ok(row: Seq<u32>, owner: int, n: int, deg: int) -> bool {
    &&& row.len() <= deg
    &&& forall|j: int| 0 <= j < row.len() ==> (#[trigger] row[j]) < n && row[j] != owner
    &&& forall|j1: int, j2: int| 0 <= j1 < j2 < row.len() ==> row[j1] != row[j2]
}

/// The corpus carries its declared shape: a header, a positive count
/// and dimension, and all the rows it announces.
pub open spec fn corpus_ok(c: Seq<u8>) -> bool {
    &&& c.len() >= 8
    &&& codec::le32_at(c, 0) > 0
    &&& codec::le32_at(c, 4) > 0
    &&& c.len() >= 8 + 4 * (codec::le32_at(c, 0) * codec::le32_at(c, 4))
}

/// The vector words of the corpus, row-major.
pub open spec fn corpus_words(c: Seq<u8>) -> Seq<u32> {
    Seq::new(
        (codec::le32_at(c, 0) * codec::le32_at(c, 4)) as nat,
        |w: int| codec::le32_at(c, 8 + 4 * w),
    )
}

/// The two-pass streaming build: a pilot index over the first
/// `sample_n` rows (each inserted through the full, contracted insert
/// protocol), pilot-and-stream ranking for every further row, one
/// injected back-edge per streamed row, and a serialized output of
/// exactly the declared size that is proven loadable, with the corpus
/// rows carried over word for word and the pilot's entry point as the
/// entry point.
#[verifier::rlimit(100)]
pub fn streaming_build<K: DistanceModel>(
    dm: &K,
    corpus: &Vec<u8>,
    metric: Metric,
    max_degree: u32,
    build_complexity: u32,
    alpha_bits: u32,
    sample_size: u32,
) -> (r: Result<(Vec<u8>, StreamingBuildResult), IndexError>)
    ensures
        r is Ok <==> corpus_ok(corpus@),
        corpus@.len() < 8 ==> r == Err::<(Vec<u8>, StreamingBuildResult), IndexError>(
            IndexError::MalformedInput,
        ),
        corpus@.len() >= 8 && (codec::le32_at(corpus@, 0) == 0 || codec::le32_at(corpus@, 4)
            == 0) ==> r == Err::<(Vec<u8>, StreamingBuildResult), IndexError>(
            IndexError::InvalidArgument,
        ),
        r matches Ok(p) ==> {
            let n = codec::le32_at(corpus@, 0);
            let d = codec::le32_at(corpus@, 4);
            &&& p.1.num_vectors == n
            &&& p.1.dimension == d
            &&& 1 <= p.1.sample_size <= n
            &&& (sample_size > 0 ==> p.1.sample_size == (if sample_size <= n {
                sample_size
            } else {
                n
            }))
            &&& codec::valid_index_bytes(p.0@)
            &&& p.0@.len() == 32 + 4 * (1 + (n as int) * (d as int) + (n as int) * (
            max_degree as int))
            &&& codec::ser_count(p.0@) == n
            &&& codec::ser_dim(p.0@) == d
            &&& codec::ser_deg(p.0@) == max_degree
            &&& codec::ser_bc(p.0@) == build_complexity
            &&& crate::metric::spec_metric_from_u8(codec::ser_metric(p.0@)) == metric
            &&& codec::ser_eps(p.0@) =~= seq![0u32]
            &&& codec::ser_vec_words(p.0@) == corpus_words(corpus@)
            &&& forall|i: int|
                0 <= i < n ==> srow_ok(
                    #[trigger] codec::ser_adj_row(p.0@, i),
                    i,
                    n as int,
                    max_degree as int,
                )
        },
{
    let total_bytes: usize = corpus.len();
    let header = read_vec_header(corpus);
    let (n, d) = match header {
        Ok(p) => p,
        Err(e) => {
            return Err(e);
        },
    };
    if n == 0 || d == 0 {
        return Err(IndexError::InvalidArgument);
    }
    proof {
        assert((n as u128) * (d as u128) == (n as int) * (d as int) && (n as int) * (d as int)
            <= 0xFFFF_FFFF_FFFF_FFFF) by (nonlinear_arith)
            requires
                n <= 0xFFFF_FFFFu32 && d <= 0xFFFF_FFFFu32,
        ;
    }
    let need: u128 = 8 + 4 * ((n as u128) * (d as u128));
    if (total_bytes as u128) < need {
        return Err(IndexError::MalformedInput);
    }
    let sample_n32 = derive_sample_n(n, sample_size);
    let sample_n: usize = sample_n32 as usize;
    let dimu: usize = d as usize;
    let degu: usize = max_degree as usize;
    // All corpus words; the memory-frugal variant would stream them,
    // the logic is the same.
    proof {
        assert((n as u64) * (d as u64) == (n as int) * (d as int)) by (nonlinear_arith);
        assert(8 + 4 * ((n as int) * (d as int)) <= total_bytes);
    }
    let nd: usize = ((n as u64) * (d as u64)) as usize;
    let mut words: Vec<u32> = Vec::new();
    let mut w: usize = 0;
    while w < nd
        invariant
            w <= nd,
            nd == (n as int) * (d as int),
            total_bytes == corpus@.len(),
            8 + 4 * (nd as int) <= total_bytes,
            n == codec::le32_at(corpus@, 0),
            d == codec::le32_at(corpus@, 4),
            words@ == corpus_words(corpus@).take(w as int),
        decreases nd - w,
    {
        let v = codec::read_le32(corpus, 8 + 4 * w);
        words.push(v);
        proof {
            assert(corpus_words(corpus@)[w as int] == v);
            assert(words@ =~= corpus_words(corpus@).take(w + 1));
        }
        w = w + 1;
    }
    proof {
        assert(corpus_words(corpus@).take(nd as int) =~= corpus_words(corpus@));
    }
    // Pass one: the pilot graph over the sample.
    let pilot0 = InMemoryIndex::new_detached(dimu, metric, max_degree, build_complexity, alpha_bits);
    let mut pilot = match pilot0 {
        Ok(p) => p,
        Err(_) => {
            proof {
                assert(false);
            }
            return Err(IndexError::EngineInternal);
        },
    };
    let mut i: usize = 0;
    while i < sample_n
        invariant
            i <= sample_n,
            sample_n <= n,
            1 <= sample_n,
            nd == (n as int) * (d as int),
            words@.len() == nd,
            dimu == d as int,
            degu == max_degree as int,
            1 <= dimu <= u32::MAX,
            pilot.wf(),
            pilot.spec_len() == i,
            pilot.graph.dim == dimu,
            pilot.graph.metric == metric,
            pilot.graph.max_degree == degu,
            pilot.build_complexity == build_complexity,
            i == 0 ==> pilot.graph.entry_points@ =~= Seq::<u32>::empty(),
            i >= 1 ==> pilot.graph.entry_points@ =~= seq![0u32],
        decreases sample_n - i,
    {
        proof {
            assert((i + 1) * (dimu as int) <= nd) by (nonlinear_arith)
                requires
                    0 <= i < sample_n <= n && nd == (n as int) * (d as int) && dimu == d as int
                        && dimu >= 1,
            ;
            assert((i + 1) * (dimu as int) == i * (dimu as int) + dimu) by (nonlinear_arith);
            crate::graph::lemma_mul_le(0, i as int, dimu as int);
            assert(pilot.graph.vectors@.len() == i * dimu);
        }
        let base: usize = i * dimu;
        let rowslice = vstd::slice::slice_subrange(words.as_slice(), base, base + dimu);
        let row = vstd::slice::slice_to_vec(rowslice);
        let added = pilot.add(dm, &row);
        match added {
            Ok(_) => {},
            Err(_) => {
                proof {
                    assert(false);
                }
                return Err(IndexError::EngineInternal);
            },
        }
        i = i + 1;
    }
    let mut sample_adj: Vec<Vec<u32>> = pilot.get_all_adjacency(sample_n, degu);
    proof {
        assert forall|t: int| 0 <= t < sample_n implies srow_ok(
            (#[trigger] sample_adj@[t])@,
            t,
            n as int,
            degu as int,
        ) by {
            assert(pilot.graph.valid_neighbors(t, pilot.graph.adjacency@[t]@));
            let full = pilot.graph.adjacency@[t]@;
            let cut: int = if full.len() <= degu {
                full.len() as int
            } else {
                degu as int
            };
            assert(sample_adj@[t]@ == full.take(cut));
            assert(forall|j: int| 0 <= j < cut ==> full.take(cut)[j] == full[j]);
        }
    }
    // Pass two: stream the remaining rows, ranking each against the
    // pilot and against the streamed rows before it.
    let remaining: usize = (n as usize) - sample_n;
    let second0 = InMemoryIndex::new_detached(
        dimu,
        metric,
        max_degree,
        build_complexity,
        alpha_bits,
    );
    let mut second = match second0 {
        Ok(p) => p,
        Err(_) => {
            proof {
                assert(false);
            }
            return Err(IndexError::EngineInternal);
        },
    };
    let mut stream_adj: Vec<Vec<u32>> = Vec::new();
    let mut si: usize = 0;
    while si < remaining
        invariant
            si <= remaining,
            remaining == n - sample_n,
            1 <= sample_n <= n,
            nd == (n as int) * (d as int),
            words@.len() == nd,
            dimu == d as int,
            degu == max_degree as int,
            1 <= dimu <= u32::MAX,
            n <= u32::MAX,
            second.wf(),
            second.spec_len() == si,
            second.graph.dim == dimu,
            second.graph.metric == metric,
            second.graph.max_degree == degu,
            second.build_complexity == build_complexity,
            stream_adj@.len() == si,
            forall|t: int|
                0 <= t < si ==> srow_ok(
                    (#[trigger] stream_adj@[t])@,
                    sample_n + t,
                    n as int,
                    degu as int,
                ),
            pilot.wf(),
            pilot.spec_len() == sample_n,
            pilot.graph.dim == dimu,
        decreases remaining - si,
    {
        proof {
            assert((sample_n + si + 1) * (dimu as int) <= nd) by (nonlinear_arith)
                requires
                    0 <= si < remaining && remaining == n - sample_n && nd == (n as int) * (
                    d as int) && dimu == d as int && dimu >= 1 && sample_n >= 0,
            ;
            assert((sample_n + si + 1) * (dimu as int) == (sample_n + si) * (dimu as int)
                + dimu) by (nonlinear_arith);
            crate::graph::lemma_mul_le(0, (sample_n + si) as int, dimu as int);
        }
        let base: usize = (sample_n + si) * dimu;
        let rowslice = vstd::slice::slice_subrange(words.as_slice(), base, base + dimu);
        let row = vstd::slice::slice_to_vec(rowslice);
        let pr = match pilot.search(dm, &row, degu, build_complexity) {
            Ok(v) => v,
            Err(_) => {
                proof {
                    assert(false);
                }
                return Err(IndexError::EngineInternal);
            },
        };
        let sr: Vec<(u64, u64)> = if si > 0 {
            match second.search(dm, &row, degu, build_complexity) {
                Ok(v) => v,
                Err(_) => {
                    proof {
                        assert(false);
                    }
                    return Err(IndexError::EngineInternal);
                },
            }
        } else {
            Vec::new()
        };
        proof {
            assert(forall|t: int| 0 <= t < pr@.len() ==> (#[trigger] pr@[t]).0 < sample_n as u32);
            assert(forall|t: int|
                0 <= t < sr@.len() ==> (sample_n as u32) + (#[trigger] sr@[t]).0 <= u32::MAX);
        }
        let merged = merge_ranked(&pr, &sr, sample_n as u32, degu);
        proof {
            assert(srow_ok(merged@, (sample_n + si) as int, n as int, degu as int)) by {
                assert forall|j: int| 0 <= j < merged@.len() implies (#[trigger] merged@[j]) < (
                sample_n + si) as int by {
                    if from_first(pr@, merged@[j]) {
                        let s2 = choose|s2: int| 0 <= s2 < pr@.len() && pr@[s2].0 == merged@[j];
                    } else {
                        let s2 = choose|s2: int|
                            0 <= s2 < sr@.len() && (sample_n as u32) + sr@[s2].0 == merged@[j];
                    }
                }
            }
        }
        stream_adj.push(merged);
        let _words_len: usize = words.len();
        proof {
            assert(second.graph.vectors@.len() == si * (dimu as int));
            assert((si + 1) * (dimu as int) == si * (dimu as int) + dimu) by (nonlinear_arith);
            crate::graph::lemma_mul_le(si + 1, (sample_n + si + 1) as int, dimu as int);
            assert((sample_n + si + 1) * (dimu as int) <= nd) by (nonlinear_arith)
                requires
                    0 <= si < remaining && remaining == n - sample_n && nd == (n as int) * (
                    d as int) && dimu == d as int && dimu >= 1 && sample_n >= 0,
            ;
            assert(nd <= _words_len);
        }
        let added = second.add(dm, &row);
        match added {
            Ok(_) => {},
            Err(_) => {
                proof {
                    assert(false);
                }
                return Err(IndexError::EngineInternal);
            },
        }
        si = si + 1;
    }
    // Back-edge injection: each streamed row writes its global id into
    // one of its neighbours, so it stays reachable.
    let mut bi: usize = 0;
    while bi < remaining
        invariant
            bi <= remaining,
            remaining == n - sample_n,
            1 <= sample_n <= n,
            n <= u32::MAX,
            degu == max_degree as int,
            sample_adj@.len() == sample_n,
            stream_adj@.len() == remaining,
            forall|t: int|
                0 <= t < sample_n ==> srow_ok((#[trigger] sample_adj@[t])@, t, n as int, degu as int),
            forall|t: int|
                0 <= t < remaining ==> srow_ok(
                    (#[trigger] stream_adj@[t])@,
                    sample_n + t,
                    n as int,
                    degu as int,
                ),
        decreases remaining - bi,
    {
        let rowlen = stream_adj[bi].len();
        if rowlen > 0 {
            let g: u32 = (sample_n + bi) as u32;
            let t: u32 = stream_adj[bi][bi % rowlen];
            proof {
                assert(srow_ok(stream_adj@[bi as int]@, sample_n + bi, n as int, degu as int));
                assert(stream_adj@[bi as int]@[(bi % rowlen) as int] < n);
                assert(degu >= 1);
            }
            if (t as usize) < sample_n {
                let mut lst = vstd::slice::slice_to_vec(sample_adj[t as usize].as_slice());
                if !engine::contains_u32(&lst, g) {
                    let ghost oldlst = lst@;
                    if lst.len() < degu {
                        lst.push(g);
                        proof {
                            assert(forall|j: int|
                                0 <= j < oldlst.len() ==> lst@[j] == oldlst[j]);
                        }
                    } else {
                        let pos = (g as usize) % degu;
                        lst.set(pos, g);
                        proof {
                            assert(forall|j: int|
                                0 <= j < oldlst.len() && j != pos ==> lst@[j] == oldlst[j]);
                        }
                    }
                    proof {
                        assert(srow_ok(lst@, t as int, n as int, degu as int)) by {
                            assert(srow_ok(oldlst, t as int, n as int, degu as int));
                            assert(g < n && g != t);
                            assert(forall|j: int| 0 <= j < oldlst.len() ==> oldlst[j] != g);
                        }
                    }
                    sample_adj.set(t as usize, lst);
                }
            } else {
                let sidx = (t as usize) - sample_n;
                if sidx < remaining && sidx != bi {
                    let mut lst = vstd::slice::slice_to_vec(stream_adj[sidx].as_slice());
                    if !engine::contains_u32(&lst, g) {
                        let ghost oldlst = lst@;
                        if lst.len() < degu {
                            lst.push(g);
                            proof {
                                assert(forall|j: int|
                                    0 <= j < oldlst.len() ==> lst@[j] == oldlst[j]);
                            }
                        } else {
                            let pos = (g as usize) % degu;
                            lst.set(pos, g);
                            proof {
                                assert(forall|j: int|
                                    0 <= j < oldlst.len() && j != pos ==> lst@[j] == oldlst[j]);
                            }
                        }
                        proof {
                            assert(srow_ok(lst@, sample_n + sidx, n as int, degu as int)) by {
                                assert(srow_ok(oldlst, sample_n + sidx, n as int, degu as int));
                                assert(g < n && g != (sample_n + sidx) as u32);
                                assert(forall|j: int| 0 <= j < oldlst.len() ==> oldlst[j] != g);
                            }
                        }
                        stream_adj.set(sidx, lst);
                    }
                }
            }
        }
        bi = bi + 1;
    }
    // Assemble the output graph and serialize it.
    let ghost sample_rows = sample_adj@;
    let mut adjacency = sample_adj;
    adjacency.append(&mut stream_adj);
    let eps = pilot.get_entry_points();
    let g_out = Graph {
        dim: dimu,
        metric,
        max_degree: degu,
        vectors: words,
        adjacency,
        entry_points: eps,
    };
    proof {
        assert(g_out.spec_count() == n);
        assert(g_out.wf()) by {
            assert forall|t: int| 0 <= t < g_out.spec_count() implies g_out.valid_neighbors(
                t,
                #[trigger] g_out.adjacency@[t]@,
            ) by {
                if t < sample_n {
                    assert(g_out.adjacency@[t] == sample_rows[t]);
                    assert(srow_ok(sample_rows[t]@, t, n as int, degu as int));
                } else {
                    assert(srow_ok(g_out.adjacency@[t]@, t, n as int, degu as int));
                }
            }
            assert(g_out.entry_points@ =~= seq![0u32]);
        }
    }
    let out = codec::write_index(&g_out, build_complexity);
    proof {
        codec::lemma_serialize_parse_roundtrip(g_out, build_complexity);
        assert forall|t: int| 0 <= t < n implies srow_ok(
            #[trigger] codec::ser_adj_row(out@, t),
            t,
            n as int,
            max_degree as int,
        ) by {
            assert(codec::ser_adj_row(out@, t) == g_out.adjacency@[t]@);
            if t < sample_n {
                assert(g_out.adjacency@[t] == sample_rows[t]);
                assert(srow_ok(sample_rows[t]@, t, n as int, degu as int));
            }
        }
        assert(codec::ser_vec_words(out@) == corpus_words(corpus@));
        assert(codec::ser_eps(out@) =~= seq![0u32]);
    }
    Ok(
        (
            out,
            StreamingBuildResult {
                num_vectors: n,
                dimension: d,
                sample_size: sample_n as u32,
            },
        ),
    )
}

} // verus!
