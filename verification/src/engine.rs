//! The Vamana engine: greedy best-first search, robust pruning, and
//! the insert protocol, all over a caller-chosen distance strategy.

use vstd::prelude::*;
use vstd::seq_lib::*;
use vstd::set_lib::*;
use crate::graph::Graph;
use crate::metric::Metric;
use crate::model::DistanceModel;

verus! {

/// A node together with its ranking key as seen from the current
/// query or target.
#[derive(Clone, Copy, Debug, PartialEq, Eq, Structural)]
pub struct Candidate {
    pub key: u64,
    pub id: u32,
}

/// Keys never decrease along the sequence.
pub open spec fn sorted_by_key(s: Seq<Candidate>) -> bool {
    forall|i: int, j: int| 0 <= i < j < s.len() ==> s[i].key <= s[j].key
}

/// No node appears twice.
pub open spec fn distinct_ids(s: Seq<Candidate>) -> bool {
    forall|i: int, j: int| 0 <= i < j < s.len() ==> s[i].id != s[j].id
}

/// Every node is a present one.
pub open spec fn ids_below(s: Seq<Candidate>, n: int) -> bool {
    forall|i: int| 0 <= i < s.len() ==> (#[trigger] s[i].id) < n
}

/// Every key is the strategy's key of the stored row as seen from
/// `from`.
pub open spec fn keyed_from<K: DistanceModel>(
    s: Seq<Candidate>,
    dm: &K,
    m: Metric,
    from: Seq<u32>,
    g: &Graph,
) -> bool {
    forall|i: int|
        0 <= i < s.len() ==> (#[trigger] s[i].key) == dm.distance_spec(
            m,
            from,
            g.row_spec(s[i].id as int),
        )
}

/// Some entry carries this id.
pub open spec fn contains_id(s: Seq<Candidate>, id: u32) -> bool {
    exists|i: int| 0 <= i < s.len() && (#[trigger] s[i].id) == id
}

/// The plain list holds the value.
pub open spec fn seq_has_u32(s: Seq<u32>, x: u32) -> bool {
    exists|j: int| 0 <= j < s.len() && (#[trigger] s[j]) == x
}

/// A sequence of distinct ids below `n` cannot be longer than `n`.
pub proof fn lemma_distinct_ids_bound(s: Seq<Candidate>, n: int)
    requires
        distinct_ids(s),
        ids_below(s, n),
        n >= 0,
    ensures
        s.len() <= n,
{
    let ids = Seq::new(s.len(), |j: int| s[j].id as int);
    assert(ids.no_duplicates()) by {
        assert forall|i: int, j: int| 0 <= i < ids.len() && 0 <= j < ids.len() && i != j implies
        ids[i] != ids[j] by {
            if i < j {
                assert(s[i].id != s[j].id);
            } else {
                assert(s[j].id != s[i].id);
            }
        }
    }
    ids.unique_seq_to_set();
    assert(ids.to_set().subset_of(set_int_range(0, n))) by {
        assert forall|a: int| ids.to_set().contains(a) implies set_int_range(0, n).contains(
            a,
        ) by {
            let j = choose|j: int| 0 <= j < ids.len() && ids[j] == a;
            assert(s[j].id < n);
        }
    }
    lemma_int_range(0, n);
    lemma_len_subset(ids.to_set(), set_int_range(0, n));
}

/// The number of true flags.
pub open spec fn count_trues(s: Seq<bool>) -> int
    decreases s.len(),
{
    if s.len() == 0 {
        0
    } else {
        count_trues(s.drop_last()) + if s.last() {
            1int
        } else {
            0int
        }
    }
}

pub proof fn lemma_count_trues_bounds(s: Seq<bool>)
    ensures
        0 <= count_trues(s) <= s.len(),
    decreases s.len(),
{
    if s.len() > 0 {
        lemma_count_trues_bounds(s.drop_last());
    }
}

/// Setting a false flag true raises the count by one.
pub proof fn lemma_count_trues_update(s: Seq<bool>, i: int)
    requires
        0 <= i < s.len(),
        !s[i],
    ensures
        count_trues(s.update(i, true)) == count_trues(s) + 1,
    decreases s.len(),
{
    let t = s.update(i, true);
    if i == s.len() - 1 {
        assert(t.drop_last() =~= s.drop_last());
    } else {
        assert(t.drop_last() =~= s.drop_last().update(i, true));
        lemma_count_trues_update(s.drop_last(), i);
    }
}

/// Inserts a candidate into a key-sorted pool, after any candidate
/// with an equal key.  Returns the insertion position.
pub fn insert_sorted(pool: &mut Vec<Candidate>, c: Candidate) -> (p: usize)
    requires
        sorted_by_key(old(pool)@),
    ensures
        p <= old(pool)@.len(),
        final(pool)@ == old(pool)@.insert(p as int, c),
        sorted_by_key(final(pool)@),
        forall|i: int| 0 <= i < p ==> old(pool)@[i].key <= c.key,
        forall|i: int| p <= i < old(pool)@.len() ==> c.key < old(pool)@[i].key,
{
    let mut p: usize = 0;
    while p < pool.len() && pool[p].key <= c.key
        invariant
            p <= pool@.len(),
            forall|i: int| 0 <= i < p ==> pool@[i].key <= c.key,
            *pool == *old(pool),
        decreases pool@.len() - p,
    {
        p = p + 1;
    }
    pool.insert(p, c);
    proof {
        let newpool = pool@;
        let oldpool = old(pool)@;
        assert forall|i: int, j: int| 0 <= i < j < newpool.len() implies newpool[i].key
            <= newpool[j].key by {
            assert(newpool == oldpool.insert(p as int, c));
            if i < p && j < p {
            } else if i < p && j == p {
            } else if i < p && j > p {
                assert(newpool[j] == oldpool[j - 1]);
            } else if i == p {
                assert(newpool[j] == oldpool[j - 1]);
            } else {
                assert(newpool[i] == oldpool[i - 1]);
                assert(newpool[j] == oldpool[j - 1]);
            }
        }
    }
    p
}


/// The pool predicate greedy search maintains: sorted, duplicate-free,
/// all ids present, every key the strategy's key from the query.
pub open spec fn pool_wf<K: DistanceModel>(
    p: Seq<Candidate>,
    dm: &K,
    g: &Graph,
    q: Seq<u32>,
) -> bool {
    &&& sorted_by_key(p)
    &&& distinct_ids(p)
    &&& ids_below(p, g.spec_count())
    &&& keyed_from(p, dm, g.metric, q, g)
}

/// Inserting a fresh, properly keyed candidate preserves the pool
/// predicate apart from sortedness, which `insert_sorted` keeps.
pub proof fn lemma_pool_insert<K: DistanceModel>(
    oldp: Seq<Candidate>,
    p: int,
    c: Candidate,
    dm: &K,
    g: &Graph,
    q: Seq<u32>,
)
    requires
        0 <= p <= oldp.len(),
        distinct_ids(oldp),
        ids_below(oldp, g.spec_count()),
        keyed_from(oldp, dm, g.metric, q, g),
        !contains_id(oldp, c.id),
        c.id < g.spec_count(),
        c.key == dm.distance_spec(g.metric, q, g.row_spec(c.id as int)),
    ensures
        distinct_ids(oldp.insert(p, c)),
        ids_below(oldp.insert(p, c), g.spec_count()),
        keyed_from(oldp.insert(p, c), dm, g.metric, q, g),
        forall|i: int|
            0 <= i < oldp.insert(p, c).len() ==> ((#[trigger] oldp.insert(p, c)[i]).id == c.id
                || contains_id(oldp, oldp.insert(p, c)[i].id)),
{
    oldp.insert_ensures(p, c);
    let newp = oldp.insert(p, c);
    assert forall|i: int| 0 <= i < newp.len() implies ((#[trigger] newp[i]) == c || (exists|j: int|
        0 <= j < oldp.len() && oldp[j] == newp[i] && (#[trigger] newp[i]).id == oldp[j].id)) by {
        if i < p {
            assert(newp[i] == oldp[i]);
        } else if i > p {
            assert(newp[(i - 1) + 1] == oldp[i - 1]);
        }
    }
    assert forall|i: int, j: int| 0 <= i < j < newp.len() implies newp[i].id != newp[j].id by {
        if i < p {
            assert(newp[i] == oldp[i]);
        } else if i > p {
            assert(newp[(i - 1) + 1] == oldp[i - 1]);
        }
        if j < p {
            assert(newp[j] == oldp[j]);
        } else if j > p {
            assert(newp[(j - 1) + 1] == oldp[j - 1]);
        }
        assert(forall|t: int| 0 <= t < oldp.len() ==> (#[trigger] oldp[t].id) != c.id);
    }
}



/// Insertion keeps every id the pool already had.
pub proof fn lemma_insert_preserves_contains(oldp: Seq<Candidate>, p: int, c: Candidate, id: u32)
    requires
        0 <= p <= oldp.len(),
        contains_id(oldp, id),
    ensures
        contains_id(oldp.insert(p, c), id),
{
    oldp.insert_ensures(p, c);
    let t = choose|t: int| 0 <= t < oldp.len() && oldp[t].id == id;
    if t < p {
        assert(oldp.insert(p, c)[t] == oldp[t]);
    } else {
        assert(oldp.insert(p, c)[t + 1] == oldp[t]);
    }
}

/// Node `id` can be reached from the entry points in at most `steps`
/// hops along adjacency lists.
pub open spec fn reach_n(g: &Graph, id: u32, steps: nat) -> bool
    decreases steps,
{
    if seq_has_u32(g.entry_points@, id) {
        true
    } else if steps == 0 {
        false
    } else {
        exists|p: u32|
            reach_n(g, p, (steps - 1) as nat) && p < g.spec_count() && #[trigger] seq_has_u32(
                g.adjacency@[p as int]@,
                id,
            )
    }
}

/// Node `id` can be reached from the entry points.
pub open spec fn reachable(g: &Graph, id: u32) -> bool {
    exists|steps: nat| #[trigger] reach_n(g, id, steps)
}

/// Every entry point is reachable.
pub proof fn lemma_entry_point_reachable(g: &Graph, e: int)
    requires
        0 <= e < g.entry_points@.len(),
    ensures
        reachable(g, g.entry_points@[e]),
{
    assert(seq_has_u32(g.entry_points@, g.entry_points@[e]));
    assert(reach_n(g, g.entry_points@[e], 0));
}

/// A neighbour of a reachable node is reachable.
pub proof fn lemma_step_reachable(g: &Graph, p: u32, id: u32)
    requires
        reachable(g, p),
        p < g.spec_count(),
        seq_has_u32(g.adjacency@[p as int]@, id),
    ensures
        reachable(g, id),
{
    let steps = choose|steps: nat| reach_n(g, p, steps);
    if seq_has_u32(g.entry_points@, id) {
        assert(reach_n(g, id, 0));
    } else {
        let up = (steps + 1) as nat;
        assert(reach_n(g, id, up)) by {
            assert((up - 1) as nat == steps);
            assert(reach_n(g, p, (up - 1) as nat) && p < g.spec_count() && seq_has_u32(
                g.adjacency@[p as int]@,
                id,
            ));
        }
    }
}

/// Every pool entry is reachable.
pub open spec fn pool_reachable(p: Seq<Candidate>, g: &Graph) -> bool {
    forall|t: int| 0 <= t < p.len() ==> reachable(g, (#[trigger] p[t]).id)
}

/// The first pool entry not yet expanded, scanning in pool order.
fn first_unvisited(pool: &Vec<Candidate>, visited: &Vec<bool>) -> (r: Option<usize>)
    requires
        ids_below(pool@, visited@.len() as int),
    ensures
        match r {
            Some(s) => s < pool@.len() && !visited@[pool@[s as int].id as int],
            None => forall|i: int|
                0 <= i < pool@.len() ==> visited@[(#[trigger] pool@[i]).id as int],
        },
{
    let mut s: usize = 0;
    while s < pool.len()
        invariant
            s <= pool@.len(),
            ids_below(pool@, visited@.len() as int),
            forall|i: int| 0 <= i < s ==> visited@[(#[trigger] pool@[i]).id as int],
        decreases pool@.len() - s,
    {
        if !visited[pool[s].id as usize] {
            return Some(s);
        }
        s = s + 1;
    }
    None
}


/// Every entry point is flagged.
pub open spec fn eps_seeded(g: &Graph, seen: Seq<bool>) -> bool {
    forall|e: int|
        0 <= e < g.entry_points@.len() ==> seen[(#[trigger] g.entry_points@[e]) as int]
}

/// Every neighbour of every expanded node is flagged.
pub open spec fn visited_closed(g: &Graph, visited: Seq<bool>, seen: Seq<bool>) -> bool {
    forall|id: int, j: int|
        #![trigger visited[id], g.adjacency@[id]@[j]]
        0 <= id < visited.len() && visited[id] && 0 <= j < g.adjacency@[id]@.len()
            ==> seen[g.adjacency@[id]@[j] as int]
}

/// Every flagged id stands in the pool.
pub open spec fn seen_in_pool(seen: Seq<bool>, pool: Seq<Candidate>) -> bool {
    forall|id: int| 0 <= id < seen.len() && (#[trigger] seen[id]) ==> contains_id(pool, id as u32)
}

/// Once the entry points are flagged, every expanded pool entry has
/// its neighbours flagged, and every flagged id is pooled and every
/// pooled id expanded, the flags cover everything reachable.
pub proof fn lemma_search_exhausts(
    g: &Graph,
    pool: Seq<Candidate>,
    seen: Seq<bool>,
    visited: Seq<bool>,
    id: u32,
    steps: nat,
)
    requires
        g.wf(),
        seen.len() == g.spec_count(),
        visited.len() == g.spec_count(),
        eps_seeded(g, seen),
        seen_in_pool(seen, pool),
        visited_closed(g, visited, seen),
        forall|t: int| 0 <= t < pool.len() ==> visited[(#[trigger] pool[t]).id as int],
        ids_below(pool, g.spec_count()),
        id < g.spec_count(),
        reach_n(g, id, steps),
    ensures
        seen[id as int],
    decreases steps,
{
    if seq_has_u32(g.entry_points@, id) {
        let e = choose|e: int| 0 <= e < g.entry_points@.len() && g.entry_points@[e] == id;
        assert(seen[g.entry_points@[e] as int]);
    } else {
        let p = choose|p: u32|
            reach_n(g, p, (steps - 1) as nat) && p < g.spec_count() && seq_has_u32(
                g.adjacency@[p as int]@,
                id,
            );
        lemma_search_exhausts(g, pool, seen, visited, p, (steps - 1) as nat);
        assert(contains_id(pool, p));
        let t = choose|t: int| 0 <= t < pool.len() && pool[t].id == p;
        assert(visited[pool[t].id as int]);
        let j = choose|j: int|
            0 <= j < g.adjacency@[p as int]@.len() && g.adjacency@[p as int]@[j] == id;
        assert(seen[g.adjacency@[p as int]@[j] as int]);
    }
}

/// A duplicate-free pool of ids below `n` that holds every id below
/// `n` holds exactly `n` entries.
pub proof fn lemma_full_pool_len(pool: Seq<Candidate>, n: int)
    requires
        0 <= n <= u32::MAX as int + 1,
        distinct_ids(pool),
        ids_below(pool, n),
        forall|id: u32| (id as int) < n ==> contains_id(pool, id),
    ensures
        pool.len() == n,
{
    lemma_distinct_ids_bound(pool, n);
    let ids = Seq::new(pool.len(), |j: int| pool[j].id as int);
    assert(ids.no_duplicates()) by {
        assert forall|i: int, j: int|
            0 <= i < ids.len() && 0 <= j < ids.len() && i != j implies ids[i] != ids[j] by {
            if i < j {
                assert(pool[i].id != pool[j].id);
            } else {
                assert(pool[j].id != pool[i].id);
            }
        }
    }
    ids.unique_seq_to_set();
    assert(set_int_range(0, n).subset_of(ids.to_set())) by {
        assert forall|a: int| set_int_range(0, n).contains(a) implies ids.to_set().contains(
            a,
        ) by {
            assert(contains_id(pool, a as u32));
            let t = choose|t: int| 0 <= t < pool.len() && pool[t].id == a as u32;
            assert(ids[t] == a);
        }
    }
    lemma_int_range(0, n);
    vstd::seq_lib::seq_to_set_is_finite(ids);
    lemma_len_subset(set_int_range(0, n), ids.to_set());
}

/// Greedy best-first search from the entry points with beam width `l`:
/// returns the pool of discovered nodes, sorted by key, at most `l`
/// long, never empty.
pub fn greedy_search_core<K: DistanceModel>(g: &Graph, dm: &K, q: &Vec<u32>, l: usize) -> (pool:
    Vec<Candidate>)
    requires
        g.wf(),
        g.spec_count() > 0,
        q@.len() == g.dim,
        1 <= l <= u32::MAX as usize,
    ensures
        pool_wf(pool@, dm, g, q@),
        pool_reachable(pool@, g),
        1 <= pool@.len() <= l as int,
        pool@.len() >= l as int || (forall|id: u32|
            (id as int) < g.spec_count() && reachable(g, id) ==> contains_id(pool@, id)),
{
    let count = g.count();
    let mut seen: Vec<bool> = Vec::new();
    let mut visited: Vec<bool> = Vec::new();
    let mut i: usize = 0;
    while i < count
        invariant
            i <= count,
            count == g.spec_count(),
            seen@.len() == i,
            visited@.len() == i,
            count_trues(visited@) == 0,
            forall|t: int| 0 <= t < i ==> !(#[trigger] visited@[t]),
            forall|t: int| 0 <= t < i ==> !(#[trigger] seen@[t]),
        decreases count - i,
    {
        let ghost prev = visited@;
        seen.push(false);
        visited.push(false);
        proof {
            assert(visited@.drop_last() =~= prev);
        }
        i = i + 1;
    }
    let mut pool: Vec<Candidate> = Vec::new();
    let mut nv: usize = 0;

    // Seed the pool with every entry point; they are distinct by the
    // graph invariant, so each seed is fresh.
    let mut e: usize = 0;
    while e < g.entry_points.len()
        invariant
            e <= g.entry_points@.len(),
            g.wf(),
            q@.len() == g.dim,
            count == g.spec_count(),
            seen@.len() == count,
            visited@.len() == count,
            count_trues(visited@) == 0,
            nv == 0,
            pool_wf(pool@, dm, g, q@),
            pool_reachable(pool@, g),
            forall|t: int| 0 <= t < pool@.len() ==> seen@[(#[trigger] pool@[t]).id as int],
            forall|t: int|
                0 <= t < pool@.len() ==> exists|e2: int|
                    0 <= e2 < e && (#[trigger] pool@[t]).id == g.entry_points@[e2],
            pool@.len() == e,
            forall|e2: int| 0 <= e2 < e ==> seen@[(#[trigger] g.entry_points@[e2]) as int],
            seen_in_pool(seen@, pool@),
            forall|t: int| 0 <= t < count ==> !(#[trigger] visited@[t]),
        decreases g.entry_points@.len() - e,
    {
        let ep = g.entry_points[e];
        let ghost preseen = seen@;
        seen.set(ep as usize, true);
        let row = g.row(ep as usize);
        let key = dm.distance(g.metric, q.as_slice(), row.as_slice());
        let c = Candidate { key, id: ep };
        proof {
            assert(!contains_id(pool@, c.id)) by {
                if contains_id(pool@, c.id) {
                    let t = choose|t: int| 0 <= t < pool@.len() && pool@[t].id == c.id;
                    let e2 = choose|e2: int|
                        0 <= e2 < e && pool@[t].id == g.entry_points@[e2];
                    assert(g.entry_points@[e2] != g.entry_points@[e as int]);
                }
            }
        }
        let ghost oldpool = pool@;
        let p = insert_sorted(&mut pool, c);
        proof {
            lemma_pool_insert(oldpool, p as int, c, dm, g, q@);
            lemma_entry_point_reachable(g, e as int);
            oldpool.insert_ensures(p as int, c);
            assert(pool@[p as int] == c);
            assert forall|t: int| 0 <= t < pool@.len() implies reachable(
                g,
                (#[trigger] pool@[t]).id,
            ) by {
                if pool@[t].id != c.id {
                    assert(contains_id(oldpool, pool@[t].id));
                    let t2 = choose|t2: int|
                        0 <= t2 < oldpool.len() && oldpool[t2].id == pool@[t].id;
                    assert(reachable(g, oldpool[t2].id));
                }
            }
            assert forall|t: int| 0 <= t < pool@.len() implies seen@[(
            #[trigger] pool@[t]).id as int] by {}
            assert forall|t: int| 0 <= t < pool@.len() implies exists|e2: int|
                0 <= e2 < e + 1 && (#[trigger] pool@[t]).id == g.entry_points@[e2] by {
                if pool@[t].id == c.id {
                    assert(pool@[t].id == g.entry_points@[e as int]);
                } else {
                    assert(contains_id(oldpool, pool@[t].id));
                    let t2 = choose|t2: int|
                        0 <= t2 < oldpool.len() && oldpool[t2].id == pool@[t].id;
                    let e2 = choose|e2: int|
                        0 <= e2 < e && oldpool[t2].id == g.entry_points@[e2];
                    assert(0 <= e2 < e + 1 && pool@[t].id == g.entry_points@[e2]);
                }
            }
            assert forall|id: int| 0 <= id < seen@.len() && (#[trigger] seen@[id]) implies
            contains_id(pool@, id as u32) by {
                if id == ep as int {
                    assert(pool@[p as int].id == (id as u32));
                } else {
                    assert(preseen[id]);
                    assert(contains_id(oldpool, id as u32));
                    lemma_insert_preserves_contains(oldpool, p as int, c, id as u32);
                }
            }
        }
        e = e + 1;
    }
    // The beam is capped at l throughout; once capped it never falls
    // below l again, so either the beam stayed under l and the flags
    // track the pool, or the pool is full.
    let ghost seeded = pool@;
    if pool.len() > l {
        pool.truncate(l);
        proof {
            assert(pool@ == seeded.subrange(0, l as int));
        }
    }
    proof {
        assert(pool_reachable(pool@, g));
        assert(pool@.len() >= l as int || seen_in_pool(seen@, pool@));
    }

    // Expand the closest unexpanded pool entry until none is left.
    loop
        invariant
            g.wf(),
            q@.len() == g.dim,
            count == g.spec_count(),
            1 <= l <= u32::MAX as usize,
            seen@.len() == count,
            visited@.len() == count,
            nv == count_trues(visited@),
            nv <= count,
            pool_wf(pool@, dm, g, q@),
            pool_reachable(pool@, g),
            forall|t: int| 0 <= t < pool@.len() ==> seen@[(#[trigger] pool@[t]).id as int],
            1 <= pool@.len() <= l as int,
            eps_seeded(g, seen@),
            visited_closed(g, visited@, seen@),
            pool@.len() >= l as int || seen_in_pool(seen@, pool@),
        ensures
            pool_wf(pool@, dm, g, q@),
            pool_reachable(pool@, g),
            1 <= pool@.len() <= l as int,
            seen@.len() == count,
            visited@.len() == count,
            eps_seeded(g, seen@),
            visited_closed(g, visited@, seen@),
            pool@.len() >= l as int || seen_in_pool(seen@, pool@),
            forall|t: int| 0 <= t < pool@.len() ==> visited@[(#[trigger] pool@[t]).id as int],
        decreases count - nv,
    {
        let sel = first_unvisited(&pool, &visited);
        match sel {
            Option::None => {
                break ;
            },
            Option::Some(s) => {
                let c = pool[s];
                let nbrs = g.neighbors(c.id as usize);
                let ghost clist = g.adjacency@[c.id as int]@;
                let mut j: usize = 0;
                while j < nbrs.len()
                    invariant
                        j <= nbrs@.len(),
                        nbrs@ == clist,
                        clist == g.adjacency@[c.id as int]@,
                        g.wf(),
                        c.id < count,
                        reachable(g, c.id),
                        g.valid_neighbors(c.id as int, clist),
                        q@.len() == g.dim,
                        count == g.spec_count(),
                        1 <= l <= u32::MAX as usize,
                        seen@.len() == count,
                        visited@.len() == count,
                        pool_wf(pool@, dm, g, q@),
                        pool_reachable(pool@, g),
                        forall|t: int|
                            0 <= t < pool@.len() ==> seen@[(#[trigger] pool@[t]).id as int],
                        1 <= pool@.len() <= l as int,
                        eps_seeded(g, seen@),
                        visited_closed(g, visited@, seen@),
                        pool@.len() >= l as int || seen_in_pool(seen@, pool@),
                        forall|t: int| 0 <= t < j ==> seen@[(#[trigger] clist[t]) as int],
                    decreases nbrs@.len() - j,
                {
                    let nb = nbrs[j];
                    if !seen[nb as usize] {
                        let ghost preseen = seen@;
                        seen.set(nb as usize, true);
                        let row = g.row(nb as usize);
                        let key = dm.distance(g.metric, q.as_slice(), row.as_slice());
                        let cand = Candidate { key, id: nb };
                        proof {
                            assert(!contains_id(pool@, cand.id));
                        }
                        let ghost oldpool = pool@;
                        let p = insert_sorted(&mut pool, cand);
                        proof {
                            lemma_pool_insert(oldpool, p as int, cand, dm, g, q@);
                            oldpool.insert_ensures(p as int, cand);
                            assert(pool@[p as int] == cand);
                            assert(seq_has_u32(clist, nb)) by {
                                assert(clist[j as int] == nb);
                            }
                            lemma_step_reachable(g, c.id, nb);
                            assert forall|t: int| 0 <= t < pool@.len() implies reachable(
                                g,
                                (#[trigger] pool@[t]).id,
                            ) by {
                                if pool@[t].id != cand.id {
                                    assert(contains_id(oldpool, pool@[t].id));
                                    let t2 = choose|t2: int|
                                        0 <= t2 < oldpool.len() && oldpool[t2].id == pool@[t].id;
                                    assert(reachable(g, oldpool[t2].id));
                                }
                            }
                            assert forall|t: int| 0 <= t < pool@.len() implies seen@[(
                            #[trigger] pool@[t]).id as int] by {}
                            assert(visited_closed(g, visited@, seen@)) by {
                                assert forall|id: int, j2: int|
                                    0 <= id < visited@.len() && visited@[id] && 0 <= j2
                                        < g.adjacency@[id]@.len() implies seen@[g.adjacency@[id]@[j2] as int] by {
                                    assert(preseen[g.adjacency@[id]@[j2] as int]);
                                }
                            }
                            if seen_in_pool(preseen, oldpool) {
                                assert forall|id: int|
                                    0 <= id < seen@.len() && (#[trigger] seen@[id]) implies
                                contains_id(pool@, id as u32) by {
                                    if id == nb as int {
                                        assert(pool@[p as int].id == (id as u32));
                                    } else {
                                        assert(preseen[id]);
                                        assert(contains_id(oldpool, id as u32));
                                        lemma_insert_preserves_contains(
                                            oldpool,
                                            p as int,
                                            cand,
                                            id as u32,
                                        );
                                    }
                                }
                            }
                        }
                        let ghost grown = pool@;
                        if pool.len() > l {
                            pool.truncate(l);
                            proof {
                                assert(pool@ == grown.subrange(0, l as int));
                            }
                        }
                    }
                    j = j + 1;
                }
                proof {
                    lemma_count_trues_update(visited@, c.id as int);
                }
                let ghost previs = visited@;
                visited.set(c.id as usize, true);
                proof {
                    lemma_count_trues_bounds(visited@);
                    assert(visited_closed(g, visited@, seen@)) by {
                        assert forall|id: int, j2: int|
                            0 <= id < visited@.len() && visited@[id] && 0 <= j2
                                < g.adjacency@[id]@.len() implies seen@[g.adjacency@[id]@[j2] as int] by {
                            if id == c.id as int {
                                assert(seen@[(clist[j2]) as int]);
                            } else {
                                assert(previs[id]);
                            }
                        }
                    }
                }
                nv = nv + 1;
            },
        }
    }
    proof {
        if pool@.len() < l as int {
            assert(seen_in_pool(seen@, pool@));
            assert forall|id: u32| (id as int) < count && reachable(g, id) implies contains_id(
                pool@,
                id,
            ) by {
                let steps = choose|steps: nat| reach_n(g, id, steps);
                lemma_search_exhausts(g, pool@, seen@, visited@, id, steps);
            }
        }
    }
    pool
}


/// Whether candidate `c` survives against the already-admitted set:
/// its alpha-scaled key must not exceed its distance to any admitted
/// node.
pub open spec fn prune_admits<K: DistanceModel>(
    dm: &K,
    g: &Graph,
    c: Candidate,
    admitted: Seq<u32>,
) -> bool {
    forall|t: int|
        0 <= t < admitted.len() ==> dm.occlusion_spec(c.key) <= dm.distance_spec(
            g.metric,
            g.row_spec(c.id as int),
            g.row_spec((#[trigger] admitted[t]) as int),
        )
}

/// One pass of robust pruning over the remaining candidates, with the
/// admitted ids accumulated so far.
pub open spec fn spec_prune_loop<K: DistanceModel>(
    dm: &K,
    g: &Graph,
    cands: Seq<Candidate>,
    admitted: Seq<u32>,
    r: int,
) -> Seq<u32>
    decreases cands.len(),
{
    if admitted.len() >= r || cands.len() == 0 {
        admitted
    } else {
        let c = cands[0];
        let nxt = if prune_admits(dm, g, c, admitted) {
            admitted.push(c.id)
        } else {
            admitted
        };
        spec_prune_loop(dm, g, cands.drop_first(), nxt, r)
    }
}

/// Robust pruning of a ranked candidate sequence down to at most `r`
/// ids, exactly as the engine computes it.
pub open spec fn spec_prune<K: DistanceModel>(
    dm: &K,
    g: &Graph,
    cands: Seq<Candidate>,
    r: int,
) -> Seq<u32> {
    spec_prune_loop(dm, g, cands, Seq::empty(), r)
}

/// What pruning guarantees structurally: the result stays within the
/// bound, stays duplicate-free, and only ever adds candidate ids.
pub proof fn lemma_prune_props<K: DistanceModel>(
    dm: &K,
    g: &Graph,
    cands: Seq<Candidate>,
    admitted: Seq<u32>,
    r: int,
)
    requires
        r >= 0,
        admitted.len() <= r,
        distinct_ids(cands),
        ids_below(cands, g.spec_count()),
        forall|t1: int, t2: int| 0 <= t1 < t2 < admitted.len() ==> admitted[t1] != admitted[t2],
        forall|t: int| 0 <= t < admitted.len() ==> (#[trigger] admitted[t]) < g.spec_count(),
        forall|t: int, i: int|
            0 <= t < admitted.len() && 0 <= i < cands.len() ==> (#[trigger] admitted[t]) != (
            #[trigger] cands[i]).id,
    ensures
        admitted.len() <= spec_prune_loop(dm, g, cands, admitted, r).len() <= r,
        forall|t1: int, t2: int|
            0 <= t1 < t2 < spec_prune_loop(dm, g, cands, admitted, r).len() ==> spec_prune_loop(
                dm,
                g,
                cands,
                admitted,
                r,
            )[t1] != spec_prune_loop(dm, g, cands, admitted, r)[t2],
        forall|t: int|
            0 <= t < spec_prune_loop(dm, g, cands, admitted, r).len() ==> (
            #[trigger] spec_prune_loop(dm, g, cands, admitted, r)[t]) < g.spec_count(),
        forall|t: int|
            0 <= t < spec_prune_loop(dm, g, cands, admitted, r).len() ==> ((exists|a: int|
                0 <= a < admitted.len() && admitted[a] == spec_prune_loop(
                    dm,
                    g,
                    cands,
                    admitted,
                    r,
                )[t]) || contains_id(cands, spec_prune_loop(dm, g, cands, admitted, r)[t])),
    decreases cands.len(),
{
    if admitted.len() >= r || cands.len() == 0 {
    } else {
        let c = cands[0];
        let rest = cands.drop_first();
        assert(forall|i: int| 0 <= i < rest.len() ==> rest[i] == cands[i + 1]);
        if prune_admits(dm, g, c, admitted) {
            let nxt = admitted.push(c.id);
            assert(forall|t: int|
                0 <= t < admitted.len() ==> (#[trigger] nxt[t]) == admitted[t]);
            assert(nxt[admitted.len() as int] == c.id);
            lemma_prune_props(dm, g, rest, nxt, r);
            assert forall|t: int|
                0 <= t < spec_prune_loop(dm, g, cands, admitted, r).len() implies ((exists|
                a: int|
                0 <= a < admitted.len() && admitted[a] == spec_prune_loop(
                    dm,
                    g,
                    cands,
                    admitted,
                    r,
                )[t]) || contains_id(cands, spec_prune_loop(dm, g, cands, admitted, r)[t])) by {
                let out = spec_prune_loop(dm, g, cands, admitted, r);
                assert(out == spec_prune_loop(dm, g, rest, nxt, r));
                if exists|a: int| 0 <= a < nxt.len() && nxt[a] == out[t] {
                    let a = choose|a: int| 0 <= a < nxt.len() && nxt[a] == out[t];
                    if a < admitted.len() {
                    } else {
                        assert(out[t] == c.id);
                        assert(cands[0].id == out[t]);
                    }
                } else {
                    assert(contains_id(rest, out[t]));
                    let i = choose|i: int| 0 <= i < rest.len() && rest[i].id == out[t];
                    assert(cands[i + 1].id == out[t]);
                }
            }
        } else {
            lemma_prune_props(dm, g, rest, admitted, r);
            assert forall|t: int|
                0 <= t < spec_prune_loop(dm, g, cands, admitted, r).len() implies ((exists|
                a: int|
                0 <= a < admitted.len() && admitted[a] == spec_prune_loop(
                    dm,
                    g,
                    cands,
                    admitted,
                    r,
                )[t]) || contains_id(cands, spec_prune_loop(dm, g, cands, admitted, r)[t])) by {
                let out = spec_prune_loop(dm, g, cands, admitted, r);
                assert(out == spec_prune_loop(dm, g, rest, admitted, r));
                if !(exists|a: int| 0 <= a < admitted.len() && admitted[a] == out[t]) {
                    assert(contains_id(rest, out[t]));
                    let i = choose|i: int| 0 <= i < rest.len() && rest[i].id == out[t];
                    assert(cands[i + 1].id == out[t]);
                }
            }
        }
    }
}


/// Pruning a non-empty ranked pool with a positive degree bound
/// admits at least its closest candidate.
pub proof fn lemma_prune_nonempty<K: DistanceModel>(
    dm: &K,
    g: &Graph,
    cands: Seq<Candidate>,
    r: int,
)
    requires
        r >= 1,
        cands.len() >= 1,
        distinct_ids(cands),
        ids_below(cands, g.spec_count()),
    ensures
        spec_prune(dm, g, cands, r).len() >= 1,
{
    let c = cands[0];
    assert(prune_admits(dm, g, c, Seq::empty()));
    let first = Seq::<u32>::empty().push(c.id);
    assert(spec_prune(dm, g, cands, r) == spec_prune_loop(dm, g, cands.drop_first(), first, r));
    assert(forall|i: int| 0 <= i < cands.drop_first().len() ==> cands.drop_first()[i] == cands[i
        + 1]);
    lemma_prune_props(dm, g, cands.drop_first(), first, r);
}

/// Rows agree between two graphs with the same storage and width.
pub proof fn lemma_rows_agree(g1: &Graph, g2: &Graph)
    requires
        g1.dim == g2.dim,
        g1.vectors@ == g2.vectors@,
    ensures
        forall|i: int| #[trigger] g1.row_spec(i) == g2.row_spec(i),
{
}

/// Pruning reads only the metric and the stored rows, so two graphs
/// that agree on them prune identically.
pub proof fn lemma_prune_same_rows<K: DistanceModel>(
    dm: &K,
    g1: &Graph,
    g2: &Graph,
    cands: Seq<Candidate>,
    admitted: Seq<u32>,
    r: int,
)
    requires
        g1.dim == g2.dim,
        g1.metric == g2.metric,
        g1.vectors@ == g2.vectors@,
    ensures
        spec_prune_loop(dm, g1, cands, admitted, r) == spec_prune_loop(dm, g2, cands, admitted, r),
    decreases cands.len(),
{
    lemma_rows_agree(g1, g2);
    if admitted.len() >= r || cands.len() == 0 {
    } else {
        let c = cands[0];
        assert(prune_admits(dm, g1, c, admitted) <==> prune_admits(dm, g2, c, admitted)) by {
            if prune_admits(dm, g1, c, admitted) {
                assert forall|t: int| 0 <= t < admitted.len() implies dm.occlusion_spec(c.key)
                    <= dm.distance_spec(
                    g2.metric,
                    g2.row_spec(c.id as int),
                    g2.row_spec((#[trigger] admitted[t]) as int),
                ) by {
                    assert(dm.occlusion_spec(c.key) <= dm.distance_spec(
                        g1.metric,
                        g1.row_spec(c.id as int),
                        g1.row_spec(admitted[t] as int),
                    ));
                }
            }
            if prune_admits(dm, g2, c, admitted) {
                assert forall|t: int| 0 <= t < admitted.len() implies dm.occlusion_spec(c.key)
                    <= dm.distance_spec(
                    g1.metric,
                    g1.row_spec(c.id as int),
                    g1.row_spec((#[trigger] admitted[t]) as int),
                ) by {
                    assert(dm.occlusion_spec(c.key) <= dm.distance_spec(
                        g2.metric,
                        g2.row_spec(c.id as int),
                        g2.row_spec(admitted[t] as int),
                    ));
                }
            }
        }
        if prune_admits(dm, g1, c, admitted) {
            lemma_prune_same_rows(dm, g1, g2, cands.drop_first(), admitted.push(c.id), r);
        } else {
            lemma_prune_same_rows(dm, g1, g2, cands.drop_first(), admitted, r);
        }
    }
}

/// A candidate sequence that ranks exactly the ids of `ids` by their
/// key as seen from node `m`, ascending.
pub open spec fn ranked_of<K: DistanceModel>(
    cands: Seq<Candidate>,
    dm: &K,
    g: &Graph,
    m: u32,
    ids: Seq<u32>,
) -> bool {
    &&& sorted_by_key(cands)
    &&& distinct_ids(cands)
    &&& keyed_from(cands, dm, g.metric, g.row_spec(m as int), g)
    &&& cands.len() == ids.len()
    &&& forall|t: int| 0 <= t < cands.len() ==> seq_has_u32(ids, (#[trigger] cands[t]).id)
}

/// What back-edge maintenance leaves at neighbour `m` of a freshly
/// inserted `label`: either the label was simply appended, or the list
/// overflowed and became the robust prune of the old list plus the
/// label, ranked from `m` and capped at the degree bound.
pub open spec fn backedge_ok<K: DistanceModel>(
    dm: &K,
    g: &Graph,
    m: u32,
    oldlist: Seq<u32>,
    newlist: Seq<u32>,
    label: u32,
) -> bool {
    ||| newlist == oldlist.push(label)
    ||| (exists|cands: Seq<Candidate>|
        #[trigger] ranked_of(cands, dm, g, m, oldlist.push(label)) && newlist == spec_prune(
            dm,
            g,
            cands,
            g.max_degree as int,
        ))
}

/// The wiring the insert protocol owes for a node added to a
/// non-empty graph: its list is the robust prune of a non-empty
/// candidate pool ranked from the inserted vector; with a positive
/// degree bound it is non-empty; every untouched list is unchanged;
/// and every selected neighbour got its back-edge, re-pruned where
/// its list overflowed.
pub open spec fn insert_wired<K: DistanceModel>(
    dm: &K,
    gold: Graph,
    gnew: Graph,
    v: Seq<u32>,
) -> bool {
    let label = gold.spec_count();
    let newlist = gnew.adjacency@[label]@;
    &&& (exists|pool: Seq<Candidate>|
        #[trigger] pool_wf(pool, dm, &gold, v) && 1 <= pool.len() && newlist == spec_prune(
            dm,
            &gold,
            pool,
            gold.max_degree as int,
        ))
    &&& (gold.max_degree >= 1 ==> newlist.len() >= 1)
    &&& forall|i: int|
        0 <= i < gold.spec_count() && !seq_has_u32(newlist, i as u32) ==> (
        #[trigger] gnew.adjacency@[i])@ == gold.adjacency@[i]@
    &&& forall|t: int|
        0 <= t < newlist.len() ==> backedge_ok(
            dm,
            &gnew,
            #[trigger] newlist[t],
            gold.adjacency@[newlist[t] as int]@,
            gnew.adjacency@[newlist[t] as int]@,
            label as u32,
        )
}

/// Robust pruning: walks the candidates in ranking order and admits
/// each one whose alpha-scaled key is dominated by no admitted node,
/// stopping at `r` admitted ids.
pub fn robust_prune<K: DistanceModel>(g: &Graph, dm: &K, cands: &Vec<Candidate>, r: usize) -> (out:
    Vec<u32>)
    requires
        g.wf_core(),
        sorted_by_key(cands@),
        distinct_ids(cands@),
        ids_below(cands@, g.spec_count()),
    ensures
        out@ == spec_prune(dm, g, cands@, r as int),
        out@.len() <= r as int,
        forall|t1: int, t2: int| 0 <= t1 < t2 < out@.len() ==> out@[t1] != out@[t2],
        forall|t: int| 0 <= t < out@.len() ==> (#[trigger] out@[t]) < g.spec_count(),
        forall|t: int| 0 <= t < out@.len() ==> contains_id(cands@, #[trigger] out@[t]),
{
    let mut out: Vec<u32> = Vec::new();
    let mut i: usize = 0;
    proof {
        assert(cands@.skip(0) =~= cands@);
    }
    while i < cands.len() && out.len() < r
        invariant
            i <= cands@.len(),
            out@.len() <= r as int,
            i < cands@.len() ==> out@.len() <= i,
            g.wf_core(),
            sorted_by_key(cands@),
            distinct_ids(cands@),
            ids_below(cands@, g.spec_count()),
            forall|t: int| 0 <= t < out@.len() ==> (#[trigger] out@[t]) < g.spec_count(),
            spec_prune_loop(dm, g, cands@.skip(i as int), out@, r as int) == spec_prune(
                dm,
                g,
                cands@,
                r as int,
            ),
        decreases cands@.len() - i,
    {
        let c = cands[i];
        let occ = dm.occlusion(c.key);
        let crow = g.row(c.id as usize);
        let mut adm = true;
        let mut t: usize = 0;
        while t < out.len()
            invariant
                t <= out@.len(),
                g.wf_core(),
                c.id < g.spec_count(),
                crow@ == g.row_spec(c.id as int),
                occ == dm.occlusion_spec(c.key),
                forall|t2: int| 0 <= t2 < out@.len() ==> (#[trigger] out@[t2]) < g.spec_count(),
                adm <==> (forall|t2: int|
                    0 <= t2 < t ==> dm.occlusion_spec(c.key) <= dm.distance_spec(
                        g.metric,
                        g.row_spec(c.id as int),
                        g.row_spec((#[trigger] out@[t2]) as int),
                    )),
            decreases out@.len() - t,
        {
            let orow = g.row(out[t] as usize);
            let d = dm.distance(g.metric, crow.as_slice(), orow.as_slice());
            if occ > d {
                adm = false;
            }
            t = t + 1;
        }
        let ghost oldout = out@;
        if adm {
            out.push(c.id);
        }
        proof {
            let sk = cands@.skip(i as int);
            assert(sk[0] == cands@[i as int]);
            assert(sk.drop_first() =~= cands@.skip(i + 1));
            assert(adm == prune_admits(dm, g, c, oldout));
        }
        i = i + 1;
    }
    proof {
        if i < cands@.len() {
            assert(out@.len() >= r as int);
            assert(spec_prune_loop(dm, g, cands@.skip(i as int), out@, r as int) == out@);
        } else {
            assert(cands@.skip(i as int).len() == 0);
        }
        lemma_prune_props(dm, g, cands@, Seq::empty(), r as int);
        assert(spec_prune(dm, g, cands@, r as int) == out@);
    }
    out
}


/// Whether the list holds the value.
pub fn contains_u32(v: &Vec<u32>, x: u32) -> (r: bool)
    ensures
        r <==> seq_has_u32(v@, x),
{
    let mut j: usize = 0;
    while j < v.len()
        invariant
            j <= v@.len(),
            forall|t: int| 0 <= t < j ==> v@[t] != x,
        decreases v@.len() - j,
    {
        if v[j] == x {
            return true;
        }
        j = j + 1;
    }
    false
}

/// Ranks the given distinct present ids by their key as seen from
/// `from_row`, ascending.
pub fn rank_candidates<K: DistanceModel>(
    g: &Graph,
    dm: &K,
    from_row: &Vec<u32>,
    ids: &Vec<u32>,
) -> (out: Vec<Candidate>)
    requires
        g.wf_core(),
        forall|j1: int, j2: int| 0 <= j1 < j2 < ids@.len() ==> ids@[j1] != ids@[j2],
        forall|j: int| 0 <= j < ids@.len() ==> (#[trigger] ids@[j]) < g.spec_count(),
    ensures
        sorted_by_key(out@),
        distinct_ids(out@),
        ids_below(out@, g.spec_count()),
        keyed_from(out@, dm, g.metric, from_row@, g),
        out@.len() == ids@.len(),
        forall|t: int| 0 <= t < out@.len() ==> seq_has_u32(ids@, (#[trigger] out@[t]).id),
{
    let mut out: Vec<Candidate> = Vec::new();
    let mut i: usize = 0;
    while i < ids.len()
        invariant
            i <= ids@.len(),
            g.wf_core(),
            forall|j1: int, j2: int| 0 <= j1 < j2 < ids@.len() ==> ids@[j1] != ids@[j2],
            forall|j: int| 0 <= j < ids@.len() ==> (#[trigger] ids@[j]) < g.spec_count(),
            sorted_by_key(out@),
            distinct_ids(out@),
            ids_below(out@, g.spec_count()),
            keyed_from(out@, dm, g.metric, from_row@, g),
            out@.len() == i,
            forall|t: int|
                0 <= t < out@.len() ==> exists|j: int|
                    0 <= j < i && ids@[j] == (#[trigger] out@[t]).id,
        decreases ids@.len() - i,
    {
        let id = ids[i];
        let row = g.row(id as usize);
        let key = dm.distance(g.metric, from_row.as_slice(), row.as_slice());
        let c = Candidate { key, id };
        proof {
            assert(!contains_id(out@, c.id)) by {
                if contains_id(out@, c.id) {
                    let t = choose|t: int| 0 <= t < out@.len() && out@[t].id == c.id;
                    let j = choose|j: int| 0 <= j < i && ids@[j] == out@[t].id;
                    assert(ids@[j] != ids@[i as int]);
                }
            }
        }
        let ghost oldout = out@;
        let p = insert_sorted(&mut out, c);
        proof {
            lemma_pool_insert(oldout, p as int, c, dm, g, from_row@);
            assert forall|t: int| 0 <= t < out@.len() implies exists|j: int|
                0 <= j < i + 1 && ids@[j] == (#[trigger] out@[t]).id by {
                if out@[t].id == c.id {
                    assert(ids@[i as int] == out@[t].id);
                } else {
                    assert(contains_id(oldout, out@[t].id));
                    let t2 = choose|t2: int|
                        0 <= t2 < oldout.len() && oldout[t2].id == out@[t].id;
                    let j = choose|j: int| 0 <= j < i && ids@[j] == oldout[t2].id;
                    assert(0 <= j < i + 1 && ids@[j] == out@[t].id);
                }
            }
        }
        i = i + 1;
    }
    proof {
        assert forall|t: int| 0 <= t < out@.len() implies seq_has_u32(
            ids@,
            (#[trigger] out@[t]).id,
        ) by {
            let j = choose|j: int| 0 <= j < i && ids@[j] == out@[t].id;
            assert(ids@[j] == out@[t].id);
        }
    }
    out
}


/// Assembles the insert-wiring claim from the facts the insert loop
/// collects: the pruned pool behind the new list, the untouched
/// frame, and per-neighbour back-edge facts stated over a reference
/// graph `gref` that shares the final graph's rows.
pub proof fn lemma_insert_wired_intro<K: DistanceModel>(
    dm: &K,
    gold: Graph,
    gnew: Graph,
    gref: Graph,
    v: Seq<u32>,
    pool: Seq<Candidate>,
)
    requires
        pool_wf(pool, dm, &gold, v),
        pool.len() >= 1,
        gnew.adjacency@[gold.spec_count()]@ == spec_prune(dm, &gold, pool, gold.max_degree as int),
        gref.dim == gnew.dim,
        gref.metric == gnew.metric,
        gref.vectors@ == gnew.vectors@,
        gref.max_degree == gnew.max_degree,
        forall|i: int|
            0 <= i < gold.spec_count() && !seq_has_u32(gnew.adjacency@[gold.spec_count()]@, i as u32)
                ==> (#[trigger] gnew.adjacency@[i])@ == gold.adjacency@[i]@,
        forall|t: int|
            0 <= t < gnew.adjacency@[gold.spec_count()]@.len() ==> backedge_ok(
                dm,
                &gref,
                #[trigger] gnew.adjacency@[gold.spec_count()]@[t],
                gold.adjacency@[gnew.adjacency@[gold.spec_count()]@[t] as int]@,
                gnew.adjacency@[gnew.adjacency@[gold.spec_count()]@[t] as int]@,
                gold.spec_count() as u32,
            ),
    ensures
        insert_wired(dm, gold, gnew, v),
{
    let label = gold.spec_count();
    let newlist = gnew.adjacency@[label]@;
    assert(pool_wf(pool, dm, &gold, v));
    if gold.max_degree >= 1 {
        lemma_prune_nonempty(dm, &gold, pool, gold.max_degree as int);
    }
    lemma_rows_agree(&gref, &gnew);
    assert forall|t: int| 0 <= t < newlist.len() implies backedge_ok(
        dm,
        &gnew,
        #[trigger] newlist[t],
        gold.adjacency@[newlist[t] as int]@,
        gnew.adjacency@[newlist[t] as int]@,
        label as u32,
    ) by {
        let m = newlist[t];
        let oldl = gold.adjacency@[m as int]@;
        let newm = gnew.adjacency@[m as int]@;
        assert(backedge_ok(dm, &gref, m, oldl, newm, label as u32));
        if newm == oldl.push(label as u32) {
        } else {
            let cands = choose|cands: Seq<Candidate>|
                #[trigger] ranked_of(cands, dm, &gref, m, oldl.push(label as u32)) && newm
                    == spec_prune(dm, &gref, cands, gref.max_degree as int);
            assert(ranked_of(cands, dm, &gnew, m, oldl.push(label as u32))) by {
                assert forall|t2: int| 0 <= t2 < cands.len() implies (#[trigger] cands[t2]).key
                    == dm.distance_spec(
                    gnew.metric,
                    gnew.row_spec(m as int),
                    gnew.row_spec(cands[t2].id as int),
                ) by {
                    assert(cands[t2].key == dm.distance_spec(
                        gref.metric,
                        gref.row_spec(m as int),
                        gref.row_spec(cands[t2].id as int),
                    ));
                }
            }
            lemma_prune_same_rows(dm, &gref, &gnew, cands, Seq::empty(), gnew.max_degree as int);
        }
    }
}

/// The insert protocol: the new node takes the next id; the first node
/// becomes the entry point, any later node is wired in by greedy
/// search, robust pruning, and back-edge maintenance with re-pruning
/// wherever a neighbour's list would exceed the degree bound.
pub fn graph_insert<K: DistanceModel>(g: &mut Graph, dm: &K, v: &Vec<u32>, l_build: usize)
    requires
        old(g).wf(),
        v@.len() == old(g).dim,
        old(g).spec_count() < u32::MAX as int,
        old(g).vectors@.len() + old(g).dim <= usize::MAX as int,
    ensures
        final(g).wf(),
        final(g).spec_count() == old(g).spec_count() + 1,
        final(g).dim == old(g).dim,
        final(g).metric == old(g).metric,
        final(g).max_degree == old(g).max_degree,
        final(g).vectors@ == old(g).vectors@ + v@,
        final(g).row_spec(old(g).spec_count()) == v@,
        forall|i: int|
            0 <= i < old(g).spec_count() ==> final(g).row_spec(i) == old(g).row_spec(i),
        old(g).spec_count() == 0 ==> final(g).entry_points@ =~= seq![0u32],
        old(g).spec_count() > 0 ==> final(g).entry_points@ == old(g).entry_points@,
        old(g).spec_count() > 0 ==> insert_wired(dm, *old(g), *final(g), v@),
{
    let count = g.count();
    let label: u32 = count as u32;
    if count == 0 {
        proof {
            assert(old(g).entry_points@.len() == 0) by {
                if old(g).entry_points@.len() > 0 {
                    assert(old(g).entry_points@[0] < old(g).spec_count());
                }
            }
        }
        g.push_node(v, Vec::new());
        proof {
            assert(g.entry_points@ =~= Seq::<u32>::empty());
        }
        g.add_entry_point(0);
        return ;
    }
    // Greedy search with the build beam width, capped by the node
    // count: the pool can never hold more nodes than exist.
    let mut l_eff: usize = if l_build >= 1 {
        l_build
    } else {
        1
    };
    if l_eff > count {
        l_eff = count;
    }
    let pool = greedy_search_core(g, dm, v, l_eff);
    let nbrs_vec = robust_prune(g, dm, &pool, g.max_degree);
    proof {
        assert(g.valid_neighbors(g.spec_count(), nbrs_vec@)) by {
            assert forall|j: int| 0 <= j < nbrs_vec@.len() implies (#[trigger] nbrs_vec@[j])
                < g.spec_count() && nbrs_vec@[j] != g.spec_count() by {
                assert(nbrs_vec@[j] < g.spec_count());
            }
        }
    }
    let ghost gsnap = *g;
    let ghost gpool = pool@;
    let ghost nlist = nbrs_vec@;
    g.push_node(v, nbrs_vec);
    let ghost gpost = *g;
    let ghost vsnap = g.vectors@;
    let ghost esnap = g.entry_points@;
    let ghost newcount = g.spec_count();
    let nbrs = g.neighbors(label as usize);
    let mut b: usize = 0;
    while b < nbrs.len()
        invariant
            b <= nbrs@.len(),
            g.wf(),
            gsnap.wf(),
            g.spec_count() == newcount,
            newcount == gsnap.spec_count() + 1,
            label < newcount,
            label == gsnap.spec_count(),
            g.dim == gsnap.dim,
            g.metric == gsnap.metric,
            g.max_degree == gsnap.max_degree,
            g.vectors@ == vsnap,
            g.entry_points@ == esnap,
            gpost.dim == gsnap.dim,
            gpost.metric == gsnap.metric,
            gpost.max_degree == gsnap.max_degree,
            gpost.vectors@ == vsnap,
            gpost.spec_count() == newcount,
            nbrs@ == nlist,
            g.adjacency@[label as int]@ == nlist,
            forall|j: int| 0 <= j < nbrs@.len() ==> (#[trigger] nbrs@[j]) < label,
            forall|j1: int, j2: int| 0 <= j1 < j2 < nbrs@.len() ==> nbrs@[j1] != nbrs@[j2],
            forall|i: int|
                0 <= i < label && !seq_has_u32(nlist.take(b as int), i as u32) ==> (
                #[trigger] g.adjacency@[i])@ == gsnap.adjacency@[i]@,
            forall|t: int|
                0 <= t < b ==> backedge_ok(
                    dm,
                    &gpost,
                    #[trigger] nlist[t],
                    gsnap.adjacency@[nlist[t] as int]@,
                    g.adjacency@[nlist[t] as int]@,
                    label,
                ),
        decreases nbrs@.len() - b,
    {
        let m = nbrs[b];
        proof {
            // This neighbour has not been processed yet, so its list
            // is still the one the old graph had.
            assert(!seq_has_u32(nlist.take(b as int), m)) by {
                if seq_has_u32(nlist.take(b as int), m) {
                    let j = choose|j: int|
                        0 <= j < nlist.take(b as int).len() && nlist.take(b as int)[j] == m;
                    assert(nlist[j] == nlist[b as int]);
                }
            }
            assert(g.adjacency@[m as int]@ == gsnap.adjacency@[m as int]@);
            assert(gsnap.valid_neighbors(m as int, gsnap.adjacency@[m as int]@));
        }
        let ghost oldm = gsnap.adjacency@[m as int]@;
        let mut lst = g.neighbors(m as usize);
        if !contains_u32(&lst, label) {
            lst.push(label);
        }
        proof {
            // The old list only holds ids below the new label, so the
            // label was appended.
            assert(!seq_has_u32(oldm, label)) by {
                if seq_has_u32(oldm, label) {
                    let j = choose|j: int| 0 <= j < oldm.len() && oldm[j] == label;
                    assert(oldm[j] < gsnap.spec_count());
                }
            }
            assert(lst@ == oldm.push(label));
        }
        let ghost mlist = lst@;
        proof {
            assert forall|j1: int, j2: int| 0 <= j1 < j2 < mlist.len() implies mlist[j1]
                != mlist[j2] by {
                if j2 == mlist.len() - 1 && mlist[j2] == label {
                }
            }
            assert(forall|j: int| 0 <= j < mlist.len() ==> (#[trigger] mlist[j]) < newcount);
        }
        let ghost gpre = *g;
        if lst.len() > g.max_degree {
            let mrow = g.row(m as usize);
            let cands = rank_candidates(g, dm, &mrow, &lst);
            let ghost gcur = *g;
            let pruned = robust_prune(g, dm, &cands, g.max_degree);
            proof {
                assert(g.valid_neighbors(m as int, pruned@)) by {
                    assert forall|t: int| 0 <= t < pruned@.len() implies (#[trigger] pruned@[t])
                        < g.spec_count() && pruned@[t] != m by {
                        assert(contains_id(cands@, pruned@[t]));
                        let ci = choose|ci: int|
                            0 <= ci < cands@.len() && cands@[ci].id == pruned@[t];
                        assert(seq_has_u32(mlist, cands@[ci].id));
                        let j = choose|j: int|
                            0 <= j < mlist.len() && mlist[j] == cands@[ci].id;
                        assert(mlist[j] != m);
                    }
                }
            }
            g.set_neighbors(m as usize, pruned);
            proof {
                // The new list of m is the re-prune of its old list
                // plus the label, ranked from m — stated over the
                // post-insert reference graph, whose rows agree.
                lemma_rows_agree(&gcur, &gpost);
                assert(ranked_of(cands@, dm, &gpost, m, oldm.push(label))) by {
                    assert forall|t2: int| 0 <= t2 < cands@.len() implies (
                    #[trigger] cands@[t2]).key == dm.distance_spec(
                        gpost.metric,
                        gpost.row_spec(m as int),
                        gpost.row_spec(cands@[t2].id as int),
                    ) by {
                        assert(cands@[t2].key == dm.distance_spec(
                            gcur.metric,
                            gcur.row_spec(m as int),
                            gcur.row_spec(cands@[t2].id as int),
                        ));
                        assert(mrow@ == gcur.row_spec(m as int));
                    }
                }
                lemma_prune_same_rows(
                    dm,
                    &gcur,
                    &gpost,
                    cands@,
                    Seq::<u32>::empty(),
                    gpost.max_degree as int,
                );
                assert(g.adjacency@[m as int]@ == spec_prune(
                    dm,
                    &gpost,
                    cands@,
                    gpost.max_degree as int,
                ));
                assert(backedge_ok(dm, &gpost, m, oldm, g.adjacency@[m as int]@, label));
            }
        } else {
            proof {
                assert(g.valid_neighbors(m as int, mlist)) by {
                    assert forall|j: int| 0 <= j < mlist.len() implies (#[trigger] mlist[j])
                        < g.spec_count() && mlist[j] != m by {
                        if j < mlist.len() - 1 || mlist[j] != label {
                            assert(g.valid_neighbors(m as int, g.adjacency@[m as int]@));
                        }
                    }
                }
            }
            g.set_neighbors(m as usize, lst);
            proof {
                assert(g.adjacency@[m as int]@ == oldm.push(label));
                assert(backedge_ok(dm, &gpost, m, oldm, g.adjacency@[m as int]@, label));
            }
        }
        proof {
            // The label's own list and every other list are untouched
            // by this step; earlier back-edge facts persist.
            assert(g.adjacency@[label as int]@ == nlist);
            assert forall|i: int|
                0 <= i < label && !seq_has_u32(nlist.take(b + 1), i as u32) implies (
            #[trigger] g.adjacency@[i])@ == gsnap.adjacency@[i]@ by {
                assert(!seq_has_u32(nlist.take(b as int), i as u32)) by {
                    if seq_has_u32(nlist.take(b as int), i as u32) {
                        let j = choose|j: int|
                            0 <= j < nlist.take(b as int).len() && nlist.take(b as int)[j] == (
                            i as u32);
                        assert(nlist.take(b + 1)[j] == (i as u32));
                    }
                }
                assert(i != m) by {
                    assert(nlist.take(b + 1)[b as int] == m);
                }
                assert(gpre.adjacency@[i]@ == gsnap.adjacency@[i]@);
            }
            assert forall|t: int| 0 <= t < b + 1 implies backedge_ok(
                dm,
                &gpost,
                #[trigger] nlist[t],
                gsnap.adjacency@[nlist[t] as int]@,
                g.adjacency@[nlist[t] as int]@,
                label,
            ) by {
                if t < b {
                    assert(nlist[t] != m);
                    assert(g.adjacency@[nlist[t] as int]@ == gpre.adjacency@[nlist[t] as int]@);
                    assert(backedge_ok(
                        dm,
                        &gpost,
                        nlist[t],
                        gsnap.adjacency@[nlist[t] as int]@,
                        gpre.adjacency@[nlist[t] as int]@,
                        label,
                    ));
                }
            }
        }
        b = b + 1;
    }
    proof {
        assert(gsnap == *old(g));
        assert(nlist.take(nlist.len() as int) =~= nlist);
        lemma_insert_wired_intro(dm, gsnap, *g, gpost, v@, gpool);
    }
}

/// Search: at most `min(k, count)` results as `(label, key)` pairs,
/// keys ascending, labels distinct and present, every key the
/// strategy's key of that node from the query.  An empty index or
/// `k == 0` yields nothing; a single-node index yields exactly that
/// node and its key without touching the graph.
pub fn graph_search<K: DistanceModel>(
    g: &Graph,
    dm: &K,
    q: &Vec<u32>,
    k: usize,
    l_base: usize,
) -> (r: Vec<(u64, u64)>)
    requires
        g.wf(),
        q@.len() == g.dim,
    ensures
        g.spec_count() == 0 ==> r@.len() == 0,
        k == 0 ==> r@.len() == 0,
        r@.len() <= k as int,
        r@.len() <= g.spec_count(),
        k > 0 && g.spec_count() > 0 ==> r@.len() >= 1,
        forall|i: int, j: int| 0 <= i < j < r@.len() ==> r@[i].1 <= r@[j].1,
        forall|i: int, j: int| 0 <= i < j < r@.len() ==> r@[i].0 != r@[j].0,
        forall|i: int| 0 <= i < r@.len() ==> (#[trigger] r@[i]).0 < g.spec_count(),
        forall|i: int|
            0 <= i < r@.len() ==> (#[trigger] r@[i]).1 == dm.distance_spec(
                g.metric,
                q@,
                g.row_spec(r@[i].0 as int),
            ),
        forall|i: int| 0 <= i < r@.len() ==> reachable(g, (#[trigger] r@[i]).0 as u32),
        g.spec_count() == 1 && k > 0 ==> r@ =~= seq![
            (0u64, dm.distance_spec(g.metric, q@, g.row_spec(0))),
        ],
        (forall|id: u32| (id as int) < g.spec_count() ==> reachable(g, id)) ==> r@.len() == (
        if k as int <= g.spec_count() {
            k as int
        } else {
            g.spec_count()
        }),
{
    let count = g.count();
    if count == 0 || k == 0 {
        let r: Vec<(u64, u64)> = Vec::new();
        return r;
    }
    if count == 1 {
        let row = g.row(0);
        let d = dm.distance(g.metric, q.as_slice(), row.as_slice());
        let mut r: Vec<(u64, u64)> = Vec::new();
        r.push((0u64, d));
        proof {
            assert(g.entry_points@[0] == 0u32);
            lemma_entry_point_reachable(g, 0);
        }
        return r;
    }
    let mut l: usize = if l_base > k {
        l_base
    } else {
        k
    };
    if l > count {
        l = count;
    }
    let pool = greedy_search_core(g, dm, q, l);
    let take: usize = if k < pool.len() {
        k
    } else {
        pool.len()
    };
    let mut r: Vec<(u64, u64)> = Vec::new();
    let mut i: usize = 0;
    while i < take
        invariant
            i <= take,
            take <= pool@.len(),
            r@.len() == i,
            pool_wf(pool@, dm, g, q@),
            pool_reachable(pool@, g),
            q@.len() == g.dim,
            forall|t: int|
                0 <= t < i ==> (#[trigger] r@[t]) == (
                    pool@[t].id as u64,
                    pool@[t].key,
                ),
        decreases take - i,
    {
        let c = pool[i];
        r.push((c.id as u64, c.key));
        i = i + 1;
    }
    proof {
        lemma_distinct_ids_bound(pool@, g.spec_count());
        if forall|id: u32| (id as int) < g.spec_count() ==> reachable(g, id) {
            if pool@.len() < l as int {
                // The beam never filled, so the pool swallowed every
                // reachable node: all of them.
                assert forall|id: u32| (id as int) < g.spec_count() implies contains_id(
                    pool@,
                    id,
                ) by {
                    assert(reachable(g, id));
                }
                lemma_full_pool_len(pool@, g.spec_count());
            }
            // Either way the pool holds min(l, count) nodes, and l is
            // at least min(k, count), so min(k, pool) == min(k, count).
            assert(r@.len() == (if k as int <= g.spec_count() {
                k as int
            } else {
                g.spec_count()
            }));
        }
    }
    r
}

} // verus!
