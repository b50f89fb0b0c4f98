//! Boundary behaviour and the engine laws, under the built-in
//! integer strategy.

use vamana::errors::IndexError;
use vamana::index::InMemoryIndex;
use vamana::metric::Metric;
use vamana::model::FullPrecisionStrategy;

fn mk(dim: usize, r: u32, l: u32) -> InMemoryIndex {
    InMemoryIndex::new_detached(dim, Metric::L2, r, l, 0).unwrap()
}

#[test]
fn k_zero_returns_empty() {
    let dm = FullPrecisionStrategy::new();
    let mut idx = mk(2, 4, 8);
    idx.add(&dm, &vec![1, 2]).unwrap();
    idx.add(&dm, &vec![3, 4]).unwrap();
    let r = idx.search(&dm, &vec![1, 2], 0, 0).unwrap();
    assert!(r.is_empty());
    // k = 0 on a single-node index returns nothing either.
    let mut one = mk(2, 4, 8);
    one.add(&dm, &vec![9, 9]).unwrap();
    assert!(one.search(&dm, &vec![9, 9], 0, 0).unwrap().is_empty());
}

#[test]
fn k_beyond_count_returns_count() {
    let dm = FullPrecisionStrategy::new();
    let mut idx = mk(2, 4, 8);
    idx.add(&dm, &vec![0, 0]).unwrap();
    idx.add(&dm, &vec![1, 0]).unwrap();
    idx.add(&dm, &vec![0, 1]).unwrap();
    let r = idx.search(&dm, &vec![0, 0], 10, 0).unwrap();
    assert_eq!(r.len(), 3);
}

#[test]
fn empty_index_search_returns_empty() {
    let dm = FullPrecisionStrategy::new();
    let idx = mk(3, 4, 8);
    let r = idx.search(&dm, &vec![1, 2, 3], 5, 0).unwrap();
    assert!(r.is_empty());
}

#[test]
fn wrong_dimension_insert_refused_without_state_change() {
    let dm = FullPrecisionStrategy::new();
    let mut idx = mk(3, 4, 8);
    idx.add(&dm, &vec![1, 2, 3]).unwrap();
    let before = idx.len();
    assert_eq!(idx.add(&dm, &vec![1, 2]), Err(IndexError::InvalidArgument));
    assert_eq!(idx.add(&dm, &vec![1, 2, 3, 4]), Err(IndexError::InvalidArgument));
    assert_eq!(idx.len(), before);
    assert_eq!(idx.next_label(), 1);
}

#[test]
fn wrong_dimension_search_refused() {
    let dm = FullPrecisionStrategy::new();
    let mut idx = mk(3, 4, 8);
    idx.add(&dm, &vec![1, 2, 3]).unwrap();
    assert_eq!(
        idx.search(&dm, &vec![1, 2], 1, 0),
        Err(IndexError::InvalidArgument)
    );
}

#[test]
fn labels_dense_and_monotonic() {
    let dm = FullPrecisionStrategy::new();
    let mut idx = mk(2, 4, 8);
    for k in 0..25u32 {
        assert_eq!(idx.next_label(), k);
        let label = idx.add(&dm, &vec![k, k * 7 % 11]).unwrap();
        assert_eq!(label, k);
        assert_eq!(idx.len(), (k + 1) as usize);
    }
}

#[test]
fn degree_bound_holds_after_many_inserts() {
    let dm = FullPrecisionStrategy::new();
    let r = 3u32;
    let mut idx = mk(2, r, 8);
    for k in 0..40u32 {
        idx.add(&dm, &vec![(k * 29) % 31, (k * 17) % 13]).unwrap();
    }
    let adj = idx.get_all_adjacency(idx.len(), r as usize);
    assert_eq!(adj.len(), 40);
    for (i, row) in adj.iter().enumerate() {
        assert!(row.len() <= r as usize);
        for &t in row {
            assert!((t as usize) < idx.len());
            assert_ne!(t as usize, i);
        }
        for a in 0..row.len() {
            for b in (a + 1)..row.len() {
                assert_ne!(row[a], row[b]);
            }
        }
    }
}

#[test]
fn first_insert_sets_entry_point() {
    let dm = FullPrecisionStrategy::new();
    let mut idx = mk(2, 4, 8);
    assert!(idx.get_entry_points().is_empty());
    idx.add(&dm, &vec![5, 6]).unwrap();
    assert_eq!(idx.get_entry_points(), vec![0]);
    idx.add(&dm, &vec![7, 8]).unwrap();
    assert_eq!(idx.get_entry_points(), vec![0]);
}

#[test]
fn get_vector_round_trips() {
    let dm = FullPrecisionStrategy::new();
    let mut idx = mk(3, 4, 8);
    idx.add(&dm, &vec![10, 20, 30]).unwrap();
    idx.add(&dm, &vec![40, 50, 60]).unwrap();
    assert_eq!(idx.get_vector(0).unwrap(), vec![10, 20, 30]);
    assert_eq!(idx.get_vector(1).unwrap(), vec![40, 50, 60]);
    assert!(idx.get_vector(2).is_none());
}

#[test]
fn zero_dimension_refused() {
    assert!(matches!(
        InMemoryIndex::new_detached(0, Metric::L2, 4, 8, 0),
        Err(IndexError::InvalidArgument)
    ));
}

#[test]
fn explicit_search_complexity_widens_beam() {
    let dm = FullPrecisionStrategy::new();
    let mut idx = mk(2, 4, 2);
    for k in 0..12u32 {
        idx.add(&dm, &vec![(k * 13) % 19, (k * 7) % 23]).unwrap();
    }
    // With a wide explicit beam, at least as many of the closest
    // nodes are found as with the narrow build-time default.
    let narrow = idx.search(&dm, &vec![3, 3], 6, 0).unwrap();
    let wide = idx.search(&dm, &vec![3, 3], 6, 12).unwrap();
    assert!(wide.len() >= narrow.len());
    assert!(!wide.is_empty());
    for w in 0..wide.len() {
        for v in (w + 1)..wide.len() {
            assert!(wide[w].1 <= wide[v].1);
        }
    }
}
