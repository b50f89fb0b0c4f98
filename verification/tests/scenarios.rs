//! Concrete search scenarios under a float-valued distance strategy.

use vamana::engine::graph_search;
use vamana::index::InMemoryIndex;
use vamana::metric::Metric;
use vamana::model::DistanceModel;

/// Order-preserving key of an f32: flips the sign bit of positives and
/// all bits of negatives, so unsigned key order is float order.
fn enc_f32(x: f32) -> u64 {
    let b = x.to_bits();
    let k = if b & 0x8000_0000 != 0 { !b } else { b | 0x8000_0000 };
    k as u64
}

fn dec_f32(k: u64) -> f32 {
    let b = k as u32;
    let raw = if b & 0x8000_0000 != 0 { b & 0x7FFF_FFFF } else { !b };
    f32::from_bits(raw)
}

/// The strategy the embedding uses: squared Euclidean distance, or
/// negated inner product, over rows read as f32 words; alpha scales a
/// key through its float value.
struct FloatStrategy {
    alpha: f32,
}

impl DistanceModel for FloatStrategy {
    fn distance(&self, m: Metric, a: &[u32], b: &[u32]) -> u64 {
        let n = a.len().min(b.len());
        let mut acc: f32 = 0.0;
        match m {
            Metric::L2 => {
                for i in 0..n {
                    let x = f32::from_bits(a[i]);
                    let y = f32::from_bits(b[i]);
                    acc += (x - y) * (x - y);
                }
                enc_f32(acc)
            }
            Metric::InnerProduct => {
                for i in 0..n {
                    let x = f32::from_bits(a[i]);
                    let y = f32::from_bits(b[i]);
                    acc += x * y;
                }
                enc_f32(-acc)
            }
        }
    }

    fn occlusion(&self, d: u64) -> u64 {
        enc_f32(dec_f32(d) * self.alpha)
    }
}

fn row_bits(v: &[f32]) -> Vec<u32> {
    let mut out = Vec::new();
    for x in v {
        out.push(x.to_bits());
    }
    out
}

#[test]
fn round_trip_identity_search() {
    let dm = FloatStrategy { alpha: 1.2 };
    let mut idx =
        InMemoryIndex::new_detached(4, Metric::L2, 16, 50, 1.2f32.to_bits()).unwrap();
    assert_eq!(idx.add(&dm, &row_bits(&[1.0, 0.0, 0.0, 0.0])).unwrap(), 0);
    assert_eq!(idx.add(&dm, &row_bits(&[0.0, 1.0, 0.0, 0.0])).unwrap(), 1);
    assert_eq!(idx.add(&dm, &row_bits(&[0.0, 0.0, 1.0, 0.0])).unwrap(), 2);
    assert_eq!(idx.add(&dm, &row_bits(&[0.0, 0.0, 0.0, 1.0])).unwrap(), 3);
    let r = idx
        .search(&dm, &row_bits(&[1.0, 0.0, 0.0, 0.0]), 2, 0)
        .unwrap();
    assert_eq!(r.len(), 2);
    assert_eq!(r[0].0, 0);
    assert_eq!(dec_f32(r[0].1), 0.0);
    assert!(r[1].0 == 1 || r[1].0 == 2 || r[1].0 == 3);
    assert_eq!(dec_f32(r[1].1), 2.0);
}

#[test]
fn inner_product_sign() {
    let dm = FloatStrategy { alpha: 1.2 };
    let mut idx =
        InMemoryIndex::new_detached(2, Metric::InnerProduct, 16, 50, 1.2f32.to_bits())
            .unwrap();
    assert_eq!(idx.add(&dm, &row_bits(&[2.0, 0.0])).unwrap(), 0);
    assert_eq!(idx.add(&dm, &row_bits(&[1.0, 0.0])).unwrap(), 1);
    assert_eq!(idx.add(&dm, &row_bits(&[-1.0, 0.0])).unwrap(), 2);
    let r = idx.search(&dm, &row_bits(&[1.0, 0.0]), 3, 0).unwrap();
    assert_eq!(r.len(), 3);
    assert_eq!(r[0].0, 0);
    assert_eq!(r[1].0, 1);
    assert_eq!(r[2].0, 2);
    // Surfaced distances are true inner products: the internal keys
    // rank by the negation, decoding flips the sign back.
    assert_eq!(-dec_f32(r[0].1), 2.0);
    assert_eq!(-dec_f32(r[1].1), 1.0);
    assert_eq!(-dec_f32(r[2].1), -1.0);
}

#[test]
fn single_node_exact_distance() {
    let dm = FloatStrategy { alpha: 1.0 };
    let mut idx =
        InMemoryIndex::new_detached(3, Metric::L2, 8, 10, 1.0f32.to_bits()).unwrap();
    idx.add(&dm, &row_bits(&[1.0, 2.0, 3.0])).unwrap();
    let r = idx.search(&dm, &row_bits(&[1.0, 2.0, 2.0]), 5, 0).unwrap();
    assert_eq!(r.len(), 1);
    assert_eq!(r[0].0, 0);
    assert_eq!(dec_f32(r[0].1), 1.0);
}

#[test]
fn search_direct_on_graph_matches_index_search() {
    let dm = FloatStrategy { alpha: 1.1 };
    let mut idx =
        InMemoryIndex::new_detached(2, Metric::L2, 8, 20, 1.1f32.to_bits()).unwrap();
    for i in 0..10 {
        idx.add(&dm, &row_bits(&[i as f32, (10 - i) as f32])).unwrap();
    }
    let q = row_bits(&[3.2, 6.9]);
    let a = idx.search(&dm, &q, 4, 0).unwrap();
    let b = graph_search(&idx.graph, &dm, &q, 4, 20);
    assert_eq!(a, b);
}

#[test]
fn search_results_sorted_and_distinct() {
    let dm = FloatStrategy { alpha: 1.2 };
    let mut idx =
        InMemoryIndex::new_detached(2, Metric::L2, 4, 8, 1.2f32.to_bits()).unwrap();
    for i in 0..30 {
        let x = ((i * 37) % 17) as f32;
        let y = ((i * 53) % 23) as f32;
        idx.add(&dm, &row_bits(&[x, y])).unwrap();
    }
    let r = idx.search(&dm, &row_bits(&[5.0, 5.0]), 10, 0).unwrap();
    assert!(r.len() <= 10);
    assert!(!r.is_empty());
    for w in r.windows(2) {
        assert!(w[0].1 <= w[1].1);
    }
    for i in 0..r.len() {
        for j in (i + 1)..r.len() {
            assert_ne!(r[i].0, r[j].0);
        }
    }
}
