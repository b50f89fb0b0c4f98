//! Unit checks: metrics, the integer strategy, the header layout
//! helpers, and the SQ8 store.

use vamana::codec::FileHeader;
use vamana::errors::IndexError;
use vamana::index::InMemoryIndex;
use vamana::metric::{metric_to_u8, Metric};
use vamana::model::{DistanceModel, FullPrecisionStrategy};
use vamana::quantize::SQ8Params;

#[test]
fn metric_parsing() {
    assert_eq!(Metric::parse("l2"), Ok(Metric::L2));
    assert_eq!(Metric::parse("ip"), Ok(Metric::InnerProduct));
    assert_eq!(Metric::parse("inner_product"), Ok(Metric::InnerProduct));
    assert_eq!(Metric::parse("cosine"), Err(IndexError::InvalidArgument));
    assert_eq!(Metric::parse(""), Err(IndexError::InvalidArgument));
    assert_eq!(metric_to_u8(Metric::L2), 0);
    assert_eq!(metric_to_u8(Metric::InnerProduct), 1);
    assert_eq!(Metric::L2.label(), "L2");
    assert_eq!(Metric::InnerProduct.label(), "IP");
}

#[test]
fn integer_strategy_distances() {
    let dm = FullPrecisionStrategy::new();
    let a: Vec<u32> = vec![0, 3];
    let b: Vec<u32> = vec![4, 0];
    assert_eq!(dm.distance(Metric::L2, &a, &b), 25);
    assert_eq!(dm.distance(Metric::L2, &a, &a), 0);
    let c: Vec<u32> = vec![2, 5];
    let d: Vec<u32> = vec![3, 7];
    // Inner product keys rank by the negated product: a larger
    // product gives a smaller key.
    assert_eq!(dm.distance(Metric::InnerProduct, &c, &d), u64::MAX - 41);
    assert!(
        dm.distance(Metric::InnerProduct, &c, &d)
            < dm.distance(Metric::InnerProduct, &c, &c)
    );
}

#[test]
fn integer_strategy_alpha_scaling() {
    let dm = FullPrecisionStrategy::with_alpha(3, 2);
    assert_eq!(dm.occlusion(10), 15);
    assert_eq!(dm.occlusion(0), 0);
    let one = FullPrecisionStrategy::new();
    assert_eq!(one.occlusion(12345), 12345);
    assert_eq!(one.occlusion(u64::MAX), u64::MAX);
}

#[test]
fn header_layout_helpers() {
    let h = FileHeader {
        num_vectors: 12,
        dimension: 3,
        max_degree: 4,
        num_entry_points: 2,
        metric: 1,
        build_complexity: 9,
    };
    assert_eq!(h.entry_points_offset(), 32);
    assert_eq!(h.entry_points_size(), 8);
    assert_eq!(h.vectors_offset(), 40);
    assert_eq!(h.vectors_size(), 144);
    assert_eq!(h.adjacency_offset(), 184);
    assert_eq!(h.adjacency_size(), 192);
    assert_eq!(h.total_file_size(), 376);
    assert_eq!(h.metric_enum(), Metric::InnerProduct);
    let l2 = FileHeader { metric: 0, ..h };
    assert_eq!(l2.metric_enum(), Metric::L2);
    let odd = FileHeader { metric: 7, ..h };
    assert_eq!(odd.metric_enum(), Metric::L2);
}

#[test]
fn sq8_store_lifecycle() {
    let dm = FullPrecisionStrategy::new();
    let mut idx = InMemoryIndex::new_detached(2, Metric::L2, 4, 8, 0).unwrap();
    idx.add(&dm, &vec![1, 2]).unwrap();
    idx.add(&dm, &vec![3, 4]).unwrap();
    assert!(!idx.is_quantized());
    assert!(idx.get_sq8_params().is_none());
    assert!(idx.get_quantized_data().is_none());
    // Wrong shapes are refused.
    let badp = SQ8Params { min_bits: vec![0], scale_bits: vec![0, 0] };
    assert_eq!(
        idx.load_sq8(vec![0, 0, 0, 0], badp),
        Err(IndexError::InvalidArgument)
    );
    let p = SQ8Params { min_bits: vec![7, 8], scale_bits: vec![9, 10] };
    assert_eq!(
        idx.load_sq8(vec![0, 0, 0, 0, 0], p),
        Err(IndexError::InvalidArgument)
    );
    // A whole-row prefix of codes installs.
    let p2 = SQ8Params { min_bits: vec![7, 8], scale_bits: vec![9, 10] };
    idx.load_sq8(vec![10, 20, 30, 40], p2).unwrap();
    assert!(idx.is_quantized());
    assert_eq!(idx.get_quantized_data().unwrap(), vec![10, 20, 30, 40]);
    let got = idx.get_sq8_params().unwrap();
    assert_eq!(got.min_bits, vec![7, 8]);
    assert_eq!(got.scale_bits, vec![9, 10]);
    // The full-precision store is untouched.
    assert_eq!(idx.get_vector(0).unwrap(), vec![1, 2]);
    // 4 words of full precision, 4 codes, 2 parameter pairs.
    assert_eq!(idx.vector_memory_bytes(), 4 * 4 + 4 + 2 * 8);
}

#[test]
fn error_kinds_are_distinct() {
    let all = [
        IndexError::InvalidArgument,
        IndexError::NotFound,
        IndexError::AlreadyExists,
        IndexError::ReadOnly,
        IndexError::MalformedInput,
        IndexError::Io,
        IndexError::EngineInternal,
    ];
    for i in 0..all.len() {
        for j in (i + 1)..all.len() {
            assert_ne!(all[i], all[j]);
        }
    }
}
