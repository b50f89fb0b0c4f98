//! The streaming builder: corpus handling, sample sizing, and recall
//! of the built file.

use vamana::errors::IndexError;
use vamana::metric::Metric;
use vamana::model::DistanceModel;
use vamana::registry::Registry;
use vamana::streaming;

fn stream_enc(x: f32) -> u64 {
    let b = x.to_bits();
    (if b & 0x8000_0000 != 0 { !b } else { b | 0x8000_0000 }) as u64
}

struct StreamStrategy {
    alpha: f32,
}

impl DistanceModel for StreamStrategy {
    fn distance(&self, _m: Metric, a: &[u32], b: &[u32]) -> u64 {
        let n = a.len().min(b.len());
        let mut acc: f32 = 0.0;
        for i in 0..n {
            let x = f32::from_bits(a[i]);
            let y = f32::from_bits(b[i]);
            acc += (x - y) * (x - y);
        }
        stream_enc(acc)
    }

    fn occlusion(&self, d: u64) -> u64 {
        let b = d as u32;
        let raw = if b & 0x8000_0000 != 0 {
            b & 0x7FFF_FFFF
        } else {
            !b
        };
        stream_enc(f32::from_bits(raw) * self.alpha)
    }
}

fn corpus_bytes(rows: &[Vec<f32>]) -> Vec<u8> {
    let n = rows.len() as u32;
    let d = rows[0].len() as u32;
    let mut out = Vec::new();
    out.extend_from_slice(&n.to_le_bytes());
    out.extend_from_slice(&d.to_le_bytes());
    for row in rows {
        for x in row {
            out.extend_from_slice(&x.to_le_bytes());
        }
    }
    out
}

#[test]
fn header_reading() {
    let short = vec![1u8, 2, 3];
    assert_eq!(
        streaming::read_vec_header(&short),
        Err(IndexError::MalformedInput)
    );
    let mut ok = Vec::new();
    ok.extend_from_slice(&7u32.to_le_bytes());
    ok.extend_from_slice(&3u32.to_le_bytes());
    assert_eq!(streaming::read_vec_header(&ok), Ok((7, 3)));
}

#[test]
fn sample_size_policy() {
    // A request is capped to the corpus.
    assert_eq!(streaming::derive_sample_n(10, 4), 4);
    assert_eq!(streaming::derive_sample_n(10, 400), 10);
    // Unrequested: sqrt clamped between 1000 and the corpus.
    assert_eq!(streaming::derive_sample_n(9, 0), 9);
    assert_eq!(streaming::derive_sample_n(5000, 0), 1000);
    assert_eq!(streaming::derive_sample_n(4_000_000, 0), 2000);
}

#[test]
fn empty_corpus_refused() {
    let dm = StreamStrategy { alpha: 1.2 };
    let mut zero = Vec::new();
    zero.extend_from_slice(&0u32.to_le_bytes());
    zero.extend_from_slice(&4u32.to_le_bytes());
    assert_eq!(
        streaming::streaming_build(&dm, &zero, Metric::L2, 8, 16, 0, 0)
            .err()
            .unwrap(),
        IndexError::InvalidArgument
    );
    let mut zd = Vec::new();
    zd.extend_from_slice(&4u32.to_le_bytes());
    zd.extend_from_slice(&0u32.to_le_bytes());
    assert_eq!(
        streaming::streaming_build(&dm, &zd, Metric::L2, 8, 16, 0, 0)
            .err()
            .unwrap(),
        IndexError::InvalidArgument
    );
    // A corpus shorter than it declares is malformed.
    let rows = vec![vec![1.0f32, 2.0], vec![3.0, 4.0]];
    let mut bytes = corpus_bytes(&rows);
    bytes.truncate(bytes.len() - 3);
    assert_eq!(
        streaming::streaming_build(&dm, &bytes, Metric::L2, 8, 16, 0, 0)
            .err()
            .unwrap(),
        IndexError::MalformedInput
    );
}

#[test]
fn streaming_build_recall() {
    let dm = StreamStrategy { alpha: 1.2 };
    let n = 1200usize;
    let d = 8usize;
    let mut state: u64 = 0x9E3779B97F4A7C15;
    let mut rows: Vec<Vec<f32>> = Vec::new();
    for _ in 0..n {
        let mut row = Vec::new();
        for _ in 0..d {
            state = state.wrapping_mul(6364136223846793005).wrapping_add(1442695040888963407);
            row.push(((state >> 35) % 2048) as f32 / 64.0);
        }
        rows.push(row);
    }
    let bytes = corpus_bytes(&rows);
    let (out, res) =
        streaming::streaming_build(&dm, &bytes, Metric::L2, 32, 64, 1.2f32.to_bits(), 0)
            .unwrap();
    assert_eq!(res.num_vectors, 1200);
    assert_eq!(res.dimension, 8);
    assert_eq!(res.sample_size, 1000);
    // The output loads as a read-only index.
    let mut reg = Registry::new();
    reg.load_index("built", "built.diskann", &out, 0).unwrap();
    let idx = reg.get_index("built").unwrap();
    assert_eq!(idx.len(), 1200);
    assert_eq!(idx.dimension(), 8);
    assert_eq!(idx.max_degree(), 32);
    // Top-1 recall against brute force over 50 sampled queries.
    let l2 = |a: &[f32], b: &[f32]| -> f32 {
        a.iter().zip(b.iter()).map(|(x, y)| (x - y) * (x - y)).sum()
    };
    let mut hits = 0usize;
    for qi in 0..50usize {
        let q = &rows[qi * 24 + 7];
        let mut best = 0usize;
        let mut best_d = f32::MAX;
        for (j, row) in rows.iter().enumerate() {
            let dd = l2(q, row);
            if dd < best_d {
                best_d = dd;
                best = j;
            }
        }
        let qbits: Vec<u32> = q.iter().map(|x| x.to_bits()).collect();
        let r = idx.search(&dm, &qbits, 1, 0).unwrap();
        if r.len() == 1 && r[0].0 == best as u64 {
            hits += 1;
        }
    }
    assert!(hits >= 45, "top-1 recall too low: {}/50", hits);
}
