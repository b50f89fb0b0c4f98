//! Serialization round trips and the on-disk layout.

use vamana::codec;
use vamana::errors::IndexError;
use vamana::index::InMemoryIndex;
use vamana::metric::Metric;
use vamana::model::DistanceModel;
use vamana::model::FullPrecisionStrategy;
use vamana::registry::Registry;

fn persist_enc(x: f32) -> u64 {
    let b = x.to_bits();
    (if b & 0x8000_0000 != 0 { !b } else { b | 0x8000_0000 }) as u64
}

struct PersistStrategy;

impl DistanceModel for PersistStrategy {
    fn distance(&self, _m: Metric, a: &[u32], b: &[u32]) -> u64 {
        let n = a.len().min(b.len());
        let mut acc: f32 = 0.0;
        for i in 0..n {
            let x = f32::from_bits(a[i]);
            let y = f32::from_bits(b[i]);
            acc += (x - y) * (x - y);
        }
        persist_enc(acc)
    }

    fn occlusion(&self, d: u64) -> u64 {
        d
    }
}

fn filled_index() -> InMemoryIndex {
    let dm = FullPrecisionStrategy::new();
    let mut idx = InMemoryIndex::new_detached(3, Metric::InnerProduct, 4, 9, 77).unwrap();
    for k in 0..12u32 {
        idx.add(&dm, &vec![k, (k * 3) % 7, (k * 5) % 11]).unwrap();
    }
    idx
}

#[test]
fn serialize_deserialize_is_identity_modulo_alpha() {
    let idx = filled_index();
    let bytes = idx.serialize_to_bytes().unwrap();
    let back = codec::from_bytes(&bytes, 123).unwrap();
    assert_eq!(back.graph.dim, idx.graph.dim);
    assert_eq!(back.graph.metric, idx.graph.metric);
    assert_eq!(back.graph.max_degree, idx.graph.max_degree);
    assert_eq!(back.build_complexity, idx.build_complexity);
    assert_eq!(back.alpha_bits, 123);
    assert_eq!(back.len(), idx.len());
    assert_eq!(back.get_entry_points(), idx.get_entry_points());
    for i in 0..idx.len() as u32 {
        assert_eq!(back.get_vector(i), idx.get_vector(i));
    }
    let a1 = idx.get_all_adjacency(idx.len(), 4);
    let a2 = back.get_all_adjacency(back.len(), 4);
    assert_eq!(a1, a2);
    // Serializing again reproduces the same bytes.
    assert_eq!(back.serialize_to_bytes().unwrap(), bytes);
}

#[test]
fn header_layout_as_specified() {
    let idx = filled_index();
    let bytes = idx.serialize_to_bytes().unwrap();
    assert_eq!(&bytes[0..4], b"DANN");
    let rd = |off: usize| {
        u32::from_le_bytes([bytes[off], bytes[off + 1], bytes[off + 2], bytes[off + 3]])
    };
    assert_eq!(rd(4), 2);
    assert_eq!(rd(8), 12);
    assert_eq!(rd(12), 3);
    assert_eq!(rd(16), 4);
    assert_eq!(rd(20), 1);
    assert_eq!(bytes[24], 1);
    assert_eq!(&bytes[25..28], &[0, 0, 0]);
    assert_eq!(rd(28), 9);
    // Total size: header, entry points, vectors, padded adjacency.
    assert_eq!(bytes.len(), 32 + 4 * 1 + 4 * 12 * 3 + 4 * 12 * 4);
    // Vector words are the stored rows, byte for byte.
    let v0 = idx.get_vector(0).unwrap();
    let vec_off = 32 + 4;
    for (j, w) in v0.iter().enumerate() {
        assert_eq!(rd(vec_off + 4 * j), *w);
    }
    // Adjacency rows are sentinel-padded to the degree bound.
    let adj_off = vec_off + 4 * 12 * 3;
    let row0 = &idx.get_all_adjacency(12, 4)[0];
    for j in 0..4 {
        let got = rd(adj_off + 4 * j);
        if j < row0.len() {
            assert_eq!(got, row0[j]);
        } else {
            assert_eq!(got, 0xFFFF_FFFF);
        }
    }
}

#[test]
fn malformed_inputs_refused() {
    let idx = filled_index();
    let bytes = idx.serialize_to_bytes().unwrap();
    // Too short for a header.
    assert_eq!(
        codec::from_bytes(&bytes[..16].to_vec(), 0).err().unwrap(),
        IndexError::MalformedInput
    );
    // Bad magic.
    let mut bad = bytes.clone();
    bad[0] = b'X';
    assert_eq!(
        codec::from_bytes(&bad, 0).err().unwrap(),
        IndexError::MalformedInput
    );
    // Unsupported version.
    let mut badv = bytes.clone();
    badv[4] = 9;
    assert_eq!(
        codec::from_bytes(&badv, 0).err().unwrap(),
        IndexError::MalformedInput
    );
    // Truncated payload.
    let cut = bytes[..bytes.len() - 5].to_vec();
    assert_eq!(
        codec::from_bytes(&cut, 0).err().unwrap(),
        IndexError::MalformedInput
    );
    // Zero dimension.
    let mut zd = bytes.clone();
    zd[12] = 0;
    zd[13] = 0;
    zd[14] = 0;
    zd[15] = 0;
    assert_eq!(
        codec::from_bytes(&zd, 0).err().unwrap(),
        IndexError::MalformedInput
    );
}

#[test]
fn persistence_self_queries() {
    let dm = PersistStrategy;
    let mut reg = Registry::new();
    reg.create_index("orig", 8, Metric::L2, 16, 50, 0).unwrap();
    // Deterministic pseudo-random corpus.
    let mut state: u64 = 0x2545F4914F6CDD1D;
    let mut rows: Vec<Vec<u32>> = Vec::new();
    for _ in 0..100 {
        let mut row = Vec::new();
        for _ in 0..8 {
            state = state.wrapping_mul(6364136223846793005).wrapping_add(1442695040888963407);
            let v = ((state >> 33) % 1000) as f32 / 100.0;
            row.push(v.to_bits());
        }
        rows.push(row);
    }
    for row in &rows {
        reg.add_vector("orig", &dm, row).unwrap();
    }
    let bytes = reg.save_index("orig").unwrap();
    reg.load_index("copy", "copy.diskann", &bytes, 0).unwrap();
    let loaded = reg.get_index("copy").unwrap();
    assert!(loaded.is_read_only());
    assert_eq!(loaded.len(), 100);
    for (i, row) in rows.iter().enumerate() {
        let r = loaded.search(&dm, row, 1, 0).unwrap();
        assert_eq!(r.len(), 1);
        assert_eq!(r[0].0, i as u64, "query {} found wrong label", i);
        assert_eq!(r[0].1, persist_enc(0.0));
    }
}

#[test]
fn add_to_loaded_index_refused() {
    let dm = FullPrecisionStrategy::new();
    let idx = filled_index();
    let bytes = idx.serialize_to_bytes().unwrap();
    let mut reg = Registry::new();
    reg.load_index("ro", "ro.diskann", &bytes, 0).unwrap();
    assert_eq!(
        reg.add_vector("ro", &dm, &vec![1, 2, 3]),
        Err(IndexError::ReadOnly)
    );
    // Saving a disk-backed index is refused too.
    assert_eq!(reg.save_index("ro").err().unwrap(), IndexError::ReadOnly);
}
