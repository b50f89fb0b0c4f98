//! Compaction: the label map, tombstone exclusion, and the empty case.

use vamana::index::InMemoryIndex;
use vamana::metric::Metric;
use vamana::model::DistanceModel;

fn compact_enc(x: f32) -> u64 {
    let b = x.to_bits();
    (if b & 0x8000_0000 != 0 { !b } else { b | 0x8000_0000 }) as u64
}

struct CompactStrategy;

impl DistanceModel for CompactStrategy {
    fn distance(&self, _m: Metric, a: &[u32], b: &[u32]) -> u64 {
        let n = a.len().min(b.len());
        let mut acc: f32 = 0.0;
        for i in 0..n {
            let x = f32::from_bits(a[i]);
            let y = f32::from_bits(b[i]);
            acc += (x - y) * (x - y);
        }
        compact_enc(acc)
    }

    fn occlusion(&self, d: u64) -> u64 {
        d
    }
}

fn hundred(dm: &CompactStrategy) -> InMemoryIndex {
    let mut idx = InMemoryIndex::new_detached(4, Metric::L2, 16, 50, 0).unwrap();
    let mut state: u64 = 0xDEADBEEFCAFE;
    for _ in 0..100 {
        let mut row = Vec::new();
        for _ in 0..4 {
            state = state.wrapping_mul(6364136223846793005).wrapping_add(1);
            row.push((((state >> 40) % 512) as f32).to_bits());
        }
        idx.add(dm, &row).unwrap();
    }
    idx
}

#[test]
fn compaction_label_map() {
    let dm = CompactStrategy;
    let idx = hundred(&dm);
    let deleted = vec![5u32, 20, 77];
    let (fresh, map) = idx.compact(&dm, &deleted).unwrap();
    assert_eq!(map.len(), 97);
    assert_eq!(fresh.len(), 97);
    assert_eq!(map[0], (0, 0));
    // Old label 6 sits behind one deleted label, so it maps to 5.
    assert!(map.contains(&(6, 5)));
    // No deleted label appears as an old label in the map.
    for (old, _) in &map {
        assert!(!deleted.contains(old));
    }
    // New labels are dense and ordered.
    for (j, (_, new)) in map.iter().enumerate() {
        assert_eq!(*new, j as u32);
    }
    // The vector of old label 21 found itself under its new label.
    let q = idx.get_vector(21).unwrap();
    let new_label = map.iter().find(|(o, _)| *o == 21).unwrap().1;
    let r = fresh.search(&dm, &q, 1, 0).unwrap();
    assert_eq!(r.len(), 1);
    assert_eq!(r[0].0, new_label as u64);
    assert_eq!(r[0].1, compact_enc(0.0));
}

#[test]
fn compaction_with_empty_tombstones_is_identity() {
    let dm = CompactStrategy;
    let mut idx = InMemoryIndex::new_detached(3, Metric::L2, 8, 20, 0).unwrap();
    for k in 0..20u32 {
        idx.add(&dm, &vec![
            ((k * 7 % 13) as f32).to_bits(),
            ((k * 5 % 11) as f32).to_bits(),
            (k as f32).to_bits(),
        ])
        .unwrap();
    }
    let (fresh, map) = idx.compact(&dm, &Vec::new()).unwrap();
    assert_eq!(map.len(), 20);
    for (j, pair) in map.iter().enumerate() {
        assert_eq!(*pair, (j as u32, j as u32));
    }
    // The rebuild replays the same insertions, so every search agrees
    // with the original, label for label.
    for k in 0..20u32 {
        let q = idx.get_vector(k).unwrap();
        let a = idx.search(&dm, &q, 5, 0).unwrap();
        let b = fresh.search(&dm, &q, 5, 0).unwrap();
        assert_eq!(a, b);
    }
}

#[test]
fn compacted_search_never_returns_deleted() {
    let dm = CompactStrategy;
    let idx = hundred(&dm);
    let deleted = vec![0u32, 13, 50, 99];
    let (fresh, map) = idx.compact(&dm, &deleted).unwrap();
    assert_eq!(map.len(), 96);
    for probe in 0..20u32 {
        let q = idx.get_vector(probe * 5).unwrap();
        let r = fresh.search(&dm, &q, 10, 0).unwrap();
        for (label, _) in r {
            let old = map[label as usize].0;
            assert!(!deleted.contains(&old));
        }
    }
}
