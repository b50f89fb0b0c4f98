//! The serialized index format.
//!
//! A fixed 32-byte header — magic, version, vector count, dimension,
//! degree bound, entry-point count, metric byte, build complexity —
//! followed by the entry points, the vector rows, and the adjacency
//! rows, each adjacency row padded to the degree bound with a sentinel
//! word.  All values are little-endian 32-bit words.

use vstd::prelude::*;
use crate::errors::IndexError;
use crate::graph::Graph;
use crate::index::InMemoryIndex;
use crate::metric::Metric;
use crate::metric::spec_metric_from_u8;
use crate::metric::spec_metric_to_u8;
use crate::metric::metric_to_u8;

verus! {

pub const VERSION: u32 = 2;

pub const HEADER_SIZE: usize = 32;

/// The sentinel word that pads an adjacency row.
pub const SENTINEL: u32 = 0xFFFF_FFFF;

/// The four magic bytes "DANN".
pub open spec fn spec_magic() -> Seq<u8> {
    seq![0x44u8, 0x41u8, 0x4Eu8, 0x4Eu8]
}

/// The little-endian bytes of one 32-bit word.
pub open spec fn le32_bytes(x: u32) -> Seq<u8> {
    seq![
        (x % 0x100) as u8,
        ((x / 0x100) % 0x100) as u8,
        ((x / 0x10000) % 0x100) as u8,
        ((x / 0x1000000) % 0x100) as u8,
    ]
}

/// The word held in four little-endian bytes at `off`.
pub open spec fn le32_at(b: Seq<u8>, off: int) -> u32 {
    (b[off] + b[off + 1] * 0x100 + b[off + 2] * 0x10000 + b[off + 3] * 0x1000000) as u32
}

/// Reading back the bytes of a word yields the word.
pub proof fn lemma_le32_roundtrip(x: u32)
    ensures
        le32_at(le32_bytes(x), 0) == x,
{
    assert(x % 0x100 + ((x / 0x100) % 0x100) * 0x100 + ((x / 0x10000) % 0x100) * 0x10000 + ((x
        / 0x1000000) % 0x100) * 0x1000000 == x) by (bit_vector);
}

/// Appends the little-endian bytes of `x`.
pub fn push_le32(out: &mut Vec<u8>, x: u32)
    ensures
        final(out)@ == old(out)@ + le32_bytes(x),
{
    out.push((x % 0x100) as u8);
    out.push(((x / 0x100) % 0x100) as u8);
    out.push(((x / 0x10000) % 0x100) as u8);
    out.push(((x / 0x1000000) % 0x100) as u8);
    proof {
        assert(out@ =~= old(out)@ + le32_bytes(x));
    }
}

/// Reads the word at byte offset `off`.
pub fn read_le32(data: &Vec<u8>, off: usize) -> (r: u32)
    requires
        off + 4 <= data@.len(),
    ensures
        r == le32_at(data@, off as int),
{
    let _len: usize = data.len();
    let b0 = data[off] as u32;
    let b1 = data[off + 1] as u32;
    let b2 = data[off + 2] as u32;
    let b3 = data[off + 3] as u32;
    b0 + b1 * 0x100 + b2 * 0x10000 + b3 * 0x1000000
}

/// The little-endian bytes of a word sequence, in order.
pub open spec fn words_bytes(s: Seq<u32>) -> Seq<u8>
    decreases s.len(),
{
    if s.len() == 0 {
        Seq::empty()
    } else {
        le32_bytes(s[0]) + words_bytes(s.drop_first())
    }
}

pub proof fn lemma_words_bytes_len(s: Seq<u32>)
    ensures
        words_bytes(s).len() == 4 * s.len(),
    decreases s.len(),
{
    if s.len() > 0 {
        lemma_words_bytes_len(s.drop_first());
    }
}

/// Extending a word sequence extends its bytes.
pub proof fn lemma_words_bytes_snoc(s: Seq<u32>, x: u32)
    ensures
        words_bytes(s.push(x)) == words_bytes(s) + le32_bytes(x),
    decreases s.len(),
{
    if s.len() == 0 {
        assert(s.push(x)[0] == x);
        assert(s.push(x).drop_first() =~= Seq::<u32>::empty());
        assert(words_bytes(s.push(x)) == le32_bytes(x) + words_bytes(s.push(x).drop_first()));
        assert(words_bytes(s.push(x).drop_first()) =~= Seq::<u8>::empty());
        assert(words_bytes(s) =~= Seq::<u8>::empty());
        assert(words_bytes(s.push(x)) =~= words_bytes(s) + le32_bytes(x));
    } else {
        assert(s.push(x).drop_first() =~= s.drop_first().push(x));
        lemma_words_bytes_snoc(s.drop_first(), x);
        assert(s.push(x)[0] == s[0]);
        assert(words_bytes(s.push(x)) == le32_bytes(s[0]) + words_bytes(s.drop_first().push(x)));
        assert(words_bytes(s) == le32_bytes(s[0]) + words_bytes(s.drop_first()));
        lemma_words_bytes_len(s.drop_first());
        assert(words_bytes(s.push(x)) =~= words_bytes(s) + le32_bytes(x));
    }
}

/// The word at position `i` of a word sequence's bytes.
pub proof fn lemma_words_bytes_at(s: Seq<u32>, i: int)
    requires
        0 <= i < s.len(),
    ensures
        le32_at(words_bytes(s), 4 * i) == s[i],
    decreases i,
{
    lemma_words_bytes_len(s);
    if i == 0 {
        lemma_le32_roundtrip(s[0]);
        lemma_words_bytes_len(s.drop_first());
        assert(words_bytes(s) == le32_bytes(s[0]) + words_bytes(s.drop_first()));
        assert(le32_at(words_bytes(s), 0) == le32_at(le32_bytes(s[0]), 0)) by {
            assert(words_bytes(s)[0] == le32_bytes(s[0])[0]);
            assert(words_bytes(s)[1] == le32_bytes(s[0])[1]);
            assert(words_bytes(s)[2] == le32_bytes(s[0])[2]);
            assert(words_bytes(s)[3] == le32_bytes(s[0])[3]);
        }
    } else {
        lemma_words_bytes_at(s.drop_first(), i - 1);
        let rest = words_bytes(s.drop_first());
        lemma_words_bytes_len(s.drop_first());
        assert(words_bytes(s) == le32_bytes(s[0]) + rest);
        assert(s.drop_first()[i - 1] == s[i]);
        assert(le32_at(words_bytes(s), 4 * i) == le32_at(rest, 4 * (i - 1))) by {
            assert(words_bytes(s)[4 * i] == rest[4 * (i - 1)]);
            assert(words_bytes(s)[4 * i + 1] == rest[4 * (i - 1) + 1]);
            assert(words_bytes(s)[4 * i + 2] == rest[4 * (i - 1) + 2]);
            assert(words_bytes(s)[4 * i + 3] == rest[4 * (i - 1) + 3]);
        }
    }
}

/// An adjacency row padded to width `r` with the sentinel.
pub open spec fn padded_row(row: Seq<u32>, r: int) -> Seq<u32> {
    row + Seq::new((r - row.len()) as nat, |j: int| SENTINEL)
}

/// The padded rows of all adjacency lists, flattened to words.
pub open spec fn rows_words(adj: Seq<Seq<u32>>, r: int) -> Seq<u32>
    decreases adj.len(),
{
    if adj.len() == 0 {
        Seq::empty()
    } else {
        padded_row(adj[0], r) + rows_words(adj.drop_first(), r)
    }
}

pub proof fn lemma_rows_words_len(adj: Seq<Seq<u32>>, r: int)
    requires
        forall|i: int| 0 <= i < adj.len() ==> (#[trigger] adj[i]).len() <= r,
    ensures
        rows_words(adj, r).len() == adj.len() * r,
    decreases adj.len(),
{
    if adj.len() > 0 {
        lemma_rows_words_len(adj.drop_first(), r);
        assert(adj.len() * r == (adj.len() - 1) * r + r) by (nonlinear_arith);
    }
}

pub proof fn lemma_rows_words_snoc(adj: Seq<Seq<u32>>, row: Seq<u32>, r: int)
    ensures
        rows_words(adj.push(row), r) == rows_words(adj, r) + padded_row(row, r),
    decreases adj.len(),
{
    if adj.len() == 0 {
        assert(adj.push(row)[0] == row);
        assert(adj.push(row).drop_first() =~= Seq::<Seq<u32>>::empty());
        assert(rows_words(adj.push(row), r) == padded_row(row, r) + rows_words(
            adj.push(row).drop_first(),
            r,
        ));
        assert(rows_words(adj.push(row).drop_first(), r) =~= Seq::<u32>::empty());
        assert(rows_words(adj, r) =~= Seq::<u32>::empty());
        assert(rows_words(adj.push(row), r) =~= rows_words(adj, r) + padded_row(row, r));
    } else {
        assert(adj.push(row).drop_first() =~= adj.drop_first().push(row));
        lemma_rows_words_snoc(adj.drop_first(), row, r);
        assert(adj.push(row)[0] == adj[0]);
        assert(rows_words(adj.push(row), r) == padded_row(adj[0], r) + rows_words(
            adj.drop_first().push(row),
            r,
        ));
        assert(rows_words(adj, r) == padded_row(adj[0], r) + rows_words(adj.drop_first(), r));
        assert(rows_words(adj.push(row), r) =~= rows_words(adj, r) + padded_row(row, r));
    }
}

/// The word at flat position `i * r + j` of the flattened rows is the
/// `j`-th slot of padded row `i`.
pub proof fn lemma_rows_words_at(adj: Seq<Seq<u32>>, r: int, i: int, j: int)
    requires
        forall|t: int| 0 <= t < adj.len() ==> (#[trigger] adj[t]).len() <= r,
        0 <= i < adj.len(),
        0 <= j < r,
    ensures
        rows_words(adj, r)[i * r + j] == padded_row(adj[i], r)[j],
    decreases i,
{
    lemma_rows_words_len(adj, r);
    if i == 0 {
        assert(rows_words(adj, r) == padded_row(adj[0], r) + rows_words(adj.drop_first(), r));
        assert(padded_row(adj[0], r).len() == r);
        assert(rows_words(adj, r)[0 * r + j] == padded_row(adj[0], r)[j]);
    } else {
        lemma_rows_words_at(adj.drop_first(), r, i - 1, j);
        assert(rows_words(adj, r) == padded_row(adj[0], r) + rows_words(adj.drop_first(), r));
        assert(padded_row(adj[0], r).len() == r);
        assert(adj.drop_first()[i - 1] == adj[i]);
        assert(i * r + j == r + ((i - 1) * r + j)) by (nonlinear_arith);
        lemma_rows_words_len(adj.drop_first(), r);
        assert((i - 1) * r + j < (adj.len() - 1) * r) by (nonlinear_arith)
            requires
                0 < i < adj.len(),
                0 <= j < r,
        ;
        assert(0 <= (i - 1) * r + j) by (nonlinear_arith)
            requires
                i >= 1,
                j >= 0,
                r > 0,
        ;
        assert(rows_words(adj, r)[i * r + j] == rows_words(adj.drop_first(), r)[(i - 1) * r + j]);
    }
}

/// The live prefix of a padded row: everything before the first
/// sentinel.
pub open spec fn trim_row(row: Seq<u32>) -> Seq<u32>
    decreases row.len(),
{
    if row.len() == 0 {
        Seq::empty()
    } else if row[0] == SENTINEL {
        Seq::empty()
    } else {
        seq![row[0]] + trim_row(row.drop_first())
    }
}

/// Splitting a row at a sentinel-free prefix splits its trimming.
pub proof fn lemma_trim_split(s: Seq<u32>, j: int)
    requires
        0 <= j <= s.len(),
        forall|t: int| 0 <= t < j ==> s[t] != SENTINEL,
    ensures
        trim_row(s) == s.take(j) + trim_row(s.skip(j)),
    decreases j,
{
    if j == 0 {
        assert(s.skip(0) =~= s);
        assert(trim_row(s) =~= s.take(0) + trim_row(s));
    } else {
        lemma_trim_split(s.drop_first(), j - 1);
        assert(s.drop_first().take(j - 1) =~= s.take(j).drop_first());
        assert(s.drop_first().skip(j - 1) =~= s.skip(j));
        assert(trim_row(s) == seq![s[0]] + trim_row(s.drop_first()));
        assert(trim_row(s) =~= s.take(j) + trim_row(s.skip(j)));
    }
}

/// Trimming a row padded from a sentinel-free list recovers the list.
pub proof fn lemma_trim_padded(row: Seq<u32>, r: int)
    requires
        row.len() <= r,
        forall|t: int| 0 <= t < row.len() ==> (#[trigger] row[t]) != SENTINEL,
    ensures
        trim_row(padded_row(row, r)) == row,
{
    let p = padded_row(row, r);
    assert(forall|t: int| 0 <= t < row.len() ==> p[t] == row[t]);
    lemma_trim_split(p, row.len() as int);
    assert(p.take(row.len() as int) =~= row);
    if row.len() < r {
        assert(p.skip(row.len() as int)[0] == SENTINEL);
        assert(trim_row(p.skip(row.len() as int)) =~= Seq::<u32>::empty());
    } else {
        assert(p.skip(row.len() as int).len() == 0);
    }
    assert(trim_row(p) =~= row);
}


/// A sequence of distinct words below `n` is no longer than `n`.
pub proof fn lemma_distinct_u32s_bound(s: Seq<u32>, n: int)
    requires
        forall|j1: int, j2: int| 0 <= j1 < j2 < s.len() ==> s[j1] != s[j2],
        forall|j: int| 0 <= j < s.len() ==> (#[trigger] s[j]) < n,
        n >= 0,
    ensures
        s.len() <= n,
{
    let ids = Seq::new(s.len(), |j: int| s[j] as int);
    assert(ids.no_duplicates()) by {
        assert forall|i: int, j: int|
            0 <= i < ids.len() && 0 <= j < ids.len() && i != j implies ids[i] != ids[j] by {
            if i < j {
                assert(s[i] != s[j]);
            } else {
                assert(s[j] != s[i]);
            }
        }
    }
    ids.unique_seq_to_set();
    assert(ids.to_set().subset_of(vstd::set_lib::set_int_range(0, n))) by {
        assert forall|a: int| ids.to_set().contains(a) implies vstd::set_lib::set_int_range(
            0,
            n,
        ).contains(a) by {
            let j = choose|j: int| 0 <= j < ids.len() && ids[j] == a;
            assert(s[j] < n);
        }
    }
    vstd::set_lib::lemma_int_range(0, n);
    vstd::set_lib::lemma_len_subset(ids.to_set(), vstd::set_lib::set_int_range(0, n));
}

/// The adjacency lists of a graph, as plain sequences.
pub open spec fn adj_views(g: Graph) -> Seq<Seq<u32>> {
    Seq::new(g.adjacency@.len(), |i: int| g.adjacency@[i]@)
}

/// The fixed 32-byte header of a serialized index.
pub open spec fn spec_header(g: Graph, bc: u32) -> Seq<u8> {
    spec_magic() + le32_bytes(VERSION) + le32_bytes(g.spec_count() as u32) + le32_bytes(
        g.dim as u32,
    ) + le32_bytes(g.max_degree as u32) + le32_bytes(g.entry_points@.len() as u32) + seq![
        spec_metric_to_u8(g.metric),
        0u8,
        0u8,
        0u8,
    ] + le32_bytes(bc)
}

/// Every word that follows the header: entry points, vector rows,
/// padded adjacency rows.
pub open spec fn spec_body_words(g: Graph) -> Seq<u32> {
    g.entry_points@ + g.vectors@ + rows_words(adj_views(g), g.max_degree as int)
}

/// The full serialized form of a graph with its build complexity.
pub open spec fn spec_serialize(g: Graph, bc: u32) -> Seq<u8> {
    spec_header(g, bc) + words_bytes(spec_body_words(g))
}

/// Serializes a graph: header, entry points, vectors, adjacency rows
/// padded with the sentinel to the degree bound.
pub fn write_index(g: &Graph, bc: u32) -> (out: Vec<u8>)
    requires
        g.wf(),
        g.dim <= u32::MAX as int,
        g.max_degree <= u32::MAX as int,
    ensures
        out@ == spec_serialize(*g, bc),
{
    let count = g.count();
    proof {
        lemma_distinct_u32s_bound(g.entry_points@, g.spec_count());
    }
    let mut out: Vec<u8> = Vec::new();
    out.push(0x44);
    out.push(0x41);
    out.push(0x4E);
    out.push(0x4E);
    push_le32(&mut out, VERSION);
    push_le32(&mut out, count as u32);
    push_le32(&mut out, g.dim as u32);
    push_le32(&mut out, g.max_degree as u32);
    push_le32(&mut out, g.entry_points.len() as u32);
    out.push(metric_to_u8(g.metric));
    out.push(0);
    out.push(0);
    out.push(0);
    push_le32(&mut out, bc);
    proof {
        assert(out@ =~= spec_header(*g, bc));
    }
    let ghost hdr = out@;
    proof {
        assert(words_bytes(Seq::<u32>::empty()) =~= Seq::<u8>::empty());
        assert(out@ =~= hdr + words_bytes(Seq::<u32>::empty()));
    }
    // Entry points.
    let mut e: usize = 0;
    while e < g.entry_points.len()
        invariant
            e <= g.entry_points@.len(),
            out@ == hdr + words_bytes(g.entry_points@.take(e as int)),
        decreases g.entry_points@.len() - e,
    {
        let ghost sofar = g.entry_points@.take(e as int);
        push_le32(&mut out, g.entry_points[e]);
        proof {
            lemma_words_bytes_snoc(sofar, g.entry_points@[e as int]);
            assert(g.entry_points@.take(e + 1) =~= sofar.push(g.entry_points@[e as int]));
            assert(out@ =~= hdr + words_bytes(g.entry_points@.take(e + 1)));
        }
        e = e + 1;
    }
    proof {
        assert(g.entry_points@.take(g.entry_points@.len() as int) =~= g.entry_points@);
    }
    // Vector words.
    let mut w: usize = 0;
    while w < g.vectors.len()
        invariant
            w <= g.vectors@.len(),
            out@ == hdr + words_bytes(g.entry_points@ + g.vectors@.take(w as int)),
        decreases g.vectors@.len() - w,
    {
        let ghost sofar = g.entry_points@ + g.vectors@.take(w as int);
        push_le32(&mut out, g.vectors[w]);
        proof {
            lemma_words_bytes_snoc(sofar, g.vectors@[w as int]);
            assert(g.entry_points@ + g.vectors@.take(w + 1) =~= sofar.push(g.vectors@[w as int]));
            assert(out@ =~= hdr + words_bytes(g.entry_points@ + g.vectors@.take(w + 1)));
        }
        w = w + 1;
    }
    proof {
        assert(g.vectors@.take(g.vectors@.len() as int) =~= g.vectors@);
    }
    // Adjacency rows, each padded to the degree bound.
    let deg = g.max_degree;
    let ghost base = g.entry_points@ + g.vectors@;
    let mut i: usize = 0;
    while i < count
        invariant
            i <= count,
            count == g.spec_count(),
            deg == g.max_degree,
            g.wf(),
            base == g.entry_points@ + g.vectors@,
            out@ == hdr + words_bytes(base + rows_words(adj_views(*g).take(i as int), deg as int)),
        decreases count - i,
    {
        let ghost rowsofar = base + rows_words(adj_views(*g).take(i as int), deg as int);
        let row = g.neighbors(i);
        let ghost rowseq = g.adjacency@[i as int]@;
        proof {
            assert(g.valid_neighbors(i as int, rowseq));
        }
        let mut j: usize = 0;
        while j < row.len()
            invariant
                j <= row@.len(),
                row@ == rowseq,
                out@ == hdr + words_bytes(rowsofar + rowseq.take(j as int)),
            decreases row@.len() - j,
        {
            let ghost sofar = rowsofar + rowseq.take(j as int);
            push_le32(&mut out, row[j]);
            proof {
                lemma_words_bytes_snoc(sofar, rowseq[j as int]);
                assert(rowsofar + rowseq.take(j + 1) =~= sofar.push(rowseq[j as int]));
                assert(out@ =~= hdr + words_bytes(rowsofar + rowseq.take(j + 1)));
            }
            j = j + 1;
        }
        let mut p: usize = row.len();
        proof {
            assert(rowseq.take(rowseq.len() as int) =~= rowseq);
            assert(rowseq + Seq::new(0nat, |t: int| SENTINEL) =~= rowseq);
            assert(out@ =~= hdr + words_bytes(
                rowsofar + (rowseq + Seq::new((p - rowseq.len()) as nat, |t: int| SENTINEL)),
            ));
        }
        while p < deg
            invariant
                rowseq.len() <= p <= deg,
                deg == g.max_degree,
                out@ == hdr + words_bytes(
                    rowsofar + (rowseq + Seq::new((p - rowseq.len()) as nat, |t: int| SENTINEL)),
                ),
            decreases deg - p,
        {
            let ghost sofar = rowsofar + (rowseq + Seq::new(
                (p - rowseq.len()) as nat,
                |t: int| SENTINEL,
            ));
            push_le32(&mut out, SENTINEL);
            proof {
                lemma_words_bytes_snoc(sofar, SENTINEL);
                assert(rowsofar + (rowseq + Seq::new((p + 1 - rowseq.len()) as nat, |t: int| SENTINEL))
                    =~= sofar.push(SENTINEL));
                assert(out@ =~= hdr + words_bytes(
                    rowsofar + (rowseq + Seq::new((p + 1 - rowseq.len()) as nat, |t: int| SENTINEL)),
                ));
            }
            p = p + 1;
        }
        proof {
            assert(rowseq + Seq::new((deg - rowseq.len()) as nat, |t: int| SENTINEL) =~= padded_row(
                rowseq,
                deg as int,
            ));
            lemma_rows_words_snoc(adj_views(*g).take(i as int), rowseq, deg as int);
            assert(adj_views(*g).take(i + 1) =~= adj_views(*g).take(i as int).push(rowseq));
            assert(rowsofar + padded_row(rowseq, deg as int) =~= base + rows_words(
                adj_views(*g).take(i + 1),
                deg as int,
            ));
            assert(out@ =~= hdr + words_bytes(
                base + rows_words(adj_views(*g).take(i + 1), deg as int),
            ));
        }
        i = i + 1;
    }
    proof {
        assert(adj_views(*g).take(g.spec_count()) =~= adj_views(*g));
        assert(out@ =~= spec_serialize(*g, bc));
    }
    out
}


pub proof fn lemma_trim_len(s: Seq<u32>)
    ensures
        trim_row(s).len() <= s.len(),
    decreases s.len(),
{
    if s.len() > 0 && s[0] != SENTINEL {
        lemma_trim_len(s.drop_first());
    }
}

/// The vector count a serialized index declares.
pub open spec fn ser_count(b: Seq<u8>) -> u32 {
    le32_at(b, 8)
}

pub open spec fn ser_dim(b: Seq<u8>) -> u32 {
    le32_at(b, 12)
}

pub open spec fn ser_deg(b: Seq<u8>) -> u32 {
    le32_at(b, 16)
}

pub open spec fn ser_ne(b: Seq<u8>) -> u32 {
    le32_at(b, 20)
}

pub open spec fn ser_metric(b: Seq<u8>) -> u8 {
    b[24]
}

pub open spec fn ser_bc(b: Seq<u8>) -> u32 {
    le32_at(b, 28)
}

/// The byte length the declared shape requires.
pub open spec fn ser_total(b: Seq<u8>) -> int {
    32 + 4 * (ser_ne(b) + ser_count(b) * ser_dim(b) + ser_count(b) * ser_deg(b))
}

/// The declared entry points.
pub open spec fn ser_eps(b: Seq<u8>) -> Seq<u32> {
    Seq::new(ser_ne(b) as nat, |e: int| le32_at(b, 32 + 4 * e))
}

pub open spec fn ser_vec_off(b: Seq<u8>) -> int {
    32 + 4 * ser_ne(b)
}

/// The declared vector words, row-major.
pub open spec fn ser_vec_words(b: Seq<u8>) -> Seq<u32> {
    Seq::new((ser_count(b) * ser_dim(b)) as nat, |w: int| le32_at(b, ser_vec_off(b) + 4 * w))
}

pub open spec fn ser_adj_off(b: Seq<u8>) -> int {
    ser_vec_off(b) + 4 * (ser_count(b) * ser_dim(b))
}

/// The raw padded adjacency row of node `i`.
pub open spec fn ser_row_words(b: Seq<u8>, i: int) -> Seq<u32> {
    Seq::new(ser_deg(b) as nat, |j: int| le32_at(b, ser_adj_off(b) + 4 * (i * ser_deg(b) + j)))
}

/// The adjacency list of node `i`: its row up to the first sentinel.
pub open spec fn ser_adj_row(b: Seq<u8>, i: int) -> Seq<u32> {
    trim_row(ser_row_words(b, i))
}

/// One declared adjacency list is sound: present targets, no
/// self-loop, no duplicates.
pub open spec fn ser_row_ok(b: Seq<u8>, i: int) -> bool {
    &&& forall|j: int|
        0 <= j < ser_adj_row(b, i).len() ==> (#[trigger] ser_adj_row(b, i)[j]) < ser_count(b)
            && ser_adj_row(b, i)[j] != i
    &&& forall|j1: int, j2: int|
        0 <= j1 < j2 < ser_adj_row(b, i).len() ==> ser_adj_row(b, i)[j1] != ser_adj_row(b, i)[j2]
}

/// What a loadable serialized index looks like: the magic and version,
/// a positive dimension, enough bytes for the declared shape, entry
/// points that are distinct present nodes and exist once any node
/// does, and sound adjacency rows.
pub open spec fn valid_index_bytes(b: Seq<u8>) -> bool {
    &&& b.len() >= 32
    &&& b.subrange(0, 4) == spec_magic()
    &&& le32_at(b, 4) == VERSION
    &&& ser_dim(b) >= 1
    &&& b.len() >= ser_total(b)
    &&& ser_count(b) > 0 ==> ser_ne(b) > 0
    &&& forall|e: int|
        0 <= e < ser_eps(b).len() ==> (#[trigger] ser_eps(b)[e]) < ser_count(b)
    &&& forall|e1: int, e2: int|
        0 <= e1 < e2 < ser_eps(b).len() ==> ser_eps(b)[e1] != ser_eps(b)[e2]
    &&& forall|i: int| 0 <= i < ser_count(b) ==> ser_row_ok(b, i)
}

/// Reads an index back from its serialized form: succeeds exactly on
/// a loadable byte string, and then reproduces every declared field;
/// alpha is supplied by the caller, as the format does not carry it.
#[verifier::rlimit(100)]
pub fn from_bytes(data: &Vec<u8>, alpha_bits: u32) -> (r: Result<InMemoryIndex, IndexError>)
    ensures
        r is Ok <==> valid_index_bytes(data@),
        r is Err ==> r == Err::<InMemoryIndex, IndexError>(IndexError::MalformedInput),
        r matches Ok(idx) ==> {
            &&& idx.wf()
            &&& idx.graph.dim == ser_dim(data@)
            &&& idx.graph.metric == spec_metric_from_u8(ser_metric(data@))
            &&& idx.graph.max_degree == ser_deg(data@)
            &&& idx.spec_len() == ser_count(data@)
            &&& idx.graph.vectors@ == ser_vec_words(data@)
            &&& idx.graph.entry_points@ == ser_eps(data@)
            &&& forall|i: int|
                0 <= i < ser_count(data@) ==> (#[trigger] idx.graph.adjacency@[i])@ == ser_adj_row(
                    data@,
                    i,
                )
            &&& idx.build_complexity == ser_bc(data@)
            &&& idx.alpha_bits == alpha_bits
            &&& idx.name@ == Seq::<char>::empty()
            &&& idx.quantized is None
        },
{
    let len = data.len();
    if len < 32 {
        return Err(IndexError::MalformedInput);
    }
    if !(data[0] == 0x44 && data[1] == 0x41 && data[2] == 0x4E && data[3] == 0x4E) {
        proof {
            if data@.subrange(0, 4) == spec_magic() {
                assert(data@[0] == spec_magic()[0]);
                assert(data@[1] == spec_magic()[1]);
                assert(data@[2] == spec_magic()[2]);
                assert(data@[3] == spec_magic()[3]);
            }
        }
        return Err(IndexError::MalformedInput);
    }
    let version = read_le32(data, 4);
    if version != VERSION {
        return Err(IndexError::MalformedInput);
    }
    let n = read_le32(data, 8);
    let d = read_le32(data, 12);
    let deg = read_le32(data, 16);
    let ne = read_le32(data, 20);
    let metric_byte = data[24];
    let bc = read_le32(data, 28);
    if d == 0 {
        return Err(IndexError::MalformedInput);
    }
    proof {
        assert((n as u128) * (d as u128) == (n as int) * (d as int) && (n as int) * (d as int)
            <= 0xFFFF_FFFF_FFFF_FFFF_FFFF_FFFF) by (nonlinear_arith)
            requires
                n <= 0xFFFF_FFFFu32 && d <= 0xFFFF_FFFFu32,
        ;
        assert((n as u128) * (deg as u128) == (n as int) * (deg as int) && (n as int) * (
        deg as int) <= 0xFFFF_FFFF_FFFF_FFFF_FFFF_FFFF) by (nonlinear_arith)
            requires
                n <= 0xFFFF_FFFFu32 && deg <= 0xFFFF_FFFFu32,
        ;
    }
    let need: u128 = 32 + 4 * (ne as u128 + (n as u128) * (d as u128) + (n as u128) * (
    deg as u128));
    if (len as u128) < need {
        return Err(IndexError::MalformedInput);
    }
    let metric = if metric_byte == 1 {
        Metric::InnerProduct
    } else {
        Metric::L2
    };
    // Entry points: distinct present nodes.
    let mut eps: Vec<u32> = Vec::new();
    let mut e: usize = 0;
    while e < ne as usize
        invariant
            e <= ne,
            len == data@.len(),
            32 + 4 * (ne as int) <= len,
            n == ser_count(data@),
            ne == ser_ne(data@),
            eps@ == ser_eps(data@).take(e as int),
            forall|t: int| 0 <= t < e ==> (#[trigger] ser_eps(data@)[t]) < n,
            forall|t1: int, t2: int| 0 <= t1 < t2 < e ==> ser_eps(data@)[t1] != ser_eps(data@)[t2],
        decreases ne - e,
    {
        let v = read_le32(data, 32 + 4 * e);
        proof {
            assert(ser_eps(data@)[e as int] == v);
        }
        if v >= n {
            return Err(IndexError::MalformedInput);
        }
        if crate::engine::contains_u32(&eps, v) {
            proof {
                let t = choose|t: int| 0 <= t < eps@.len() && eps@[t] == v;
                assert(ser_eps(data@)[t] == ser_eps(data@)[e as int]);
            }
            return Err(IndexError::MalformedInput);
        }
        proof {
            assert forall|t: int| 0 <= t < e implies ser_eps(data@)[t] != ser_eps(
                data@,
            )[e as int] by {
                assert(eps@[t] == ser_eps(data@)[t]);
            }
        }
        eps.push(v);
        proof {
            assert(eps@ =~= ser_eps(data@).take(e + 1));
        }
        e = e + 1;
    }
    proof {
        assert(ser_eps(data@).take(ne as int) =~= ser_eps(data@));
    }
    if n > 0 && ne == 0 {
        return Err(IndexError::MalformedInput);
    }
    // Vector words.
    let nd: usize = ((n as u64) * (d as u64)) as usize;
    proof {
        assert((n as u64) * (d as u64) == (n as int) * (d as int)) by (nonlinear_arith);
        assert((n as int) * (d as int) >= 0) by (nonlinear_arith);
        assert((n as int) * (deg as int) >= 0) by (nonlinear_arith);
    }
    let vec_off: usize = 32 + 4 * (ne as usize);
    let mut words: Vec<u32> = Vec::new();
    let mut w: usize = 0;
    while w < nd
        invariant
            w <= nd,
            len == data@.len(),
            nd == ser_count(data@) * ser_dim(data@),
            vec_off == ser_vec_off(data@),
            vec_off + 4 * nd <= len,
            words@ == ser_vec_words(data@).take(w as int),
        decreases nd - w,
    {
        let v = read_le32(data, vec_off + 4 * w);
        words.push(v);
        proof {
            assert(ser_vec_words(data@)[w as int] == v);
            assert(words@ =~= ser_vec_words(data@).take(w + 1));
        }
        w = w + 1;
    }
    proof {
        assert(ser_vec_words(data@).take(nd as int) =~= ser_vec_words(data@));
    }
    // Adjacency rows: scan each fixed-width row up to the sentinel,
    // checking that every target is a distinct present node other
    // than the row's own.
    let adj_off: usize = vec_off + 4 * nd;
    let mut adjacency: Vec<Vec<u32>> = Vec::new();
    let mut i: usize = 0;
    while i < n as usize
        invariant
            i <= n,
            len == data@.len(),
            n == ser_count(data@),
            deg == ser_deg(data@),
            adj_off == ser_adj_off(data@),
            adj_off + 4 * ((n as int) * (deg as int)) <= len,
            adjacency@.len() == i,
            forall|t: int|
                0 <= t < i ==> (#[trigger] adjacency@[t])@ == ser_adj_row(data@, t),
            forall|t: int| 0 <= t < i ==> ser_row_ok(data@, t),
        decreases n - i,
    {
        proof {
            assert((i as int) * (deg as int) + deg <= (n as int) * (deg as int))
                by (nonlinear_arith)
                requires
                    0 <= (i as int) < (n as int),
            ;
            assert(0 <= (i as int) * (deg as int)) by (nonlinear_arith);
        }
        let row_base: usize = adj_off + 4 * (i * (deg as usize));
        let mut lst: Vec<u32> = Vec::new();
        let mut j: usize = 0;
        let mut stopped = false;
        let ghost rw = ser_row_words(data@, i as int);
        while j < deg as usize && !stopped
            invariant
                j <= deg,
                len == data@.len(),
                n == ser_count(data@),
                deg == ser_deg(data@),
                adj_off == ser_adj_off(data@),
                i < n,
                rw == ser_row_words(data@, i as int),
                row_base == ser_adj_off(data@) + 4 * ((i as int) * (deg as int)),
                row_base + 4 * (deg as int) <= len,
                lst@ == rw.take(j as int),
                forall|t: int| 0 <= t < j ==> (#[trigger] rw[t]) != SENTINEL,
                forall|t: int| 0 <= t < j ==> (#[trigger] rw[t]) < n && rw[t] != i,
                forall|t1: int, t2: int| 0 <= t1 < t2 < j ==> rw[t1] != rw[t2],
                stopped ==> j < deg && rw[j as int] == SENTINEL,
            decreases deg - j + (if stopped { 0int } else { 1int }),
        {
            let word = read_le32(data, row_base + 4 * j);
            proof {
                assert(rw[j as int] == word);
            }
            if word == SENTINEL {
                stopped = true;
            } else {
                if word >= n || word == i as u32 {
                    proof {
                        lemma_trim_split(rw, j as int);
                        assert(rw.skip(j as int)[0] == word);
                        assert(trim_row(rw.skip(j as int))[0] == word);
                        assert(ser_adj_row(data@, i as int)[j as int] == word);
                        assert(!valid_index_bytes(data@)) by {
                            if valid_index_bytes(data@) {
                                assert(ser_row_ok(data@, i as int));
                                assert(ser_adj_row(data@, i as int)[j as int] < n
                                    && ser_adj_row(data@, i as int)[j as int] != i);
                            }
                        }
                    }
                    return Err(IndexError::MalformedInput);
                }
                if crate::engine::contains_u32(&lst, word) {
                    proof {
                        let t = choose|t: int| 0 <= t < lst@.len() && lst@[t] == word;
                        lemma_trim_split(rw, j as int);
                        assert(rw.skip(j as int)[0] == word);
                        assert(trim_row(rw.skip(j as int))[0] == word);
                        assert(ser_adj_row(data@, i as int)[j as int] == word);
                        assert(ser_adj_row(data@, i as int)[t] == rw[t]);
                        assert(rw[t] == word);
                        assert(!valid_index_bytes(data@)) by {
                            if valid_index_bytes(data@) {
                                assert(ser_row_ok(data@, i as int));
                                assert(ser_adj_row(data@, i as int)[t] != ser_adj_row(
                                    data@,
                                    i as int,
                                )[j as int]);
                            }
                        }
                    }
                    return Err(IndexError::MalformedInput);
                }
                proof {
                    assert forall|t: int| 0 <= t < j implies rw[t] != word by {
                        assert(lst@[t] == rw[t]);
                    }
                }
                lst.push(word);
                proof {
                    assert(lst@ =~= rw.take(j + 1));
                }
                j = j + 1;
            }
        }
        proof {
            lemma_trim_split(rw, j as int);
            if stopped {
                assert(rw.skip(j as int)[0] == SENTINEL);
                assert(trim_row(rw.skip(j as int)) =~= Seq::<u32>::empty());
            } else {
                assert(rw.skip(j as int).len() == 0);
            }
            assert(ser_adj_row(data@, i as int) =~= lst@);
            assert(ser_row_ok(data@, i as int));
        }
        adjacency.push(lst);
        i = i + 1;
    }
    // Assemble and certify the graph.
    let graph = Graph {
        dim: d as usize,
        metric,
        max_degree: deg as usize,
        vectors: words,
        adjacency,
        entry_points: eps,
    };
    proof {
        assert(data@.subrange(0, 4) =~= spec_magic()) by {
            assert(data@.subrange(0, 4)[0] == data@[0]);
            assert(data@.subrange(0, 4)[1] == data@[1]);
            assert(data@.subrange(0, 4)[2] == data@[2]);
            assert(data@.subrange(0, 4)[3] == data@[3]);
        }
        assert(graph.wf()) by {
            assert(graph.spec_count() == n);
            assert(graph.vectors@.len() == graph.spec_count() * graph.dim);
            assert forall|t: int| 0 <= t < graph.spec_count() implies graph.valid_neighbors(
                t,
                #[trigger] graph.adjacency@[t]@,
            ) by {
                assert(ser_row_ok(data@, t));
                assert(graph.adjacency@[t]@ == ser_adj_row(data@, t));
                lemma_trim_len(ser_row_words(data@, t));
            }
            assert forall|e2: int| 0 <= e2 < graph.entry_points@.len() implies (
            #[trigger] graph.entry_points@[e2]) < graph.spec_count() by {
                assert(graph.entry_points@[e2] == ser_eps(data@)[e2]);
            }
            assert forall|e1: int, e2: int|
                0 <= e1 < e2 < graph.entry_points@.len() implies graph.entry_points@[e1]
                != graph.entry_points@[e2] by {
                assert(graph.entry_points@[e1] == ser_eps(data@)[e1]);
                assert(graph.entry_points@[e2] == ser_eps(data@)[e2]);
            }
        }
        assert(ser_total(data@) <= data@.len());
        assert(valid_index_bytes(data@));
    }
    Ok(
        InMemoryIndex {
            name: String::new(),
            graph,
            build_complexity: bc,
            alpha_bits,
            quantized: None,
        },
    )
}


impl InMemoryIndex {
    /// The serialized form of this index; infallible, the `Result`
    /// mirrors the write surface it feeds.
    pub fn serialize_to_bytes(&self) -> (r: Result<Vec<u8>, IndexError>)
        requires
            self.wf(),
        ensures
            match r {
                Ok(b) => b@ == spec_serialize(self.graph, self.build_complexity),
                Err(_) => false,
            },
    {
        Ok(write_index(&self.graph, self.build_complexity))
    }
}

/// Saving and loading lose nothing: the serialized form of any
/// well-formed graph is loadable, and every declared field read back
/// from it — dimension, metric, degree bound, build complexity, entry
/// points, every vector word, every adjacency row — is the field the
/// graph had.  Together with the contracts of `serialize_to_bytes`
/// and `from_bytes`, a serialize/deserialize round trip reproduces
/// the index, up to the alpha supplied at deserialization, which the
/// format does not carry.
#[verifier::rlimit(100)]
pub proof fn lemma_serialize_parse_roundtrip(g: Graph, bc: u32)
    requires
        g.wf(),
        g.dim <= u32::MAX as int,
        g.max_degree <= u32::MAX as int,
    ensures
        valid_index_bytes(spec_serialize(g, bc)),
        spec_serialize(g, bc).len() == 32 + 4 * (g.entry_points@.len() + g.spec_count() * g.dim
            + g.spec_count() * g.max_degree),
        ser_count(spec_serialize(g, bc)) == g.spec_count(),
        ser_dim(spec_serialize(g, bc)) == g.dim,
        ser_deg(spec_serialize(g, bc)) == g.max_degree,
        spec_metric_from_u8(ser_metric(spec_serialize(g, bc))) == g.metric,
        ser_bc(spec_serialize(g, bc)) == bc,
        ser_eps(spec_serialize(g, bc)) == g.entry_points@,
        ser_vec_words(spec_serialize(g, bc)) == g.vectors@,
        forall|i: int|
            0 <= i < g.spec_count() ==> ser_adj_row(spec_serialize(g, bc), i)
                == (#[trigger] g.adjacency@[i])@,
{
    let ser = spec_serialize(g, bc);
    let hdr = spec_header(g, bc);
    let body = spec_body_words(g);
    let wb = words_bytes(body);
    let n = g.spec_count();
    let d = g.dim as int;
    let deg = g.max_degree as int;
    lemma_distinct_u32s_bound(g.entry_points@, n);
    let ne = g.entry_points@.len() as int;
    assert(hdr.len() == 32);
    lemma_words_bytes_len(body);
    assert(forall|t: int| 0 <= t < adj_views(g).len() ==> (#[trigger] adj_views(g)[t]).len()
        <= deg);
    lemma_rows_words_len(adj_views(g), deg);
    assert(body.len() == ne + n * d + n * deg);
    assert(ser.len() == 32 + 4 * (ne + n * d + n * deg));

    // Header fields.
    assert(ser.subrange(0, 4) =~= spec_magic()) by {
        assert(ser[0] == hdr[0] && ser[1] == hdr[1] && ser[2] == hdr[2] && ser[3] == hdr[3]);
    }
    assert(le32_at(ser, 4) == VERSION) by {
        lemma_le32_roundtrip(VERSION);
        assert(ser[4] == le32_bytes(VERSION)[0]);
        assert(ser[5] == le32_bytes(VERSION)[1]);
        assert(ser[6] == le32_bytes(VERSION)[2]);
        assert(ser[7] == le32_bytes(VERSION)[3]);
    }
    assert(ser_count(ser) == n as u32) by {
        lemma_le32_roundtrip((n as u32));
        assert(ser[8] == le32_bytes((n as u32))[0]);
        assert(ser[9] == le32_bytes((n as u32))[1]);
        assert(ser[10] == le32_bytes((n as u32))[2]);
        assert(ser[11] == le32_bytes((n as u32))[3]);
    }
    assert(ser_dim(ser) == g.dim as u32) by {
        lemma_le32_roundtrip((g.dim as u32));
        assert(ser[12] == le32_bytes((g.dim as u32))[0]);
        assert(ser[13] == le32_bytes((g.dim as u32))[1]);
        assert(ser[14] == le32_bytes((g.dim as u32))[2]);
        assert(ser[15] == le32_bytes((g.dim as u32))[3]);
    }
    assert(ser_deg(ser) == g.max_degree as u32) by {
        lemma_le32_roundtrip((g.max_degree as u32));
        assert(ser[16] == le32_bytes((g.max_degree as u32))[0]);
        assert(ser[17] == le32_bytes((g.max_degree as u32))[1]);
        assert(ser[18] == le32_bytes((g.max_degree as u32))[2]);
        assert(ser[19] == le32_bytes((g.max_degree as u32))[3]);
    }
    assert(ser_ne(ser) == ne as u32) by {
        lemma_le32_roundtrip((ne as u32));
        assert(ser[20] == le32_bytes((ne as u32))[0]);
        assert(ser[21] == le32_bytes((ne as u32))[1]);
        assert(ser[22] == le32_bytes((ne as u32))[2]);
        assert(ser[23] == le32_bytes((ne as u32))[3]);
    }
    assert(ser_metric(ser) == spec_metric_to_u8(g.metric)) by {
        assert(ser[24] == hdr[24]);
    }
    assert(ser_bc(ser) == bc) by {
        lemma_le32_roundtrip(bc);
        assert(ser[28] == le32_bytes(bc)[0]);
        assert(ser[29] == le32_bytes(bc)[1]);
        assert(ser[30] == le32_bytes(bc)[2]);
        assert(ser[31] == le32_bytes(bc)[3]);
    }

    // Any aligned word after the header is a body word.
    assert forall|x: int| 0 <= x && 4 * x + 4 <= wb.len() implies le32_at(ser, 32 + 4 * x)
        == body[x] by {
        assert(ser[32 + 4 * x] == wb[4 * x]);
        assert(ser[32 + 4 * x + 1] == wb[4 * x + 1]);
        assert(ser[32 + 4 * x + 2] == wb[4 * x + 2]);
        assert(ser[32 + 4 * x + 3] == wb[4 * x + 3]);
        lemma_words_bytes_at(body, x);
    }

    // Entry points.
    assert(ser_eps(ser) =~= g.entry_points@) by {
        assert forall|e: int| 0 <= e < ne implies ser_eps(ser)[e] == g.entry_points@[e] by {
            assert(le32_at(ser, 32 + 4 * e) == body[e]);
            assert(body[e] == g.entry_points@[e]);
        }
    }

    // Vector words.
    assert(ser_vec_off(ser) == 32 + 4 * ne);
    assert(ser_vec_words(ser) =~= g.vectors@) by {
        assert forall|w: int| 0 <= w < n * d implies ser_vec_words(ser)[w] == g.vectors@[w] by {
            assert(ser_vec_words(ser)[w] == le32_at(ser, 32 + 4 * ne + 4 * w));
            assert(32 + 4 * ne + 4 * w == 32 + 4 * (ne + w));
            assert(le32_at(ser, 32 + 4 * (ne + w)) == body[ne + w]);
            assert(body[ne + w] == g.vectors@[w]);
        }
    }

    // Adjacency rows.
    assert(ser_adj_off(ser) == 32 + 4 * (ne + n * d));
    assert forall|i: int| 0 <= i < n implies ser_adj_row(ser, i) == (
    #[trigger] g.adjacency@[i])@ by {
        let rowseq = g.adjacency@[i]@;
        assert(g.valid_neighbors(i, rowseq));
        assert(ser_row_words(ser, i) =~= padded_row(rowseq, deg)) by {
            assert forall|j: int| 0 <= j < deg implies ser_row_words(ser, i)[j] == padded_row(
                rowseq,
                deg,
            )[j] by {
                assert(ser_row_words(ser, i)[j] == le32_at(
                    ser,
                    ser_adj_off(ser) + 4 * (i * deg + j),
                ));
                assert(0 <= i * deg + j && i * deg + j + 1 <= n * deg) by (nonlinear_arith)
                    requires
                        0 <= i < n && 0 <= j < deg,
                ;
                assert(ser_adj_off(ser) + 4 * (i * deg + j) == 32 + 4 * (ne + n * d + (i * deg
                    + j)));
                assert(le32_at(ser, 32 + 4 * (ne + n * d + (i * deg + j))) == body[ne + n * d + (i
                    * deg + j)]);
                lemma_rows_words_at(adj_views(g), deg, i, j);
                assert(body[ne + n * d + (i * deg + j)] == rows_words(adj_views(g), deg)[i * deg
                    + j]);
                assert(adj_views(g)[i] == rowseq);
            }
        }
        assert(forall|t: int| 0 <= t < rowseq.len() ==> (#[trigger] rowseq[t]) != SENTINEL);
        lemma_trim_padded(rowseq, deg);
    }

    // The whole is loadable.
    assert(ser_total(ser) == ser.len());
    assert(valid_index_bytes(ser)) by {
        assert forall|e: int| 0 <= e < ser_eps(ser).len() implies (#[trigger] ser_eps(ser)[e])
            < ser_count(ser) by {
            assert(ser_eps(ser)[e] == g.entry_points@[e]);
        }
        assert forall|i: int| 0 <= i < ser_count(ser) implies ser_row_ok(ser, i) by {
            assert(ser_adj_row(ser, i) == g.adjacency@[i]@);
            assert(g.valid_neighbors(i, g.adjacency@[i]@));
        }
    }
}


/// The parsed fixed header of a serialized index, and the segment
/// layout it implies.
#[derive(Clone, Copy, Debug)]
pub struct FileHeader {
    pub num_vectors: u32,
    pub dimension: u32,
    pub max_degree: u32,
    pub num_entry_points: u32,
    pub metric: u8,
    pub build_complexity: u32,
}

impl FileHeader {
    pub open spec fn spec_entry_points_size(&self) -> int {
        4 * self.num_entry_points
    }

    pub open spec fn spec_vectors_size(&self) -> int {
        4 * (self.num_vectors * self.dimension)
    }

    pub open spec fn spec_adjacency_size(&self) -> int {
        4 * (self.num_vectors * self.max_degree)
    }

    pub open spec fn spec_total_file_size(&self) -> int {
        32 + self.spec_entry_points_size() + self.spec_vectors_size() + self.spec_adjacency_size()
    }

    /// The entry-point segment starts right after the header.
    pub fn entry_points_offset(&self) -> (r: usize)
        ensures
            r == 32,
    {
        HEADER_SIZE
    }

    pub fn entry_points_size(&self) -> (r: usize)
        requires
            self.spec_entry_points_size() <= usize::MAX as int,
        ensures
            r == self.spec_entry_points_size(),
    {
        self.num_entry_points as usize * 4
    }

    pub fn vectors_offset(&self) -> (r: usize)
        requires
            32 + self.spec_entry_points_size() <= usize::MAX as int,
        ensures
            r == 32 + self.spec_entry_points_size(),
    {
        self.entry_points_offset() + self.entry_points_size()
    }

    pub fn vectors_size(&self) -> (r: usize)
        requires
            self.spec_vectors_size() <= usize::MAX as int,
        ensures
            r == self.spec_vectors_size(),
    {
        proof {
            assert((self.num_vectors as int) * (self.dimension as int) * 4 == 4 * ((
            self.num_vectors as int) * (self.dimension as int))) by (nonlinear_arith);
            assert((self.num_vectors as int) * (self.dimension as int) >= 0) by (nonlinear_arith);
        }
        self.num_vectors as usize * self.dimension as usize * 4
    }

    pub fn adjacency_offset(&self) -> (r: usize)
        requires
            32 + self.spec_entry_points_size() + self.spec_vectors_size() <= usize::MAX as int,
        ensures
            r == 32 + self.spec_entry_points_size() + self.spec_vectors_size(),
    {
        self.vectors_offset() + self.vectors_size()
    }

    pub fn adjacency_size(&self) -> (r: usize)
        requires
            self.spec_adjacency_size() <= usize::MAX as int,
        ensures
            r == self.spec_adjacency_size(),
    {
        proof {
            assert((self.num_vectors as int) * (self.max_degree as int) * 4 == 4 * ((
            self.num_vectors as int) * (self.max_degree as int))) by (nonlinear_arith);
            assert((self.num_vectors as int) * (self.max_degree as int) >= 0) by (nonlinear_arith);
        }
        self.num_vectors as usize * self.max_degree as usize * 4
    }

    pub fn total_file_size(&self) -> (r: usize)
        requires
            self.spec_total_file_size() <= usize::MAX as int,
        ensures
            r == self.spec_total_file_size(),
    {
        self.adjacency_offset() + self.adjacency_size()
    }

    /// The metric the header byte denotes; unknown bytes read as L2.
    pub fn metric_enum(&self) -> (r: Metric)
        ensures
            r == spec_metric_from_u8(self.metric),
    {
        if self.metric == 1 {
            Metric::InnerProduct
        } else {
            Metric::L2
        }
    }
}

} // verus!
