//! SQ8 scalar-quantized storage: one byte per coordinate, with
//! per-dimension affine parameters.
//!
//! The parameters are held as raw 32-bit words; computing them from
//! the stored rows, and decoding a byte back into a coordinate, is
//! arithmetic on the embedding's value type and is done by the caller
//! that owns that interpretation.  Here the codes and parameters are
//! stored, shaped, and served.

use vstd::prelude::*;

verus! {

/// Per-dimension quantization parameters: an offset and a scale for
/// each of the `dim` coordinates, as raw words.
#[derive(Debug)]
pub struct SQ8Params {
    pub min_bits: Vec<u32>,
    pub scale_bits: Vec<u32>,
}

/// The quantized companion store: row-major codes, one byte per
/// coordinate, covering a prefix of the full-precision rows.
#[derive(Debug)]
pub struct Sq8Store {
    pub data: Vec<u8>,
    pub params: SQ8Params,
}

impl Sq8Store {
    /// Shape agreement with an index of `dim`-wide rows, `count` of
    /// them present: whole rows only, never more rows than exist, and
    /// one parameter pair per dimension.
    pub open spec fn wf(&self, dim: int, count: int) -> bool {
        &&& self.data@.len() % (dim as nat) == 0
        &&& self.data@.len() <= count * dim
        &&& self.params.min_bits@.len() == dim
        &&& self.params.scale_bits@.len() == dim
    }

    /// The number of rows the quantized store covers.
    pub open spec fn covered(&self, dim: int) -> int {
        self.data@.len() as int / dim
    }

    /// The codes of quantized row `i`.
    pub open spec fn code_row(&self, dim: int, i: int) -> Seq<u8> {
        self.data@.subrange(i * dim, i * dim + dim)
    }
}

} // verus!
