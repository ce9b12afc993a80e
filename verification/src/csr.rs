//! The header of a sparse feature archive: the bytes `BCSR`, a format
//! version, the sample count, the feature width and the number of stored
//! entries, laid out as a C struct on a little-endian machine (24 bytes).

use vstd::prelude::*;

verus! {

/// The header of a sparse feature archive.
#[derive(Clone, Copy, Debug)]
pub struct CsrHeader {
    pub magic: [u8; 4],
    pub version: u32,
    pub num_samples: u32,
    pub feature_dim: u32,
    pub total_nnz: u64,
}

/// Byte `i` (from the least significant) of `v`.
pub open spec fn le_byte(v: u64, i: int) -> u8 {
    ((v >> (8 * i) as u64) & 0xff) as u8
}

/// The `n` low bytes of `v`, least significant first.
pub open spec fn le_bytes(v: u64, n: nat) -> Seq<u8> {
    Seq::new(n, |i: int| le_byte(v, i))
}

/// The bytes of a header as it lies in memory.
pub open spec fn header_bytes(h: CsrHeader) -> Seq<u8> {
    h.magic@ + le_bytes(h.version as u64, 4) + le_bytes(h.num_samples as u64, 4) + le_bytes(
        h.feature_dim as u64,
        4,
    ) + le_bytes(h.total_nnz, 8)
}

/// Appends the `n` low bytes of `v`, least significant first.
fn push_le(out: &mut Vec<u8>, v: u64, n: usize)
    requires
        n <= 8,
    ensures
        final(out)@ == old(out)@ + le_bytes(v, n as nat),
{
    let ghost start = out@;
    let mut i: usize = 0;
    while i < n
        invariant
            0 <= i <= n <= 8,
            out@ == start + le_bytes(v, i as nat),
        decreases n - i,
    {
        let shift: u64 = 8 * i as u64;
        let byte = ((v >> shift) & 0xff) as u8;
        out.push(byte);
        i += 1;
        assert(out@ =~= start + le_bytes(v, i as nat));
    }
}

impl CsrHeader {
    /// The header of an archive of the current format (version 1).
    pub fn new(num_samples: u32, feature_dim: u32, total_nnz: u64) -> (r: CsrHeader)
        ensures
            r.magic@ == seq![66u8, 67u8, 83u8, 82u8],
            r.version == 1,
            r.num_samples == num_samples,
            r.feature_dim == feature_dim,
            r.total_nnz == total_nnz,
    {
        let r = CsrHeader { magic: [66u8, 67u8, 83u8, 82u8], version: 1, num_samples, feature_dim, total_nnz };
        assert(r.magic@ =~= seq![66u8, 67u8, 83u8, 82u8]);
        r
    }

    /// The 24 bytes of the header as written at the start of an archive.
    pub fn to_bytes(&self) -> (r: Vec<u8>)
        ensures
            r@ == header_bytes(*self),
            r@.len() == 24,
    {
        let mut out: Vec<u8> = Vec::new();
        let mut i: usize = 0;
        while i < 4
            invariant
                0 <= i <= 4,
                out@ == self.magic@.subrange(0, i as int),
            decreases 4 - i,
        {
            out.push(self.magic[i]);
            i += 1;
            assert(out@ =~= self.magic@.subrange(0, i as int));
        }
        assert(out@ =~= self.magic@);
        push_le(&mut out, self.version as u64, 4);
        push_le(&mut out, self.num_samples as u64, 4);
        push_le(&mut out, self.feature_dim as u64, 4);
        push_le(&mut out, self.total_nnz, 8);
        out
    }
}

/// The nonzero features among the first `n` of `f`: their indices and
/// their values, in order.
pub open spec fn sparse_spec(f: Seq<i16>, n: int) -> (Seq<u16>, Seq<i16>)
    decreases n,
{
    if n <= 0 {
        (Seq::empty(), Seq::empty())
    } else {
        let (ix, vs) = sparse_spec(f, n - 1);
        if f[n - 1] != 0 {
            (ix.push((n - 1) as u16), vs.push(f[n - 1]))
        } else {
            (ix, vs)
        }
    }
}

/// A feature vector in sparse form: the indices of its nonzero features
/// and their values (see `sparse_spec`).
pub fn features_to_sparse(features: &[i16; 436]) -> (r: (Vec<u16>, Vec<i16>))
    ensures
        (r.0@, r.1@) == sparse_spec(features@, 436),
{
    let mut indices: Vec<u16> = Vec::new();
    let mut values: Vec<i16> = Vec::new();
    let mut i: usize = 0;
    while i < 436
        invariant
            0 <= i <= 436,
            (indices@, values@) == sparse_spec(features@, i as int),
        decreases 436 - i,
    {
        let v = features[i];
        if v != 0 {
            indices.push(i as u16);
            values.push(v);
        }
        i += 1;
    }
    (indices, values)
}

} // verus!
