//! Embeddings and their storage form: each 32-bit float of the vector as
//! four little-endian bytes.
use vstd::prelude::*;

verus! {

/// An embedding: the bit patterns of its 32-bit float components, the model
/// that made it, and its number of dimensions.
#[derive(Clone, Debug)]
pub struct Embedding {
    pub vector: Vec<u32>,
    pub model_id: String,
    pub dimensions: usize,
}

/// Byte `k` (0 = least significant) of `x`.
pub open spec fn byte_of(x: u32, k: int) -> u8 {
    ((x as int / pow256(k)) % 256) as u8
}

/// `256` to the power `k`, for `k < 4`.
pub open spec fn pow256(k: int) -> int {
    if k <= 0 {
        1
    } else if k == 1 {
        256
    } else if k == 2 {
        65536
    } else {
        16777216
    }
}

/// The little-endian bytes of the components of `v`, four per component.
pub open spec fn le_bytes(v: Seq<u32>) -> Seq<u8> {
    Seq::new(4 * v.len(), |i: int| byte_of(v[i / 4], i % 4))
}

/// The components that the little-endian byte groups of `b` stand for.
pub open spec fn from_le_bytes(b: Seq<u8>) -> Seq<u32> {
    Seq::new(
        b.len() / 4,
        |i: int|
            (b[4 * i] as int + 256 * b[4 * i + 1] as int + 65536 * b[4 * i + 2] as int + 16777216
                * b[4 * i + 3] as int) as u32,
    )
}

impl Embedding {
    /// The vector has `dimensions` components.
    pub open spec fn wf(&self) -> bool {
        self.vector@.len() == self.dimensions
    }

    /// An embedding of the given components.
    pub fn new(vector: Vec<u32>, model_id: String) -> (r: Embedding)
        ensures
            r.wf(),
            r.vector@ == vector@,
            r.model_id == model_id,
    {
        let dimensions = vector.len();
        Embedding { vector, model_id, dimensions }
    }

    /// The storage form of the vector: four little-endian bytes per component.
    pub fn to_blob(&self) -> (r: Vec<u8>)
        requires
            self.vector@.len() * 4 <= usize::MAX,
        ensures
            r@ == le_bytes(self.vector@),
    {
        let mut out: Vec<u8> = Vec::new();
        let mut i: usize = 0;
        while i < self.vector.len()
            invariant
                0 <= i <= self.vector@.len(),
                self.vector@.len() * 4 <= usize::MAX,
                out@ == le_bytes(self.vector@.subrange(0, i as int)),
            decreases self.vector@.len() - i,
        {
            let x = self.vector[i];
            let ghost before = out@;
            out.push((x % 256) as u8);
            out.push(((x / 256) % 256) as u8);
            out.push(((x / 65536) % 256) as u8);
            out.push(((x / 16777216) % 256) as u8);
            proof {
                let v = self.vector@.subrange(0, i as int + 1);
                assert forall|j: int| 0 <= j < 4 * v.len() implies #[trigger] out@[j] == byte_of(
                    v[j / 4],
                    j % 4,
                ) by {
                    if j < 4 * i {
                        assert(v[j / 4] == self.vector@.subrange(0, i as int)[j / 4]);
                    } else {
                        assert(v[j / 4] == x);
                    }
                }
                assert(out@ =~= le_bytes(v));
            }
            i = i + 1;
        }
        assert(self.vector@.subrange(0, self.vector@.len() as int) =~= self.vector@);
        out
    }

    /// The embedding stored as `blob`, where its length is a multiple of four.
    pub fn from_blob(blob: &Vec<u8>, model_id: String) -> (r: Option<Embedding>)
        ensures
            r is Some <==> blob@.len() % 4 == 0,
            r matches Some(e) ==> e.wf() && e.vector@ == from_le_bytes(blob@) && e.model_id
                == model_id && e.dimensions == blob@.len() / 4,
    {
        if blob.len() % 4 != 0 {
            return None;
        }
        let bl = blob.len();
        let n = bl / 4;
        let mut v: Vec<u32> = Vec::new();
        let mut i: usize = 0;
        while i < n
            invariant
                bl == blob@.len(),
                n == blob@.len() / 4,
                blob@.len() % 4 == 0,
                0 <= i <= n,
                v@ == from_le_bytes(blob@).subrange(0, i as int),
            decreases n - i,
        {
            assert(4 * i + 3 < blob@.len()) by (nonlinear_arith)
                requires
                    i < n,
                    n == blob@.len() / 4,
                    blob@.len() % 4 == 0,
            ;
            let b0 = blob[4 * i] as u32;
            let b1 = blob[4 * i + 1] as u32;
            let b2 = blob[4 * i + 2] as u32;
            let b3 = blob[4 * i + 3] as u32;
            let x = b0 + 256 * b1 + 65536 * b2 + 16777216 * b3;
            v.push(x);
            assert(v@ =~= from_le_bytes(blob@).subrange(0, i as int + 1));
            i = i + 1;
        }
        assert(v@ =~= from_le_bytes(blob@));
        Some(Embedding::new(v, model_id))
    }
}

/// The stored form of an embedding has four bytes per component, and the
/// number of components is the embedding's dimensions; decoding it gives the
/// components back.
pub proof fn lemma_blob_length(e: Embedding)
    requires
        e.wf(),
    ensures
        le_bytes(e.vector@).len() == 4 * e.vector@.len(),
        e.vector@.len() == e.dimensions,
        from_le_bytes(le_bytes(e.vector@)) == e.vector@,
{
    let v = e.vector@;
    let b = le_bytes(v);
    assert forall|i: int| 0 <= i < v.len() implies #[trigger] from_le_bytes(b)[i] == v[i] by {
        let x = v[i] as int;
        assert((4 * i) / 4 == i && (4 * i) % 4 == 0);
        assert((4 * i + 1) / 4 == i && (4 * i + 1) % 4 == 1);
        assert((4 * i + 2) / 4 == i && (4 * i + 2) % 4 == 2);
        assert((4 * i + 3) / 4 == i && (4 * i + 3) % 4 == 3);
        assert(x % 256 + 256 * ((x / 256) % 256) + 65536 * ((x / 65536) % 256) + 16777216 * ((x
            / 16777216) % 256) == x) by (nonlinear_arith)
            requires
                0 <= x < 0x1_0000_0000,
        ;
    }
    assert(from_le_bytes(b) =~= v);
}

} // verus!
