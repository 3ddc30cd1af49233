//! The deterministic embedder: fixed-dimension vectors derived from BLAKE3
//! digests, for offline use when no embedding model is configured.
use vstd::prelude::*;
use crate::claims::{blake3_digest, blake3_hash};

verus! {

/// Hash-derived embeddings of a fixed dimension.
#[derive(Debug, Clone)]
pub struct DeterministicEmbedder {
    dim: usize,
}

impl DeterministicEmbedder {
    /// The dimension of the vectors.
    pub closed spec fn spec_dim(&self) -> nat {
        self.dim as nat
    }

    /// An embedder producing vectors of `dim` components.
    pub fn new(dim: usize) -> (r: Self)
        ensures
            r.spec_dim() == dim,
    {
        DeterministicEmbedder { dim }
    }

    /// The dimension of the vectors.
    pub fn dim(&self) -> (r: usize)
        ensures
            r == self.spec_dim(),
    {
        self.dim
    }

    /// The model name the vectors are recorded under.
    pub fn model_id(&self) -> (r: &'static str)
        ensures
            r@ == "memora/deterministic"@,
    {
        "memora/deterministic"
    }

    /// The raw components of the embedding of `text` (see `embedding_words`);
    /// each maps to a float as `w / u32::MAX * 2 - 1`.
    pub fn embed_words(&self, text: &str) -> (r: Vec<u32>)
        requires
            self.spec_dim() <= usize::MAX / 4,
        ensures
            r@ == embedding_words(vstd::utf8::encode_utf8(text@), self.spec_dim()),
    {
        embedding_words_of(text.as_bytes(), self.dim)
    }
}

/// The digest of `seed`, extended `rounds` times by appending the digest of
/// everything so far.
pub open spec fn digest_chain(seed: Seq<u8>, rounds: nat) -> Seq<u8>
    decreases rounds,
{
    if rounds == 0 {
        blake3_digest(seed)
    } else {
        let prev = digest_chain(seed, (rounds - 1) as nat);
        prev + blake3_digest(prev)
    }
}

/// Extensions needed before the chain holds `need` bytes.
pub open spec fn rounds_for(need: nat) -> nat {
    if need == 0 {
        0
    } else {
        ((need - 1) / 32) as nat
    }
}

/// The little-endian 32-bit word at position `k` of `b`.
pub open spec fn le_word(b: Seq<u8>, k: int) -> u32 {
    (b[4 * k] + 256 * b[4 * k + 1] + 65536 * b[4 * k + 2] + 16777216 * b[4 * k + 3]) as u32
}

/// The words of the embedding of the bytes `seed`: the first `dim`
/// little-endian words of the digest chain long enough to hold them.
pub open spec fn embedding_words(seed: Seq<u8>, dim: nat) -> Seq<u32> {
    let b = digest_chain(seed, rounds_for(4 * dim));
    Seq::new(dim, |k: int| le_word(b, k))
}

/// The words of the embedding of `seed` (see `embedding_words`).
fn embedding_words_of(seed: &[u8], dim: usize) -> (r: Vec<u32>)
    requires
        dim <= usize::MAX / 4,
    ensures
        r@ == embedding_words(seed@, dim as nat),
{
    let need = dim * 4;
    let mut bytes = blake3_hash(seed);
    let ghost mut rounds: nat = 0;
    while bytes.len() < need
        invariant
            need == dim * 4,
            bytes@ == digest_chain(seed@, rounds),
            bytes@.len() == 32 * (rounds + 1),
            rounds == 0 || 32 * rounds < need,
            need <= usize::MAX,
        decreases need + 32 - bytes@.len(),
    {
        let ghost before = bytes@.len();
        let mut next = blake3_hash(bytes.as_slice());
        bytes.append(&mut next);
        assert(bytes@.len() == before + 32);
        proof {
            rounds = rounds + 1;
            assert(bytes@ == digest_chain(seed@, rounds));
        }
    }
    proof {
        let n = need as nat;
        let r = rounds;
        assert(r == rounds_for(n)) by (nonlinear_arith)
            requires
                32 * (r + 1) >= n,
                r == 0 || 32 * r < n,
                rounds_for(n) == (if n == 0 {
                    0
                } else {
                    ((n - 1) / 32) as nat
                }),
        {
        }
    }
    let ghost b = bytes@;
    let mut out: Vec<u32> = Vec::new();
    let mut k: usize = 0;
    while k < dim
        invariant
            k <= dim,
            dim <= usize::MAX / 4,
            b == bytes@,
            4 * dim <= b.len(),
            out@.len() == k,
            forall|j: int| 0 <= j < k ==> out@[j] == le_word(b, j),
        decreases dim - k,
    {
        let i = 4 * k;
        let w: u32 = (bytes[i] as u32) + (bytes[i + 1] as u32) * 256 + (bytes[i + 2] as u32) * 65536
            + (bytes[i + 3] as u32) * 16777216;
        out.push(w);
        k = k + 1;
    }
    proof {
        assert(out@ =~= embedding_words(seed@, dim as nat));
    }
    out
}

} // verus!
