//! The size of LLM inference state, in whole numbers.

use vstd::prelude::*;

verus! {

/// Bytes of transcript text per token, for sizing what a fresh anchor has to
/// be given before it can rebuild a conversation. Stated, and small: a
/// 32k-token transcript is a tenth of a megabyte.
pub const TRANSCRIPT_BYTES_PER_TOKEN: usize = 4;

/// Per-token key/value-cache shape of a transformer model: for every token
/// processed, each layer stores a key and a value vector per KV head.
///
/// The reference model is the 70-billion-parameter class: 80 layers and
/// grouped-query attention, 64 query heads sharing 8 key/value heads of 128
/// numbers each. Only the key/value heads are cached.
#[derive(Debug, Clone, Copy)]
pub struct KvCacheModel {
    pub layers: usize,
    /// Heads that ask: each forms a query from the new token. Not cached.
    pub query_heads: usize,
    /// Heads that are cached. `query_heads` must be a whole multiple of this.
    pub kv_heads: usize,
    pub head_dim: usize,
    pub bytes_per_value: usize,
}

/// `2·a·b·c·d`, multiplied left to right, never passes `usize::MAX` on the way.
pub open spec fn product_fits(a: nat, b: nat, c: nat, d: nat) -> bool {
    &&& 2 * a <= usize::MAX
    &&& 2 * a * b <= usize::MAX
    &&& 2 * a * b * c <= usize::MAX
    &&& 2 * a * b * c * d <= usize::MAX
}

impl KvCacheModel {
    /// Query heads sharing each cached key/value head (grouped-query attention).
    pub fn queries_per_kv_head(&self) -> (r: usize)
        requires
            self.kv_heads > 0,
        ensures
            r == self.query_heads / self.kv_heads,
    {
        self.query_heads / self.kv_heads
    }

    /// Bytes of KV cache appended per token of context: a key and a value
    /// per layer and cached head.
    pub fn cached_bytes_per_token(&self) -> (r: usize)
        requires
            product_fits(self.layers as nat, self.kv_heads as nat, self.head_dim as nat, self.bytes_per_value as nat),
        ensures
            r == 2 * self.layers * self.kv_heads * self.head_dim * self.bytes_per_value,
    {
        2 * self.layers * self.kv_heads * self.head_dim * self.bytes_per_value
    }

    /// Bytes per token the cache would take if every query head kept keys
    /// and values of its own: the footprint grouped-query attention avoids.
    pub fn unshared_cached_bytes_per_token(&self) -> (r: usize)
        requires
            product_fits(self.layers as nat, self.query_heads as nat, self.head_dim as nat, self.bytes_per_value as nat),
        ensures
            r == 2 * self.layers * self.query_heads * self.head_dim * self.bytes_per_value,
    {
        2 * self.layers * self.query_heads * self.head_dim * self.bytes_per_value
    }
}

/// Grouped-query attention saves exactly its sharing factor: with the query
/// heads a whole multiple of the cached heads, the footprint without sharing
/// is the cached footprint times the query heads per cached head.
pub proof fn lemma_sharing_saves_its_factor(m: KvCacheModel)
    requires
        m.kv_heads > 0,
        m.query_heads % m.kv_heads == 0,
    ensures
        2 * m.layers * m.query_heads * m.head_dim * m.bytes_per_value == (2 * m.layers * m.kv_heads * m.head_dim
            * m.bytes_per_value) * (m.query_heads / m.kv_heads),
{
    let q = m.query_heads as int;
    let k = m.kv_heads as int;
    vstd::arithmetic::div_mod::lemma_fundamental_div_mod(q, k);
    let g = q / k;
    assert(q == k * g);
    let l = m.layers as int;
    let h = m.head_dim as int;
    let b = m.bytes_per_value as int;
    assert(2 * l * q * h * b == (2 * l * k * h * b) * g) by (nonlinear_arith)
        requires
            q == k * g,
    ;
}

} // verus!
