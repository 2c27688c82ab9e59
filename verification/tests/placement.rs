use terminus::placement::{KvCacheModel, TRANSCRIPT_BYTES_PER_TOKEN};

fn llama_70b() -> KvCacheModel {
    KvCacheModel {
        layers: 80,
        query_heads: 64,
        kv_heads: 8,
        head_dim: 128,
        bytes_per_value: 2,
    }
}

#[test]
fn transcript_is_a_tenth_of_a_megabyte() {
    // What a fresh anchor is given is text, not working memory: 32k
    // tokens of it is 131 kB against 10.7 GB of KV cache.
    let bytes = 32_768.0 * TRANSCRIPT_BYTES_PER_TOKEN as f64;
    assert_eq!(bytes, 131_072.0);
    assert!(bytes < 1e-3 * 1.0737e10);
}

#[test]
fn eight_query_heads_share_each_cached_head() {
    assert_eq!(llama_70b().queries_per_kv_head(), 8);
}

#[test]
fn a_token_costs_three_hundred_twenty_kibibytes_of_cache() {
    let m = llama_70b();
    assert_eq!(m.cached_bytes_per_token(), 327_680);
    assert_eq!(m.unshared_cached_bytes_per_token(), 2_621_440);
    assert_eq!(
        m.unshared_cached_bytes_per_token(),
        m.cached_bytes_per_token() * m.queries_per_kv_head()
    );
}

#[test]
fn uneven_sharing_rounds_down() {
    let m = KvCacheModel {
        layers: 1,
        query_heads: 10,
        kv_heads: 4,
        head_dim: 1,
        bytes_per_value: 1,
    };
    assert_eq!(m.queries_per_kv_head(), 2);
}
