//! Cache keys: the XXH64 digest of the text `{host}:{port}{path}`.
use vstd::prelude::*;
use vstd::utf8::{encode_utf8, encode_utf8_decode_utf8};

verus! {

/// The XXH64 digest of `input` under `seed`.
pub uninterp spec fn xxh64_of(input: Seq<u8>, seed: u64) -> u64;

/// Relies on `xxhash_rust::xxh64::xxh64`: the XXH64 digest of `input` under
/// `seed`, which depends on its arguments alone.
pub assume_specification[ xxhash_rust::xxh64::xxh64 ](input: &[u8], seed: u64) -> (r: u64)
    ensures
        r == xxh64_of(input@, seed),
;

/// The ASCII decimal digits of `n`, without leading zeros.
pub open spec fn decimal_bytes(n: nat) -> Seq<u8>
    decreases n,
{
    if n < 10 {
        seq![(48 + n) as u8]
    } else {
        decimal_bytes(n / 10).push((48 + n % 10) as u8)
    }
}

/// The UTF-8 text `{host}:{port}{path}` that a cache key digests.
pub open spec fn cache_key_text(host: Seq<char>, port: u16, path: Seq<char>) -> Seq<u8> {
    encode_utf8(host) + seq![58u8] + decimal_bytes(port as nat) + encode_utf8(path)
}

/// The cache key of `(host, port, path)`.
pub open spec fn spec_cache_key(host: Seq<char>, port: u16, path: Seq<char>) -> u64 {
    xxh64_of(cache_key_text(host, port, path), 0)
}

/// Appends the bytes `b` to `out`.
pub fn append_slice(out: &mut Vec<u8>, b: &[u8])
    ensures
        final(out)@ == old(out)@ + b@,
{
    let mut i: usize = 0;
    while i < b.len()
        invariant
            0 <= i <= b@.len(),
            out@ == old(out)@ + b@.subrange(0, i as int),
        decreases b@.len() - i,
    {
        out.push(b[i]);
        assert(b@.subrange(0, i + 1) =~= b@.subrange(0, i as int).push(b@[i as int]));
        assert(out@ =~= old(out)@ + b@.subrange(0, i + 1));
        i += 1;
    }
    assert(b@.subrange(0, i as int) =~= b@);
}

fn push_decimal(out: &mut Vec<u8>, n: u64)
    ensures
        final(out)@ == old(out)@ + decimal_bytes(n as nat),
    decreases n,
{
    let ghost start = out@;
    if n >= 10 {
        push_decimal(out, n / 10);
    }
    out.push((48 + n % 10) as u8);
    proof {
        if n >= 10 {
            assert(out@ =~= start + decimal_bytes(n as nat));
        } else {
            assert(out@ =~= start + decimal_bytes(n as nat));
        }
    }
}

/// The cache key of `(host, port, path)`: the XXH64 digest, with seed 0, of
/// the text `{host}:{port}{path}`.
pub fn create_cache_key(host: &str, port: u16, path: &str) -> (r: u64)
    ensures
        r == spec_cache_key(host@, port, path@),
{
    let mut text: Vec<u8> = Vec::new();
    append_slice(&mut text, host.as_bytes());
    text.push(58u8);
    push_decimal(&mut text, port as u64);
    append_slice(&mut text, path.as_bytes());
    assert(text@ =~= cache_key_text(host@, port, path@));
    xxhash_rust::xxh64::xxh64(text.as_slice(), 0)
}

proof fn lemma_decimal_len(n: nat)
    ensures
        decimal_bytes(n).len() >= 1,
        n >= 10 ==> decimal_bytes(n).len() >= 2,
    decreases n,
{
    if n >= 10 {
        lemma_decimal_len(n / 10);
    }
}

proof fn lemma_decimal_injective(a: nat, b: nat)
    requires
        decimal_bytes(a) == decimal_bytes(b),
    ensures
        a == b,
    decreases a,
{
    lemma_decimal_len(a);
    lemma_decimal_len(b);
    let da = decimal_bytes(a);
    if a < 10 && b < 10 {
        assert(da[0] == decimal_bytes(b)[0]);
    } else if a >= 10 && b >= 10 {
        assert(decimal_bytes(a / 10) =~= da.drop_last());
        assert(decimal_bytes(b / 10) =~= decimal_bytes(b).drop_last());
        lemma_decimal_injective(a / 10, b / 10);
        assert(da.last() == decimal_bytes(b).last());
    }
}

/// A cache key depends on the text `{host}:{port}{path}` alone: equal texts
/// give equal keys.
pub proof fn lemma_cache_key_deterministic(
    host_a: Seq<char>,
    port_a: u16,
    path_a: Seq<char>,
    host_b: Seq<char>,
    port_b: u16,
    path_b: Seq<char>,
)
    requires
        cache_key_text(host_a, port_a, path_a) == cache_key_text(host_b, port_b, path_b),
    ensures
        spec_cache_key(host_a, port_a, path_a) == spec_cache_key(host_b, port_b, path_b),
{
}

/// Changing any one of host, port or path, the other two held fixed, changes
/// the text that the key digests; the keys then differ unless XXH64 collides.
pub proof fn lemma_cache_key_text_separates(
    host: Seq<char>,
    port: u16,
    path: Seq<char>,
    other_host: Seq<char>,
    other_port: u16,
    other_path: Seq<char>,
)
    ensures
        host != other_host ==> cache_key_text(host, port, path) != cache_key_text(
            other_host,
            port,
            path,
        ),
        port != other_port ==> cache_key_text(host, port, path) != cache_key_text(
            host,
            other_port,
            path,
        ),
        path != other_path ==> cache_key_text(host, port, path) != cache_key_text(
            host,
            port,
            other_path,
        ),
{
    let tail = seq![58u8] + decimal_bytes(port as nat) + encode_utf8(path);
    if host != other_host && cache_key_text(host, port, path) == cache_key_text(
        other_host,
        port,
        path,
    ) {
        let t = cache_key_text(host, port, path);
        assert(t =~= encode_utf8(host) + tail);
        assert(cache_key_text(other_host, port, path) =~= encode_utf8(other_host) + tail);
        assert(encode_utf8(host) =~= t.subrange(0, encode_utf8(host).len() as int));
        assert(encode_utf8(other_host) =~= t.subrange(0, encode_utf8(other_host).len() as int));
        encode_utf8_decode_utf8(host);
        encode_utf8_decode_utf8(other_host);
    }
    let head = encode_utf8(host) + seq![58u8];
    if port != other_port && cache_key_text(host, port, path) == cache_key_text(
        host,
        other_port,
        path,
    ) {
        let t = cache_key_text(host, port, path);
        let d1 = decimal_bytes(port as nat);
        let d2 = decimal_bytes(other_port as nat);
        assert(t =~= head + d1 + encode_utf8(path));
        assert(cache_key_text(host, other_port, path) =~= head + d2 + encode_utf8(path));
        assert(d1 =~= t.subrange(head.len() as int, head.len() + d1.len() as int));
        assert(d2 =~= t.subrange(head.len() as int, head.len() + d2.len() as int));
        lemma_decimal_injective(port as nat, other_port as nat);
    }
    if path != other_path && cache_key_text(host, port, path) == cache_key_text(
        host,
        port,
        other_path,
    ) {
        let t = cache_key_text(host, port, path);
        let front = head + decimal_bytes(port as nat);
        assert(t =~= front + encode_utf8(path));
        assert(cache_key_text(host, port, other_path) =~= front + encode_utf8(other_path));
        assert(encode_utf8(path) =~= t.subrange(front.len() as int, t.len() as int));
        assert(encode_utf8(other_path) =~= t.subrange(front.len() as int, t.len() as int));
        encode_utf8_decode_utf8(path);
        encode_utf8_decode_utf8(other_path);
    }
}

} // verus!
