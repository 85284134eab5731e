//! Node hashing, the length header, and the shape of the tree.

use vstd::arithmetic::power2::{
    lemma2_to64, lemma_pow2_adds, lemma_pow2_pos, lemma_pow2_strictly_increases, lemma_pow2_unfold,
    pow2,
};
use vstd::prelude::*;

verus! {

/// Bytes of plaintext in a full chunk.
pub const CHUNK_SIZE: usize = 4096;

/// Bytes in a node hash.
pub const HASH_SIZE: usize = 32;

/// Bytes in a parent node: the left hash followed by the right hash.
pub const PARENT_SIZE: usize = 64;

/// Bytes in the length header that starts every encoding.
pub const HEADER_SIZE: usize = 8;

/// Height of the tallest tree that a 64-bit content length allows.
pub const MAX_DEPTH: usize = 52;

/// A node hash.
pub type Hash = [u8; 32];

/// Tells a node hash whether its node is the root of the whole tree.
#[derive(Clone, Copy, Debug, PartialEq, Eq, Structural)]
pub enum Finalization {
    NotRoot,
    Root(u64),
}

/// What BLAKE2b returns, with a 32-byte digest and the tree parameters that
/// this library uses, on `input` with the given leaf length and last-node flag.
pub uninterp spec fn blake2b_tree_of(input: Seq<u8>, max_leaf_length: u32, last_node: bool) -> Hash;

/// The eight little-endian bytes of `n`.
pub open spec fn le_bytes(n: u64) -> Seq<u8> {
    seq![
        n as u8,
        (n >> 8u64) as u8,
        (n >> 16u64) as u8,
        (n >> 24u64) as u8,
        (n >> 32u64) as u8,
        (n >> 40u64) as u8,
        (n >> 48u64) as u8,
        (n >> 56u64) as u8,
    ]
}

/// The number whose little-endian bytes are the first eight of `b`.
pub open spec fn le_value(b: Seq<u8>) -> u64
    recommends
        b.len() >= 8,
{
    (b[0] as u64) | ((b[1] as u64) << 8u64) | ((b[2] as u64) << 16u64) | ((b[3] as u64)
        << 24u64) | ((b[4] as u64) << 32u64) | ((b[5] as u64) << 40u64) | ((b[6] as u64)
        << 48u64) | ((b[7] as u64) << 56u64)
}

/// The hash of a chunk or a parent node. The root binds the content length
/// as a suffix and sets the last-node flag, which keeps it apart from every
/// non-root node.
pub open spec fn node_hash(bytes: Seq<u8>, finalization: Finalization) -> Seq<u8> {
    match finalization {
        Finalization::NotRoot => blake2b_tree_of(bytes, CHUNK_SIZE as u32, false)@,
        Finalization::Root(len) => blake2b_tree_of(bytes + le_bytes(len), CHUNK_SIZE as u32, true)@,
    }
}

/// Relies on blake2b_simd::Params::hash: a 32-byte BLAKE2b digest of `input`
/// under a tree parameter block (fanout 2, depth 64, inner length 32), which
/// depends on the input, the leaf length and the last-node flag alone.
#[verifier::external_body]
fn blake2b_tree(input: &[u8], max_leaf_length: u32, last_node: bool) -> (r: Hash)
    ensures
        r == blake2b_tree_of(input@, max_leaf_length, last_node),
{
    let digest = blake2b_simd::Params::new().hash_length(32).fanout(2).max_depth(64).max_leaf_length(
        max_leaf_length,
    ).node_offset(0).inner_hash_length(32).last_node(last_node).hash(input);
    let mut r = [0u8; 32];
    r.copy_from_slice(digest.as_bytes());
    r
}

/// Relies on constant_time_eq::constant_time_eq: true exactly when the two
/// slices hold the same bytes, in time that does not depend on where they
/// first differ.
#[verifier::external_body]
fn ct_eq(a: &[u8], b: &[u8]) -> (r: bool)
    ensures
        r == (a@ == b@),
{
    constant_time_eq::constant_time_eq(a, b)
}

/// Compares two hashes in constant time.
pub fn hashes_equal(a: &Hash, b: &Hash) -> (r: bool)
    ensures
        r == (a@ == b@),
{
    ct_eq(a.as_slice(), b.as_slice())
}

/// The little-endian header for a content length.
pub fn encode_len(len: u64) -> (r: [u8; 8])
    ensures
        r@ == le_bytes(len),
{
    let r = [
        len as u8,
        (len >> 8u64) as u8,
        (len >> 16u64) as u8,
        (len >> 24u64) as u8,
        (len >> 32u64) as u8,
        (len >> 40u64) as u8,
        (len >> 48u64) as u8,
        (len >> 56u64) as u8,
    ];
    assert(r@ =~= le_bytes(len));
    r
}

/// The content length that a header declares.
pub fn decode_len(header: &[u8; 8]) -> (r: u64)
    ensures
        r == le_value(header@),
{
    (header[0] as u64) | ((header[1] as u64) << 8u64) | ((header[2] as u64) << 16u64) | ((
    header[3] as u64) << 24u64) | ((header[4] as u64) << 32u64) | ((header[5] as u64) << 40u64)
        | ((header[6] as u64) << 48u64) | ((header[7] as u64) << 56u64)
}

/// Reading a header back gives the length that was written into it.
pub proof fn lemma_len_round_trip(n: u64)
    ensures
        le_value(le_bytes(n)) == n,
{
    let b = le_bytes(n);
    assert(((n as u8) as u64) | ((((n >> 8u64) as u8) as u64) << 8u64) | ((((n >> 16u64) as u8)
        as u64) << 16u64) | ((((n >> 24u64) as u8) as u64) << 24u64) | ((((n >> 32u64) as u8)
        as u64) << 32u64) | ((((n >> 40u64) as u8) as u64) << 40u64) | ((((n >> 48u64) as u8)
        as u64) << 48u64) | ((((n >> 56u64) as u8) as u64) << 56u64) == n) by (bit_vector);
}

/// The exponent of the largest power of two that is at most `n`.
pub open spec fn floor_log2(n: nat) -> nat
    decreases n,
{
    if n <= 1 {
        0
    } else {
        1 + floor_log2(n / 2)
    }
}

/// The length of the left child of a subtree of `len` bytes: the largest
/// power-of-two number of full chunks that leaves at least one byte on the right.
pub open spec fn left_len_spec(len: nat) -> nat {
    CHUNK_SIZE as nat * pow2(floor_log2(((len - 1) / CHUNK_SIZE as int) as nat))
}

/// `pow2(floor_log2(n))` is the largest power of two not above `n`.
pub proof fn lemma_floor_log2_bounds(n: nat)
    requires
        n >= 1,
    ensures
        pow2(floor_log2(n)) <= n < 2 * pow2(floor_log2(n)),
    decreases n,
{
    lemma2_to64();
    if n > 1 {
        lemma_floor_log2_bounds(n / 2);
        lemma_pow2_unfold(floor_log2(n));
        assert(pow2(floor_log2(n)) == 2 * pow2(floor_log2(n / 2)));
    }
}

/// The left child is a whole power-of-two number of chunks, strictly shorter
/// than its parent and at least as long as the right child.
pub proof fn lemma_left_len_bounds(len: nat)
    requires
        len > CHUNK_SIZE,
    ensures
        left_len_spec(len) == CHUNK_SIZE as nat * pow2(
            floor_log2(((len - 1) / CHUNK_SIZE as int) as nat),
        ),
        CHUNK_SIZE <= left_len_spec(len) < len <= 2 * left_len_spec(len),
        left_len_spec(len) % (CHUNK_SIZE as nat) == 0,
{
    let full = ((len - 1) / CHUNK_SIZE as int) as nat;
    lemma_floor_log2_bounds(full);
    let p = pow2(floor_log2(full));
    assert(full * 4096 <= len - 1 < (full + 1) * 4096);
    assert(4096 * p <= 4096 * full) by (nonlinear_arith)
        requires
            p <= full,
    ;
    assert(4096 * (full + 1) <= 4096 * (2 * p)) by (nonlinear_arith)
        requires
            full < 2 * p,
    ;
    assert((4096 * p) % 4096 == 0) by (nonlinear_arith);
}

/// A subtree no longer than `pow2(m)` has a left child no longer than
/// `pow2(m - 1)`: each level down halves the bound, so the tree over a 64-bit
/// length has at most `MAX_DEPTH` levels of parents.
pub proof fn lemma_left_len_halves(len: nat, m: nat)
    requires
        len > CHUNK_SIZE,
        len <= pow2(m),
    ensures
        m >= 13,
        left_len_spec(len) <= pow2((m - 1) as nat),
{
    lemma_left_len_bounds(len);
    let k = floor_log2(((len - 1) / CHUNK_SIZE as int) as nat);
    lemma2_to64();
    lemma_pow2_adds(12, k);
    assert(left_len_spec(len) == pow2(12 + k));
    if 12 + k >= m {
        if 12 + k > m {
            lemma_pow2_strictly_increases(m, 12 + k);
        }
        assert(false);
    }
    if 12 + k < m - 1 {
        lemma_pow2_strictly_increases(12 + k, (m - 1) as nat);
    }
    if m < 13 {
        if m < 12 {
            lemma_pow2_strictly_increases(m, 12);
        }
        assert(false);
    }
}

/// A subtree of a power-of-two number of chunks followed by no more than as
/// much again splits right after that power of two.
pub proof fn lemma_left_len_of_power(len: nat, k: nat)
    requires
        CHUNK_SIZE * pow2(k) < len <= 2 * CHUNK_SIZE * pow2(k),
    ensures
        left_len_spec(len) == CHUNK_SIZE * pow2(k),
{
    lemma_pow2_pos(k);
    lemma_left_len_bounds(len);
    let j = floor_log2(((len - 1) / CHUNK_SIZE as int) as nat);
    lemma_pow2_unfold(j + 1);
    lemma_pow2_unfold(k + 1);
    assert(((k + 1) - 1) as nat == k);
    assert(pow2(k + 1) == 2 * pow2(k));
    if j < k {
        if j + 1 < k {
            lemma_pow2_strictly_increases(j + 1, k);
        }
        assert(false);
    } else if j > k {
        if k + 1 < j {
            lemma_pow2_strictly_increases(k + 1, j);
        }
        assert(pow2(k + 1) <= pow2(j));
        assert(2 * CHUNK_SIZE * pow2(k) == 4096 * pow2(k + 1)) by (nonlinear_arith)
            requires
                pow2(k + 1) == 2 * pow2(k),
        ;
        assert(4096 * pow2(k + 1) <= 4096 * pow2(j)) by (nonlinear_arith)
            requires
                pow2(k + 1) <= pow2(j),
        ;
        assert(false);
    }
}

/// The length of the left child of a subtree of `len` bytes.
pub fn left_len(len: u64) -> (r: u64)
    requires
        len > CHUNK_SIZE,
    ensures
        r == left_len_spec(len as nat),
        CHUNK_SIZE <= r < len <= 2 * r,
{
    proof {
        lemma_left_len_bounds(len as nat);
    }
    let full: u64 = (len - 1) / CHUNK_SIZE as u64;
    let mut n: u64 = full;
    let mut p: u64 = 1;
    while n > 1
        invariant
            1 <= n <= full,
            p >= 1,
            p * n <= full,
            p * pow2(floor_log2(n as nat)) == pow2(floor_log2(full as nat)),
        decreases n,
    {
        let ghost old_n = n;
        let ghost old_p = p;
        proof {
            lemma_pow2_unfold(floor_log2(old_n as nat));
            assert(pow2(floor_log2(old_n as nat)) == 2 * pow2(floor_log2((old_n / 2) as nat)));
            assert(2 * old_p <= old_p * old_n) by (nonlinear_arith)
                requires
                    old_n >= 2,
                    old_p >= 1,
            ;
            assert((2 * old_p) * (old_n / 2) <= old_p * old_n) by (nonlinear_arith)
                requires
                    old_n >= 2,
                    old_p >= 1,
            ;
            assert(old_p * (2 * pow2(floor_log2((old_n / 2) as nat))) == (2 * old_p) * pow2(
                floor_log2((old_n / 2) as nat),
            )) by (nonlinear_arith);
        }
        n = n / 2;
        p = p * 2;
    }
    proof {
        assert(pow2(floor_log2(1)) == 1) by {
            lemma2_to64();
        }
        assert(4096 * p <= 4096 * full) by (nonlinear_arith)
            requires
                p <= full,
        ;
    }
    CHUNK_SIZE as u64 * p
}

/// Every node hash is `HASH_SIZE` bytes long.
pub proof fn lemma_node_hash_len(bytes: Seq<u8>, finalization: Finalization)
    ensures
        node_hash(bytes, finalization).len() == HASH_SIZE,
{
}

/// Hashes a chunk or a parent node.
pub fn hash_node(bytes: &[u8], finalization: Finalization) -> (r: Hash)
    ensures
        r@ == node_hash(bytes@, finalization),
{
    match finalization {
        Finalization::NotRoot => blake2b_tree(bytes, CHUNK_SIZE as u32, false),
        Finalization::Root(len) => {
            let mut input: Vec<u8> = Vec::new();
            input.extend_from_slice(bytes);
            let suffix = encode_len(len);
            input.extend_from_slice(suffix.as_slice());
            assert(input@ =~= bytes@ + le_bytes(len));
            blake2b_tree(input.as_slice(), CHUNK_SIZE as u32, true)
        },
    }
}

} // verus!
