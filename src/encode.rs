//! The tree's byte layout, its sizes, and the encoder.

use crate::hash::{
   
    encode_len, hash_node, le_bytes, left_len, left_len_spec, floor_log2, lemma_left_len_bounds, lemma_node_hash_len, node_hash,
    Finalization, CHUNK_SIZE, HEADER_SIZE, PARENT_SIZE,
};
use vstd::arithmetic::power2::pow2;
use vstd::prelude::*;

verus! {

/// The finalization of a node: `Root` with the content length for the root.
pub open spec fn finalization_of(is_root: bool, len: nat) -> Finalization {
    if is_root {
        Finalization::Root(len as u64)
    } else {
        Finalization::NotRoot
    }
}

/// The hash of the subtree whose bytes are `s`.
pub open spec fn tree_hash(s: Seq<u8>, is_root: bool) -> Seq<u8>
    decreases s.len(),
{
    if s.len() <= CHUNK_SIZE {
        node_hash(s, finalization_of(is_root, s.len()))
    } else {
        let l = left_len_spec(s.len());
        if 0 < l < s.len() {
            node_hash(
                tree_hash(s.subrange(0, l as int), false) + tree_hash(
                    s.subrange(l as int, s.len() as int),
                    false,
                ),
                finalization_of(is_root, s.len()),
            )
        } else {
            Seq::empty()
        }
    }
}

/// Every subtree hash is `HASH_SIZE` bytes long.
pub proof fn lemma_tree_hash_len(s: Seq<u8>, is_root: bool)
    ensures
        tree_hash(s, is_root).len() == 32,
{
    if s.len() <= CHUNK_SIZE {
        lemma_node_hash_len(s, finalization_of(is_root, s.len()));
    } else {
        lemma_left_len_bounds(s.len());
        let l = left_len_spec(s.len());
        lemma_node_hash_len(
            tree_hash(s.subrange(0, l as int), false) + tree_hash(
                s.subrange(l as int, s.len() as int),
                false,
            ),
            finalization_of(is_root, s.len()),
        );
    }
}

/// The root hash of `content`.
pub open spec fn root_hash(content: Seq<u8>) -> Seq<u8> {
    tree_hash(content, true)
}

/// The pre-order layout of the subtree whose bytes are `s`: each parent node
/// before its children; chunks in place, or left out for an outboard tree.
pub open spec fn tree_encoding(s: Seq<u8>, outboard: bool) -> Seq<u8>
    decreases s.len(),
{
    if s.len() <= CHUNK_SIZE {
        if outboard {
            Seq::empty()
        } else {
            s
        }
    } else {
        let l = left_len_spec(s.len());
        if 0 < l < s.len() {
            let left = s.subrange(0, l as int);
            let right = s.subrange(l as int, s.len() as int);
            tree_hash(left, false) + tree_hash(right, false) + tree_encoding(left, outboard)
                + tree_encoding(right, outboard)
        } else {
            Seq::empty()
        }
    }
}

/// The combined encoding of `content`: header, then parents and chunks.
pub open spec fn encoding(content: Seq<u8>) -> Seq<u8> {
    le_bytes(content.len() as u64) + tree_encoding(content, false)
}

/// The outboard encoding of `content`: header, then parents only.
pub open spec fn outboard_encoding(content: Seq<u8>) -> Seq<u8> {
    le_bytes(content.len() as u64) + tree_encoding(content, true)
}

/// The number of chunks of `len` bytes of content; empty content is one chunk.
pub open spec fn chunk_count(len: nat) -> nat {
    if len == 0 {
        1
    } else {
        ((len + CHUNK_SIZE - 1) / CHUNK_SIZE as int) as nat
    }
}

/// The bytes of the encoded tree over `len` bytes of content.
pub open spec fn encoded_subtree_size_spec(len: nat) -> nat {
    (len + PARENT_SIZE * (chunk_count(len) - 1)) as nat
}

/// The finalization of a node of `len` bytes.
pub fn finalization(is_root: bool, len: u64) -> (r: Finalization)
    ensures
        r == finalization_of(is_root, len as nat),
{
    if is_root {
        Finalization::Root(len)
    } else {
        Finalization::NotRoot
    }
}

/// Hashes the subtree whose bytes are `s` and lays it out in pre-order.
fn encode_subtree(s: &[u8], is_root: bool, outboard: bool) -> (r: (crate::hash::Hash, Vec<u8>))
    ensures
        r.0@ == tree_hash(s@, is_root),
        r.1@ == tree_encoding(s@, outboard),
    decreases s.len(),
{
    let fin = finalization(is_root, s.len() as u64);
    if s.len() <= CHUNK_SIZE {
        let h = hash_node(s, fin);
        let mut out: Vec<u8> = Vec::new();
        if !outboard {
            out.extend_from_slice(s);
            assert(out@ =~= s@);
        }
        (h, out)
    } else {
        let l = left_len(s.len() as u64) as usize;
        proof {
            lemma_left_len_bounds(s@.len());
        }
        let (left_hash, mut left_out) = encode_subtree(&s[0..l], false, outboard);
        let (right_hash, mut right_out) = encode_subtree(&s[l..s.len()], false, outboard);
        let mut out: Vec<u8> = Vec::new();
        out.extend_from_slice(left_hash.as_slice());
        out.extend_from_slice(right_hash.as_slice());
        assert(out@ =~= left_hash@ + right_hash@);
        let h = hash_node(out.as_slice(), fin);
        out.append(&mut left_out);
        out.append(&mut right_out);
        proof {
            let left = s@.subrange(0, l as int);
            let right = s@.subrange(l as int, s@.len() as int);
            assert(s@.subrange(0, l as int) =~= left);
            assert(out@ =~= tree_hash(left, false) + tree_hash(right, false) + tree_encoding(
                left,
                outboard,
            ) + tree_encoding(right, outboard));
        }
        (h, out)
    }
}

/// Hashes the subtree whose bytes are `s`.
fn hash_subtree(s: &[u8], is_root: bool) -> (r: crate::hash::Hash)
    ensures
        r@ == tree_hash(s@, is_root),
    decreases s.len(),
{
    let fin = finalization(is_root, s.len() as u64);
    if s.len() <= CHUNK_SIZE {
        hash_node(s, fin)
    } else {
        let l = left_len(s.len() as u64) as usize;
        proof {
            lemma_left_len_bounds(s@.len());
        }
        let left_hash = hash_subtree(&s[0..l], false);
        let right_hash = hash_subtree(&s[l..s.len()], false);
        let mut parent: Vec<u8> = Vec::new();
        parent.extend_from_slice(left_hash.as_slice());
        parent.extend_from_slice(right_hash.as_slice());
        proof {
            assert(parent@ =~= left_hash@ + right_hash@);
        }
        hash_node(parent.as_slice(), fin)
    }
}

/// The root hash of `input`.
pub fn hash(input: &[u8]) -> (r: crate::hash::Hash)
    ensures
        r@ == root_hash(input@),
{
    hash_subtree(input, true)
}

/// The root hash and the combined encoding of `input`.
pub fn encode_to_vec(input: &[u8]) -> (r: (crate::hash::Hash, Vec<u8>))
    ensures
        r.0@ == root_hash(input@),
        r.1@ == encoding(input@),
{
    let (h, mut tree) = encode_subtree(input, true, false);
    let header = encode_len(input.len() as u64);
    let mut out: Vec<u8> = Vec::new();
    out.extend_from_slice(header.as_slice());
    out.append(&mut tree);
    assert(out@ =~= encoding(input@));
    (h, out)
}

/// The root hash and the outboard encoding of `input`: the same tree and the
/// same root hash as the combined encoding, without the chunks.
pub fn encode_outboard_to_vec(input: &[u8]) -> (r: (crate::hash::Hash, Vec<u8>))
    ensures
        r.0@ == root_hash(input@),
        r.1@ == outboard_encoding(input@),
{
    let (h, mut tree) = encode_subtree(input, true, true);
    let header = encode_len(input.len() as u64);
    let mut out: Vec<u8> = Vec::new();
    out.extend_from_slice(header.as_slice());
    out.append(&mut tree);
    assert(out@ =~= outboard_encoding(input@));
    (h, out)
}

/// The number of chunks of `len` bytes of content.
pub fn count_chunks(len: u64) -> (r: u64)
    ensures
        r == chunk_count(len as nat),
{
    let full: u64 = len / CHUNK_SIZE as u64;
    assert(full <= u64::MAX / 4096) by (nonlinear_arith)
        requires
            full == len / 4096,
    ;
    let partial: u64 = if len % CHUNK_SIZE as u64 != 0 {
        1
    } else {
        0
    };
    if full + partial == 0 {
        1
    } else {
        full + partial
    }
}

/// The encoded size of a subtree of `len` bytes, parents and chunks.
pub fn encoded_subtree_size(len: u64) -> (r: u128)
    ensures
        r == encoded_subtree_size_spec(len as nat),
{
    let parents: u64 = count_chunks(len) - 1;
    assert(parents as u128 * 64 <= u64::MAX as u128 * 64) by (nonlinear_arith)
        requires
            parents <= u64::MAX,
    ;
    len as u128 + parents as u128 * PARENT_SIZE as u128
}

/// The size of the combined encoding of `len` bytes of content.
pub fn encoded_size(len: u64) -> (r: u128)
    ensures
        r == HEADER_SIZE + encoded_subtree_size_spec(len as nat),
{
    encoded_subtree_size(len) + HEADER_SIZE as u128
}

/// The size of the outboard encoding of `len` bytes of content.
pub fn outboard_size(len: u64) -> (r: u128)
    ensures
        r == HEADER_SIZE + encoded_subtree_size_spec(len as nat) - len,
{
    encoded_size(len) - len as u128
}

/// The encoded size of a tree over a 64-bit length fits in 71 bits.
pub proof fn lemma_encoded_subtree_size_bound(len: nat)
    requires
        len <= u64::MAX,
    ensures
        encoded_subtree_size_spec(len) <= 65 * len + 64,
{
    if len > 0 {
        assert((len + 4095) / 4096 <= len) by (nonlinear_arith)
            requires
                len >= 1,
        ;
    }
}

/// Splitting a subtree at its left length splits its chunks too.
pub proof fn lemma_chunk_count_split(len: nat)
    requires
        len > CHUNK_SIZE,
    ensures
        chunk_count(len) == chunk_count(left_len_spec(len)) + chunk_count(
            (len - left_len_spec(len)) as nat,
        ),
{
    lemma_left_len_bounds(len);
    let p = pow2(floor_log2(((len - 1) / CHUNK_SIZE as int) as nat));
    let l = left_len_spec(len);
    let r = (len - l) as nat;
    assert(l == 4096 * p);
    assert((4096 * p + 4095) / 4096 == p) by (nonlinear_arith)
        requires
            p >= 1,
    ;
    assert((4096 * p + r + 4095) / 4096 == p + (r + 4095) / 4096) by (nonlinear_arith);
}

/// A parent's encoded subtree is its node followed by its two children's.
pub proof fn lemma_encoded_subtree_split(len: nat)
    requires
        len > CHUNK_SIZE,
    ensures
        encoded_subtree_size_spec(len) == PARENT_SIZE + encoded_subtree_size_spec(
            left_len_spec(len),
        ) + encoded_subtree_size_spec((len - left_len_spec(len)) as nat),
{
    lemma_left_len_bounds(len);
    lemma_chunk_count_split(len);
    assert(chunk_count(left_len_spec(len)) >= 1);
    assert(chunk_count((len - left_len_spec(len)) as nat) >= 1);
}

/// The encoded tree over `s` is as long as `encoded_subtree_size` says; the
/// outboard tree is that less the content.
pub proof fn lemma_tree_encoding_len(s: Seq<u8>)
    ensures
        tree_encoding(s, false).len() == encoded_subtree_size_spec(s.len()),
        tree_encoding(s, true).len() == encoded_subtree_size_spec(s.len()) - s.len(),
    decreases s.len(),
{
    if s.len() > CHUNK_SIZE {
        lemma_left_len_bounds(s.len());
        lemma_chunk_count_split(s.len());
        let l = left_len_spec(s.len());
        let left = s.subrange(0, l as int);
        let right = s.subrange(l as int, s.len() as int);
        lemma_tree_hash_len(left, false);
        lemma_tree_hash_len(right, false);
        lemma_tree_encoding_len(left);
        lemma_tree_encoding_len(right);
        assert(chunk_count(left.len()) >= 1);
        assert(chunk_count(right.len()) >= 1);
    } else {
        assert(chunk_count(s.len()) == 1);
    }
}

/// The size of every encoding is the header, the content, and one parent
/// node for each chunk after the first.
pub proof fn lemma_encoded_size(content: Seq<u8>)
    requires
        content.len() <= u64::MAX,
    ensures
        encoding(content).len() == HEADER_SIZE + content.len() + PARENT_SIZE * (chunk_count(
            content.len(),
        ) - 1),
        outboard_encoding(content).len() == encoding(content).len() - content.len(),
        content.len() == 0 ==> encoding(content).len() == HEADER_SIZE,
{
    lemma_tree_encoding_len(content);
}

} // verus!
