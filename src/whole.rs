//! Decoding a whole combined encoding held in memory, and the proof that it
//! gives back what was encoded.

use crate::decode::{child_hash, parent_array, take_bytes, Error};
use crate::encode::{
    encoded_subtree_size, encoded_subtree_size_spec, encoding, finalization, finalization_of,
    outboard_encoding,
    lemma_tree_encoding_len, lemma_tree_hash_len, root_hash, tree_encoding, tree_hash,
};
use crate::hash::{
    decode_len, hash_node, hashes_equal, le_bytes, le_value, left_len, left_len_spec,
    lemma_left_len_bounds, lemma_len_round_trip, node_hash, CHUNK_SIZE, HASH_SIZE, HEADER_SIZE,
    PARENT_SIZE,
};
use vstd::prelude::*;

verus! {

/// The content of the encoded subtree `[start, end)` of a tree over `c`
/// bytes, found at `offset` in `enc`, where every node's hash matches the
/// `expected` hash handed down from its parent; `None` where one does not, or
/// where `enc` is short.
pub open spec fn decode_part(enc: Seq<u8>, offset: int, start: nat, end: nat, c: nat, expected: Seq<u8>) -> Option<Seq<u8>>
    decreases end - start,
{
    let fin = finalization_of(start == 0 && end == c, (end - start) as nat);
    if end < start || offset < 0 {
        None
    } else if end - start <= CHUNK_SIZE {
        if offset + (end - start) > enc.len() {
            None
        } else {
            let bytes = enc.subrange(offset, offset + (end - start));
            if node_hash(bytes, fin) == expected {
                Some(bytes)
            } else {
                None
            }
        }
    } else if offset + PARENT_SIZE > enc.len() {
        None
    } else {
        let parent = enc.subrange(offset, offset + PARENT_SIZE);
        let split = start + left_len_spec((end - start) as nat);
        if node_hash(parent, fin) != expected || !(start < split < end) {
            None
        } else {
            let right_offset = offset + PARENT_SIZE + encoded_subtree_size_spec(
                (split - start) as nat,
            );
            match (
                decode_part(
                    enc,
                    offset + PARENT_SIZE,
                    start,
                    split as nat,
                    c,
                    parent.subrange(0, HASH_SIZE as int),
                ),
                decode_part(
                    enc,
                    right_offset,
                    split as nat,
                    end,
                    c,
                    parent.subrange(HASH_SIZE as int, PARENT_SIZE as int),
                ),
            ) {
                (Some(l), Some(r)) => Some(l + r),
                _ => None,
            }
        }
    }
}

/// Which error decoding the subtree `[start, end)` at `offset` in `enc`
/// meets first, walking it in order, where `decode_part` is `None`:
/// `Truncated` where the bytes it needs are missing, `HashMismatch` where a
/// node's hash does not match.
pub open spec fn decode_error(enc: Seq<u8>, offset: int, start: nat, end: nat, c: nat, expected: Seq<u8>) -> Error
    decreases end - start,
{
    let fin = finalization_of(start == 0 && end == c, (end - start) as nat);
    if offset > enc.len() || end < start {
        Error::Truncated
    } else if end - start <= CHUNK_SIZE {
        if offset + (end - start) > enc.len() {
            Error::Truncated
        } else {
            Error::HashMismatch
        }
    } else if offset + PARENT_SIZE > enc.len() {
        Error::Truncated
    } else {
        let parent = enc.subrange(offset, offset + PARENT_SIZE);
        let split = start + left_len_spec((end - start) as nat);
        if node_hash(parent, fin) != expected || !(start < split < end) {
            Error::HashMismatch
        } else if decode_part(enc, offset + PARENT_SIZE, start, split as nat, c, parent.subrange(0, HASH_SIZE as int)) is None {
            decode_error(enc, offset + PARENT_SIZE, start, split as nat, c, parent.subrange(0, HASH_SIZE as int))
        } else {
            decode_error(
                enc,
                offset + PARENT_SIZE + encoded_subtree_size_spec((split - start) as nat),
                split as nat,
                end,
                c,
                parent.subrange(HASH_SIZE as int, PARENT_SIZE as int),
            )
        }
    }
}

/// Which error decoding the combined encoding `enc` against `hash` meets.
pub open spec fn decode_error_of(enc: Seq<u8>, hash: Seq<u8>) -> Error {
    if enc.len() < HEADER_SIZE {
        Error::Truncated
    } else {
        let c = le_value(enc);
        decode_error(enc, HEADER_SIZE as int, 0, c as nat, c as nat, hash)
    }
}

/// Which error `decode_outboard_part` meets first where it is `None`.
pub open spec fn decode_outboard_error(ob: Seq<u8>, content: Seq<u8>, offset: int, start: nat, end: nat, c: nat, expected: Seq<u8>) -> Error
    decreases end - start,
{
    let fin = finalization_of(start == 0 && end == c, (end - start) as nat);
    if end < start {
        Error::Truncated
    } else if end - start <= CHUNK_SIZE {
        if end > content.len() {
            Error::Truncated
        } else {
            Error::HashMismatch
        }
    } else if offset > ob.len() || offset + PARENT_SIZE > ob.len() {
        Error::Truncated
    } else {
        let parent = ob.subrange(offset, offset + PARENT_SIZE);
        let split = start + left_len_spec((end - start) as nat);
        if node_hash(parent, fin) != expected || !(start < split < end) {
            Error::HashMismatch
        } else if decode_outboard_part(ob, content, offset + PARENT_SIZE, start, split as nat, c, parent.subrange(0, HASH_SIZE as int)) is None {
            decode_outboard_error(ob, content, offset + PARENT_SIZE, start, split as nat, c, parent.subrange(0, HASH_SIZE as int))
        } else {
            decode_outboard_error(
                ob,
                content,
                offset + PARENT_SIZE + encoded_subtree_size_spec((split - start) as nat) - (split - start),
                split as nat,
                end,
                c,
                parent.subrange(HASH_SIZE as int, PARENT_SIZE as int),
            )
        }
    }
}

/// Which error decoding `content` with its outboard tree `ob` against
/// `hash` meets.
pub open spec fn decode_outboard_error_of(content: Seq<u8>, ob: Seq<u8>, hash: Seq<u8>) -> Error {
    if ob.len() < HEADER_SIZE || le_value(ob) != content.len() {
        Error::Truncated
    } else {
        let c = le_value(ob);
        decode_outboard_error(ob, content, HEADER_SIZE as int, 0, c as nat, c as nat, hash)
    }
}

/// Which error `chunk_at` meets where it is `None`.
pub open spec fn chunk_error(enc: Seq<u8>, offset: int, start: nat, end: nat, c: nat, expected: Seq<u8>, p: nat) -> Error
    decreases end - start,
{
    let fin = finalization_of(start == 0 && end == c, (end - start) as nat);
    if offset > enc.len() || end < start {
        Error::Truncated
    } else if end - start <= CHUNK_SIZE {
        if offset + (end - start) > enc.len() {
            Error::Truncated
        } else {
            Error::HashMismatch
        }
    } else if offset + PARENT_SIZE > enc.len() {
        Error::Truncated
    } else {
        let parent = enc.subrange(offset, offset + PARENT_SIZE);
        let split = start + left_len_spec((end - start) as nat);
        if node_hash(parent, fin) != expected || !(start < split < end) {
            Error::HashMismatch
        } else if p < split {
            chunk_error(enc, offset + PARENT_SIZE, start, split as nat, c, parent.subrange(0, HASH_SIZE as int), p)
        } else {
            chunk_error(
                enc,
                offset + PARENT_SIZE + encoded_subtree_size_spec((split - start) as nat),
                split as nat,
                end,
                c,
                parent.subrange(HASH_SIZE as int, PARENT_SIZE as int),
                p,
            )
        }
    }
}

/// Which error `chunk_at_outboard` meets where it is `None`.
pub open spec fn chunk_outboard_error(ob: Seq<u8>, content: Seq<u8>, offset: int, start: nat, end: nat, c: nat, expected: Seq<u8>, p: nat) -> Error
    decreases end - start,
{
    let fin = finalization_of(start == 0 && end == c, (end - start) as nat);
    if end < start {
        Error::Truncated
    } else if end - start <= CHUNK_SIZE {
        if end > content.len() {
            Error::Truncated
        } else {
            Error::HashMismatch
        }
    } else if offset > ob.len() || offset + PARENT_SIZE > ob.len() {
        Error::Truncated
    } else {
        let parent = ob.subrange(offset, offset + PARENT_SIZE);
        let split = start + left_len_spec((end - start) as nat);
        if node_hash(parent, fin) != expected || !(start < split < end) {
            Error::HashMismatch
        } else if p < split {
            chunk_outboard_error(ob, content, offset + PARENT_SIZE, start, split as nat, c, parent.subrange(0, HASH_SIZE as int), p)
        } else {
            chunk_outboard_error(
                ob,
                content,
                offset + PARENT_SIZE + encoded_subtree_size_spec((split - start) as nat) - (split - start),
                split as nat,
                end,
                c,
                parent.subrange(HASH_SIZE as int, PARENT_SIZE as int),
                p,
            )
        }
    }
}

/// The content of the combined encoding `enc` verified against `hash`, or
/// `None` where it fails to verify or ends early.
pub open spec fn decode_spec(enc: Seq<u8>, hash: Seq<u8>) -> Option<Seq<u8>> {
    if enc.len() < HEADER_SIZE {
        None
    } else {
        let c = le_value(enc);
        decode_part(enc, HEADER_SIZE as int, 0, c as nat, c as nat, hash)
    }
}


/// A subtree's encoding, found where it stands, decodes to its content under
/// its own hash.
#[verifier::rlimit(40)]
proof fn lemma_decode_part_of_encoding(enc: Seq<u8>, offset: int, x: Seq<u8>, start: nat, end: nat)
    requires
        start <= end <= x.len(),
        0 <= offset,
        offset + tree_encoding(x.subrange(start as int, end as int), false).len() <= enc.len(),
        enc.subrange(
            offset,
            offset + tree_encoding(x.subrange(start as int, end as int), false).len(),
        ) == tree_encoding(x.subrange(start as int, end as int), false),
    ensures
        decode_part(
            enc,
            offset,
            start,
            end,
            x.len(),
            tree_hash(x.subrange(start as int, end as int), start == 0 && end == x.len()),
        ) == Some(x.subrange(start as int, end as int)),
    decreases end - start,
{
    let s = x.subrange(start as int, end as int);
    let te = tree_encoding(s, false);
    lemma_tree_encoding_len(s);
    if s.len() <= CHUNK_SIZE {
        assert(te == s);
    } else {
        lemma_left_len_bounds(s.len());
        let l = left_len_spec(s.len());
        let left = s.subrange(0, l as int);
        let right = s.subrange(l as int, s.len() as int);
        let lh = tree_hash(left, false);
        let rh = tree_hash(right, false);
        lemma_tree_hash_len(left, false);
        lemma_tree_hash_len(right, false);
        lemma_tree_encoding_len(left);
        lemma_tree_encoding_len(right);
        let tel = tree_encoding(left, false);
        let ter = tree_encoding(right, false);
        assert(te == lh + rh + tel + ter);
        let split = start + l;
        assert(left =~= x.subrange(start as int, split as int));
        assert(right =~= x.subrange(split as int, end as int));
        let parent = enc.subrange(offset, offset + PARENT_SIZE);
        assert(parent =~= te.subrange(0, 64));
        assert(te.subrange(0, 64) =~= lh + rh);
        assert(parent.subrange(0, 32) =~= lh);
        assert(parent.subrange(32, 64) =~= rh);
        let lo = offset + PARENT_SIZE;
        assert(te.subrange(64, 64 + tel.len() as int) =~= tel);
        assert(enc.subrange(lo, lo + tel.len()) =~= te.subrange(64, 64 + tel.len() as int));
        lemma_decode_part_of_encoding(enc, lo, x, start, split);
        let ro = lo + encoded_subtree_size_spec(l);
        assert(te.subrange(64 + tel.len() as int, te.len() as int) =~= ter);
        assert(enc.subrange(ro, ro + ter.len()) =~= te.subrange(64 + tel.len() as int, te.len() as int));
        lemma_decode_part_of_encoding(enc, ro, x, split, end);
        assert(left + right =~= s);
    }
}

/// Decoding the combined encoding of any content under its root hash gives
/// back that content.
pub proof fn lemma_decode_round_trip(content: Seq<u8>)
    requires
        content.len() <= u64::MAX,
    ensures
        decode_spec(encoding(content), root_hash(content)) == Some(content),
{
    let n = content.len() as u64;
    let enc = encoding(content);
    let te = tree_encoding(content, false);
    assert(enc == le_bytes(n) + te);
    lemma_len_round_trip(n);
    assert(le_value(enc) == le_value(le_bytes(n)));
    assert(content.subrange(0, content.len() as int) =~= content);
    assert(enc.subrange(8, 8 + te.len() as int) =~= te);
    lemma_decode_part_of_encoding(enc, 8, content, 0, content.len());
}

#[verifier::rlimit(40)]
fn decode_subtree(
    enc: &Vec<u8>,
    offset: u128,
    start: u64,
    end: u64,
    c: u64,
    expected: &crate::hash::Hash,
    out: &mut Vec<u8>,
) -> (r: Result<(), Error>)
    requires
        start <= end <= c,
    ensures
        r is Ok <==> decode_part(enc@, offset as int, start as nat, end as nat, c as nat, expected@) is Some,
        r is Ok ==> final(out)@ == old(out)@ + decode_part(
            enc@,
            offset as int,
            start as nat,
            end as nat,
            c as nat,
            expected@,
        ).unwrap(),
        r is Err ==> r->Err_0 == decode_error(enc@, offset as int, start as nat, end as nat, c as nat, expected@),
    decreases end - start,
{
    let fin = finalization(start == 0 && end == c, end - start);
    if offset > enc.len() as u128 {
        return Err(Error::Truncated);
    }
    let o = offset as usize;
    if end - start <= CHUNK_SIZE as u64 {
        let bytes = match take_bytes(enc, o, (end - start) as usize) {
            Ok(b) => b,
            Err(e) => return Err(e),
        };
        let h = hash_node(bytes.as_slice(), fin);
        if !hashes_equal(&h, expected) {
            return Err(Error::HashMismatch);
        }
        let ghost before = out@;
        out.extend_from_slice(bytes.as_slice());
        assert(out@ =~= before + bytes@);
        return Ok(());
    }
    let bytes = match take_bytes(enc, o, PARENT_SIZE) {
        Ok(b) => b,
        Err(e) => return Err(e),
    };
    let parent = parent_array(&bytes);
    let h = hash_node(parent.as_slice(), fin);
    if !hashes_equal(&h, expected) {
        return Err(Error::HashMismatch);
    }
    proof {
        lemma_left_len_bounds((end - start) as nat);
    }
    let split = start + left_len(end - start);
    let left_hash = child_hash(&parent, 0);
    let right_hash = child_hash(&parent, HASH_SIZE);
    let left_offset = offset + PARENT_SIZE as u128;
    let right_offset = left_offset + encoded_subtree_size(split - start);
    let ghost before = out@;
    match decode_subtree(enc, left_offset, start, split, c, &left_hash, out) {
        Ok(()) => {},
        Err(e) => return Err(e),
    }
    match decode_subtree(enc, right_offset, split, end, c, &right_hash, out) {
        Ok(()) => {},
        Err(e) => return Err(e),
    }
    proof {
        let l = decode_part(enc@, left_offset as int, start as nat, split as nat, c as nat, left_hash@).unwrap();
        let r = decode_part(enc@, right_offset as int, split as nat, end as nat, c as nat, right_hash@).unwrap();
        assert(out@ =~= before + (l + r));
    }
    Ok(())
}

/// Verifies the whole combined encoding `encoded` against `hash` and
/// returns its content.
pub fn decode_to_vec(encoded: &Vec<u8>, hash: &crate::hash::Hash) -> (r: Result<Vec<u8>, Error>)
    ensures
        r is Ok <==> decode_spec(encoded@, hash@) is Some,
        r is Ok ==> r.unwrap()@ == decode_spec(encoded@, hash@).unwrap(),
        r is Ok ==> root_hash(r.unwrap()@) == hash@,
        r is Err ==> r->Err_0 == decode_error_of(encoded@, hash@),
        declared_hash(encoded@) is Some && declared_hash(encoded@) != Some(hash@) ==> r
            == Err::<Vec<u8>, Error>(Error::HashMismatch),
{
    proof {
        if declared_hash(encoded@) is Some && declared_hash(encoded@) != Some(hash@) {
            if decode_spec(encoded@, hash@) is Some {
                lemma_only_declared_hash_decodes(encoded@, hash@);
            }
        }
    }
    if encoded.len() < HEADER_SIZE {
        return Err(Error::Truncated);
    }
    let header = [
        encoded[0],
        encoded[1],
        encoded[2],
        encoded[3],
        encoded[4],
        encoded[5],
        encoded[6],
        encoded[7],
    ];
    assert(header@ =~= encoded@.subrange(0, 8));
    let c = decode_len(&header);
    assert(le_value(header@) == le_value(encoded@));
    let mut out: Vec<u8> = Vec::new();
    match decode_subtree(encoded, HEADER_SIZE as u128, 0, c, c, hash, &mut out) {
        Ok(()) => {
            proof {
                lemma_decode_part_sound(encoded@, HEADER_SIZE as int, 0, c as nat, c as nat, hash@);
            }
            assert(out@ =~= Seq::<u8>::empty() + decode_spec(encoded@, hash@).unwrap());
            Ok(out)
        },
        Err(e) => Err(e),
    }
}


/// The content of the subtree `[start, end)` of a tree over `c` bytes whose
/// chunks come from `content` and whose parent nodes come from the outboard
/// tree `ob` from `offset`, where every node's hash matches the one handed
/// down; `None` where one does not, or where either input is short.
pub open spec fn decode_outboard_part(
    ob: Seq<u8>,
    content: Seq<u8>,
    offset: int,
    start: nat,
    end: nat,
    c: nat,
    expected: Seq<u8>,
) -> Option<Seq<u8>>
    decreases end - start,
{
    let fin = finalization_of(start == 0 && end == c, (end - start) as nat);
    if end < start || offset < 0 {
        None
    } else if end - start <= CHUNK_SIZE {
        if end > content.len() {
            None
        } else {
            let bytes = content.subrange(start as int, end as int);
            if node_hash(bytes, fin) == expected {
                Some(bytes)
            } else {
                None
            }
        }
    } else if offset + PARENT_SIZE > ob.len() {
        None
    } else {
        let parent = ob.subrange(offset, offset + PARENT_SIZE);
        let split = start + left_len_spec((end - start) as nat);
        if node_hash(parent, fin) != expected || !(start < split < end) {
            None
        } else {
            let right_offset = offset + PARENT_SIZE + encoded_subtree_size_spec(
                (split - start) as nat,
            ) - (split - start);
            match (
                decode_outboard_part(
                    ob,
                    content,
                    offset + PARENT_SIZE,
                    start,
                    split as nat,
                    c,
                    parent.subrange(0, HASH_SIZE as int),
                ),
                decode_outboard_part(
                    ob,
                    content,
                    right_offset,
                    split as nat,
                    end,
                    c,
                    parent.subrange(HASH_SIZE as int, PARENT_SIZE as int),
                ),
            ) {
                (Some(l), Some(r)) => Some(l + r),
                _ => None,
            }
        }
    }
}

/// The content verified against `hash` from `content` and its outboard tree
/// `ob`, or `None` where it fails to verify, or where `content` is not as
/// long as the tree's header says.
pub open spec fn decode_outboard_spec(content: Seq<u8>, ob: Seq<u8>, hash: Seq<u8>) -> Option<Seq<u8>> {
    if ob.len() < HEADER_SIZE || le_value(ob) != content.len() {
        None
    } else {
        let c = le_value(ob);
        decode_outboard_part(ob, content, HEADER_SIZE as int, 0, c as nat, c as nat, hash)
    }
}

/// An outboard subtree, found where it stands, decodes with its content to
/// that content under its own hash.
#[verifier::rlimit(40)]
proof fn lemma_decode_outboard_part(ob: Seq<u8>, offset: int, x: Seq<u8>, start: nat, end: nat)
    requires
        start <= end <= x.len(),
        0 <= offset,
        offset + tree_encoding(x.subrange(start as int, end as int), true).len() <= ob.len(),
        ob.subrange(
            offset,
            offset + tree_encoding(x.subrange(start as int, end as int), true).len(),
        ) == tree_encoding(x.subrange(start as int, end as int), true),
    ensures
        decode_outboard_part(
            ob,
            x,
            offset,
            start,
            end,
            x.len(),
            tree_hash(x.subrange(start as int, end as int), start == 0 && end == x.len()),
        ) == Some(x.subrange(start as int, end as int)),
    decreases end - start,
{
    let s = x.subrange(start as int, end as int);
    let te = tree_encoding(s, true);
    lemma_tree_encoding_len(s);
    if s.len() > CHUNK_SIZE {
        lemma_left_len_bounds(s.len());
        let l = left_len_spec(s.len());
        let left = s.subrange(0, l as int);
        let right = s.subrange(l as int, s.len() as int);
        let lh = tree_hash(left, false);
        let rh = tree_hash(right, false);
        lemma_tree_hash_len(left, false);
        lemma_tree_hash_len(right, false);
        lemma_tree_encoding_len(left);
        lemma_tree_encoding_len(right);
        let tel = tree_encoding(left, true);
        let ter = tree_encoding(right, true);
        assert(te == lh + rh + tel + ter);
        let split = start + l;
        assert(left =~= x.subrange(start as int, split as int));
        assert(right =~= x.subrange(split as int, end as int));
        let parent = ob.subrange(offset, offset + PARENT_SIZE);
        assert(parent =~= te.subrange(0, 64));
        assert(te.subrange(0, 64) =~= lh + rh);
        assert(parent.subrange(0, 32) =~= lh);
        assert(parent.subrange(32, 64) =~= rh);
        let lo = offset + PARENT_SIZE;
        assert(te.subrange(64, 64 + tel.len() as int) =~= tel);
        assert(ob.subrange(lo, lo + tel.len()) =~= te.subrange(64, 64 + tel.len() as int));
        lemma_decode_outboard_part(ob, lo, x, start, split);
        let ro = lo + encoded_subtree_size_spec(l) - l;
        assert(te.subrange(64 + tel.len() as int, te.len() as int) =~= ter);
        assert(ob.subrange(ro, ro + ter.len()) =~= te.subrange(64 + tel.len() as int, te.len() as int));
        lemma_decode_outboard_part(ob, ro, x, split, end);
        assert(left + right =~= s);
    }
}

/// Decoding any content with its outboard tree, under its root hash, gives
/// back that content: the same plaintext as decoding the combined encoding.
pub proof fn lemma_decode_outboard_round_trip(content: Seq<u8>)
    requires
        content.len() <= u64::MAX,
    ensures
        decode_outboard_spec(content, outboard_encoding(content), root_hash(content)) == Some(
            content,
        ),
        decode_spec(encoding(content), root_hash(content)) == Some(content),
{
    let n = content.len() as u64;
    let ob = outboard_encoding(content);
    let te = tree_encoding(content, true);
    lemma_tree_encoding_len(content);
    assert(ob == le_bytes(n) + te);
    lemma_len_round_trip(n);
    assert(le_value(ob) == le_value(le_bytes(n)));
    assert(content.subrange(0, content.len() as int) =~= content);
    assert(ob.subrange(8, 8 + te.len() as int) =~= te);
    lemma_decode_outboard_part(ob, 8, content, 0, content.len());
    lemma_decode_round_trip(content);
}

#[verifier::rlimit(40)]
fn decode_outboard_subtree(
    ob: &Vec<u8>,
    content: &Vec<u8>,
    offset: u128,
    start: u64,
    end: u64,
    c: u64,
    expected: &crate::hash::Hash,
    out: &mut Vec<u8>,
) -> (r: Result<(), Error>)
    requires
        start <= end <= c,
    ensures
        r is Ok <==> decode_outboard_part(
            ob@,
            content@,
            offset as int,
            start as nat,
            end as nat,
            c as nat,
            expected@,
        ) is Some,
        r is Ok ==> final(out)@ == old(out)@ + decode_outboard_part(
            ob@,
            content@,
            offset as int,
            start as nat,
            end as nat,
            c as nat,
            expected@,
        ).unwrap(),
        r is Err ==> r->Err_0 == decode_outboard_error(ob@, content@, offset as int, start as nat, end as nat, c as nat, expected@),
    decreases end - start,
{
    let fin = finalization(start == 0 && end == c, end - start);
    if end - start <= CHUNK_SIZE as u64 {
        if end > content.len() as u64 {
            return Err(Error::Truncated);
        }
        let bytes = match take_bytes(content, start as usize, (end - start) as usize) {
            Ok(b) => b,
            Err(e) => return Err(e),
        };
        let h = hash_node(bytes.as_slice(), fin);
        if !hashes_equal(&h, expected) {
            return Err(Error::HashMismatch);
        }
        let ghost before = out@;
        out.extend_from_slice(bytes.as_slice());
        assert(out@ =~= before + bytes@);
        return Ok(());
    }
    if offset > ob.len() as u128 {
        return Err(Error::Truncated);
    }
    let bytes = match take_bytes(ob, offset as usize, PARENT_SIZE) {
        Ok(b) => b,
        Err(e) => return Err(e),
    };
    let parent = parent_array(&bytes);
    let h = hash_node(parent.as_slice(), fin);
    if !hashes_equal(&h, expected) {
        return Err(Error::HashMismatch);
    }
    proof {
        lemma_left_len_bounds((end - start) as nat);
    }
    let split = start + left_len(end - start);
    let left_hash = child_hash(&parent, 0);
    let right_hash = child_hash(&parent, HASH_SIZE);
    let left_offset = offset + PARENT_SIZE as u128;
    let right_offset = left_offset + (encoded_subtree_size(split - start) - (split - start) as u128);
    let ghost before = out@;
    match decode_outboard_subtree(ob, content, left_offset, start, split, c, &left_hash, out) {
        Ok(()) => {},
        Err(e) => return Err(e),
    }
    match decode_outboard_subtree(ob, content, right_offset, split, end, c, &right_hash, out) {
        Ok(()) => {},
        Err(e) => return Err(e),
    }
    proof {
        let l = decode_outboard_part(ob@, content@, left_offset as int, start as nat, split as nat, c as nat, left_hash@).unwrap();
        let r = decode_outboard_part(ob@, content@, right_offset as int, split as nat, end as nat, c as nat, right_hash@).unwrap();
        assert(out@ =~= before + (l + r));
    }
    Ok(())
}

/// Verifies `content` with its outboard tree `outboard` against `hash` and
/// returns it.
pub fn decode_outboard_to_vec(content: &Vec<u8>, outboard: &Vec<u8>, hash: &crate::hash::Hash) -> (r: Result<Vec<u8>, Error>)
    ensures
        r is Ok <==> decode_outboard_spec(content@, outboard@, hash@) is Some,
        r is Ok ==> r.unwrap()@ == decode_outboard_spec(content@, outboard@, hash@).unwrap(),
        r is Ok ==> root_hash(r.unwrap()@) == hash@,
        r is Err ==> r->Err_0 == decode_outboard_error_of(content@, outboard@, hash@),
{
    if outboard.len() < HEADER_SIZE {
        return Err(Error::Truncated);
    }
    let header = [
        outboard[0],
        outboard[1],
        outboard[2],
        outboard[3],
        outboard[4],
        outboard[5],
        outboard[6],
        outboard[7],
    ];
    let c = decode_len(&header);
    assert(le_value(header@) == le_value(outboard@));
    if c != content.len() as u64 {
        return Err(Error::Truncated);
    }
    let mut out: Vec<u8> = Vec::new();
    match decode_outboard_subtree(outboard, content, HEADER_SIZE as u128, 0, c, c, hash, &mut out) {
        Ok(()) => {
            proof {
                lemma_decode_outboard_part_sound(outboard@, content@, HEADER_SIZE as int, 0, c as nat, c as nat, hash@);
            }
            assert(out@ =~= Seq::<u8>::empty() + decode_outboard_spec(content@, outboard@, hash@).unwrap());
            Ok(out)
        },
        Err(e) => Err(e),
    }
}

/// The leaf of the encoded subtree `[start, end)` at `offset` in `enc` that
/// holds content byte `p`, found by checking every node on the path down to
/// it against the hash handed down: the leaf's start and its bytes.
pub open spec fn chunk_at(enc: Seq<u8>, offset: int, start: nat, end: nat, c: nat, expected: Seq<u8>, p: nat) -> Option<(nat, Seq<u8>)>
    decreases end - start,
{
    let fin = finalization_of(start == 0 && end == c, (end - start) as nat);
    if end < start || offset < 0 {
        None
    } else if end - start <= CHUNK_SIZE {
        if offset + (end - start) > enc.len() {
            None
        } else {
            let bytes = enc.subrange(offset, offset + (end - start));
            if node_hash(bytes, fin) == expected {
                Some((start, bytes))
            } else {
                None
            }
        }
    } else if offset + PARENT_SIZE > enc.len() {
        None
    } else {
        let parent = enc.subrange(offset, offset + PARENT_SIZE);
        let split = start + left_len_spec((end - start) as nat);
        if node_hash(parent, fin) != expected || !(start < split < end) {
            None
        } else if p < split {
            chunk_at(enc, offset + PARENT_SIZE, start, split as nat, c, parent.subrange(0, HASH_SIZE as int), p)
        } else {
            chunk_at(
                enc,
                offset + PARENT_SIZE + encoded_subtree_size_spec((split - start) as nat),
                split as nat,
                end,
                c,
                parent.subrange(HASH_SIZE as int, PARENT_SIZE as int),
                p,
            )
        }
    }
}

/// As `chunk_at`, with the parents from the outboard tree `ob` and the
/// leaves from `content`.
pub open spec fn chunk_at_outboard(
    ob: Seq<u8>,
    content: Seq<u8>,
    offset: int,
    start: nat,
    end: nat,
    c: nat,
    expected: Seq<u8>,
    p: nat,
) -> Option<(nat, Seq<u8>)>
    decreases end - start,
{
    let fin = finalization_of(start == 0 && end == c, (end - start) as nat);
    if end < start || offset < 0 {
        None
    } else if end - start <= CHUNK_SIZE {
        if end > content.len() {
            None
        } else {
            let bytes = content.subrange(start as int, end as int);
            if node_hash(bytes, fin) == expected {
                Some((start, bytes))
            } else {
                None
            }
        }
    } else if offset + PARENT_SIZE > ob.len() {
        None
    } else {
        let parent = ob.subrange(offset, offset + PARENT_SIZE);
        let split = start + left_len_spec((end - start) as nat);
        if node_hash(parent, fin) != expected || !(start < split < end) {
            None
        } else if p < split {
            chunk_at_outboard(ob, content, offset + PARENT_SIZE, start, split as nat, c, parent.subrange(0, HASH_SIZE as int), p)
        } else {
            chunk_at_outboard(
                ob,
                content,
                offset + PARENT_SIZE + encoded_subtree_size_spec((split - start) as nat) - (split - start),
                split as nat,
                end,
                c,
                parent.subrange(HASH_SIZE as int, PARENT_SIZE as int),
                p,
            )
        }
    }
}

/// Whatever a subtree decodes to hashes to the hash it was checked against.
pub proof fn lemma_decode_part_sound(enc: Seq<u8>, offset: int, start: nat, end: nat, c: nat, expected: Seq<u8>)
    requires
        decode_part(enc, offset, start, end, c, expected) is Some,
        end <= c,
    ensures
        tree_hash(decode_part(enc, offset, start, end, c, expected).unwrap(), start == 0 && end == c)
            == expected,
    decreases end - start,
{
    lemma_decode_part_len(enc, offset, start, end, c, expected);
    let y = decode_part(enc, offset, start, end, c, expected).unwrap();
    if end - start > CHUNK_SIZE {
        let parent = enc.subrange(offset, offset + PARENT_SIZE);
        let split = start + left_len_spec((end - start) as nat);
        let lh = parent.subrange(0, HASH_SIZE as int);
        let rh = parent.subrange(HASH_SIZE as int, PARENT_SIZE as int);
        let ro = offset + PARENT_SIZE + encoded_subtree_size_spec((split - start) as nat);
        lemma_decode_part_len(enc, offset + PARENT_SIZE, start, split as nat, c, lh);
        lemma_decode_part_sound(enc, offset + PARENT_SIZE, start, split as nat, c, lh);
        lemma_decode_part_sound(enc, ro, split as nat, end, c, rh);
        let l = decode_part(enc, offset + PARENT_SIZE, start, split as nat, c, lh).unwrap();
        let r = decode_part(enc, ro, split as nat, end, c, rh).unwrap();
        assert(y == l + r);
        assert(y.subrange(0, (split - start) as int) =~= l);
        assert(y.subrange((split - start) as int, y.len() as int) =~= r);
        assert(lh + rh =~= parent);
    }
}

/// The outboard form of `lemma_decode_part_sound`.
pub proof fn lemma_decode_outboard_part_sound(ob: Seq<u8>, content: Seq<u8>, offset: int, start: nat, end: nat, c: nat, expected: Seq<u8>)
    requires
        decode_outboard_part(ob, content, offset, start, end, c, expected) is Some,
        end <= c,
    ensures
        tree_hash(decode_outboard_part(ob, content, offset, start, end, c, expected).unwrap(), start == 0 && end == c)
            == expected,
    decreases end - start,
{
    lemma_decode_outboard_part_len(ob, content, offset, start, end, c, expected);
    let y = decode_outboard_part(ob, content, offset, start, end, c, expected).unwrap();
    if end - start > CHUNK_SIZE {
        let parent = ob.subrange(offset, offset + PARENT_SIZE);
        let split = start + left_len_spec((end - start) as nat);
        let lh = parent.subrange(0, HASH_SIZE as int);
        let rh = parent.subrange(HASH_SIZE as int, PARENT_SIZE as int);
        let ro = offset + PARENT_SIZE + encoded_subtree_size_spec((split - start) as nat) - (split - start);
        lemma_decode_outboard_part_len(ob, content, offset + PARENT_SIZE, start, split as nat, c, lh);
        lemma_decode_outboard_part_sound(ob, content, offset + PARENT_SIZE, start, split as nat, c, lh);
        lemma_decode_outboard_part_sound(ob, content, ro, split as nat, end, c, rh);
        let l = decode_outboard_part(ob, content, offset + PARENT_SIZE, start, split as nat, c, lh).unwrap();
        let r = decode_outboard_part(ob, content, ro, split as nat, end, c, rh).unwrap();
        assert(y == l + r);
        assert(y.subrange(0, (split - start) as int) =~= l);
        assert(y.subrange((split - start) as int, y.len() as int) =~= r);
        assert(lh + rh =~= parent);
    }
}

/// A leaf found for byte `p` lies within its subtree and starts at or
/// before `p`.
pub proof fn lemma_chunk_at_bounds(enc: Seq<u8>, offset: int, start: nat, end: nat, c: nat, expected: Seq<u8>, p: nat)
    requires
        chunk_at(enc, offset, start, end, c, expected, p) is Some,
        start <= p,
    ensures
        ({
            let (cs, b) = chunk_at(enc, offset, start, end, c, expected, p).unwrap();
            start <= cs <= p && cs + b.len() <= end
        }),
    decreases end - start,
{
    if end - start > CHUNK_SIZE {
        let parent = enc.subrange(offset, offset + PARENT_SIZE);
        let split = start + left_len_spec((end - start) as nat);
        if p < split {
            lemma_chunk_at_bounds(enc, offset + PARENT_SIZE, start, split as nat, c, parent.subrange(0, HASH_SIZE as int), p);
        } else {
            lemma_chunk_at_bounds(
                enc,
                offset + PARENT_SIZE + encoded_subtree_size_spec((split - start) as nat),
                split as nat,
                end,
                c,
                parent.subrange(HASH_SIZE as int, PARENT_SIZE as int),
                p,
            );
        }
    }
}

/// The outboard form of `lemma_chunk_at_bounds`.
pub proof fn lemma_chunk_at_outboard_bounds(ob: Seq<u8>, content: Seq<u8>, offset: int, start: nat, end: nat, c: nat, expected: Seq<u8>, p: nat)
    requires
        chunk_at_outboard(ob, content, offset, start, end, c, expected, p) is Some,
        start <= p,
    ensures
        ({
            let (cs, b) = chunk_at_outboard(ob, content, offset, start, end, c, expected, p).unwrap();
            start <= cs <= p && cs + b.len() <= end
        }),
    decreases end - start,
{
    if end - start > CHUNK_SIZE {
        let parent = ob.subrange(offset, offset + PARENT_SIZE);
        let split = start + left_len_spec((end - start) as nat);
        if p < split {
            lemma_chunk_at_outboard_bounds(ob, content, offset + PARENT_SIZE, start, split as nat, c, parent.subrange(0, HASH_SIZE as int), p);
        } else {
            lemma_chunk_at_outboard_bounds(
                ob,
                content,
                offset + PARENT_SIZE + encoded_subtree_size_spec((split - start) as nat) - (split - start),
                split as nat,
                end,
                c,
                parent.subrange(HASH_SIZE as int, PARENT_SIZE as int),
                p,
            );
        }
    }
}

/// What a subtree decodes to is as long as the subtree.
pub proof fn lemma_decode_part_len(enc: Seq<u8>, offset: int, start: nat, end: nat, c: nat, expected: Seq<u8>)
    requires
        decode_part(enc, offset, start, end, c, expected) is Some,
    ensures
        decode_part(enc, offset, start, end, c, expected).unwrap().len() == end - start,
    decreases end - start,
{
    if end - start > CHUNK_SIZE {
        let parent = enc.subrange(offset, offset + PARENT_SIZE);
        let split = start + left_len_spec((end - start) as nat);
        lemma_decode_part_len(enc, offset + PARENT_SIZE, start, split as nat, c, parent.subrange(0, HASH_SIZE as int));
        lemma_decode_part_len(
            enc,
            offset + PARENT_SIZE + encoded_subtree_size_spec((split - start) as nat),
            split as nat,
            end,
            c,
            parent.subrange(HASH_SIZE as int, PARENT_SIZE as int),
        );
    }
}

/// The outboard form of `lemma_decode_part_len`.
pub proof fn lemma_decode_outboard_part_len(ob: Seq<u8>, content: Seq<u8>, offset: int, start: nat, end: nat, c: nat, expected: Seq<u8>)
    requires
        decode_outboard_part(ob, content, offset, start, end, c, expected) is Some,
    ensures
        decode_outboard_part(ob, content, offset, start, end, c, expected).unwrap().len() == end - start,
    decreases end - start,
{
    if end - start > CHUNK_SIZE {
        let parent = ob.subrange(offset, offset + PARENT_SIZE);
        let split = start + left_len_spec((end - start) as nat);
        lemma_decode_outboard_part_len(ob, content, offset + PARENT_SIZE, start, split as nat, c, parent.subrange(0, HASH_SIZE as int));
        lemma_decode_outboard_part_len(
            ob,
            content,
            offset + PARENT_SIZE + encoded_subtree_size_spec((split - start) as nat) - (split - start),
            split as nat,
            end,
            c,
            parent.subrange(HASH_SIZE as int, PARENT_SIZE as int),
        );
    }
}

/// Where a subtree decodes to `y`, the leaf that holds byte `p` is found
/// and its bytes are those of `y` at its place.
pub proof fn lemma_chunk_at(enc: Seq<u8>, offset: int, start: nat, end: nat, c: nat, expected: Seq<u8>, p: nat)
    requires
        decode_part(enc, offset, start, end, c, expected) is Some,
        start <= p,
        p < end || p == start,
    ensures
        chunk_at(enc, offset, start, end, c, expected, p) is Some,
        ({
            let (cs, b) = chunk_at(enc, offset, start, end, c, expected, p).unwrap();
            let y = decode_part(enc, offset, start, end, c, expected).unwrap();
            &&& start <= cs <= p
            &&& cs + b.len() <= end
            &&& (p < end ==> p < cs + b.len())
            &&& b == y.subrange(cs - start, cs - start + b.len())
        }),
    decreases end - start,
{
    lemma_decode_part_len(enc, offset, start, end, c, expected);
    let y = decode_part(enc, offset, start, end, c, expected).unwrap();
    if end - start <= CHUNK_SIZE {
        assert(y.subrange(0, y.len() as int) =~= y);
    } else {
        let parent = enc.subrange(offset, offset + PARENT_SIZE);
        let split = start + left_len_spec((end - start) as nat);
        let lh = parent.subrange(0, HASH_SIZE as int);
        let rh = parent.subrange(HASH_SIZE as int, PARENT_SIZE as int);
        let ro = offset + PARENT_SIZE + encoded_subtree_size_spec((split - start) as nat);
        lemma_decode_part_len(enc, offset + PARENT_SIZE, start, split as nat, c, lh);
        let l = decode_part(enc, offset + PARENT_SIZE, start, split as nat, c, lh).unwrap();
        if p < split {
            lemma_chunk_at(enc, offset + PARENT_SIZE, start, split as nat, c, lh, p);
            let (cs, b) = chunk_at(enc, offset + PARENT_SIZE, start, split as nat, c, lh, p).unwrap();
            assert(y == l + decode_part(enc, ro, split as nat, end, c, rh).unwrap());
            assert(b =~= y.subrange(cs - start, cs - start + b.len()));
        } else {
            lemma_chunk_at(enc, ro, split as nat, end, c, rh, p);
            let r = decode_part(enc, ro, split as nat, end, c, rh).unwrap();
            let (cs, b) = chunk_at(enc, ro, split as nat, end, c, rh, p).unwrap();
            assert(y == l + r);
            assert(b =~= y.subrange(cs - start, cs - start + b.len()));
        }
    }
}

/// The outboard form of `lemma_chunk_at`.
pub proof fn lemma_chunk_at_outboard(ob: Seq<u8>, content: Seq<u8>, offset: int, start: nat, end: nat, c: nat, expected: Seq<u8>, p: nat)
    requires
        decode_outboard_part(ob, content, offset, start, end, c, expected) is Some,
        start <= p,
        p < end || p == start,
    ensures
        chunk_at_outboard(ob, content, offset, start, end, c, expected, p) is Some,
        ({
            let (cs, b) = chunk_at_outboard(ob, content, offset, start, end, c, expected, p).unwrap();
            let y = decode_outboard_part(ob, content, offset, start, end, c, expected).unwrap();
            &&& start <= cs <= p
            &&& cs + b.len() <= end
            &&& (p < end ==> p < cs + b.len())
            &&& b == y.subrange(cs - start, cs - start + b.len())
        }),
    decreases end - start,
{
    lemma_decode_outboard_part_len(ob, content, offset, start, end, c, expected);
    let y = decode_outboard_part(ob, content, offset, start, end, c, expected).unwrap();
    if end - start <= CHUNK_SIZE {
        assert(y.subrange(0, y.len() as int) =~= y);
    } else {
        let parent = ob.subrange(offset, offset + PARENT_SIZE);
        let split = start + left_len_spec((end - start) as nat);
        let lh = parent.subrange(0, HASH_SIZE as int);
        let rh = parent.subrange(HASH_SIZE as int, PARENT_SIZE as int);
        let ro = offset + PARENT_SIZE + encoded_subtree_size_spec((split - start) as nat) - (split - start);
        lemma_decode_outboard_part_len(ob, content, offset + PARENT_SIZE, start, split as nat, c, lh);
        let l = decode_outboard_part(ob, content, offset + PARENT_SIZE, start, split as nat, c, lh).unwrap();
        if p < split {
            lemma_chunk_at_outboard(ob, content, offset + PARENT_SIZE, start, split as nat, c, lh, p);
            let (cs, b) = chunk_at_outboard(ob, content, offset + PARENT_SIZE, start, split as nat, c, lh, p).unwrap();
            assert(y == l + decode_outboard_part(ob, content, ro, split as nat, end, c, rh).unwrap());
            assert(b =~= y.subrange(cs - start, cs - start + b.len()));
        } else {
            lemma_chunk_at_outboard(ob, content, ro, split as nat, end, c, rh, p);
            let r = decode_outboard_part(ob, content, ro, split as nat, end, c, rh).unwrap();
            let (cs, b) = chunk_at_outboard(ob, content, ro, split as nat, end, c, rh, p).unwrap();
            assert(y == l + r);
            assert(b =~= y.subrange(cs - start, cs - start + b.len()));
        }
    }
}

/// Finds and checks the leaf that holds content byte `p`, as `chunk_at`.
#[verifier::rlimit(40)]
pub(crate) fn find_chunk(
    enc: &Vec<u8>,
    offset: u128,
    start: u64,
    end: u64,
    c: u64,
    expected: &crate::hash::Hash,
    p: u64,
) -> (r: Result<(u64, Vec<u8>), Error>)
    requires
        start <= end <= c,
    ensures
        r is Ok <==> chunk_at(enc@, offset as int, start as nat, end as nat, c as nat, expected@, p as nat) is Some,
        r is Ok ==> r.unwrap().0 == chunk_at(enc@, offset as int, start as nat, end as nat, c as nat, expected@, p as nat).unwrap().0
            && r.unwrap().1@ == chunk_at(enc@, offset as int, start as nat, end as nat, c as nat, expected@, p as nat).unwrap().1,
        r is Err ==> r->Err_0 == chunk_error(enc@, offset as int, start as nat, end as nat, c as nat, expected@, p as nat),
    decreases end - start,
{
    let fin = finalization(start == 0 && end == c, end - start);
    if offset > enc.len() as u128 {
        return Err(Error::Truncated);
    }
    let o = offset as usize;
    if end - start <= CHUNK_SIZE as u64 {
        let bytes = match take_bytes(enc, o, (end - start) as usize) {
            Ok(b) => b,
            Err(e) => return Err(e),
        };
        let h = hash_node(bytes.as_slice(), fin);
        if !hashes_equal(&h, expected) {
            return Err(Error::HashMismatch);
        }
        return Ok((start, bytes));
    }
    let bytes = match take_bytes(enc, o, PARENT_SIZE) {
        Ok(b) => b,
        Err(e) => return Err(e),
    };
    let parent = parent_array(&bytes);
    let h = hash_node(parent.as_slice(), fin);
    if !hashes_equal(&h, expected) {
        return Err(Error::HashMismatch);
    }
    proof {
        lemma_left_len_bounds((end - start) as nat);
    }
    let split = start + left_len(end - start);
    if p < split {
        let left_hash = child_hash(&parent, 0);
        find_chunk(enc, offset + PARENT_SIZE as u128, start, split, c, &left_hash, p)
    } else {
        let right_hash = child_hash(&parent, HASH_SIZE);
        let right_offset = offset + PARENT_SIZE as u128 + encoded_subtree_size(split - start);
        find_chunk(enc, right_offset, split, end, c, &right_hash, p)
    }
}

/// Finds and checks the leaf that holds content byte `p`, as
/// `chunk_at_outboard`.
#[verifier::rlimit(40)]
pub(crate) fn find_chunk_outboard(
    ob: &Vec<u8>,
    content: &Vec<u8>,
    offset: u128,
    start: u64,
    end: u64,
    c: u64,
    expected: &crate::hash::Hash,
    p: u64,
) -> (r: Result<(u64, Vec<u8>), Error>)
    requires
        start <= end <= c,
    ensures
        r is Ok <==> chunk_at_outboard(ob@, content@, offset as int, start as nat, end as nat, c as nat, expected@, p as nat) is Some,
        r is Ok ==> r.unwrap().0 == chunk_at_outboard(ob@, content@, offset as int, start as nat, end as nat, c as nat, expected@, p as nat).unwrap().0
            && r.unwrap().1@ == chunk_at_outboard(ob@, content@, offset as int, start as nat, end as nat, c as nat, expected@, p as nat).unwrap().1,
        r is Err ==> r->Err_0 == chunk_outboard_error(ob@, content@, offset as int, start as nat, end as nat, c as nat, expected@, p as nat),
    decreases end - start,
{
    let fin = finalization(start == 0 && end == c, end - start);
    if end - start <= CHUNK_SIZE as u64 {
        if end > content.len() as u64 {
            return Err(Error::Truncated);
        }
        let bytes = match take_bytes(content, start as usize, (end - start) as usize) {
            Ok(b) => b,
            Err(e) => return Err(e),
        };
        let h = hash_node(bytes.as_slice(), fin);
        if !hashes_equal(&h, expected) {
            return Err(Error::HashMismatch);
        }
        return Ok((start, bytes));
    }
    if offset > ob.len() as u128 {
        return Err(Error::Truncated);
    }
    let bytes = match take_bytes(ob, offset as usize, PARENT_SIZE) {
        Ok(b) => b,
        Err(e) => return Err(e),
    };
    let parent = parent_array(&bytes);
    let h = hash_node(parent.as_slice(), fin);
    if !hashes_equal(&h, expected) {
        return Err(Error::HashMismatch);
    }
    proof {
        lemma_left_len_bounds((end - start) as nat);
    }
    let split = start + left_len(end - start);
    if p < split {
        let left_hash = child_hash(&parent, 0);
        find_chunk_outboard(ob, content, offset + PARENT_SIZE as u128, start, split, c, &left_hash, p)
    } else {
        let right_hash = child_hash(&parent, HASH_SIZE);
        let right_offset = offset + PARENT_SIZE as u128 + (encoded_subtree_size(split - start) - (split - start) as u128);
        find_chunk_outboard(ob, content, right_offset, split, end, c, &right_hash, p)
    }
}

/// The root hash that the combined encoding `enc` declares: the hash of its
/// root node, read from the header's length, which decoding checks.
pub open spec fn declared_hash(enc: Seq<u8>) -> Option<Seq<u8>> {
    if enc.len() < HEADER_SIZE {
        None
    } else {
        let c = le_value(enc);
        let size: int = if c <= CHUNK_SIZE {
            c as int
        } else {
            PARENT_SIZE as int
        };
        if HEADER_SIZE + size > enc.len() {
            None
        } else {
            Some(
                node_hash(
                    enc.subrange(HEADER_SIZE as int, HEADER_SIZE + size),
                    finalization_of(true, c as nat),
                ),
            )
        }
    }
}

/// The root hash that a combined encoding declares, recomputed from its
/// header and root node without reading the rest.
pub fn hash_from_encoded(encoded: &Vec<u8>) -> (r: Result<crate::hash::Hash, Error>)
    ensures
        r is Ok <==> declared_hash(encoded@) is Some,
        r is Ok ==> r.unwrap()@ == declared_hash(encoded@).unwrap(),
{
    if encoded.len() < HEADER_SIZE {
        return Err(Error::Truncated);
    }
    let header = [
        encoded[0],
        encoded[1],
        encoded[2],
        encoded[3],
        encoded[4],
        encoded[5],
        encoded[6],
        encoded[7],
    ];
    let c = decode_len(&header);
    assert(le_value(header@) == le_value(encoded@));
    let size: usize = if c <= CHUNK_SIZE as u64 {
        c as usize
    } else {
        PARENT_SIZE
    };
    let node = match take_bytes(encoded, HEADER_SIZE, size) {
        Ok(b) => b,
        Err(e) => return Err(e),
    };
    Ok(hash_node(node.as_slice(), finalization(true, c)))
}


/// An encoding decodes under one root hash at most: the one that its header
/// and root node declare. So any change to the hash handed to the decoder
/// makes decoding fail.
pub proof fn lemma_only_declared_hash_decodes(enc: Seq<u8>, hash: Seq<u8>)
    requires
        decode_spec(enc, hash) is Some,
    ensures
        declared_hash(enc) == Some(hash),
{
    let c = le_value(enc);
    if c > CHUNK_SIZE {
        lemma_left_len_bounds(c as nat);
    }
}

} // verus!
