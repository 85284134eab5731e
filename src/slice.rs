//! Slices: the part of a combined encoding that a range of content needs,
//! and the verifying decoder for such a part.

use crate::decode::{child_hash, parent_array, take_bytes, Error};
use crate::encode::{
    encoded_subtree_size, encoded_subtree_size_spec, encoding, finalization, finalization_of,
    lemma_tree_encoding_len, lemma_tree_hash_len, root_hash, tree_encoding, tree_hash,
};
use crate::hash::{
    decode_len, hash_node, hashes_equal, le_bytes, le_value, left_len, left_len_spec,
    lemma_left_len_bounds, lemma_len_round_trip, node_hash, CHUNK_SIZE, HASH_SIZE, HEADER_SIZE,
    PARENT_SIZE,
};
use vstd::prelude::*;

verus! {

/// The content range `[lo, hi)` that a slice of `len` bytes from `start`
/// carries over content of `c` bytes. It is never empty where the content is
/// not: a slice that starts at or past the end carries the last byte, and an
/// empty one the byte at `start`, so that the length can always be verified.
pub open spec fn slice_bounds(c: u64, start: u64, len: u64) -> (u64, u64) {
    if c == 0 {
        (0, 0)
    } else {
        let lo = if start < c {
            start
        } else {
            (c - 1) as u64
        };
        let end = if start + len < c {
            (start + len) as u64
        } else {
            c
        };
        let hi = if end > lo {
            end
        } else {
            (lo + 1) as u64
        };
        (lo, hi)
    }
}

/// Whether the subtree `[start, end)` is carried by a slice of `[lo, hi)`.
pub open spec fn carried(start: u64, end: u64, lo: u64, hi: u64) -> bool {
    start == end || (start < hi && lo < end)
}

/// The bytes that a slice of `[lo, hi)` takes from the encoded subtree
/// `[start, end)` found at `offset` in `enc`, or `None` where `enc` is short.
pub open spec fn slice_part(enc: Seq<u8>, offset: int, start: u64, end: u64, lo: u64, hi: u64) -> Option<Seq<u8>>
    decreases end - start,
{
    if !carried(start, end, lo, hi) || end < start {
        Some(Seq::empty())
    } else if end - start <= CHUNK_SIZE {
        if offset + (end - start) <= enc.len() {
            Some(enc.subrange(offset, offset + (end - start)))
        } else {
            None
        }
    } else if offset + PARENT_SIZE > enc.len() {
        None
    } else {
        let split = start + left_len_spec((end - start) as nat);
        if start < split < end {
            let right_offset = offset + PARENT_SIZE + encoded_subtree_size_spec((split - start) as nat);
            match (
                slice_part(enc, offset + PARENT_SIZE, start, split as u64, lo, hi),
                slice_part(enc, right_offset, split as u64, end, lo, hi),
            ) {
                (Some(l), Some(r)) => Some(enc.subrange(offset, offset + PARENT_SIZE) + l + r),
                _ => None,
            }
        } else {
            None
        }
    }
}

/// The slice of `[start, start + len)` taken from the combined encoding
/// `enc`: its header, then every parent and chunk that the range needs.
pub open spec fn slice_spec(enc: Seq<u8>, start: u64, len: u64) -> Option<Seq<u8>> {
    if enc.len() < HEADER_SIZE {
        None
    } else {
        let c = le_value(enc);
        let (lo, hi) = slice_bounds(c, start, len);
        match slice_part(enc, HEADER_SIZE as int, 0, c, lo, hi) {
            Some(p) => Some(enc.subrange(0, HEADER_SIZE as int) + p),
            None => None,
        }
    }
}

/// The content range `[a, b)` that a slice of `len` bytes from `start`
/// delivers over content of `c` bytes: empty where `start` is at or past the end.
pub open spec fn request_bounds(c: u64, start: u64, len: u64) -> (u64, u64) {
    if start < c {
        (start, if start + len < c {
            (start + len) as u64
        } else {
            c
        })
    } else {
        (c, c)
    }
}

/// The bytes of `bytes`, the content of a subtree that starts at `s`, that
/// lie within `[a, b)`.
pub open spec fn clip(bytes: Seq<u8>, s: int, a: int, b: int) -> Seq<u8> {
    let i = if a > s {
        a - s
    } else {
        0
    };
    let j = if b < s + bytes.len() {
        b - s
    } else {
        bytes.len() as int
    };
    if i < j {
        bytes.subrange(i, j)
    } else {
        Seq::empty()
    }
}

/// What a slice carries of the subtree `[s, e)` of `content`: nothing where
/// it is not carried; its chunk for a leaf; else its parent node and then
/// what it carries of each child.
pub open spec fn pruned(content: Seq<u8>, s: nat, e: nat, lo: nat, hi: nat) -> Seq<u8>
    decreases e - s,
{
    if e < s || !(s == e || (s < hi && lo < e)) {
        Seq::empty()
    } else if e - s <= CHUNK_SIZE {
        content.subrange(s as int, e as int)
    } else {
        let split = s + left_len_spec((e - s) as nat);
        if s < split < e {
            tree_hash(content.subrange(s as int, split as int), false) + tree_hash(
                content.subrange(split as int, e as int),
                false,
            ) + pruned(content, s, split as nat, lo, hi) + pruned(content, split as nat, e, lo, hi)
        } else {
            Seq::empty()
        }
    }
}

/// What decoding the slice bytes `sl` from `offset` gives for the subtree
/// `[start, end)` of a tree over `c` bytes: the verified content within
/// `[a, b)` and the number of slice bytes used, or `None` where a hash does
/// not match or `sl` ends early.
pub open spec fn decode_slice_part(
    sl: Seq<u8>,
    offset: int,
    start: nat,
    end: nat,
    c: nat,
    lo: nat,
    hi: nat,
    a: nat,
    b: nat,
    expected: Seq<u8>,
) -> Option<(Seq<u8>, nat)>
    decreases end - start,
{
    let fin = finalization_of(start == 0 && end == c, (end - start) as nat);
    if end < start || offset < 0 {
        None
    } else if !(start == end || (start < hi && lo < end)) {
        Some((Seq::empty(), 0))
    } else if end - start <= CHUNK_SIZE {
        if offset + (end - start) > sl.len() {
            None
        } else {
            let bytes = sl.subrange(offset, offset + (end - start));
            if node_hash(bytes, fin) == expected {
                Some((clip(bytes, start as int, a as int, b as int), (end - start) as nat))
            } else {
                None
            }
        }
    } else if offset + PARENT_SIZE > sl.len() {
        None
    } else {
        let parent = sl.subrange(offset, offset + PARENT_SIZE);
        let split = start + left_len_spec((end - start) as nat);
        if node_hash(parent, fin) != expected || !(start < split < end) {
            None
        } else {
            match decode_slice_part(
                sl,
                offset + PARENT_SIZE,
                start,
                split as nat,
                c,
                lo,
                hi,
                a,
                b,
                parent.subrange(0, HASH_SIZE as int),
            ) {
                Some((l, ln)) => match decode_slice_part(
                    sl,
                    offset + PARENT_SIZE + ln,
                    split as nat,
                    end,
                    c,
                    lo,
                    hi,
                    a,
                    b,
                    parent.subrange(HASH_SIZE as int, PARENT_SIZE as int),
                ) {
                    Some((r, rn)) => Some((l + r, (PARENT_SIZE + ln + rn) as nat)),
                    None => None,
                },
                None => None,
            }
        }
    }
}

/// Which error `decode_slice_part` meets first where it is `None`:
/// `Truncated` where the slice lacks bytes it needs, `HashMismatch` where a
/// node's hash does not match.
pub open spec fn decode_slice_error(
    sl: Seq<u8>,
    offset: int,
    start: nat,
    end: nat,
    c: nat,
    lo: nat,
    hi: nat,
    a: nat,
    b: nat,
    expected: Seq<u8>,
) -> Error
    decreases end - start,
{
    let fin = finalization_of(start == 0 && end == c, (end - start) as nat);
    if end < start || offset < 0 {
        Error::Truncated
    } else if !(start == end || (start < hi && lo < end)) {
        Error::HashMismatch
    } else if end - start <= CHUNK_SIZE {
        if offset + (end - start) > sl.len() {
            Error::Truncated
        } else {
            Error::HashMismatch
        }
    } else if offset + PARENT_SIZE > sl.len() {
        Error::Truncated
    } else {
        let parent = sl.subrange(offset, offset + PARENT_SIZE);
        let split = start + left_len_spec((end - start) as nat);
        if node_hash(parent, fin) != expected || !(start < split < end) {
            Error::HashMismatch
        } else {
            match decode_slice_part(sl, offset + PARENT_SIZE, start, split as nat, c, lo, hi, a, b, parent.subrange(0, HASH_SIZE as int)) {
                None => decode_slice_error(sl, offset + PARENT_SIZE, start, split as nat, c, lo, hi, a, b, parent.subrange(0, HASH_SIZE as int)),
                Some((l, ln)) => decode_slice_error(
                    sl,
                    offset + PARENT_SIZE + ln,
                    split as nat,
                    end,
                    c,
                    lo,
                    hi,
                    a,
                    b,
                    parent.subrange(HASH_SIZE as int, PARENT_SIZE as int),
                ),
            }
        }
    }
}

/// Which error decoding the slice `sl` of `[start, start + len)` against
/// `hash` meets, where `decode_slice_spec` is `None`.
pub open spec fn decode_slice_error_of(sl: Seq<u8>, hash: Seq<u8>, start: u64, len: u64) -> Error {
    if sl.len() < HEADER_SIZE {
        Error::Truncated
    } else {
        let c = le_value(sl);
        let (lo, hi) = slice_bounds(c, start, len);
        let (a, b) = request_bounds(c, start, len);
        decode_slice_error(sl, HEADER_SIZE as int, 0, c as nat, c as nat, lo as nat, hi as nat, a as nat, b as nat, hash)
    }
}

/// The content that the slice `sl` of `[start, start + len)` delivers when
/// verified against `hash`, or `None` where it fails to verify.
pub open spec fn decode_slice_spec(sl: Seq<u8>, hash: Seq<u8>, start: u64, len: u64) -> Option<Seq<u8>> {
    if sl.len() < HEADER_SIZE {
        None
    } else {
        let c = le_value(sl);
        let (lo, hi) = slice_bounds(c, start, len);
        let (a, b) = request_bounds(c, start, len);
        match decode_slice_part(sl, HEADER_SIZE as int, 0, c as nat, c as nat, lo as nat, hi as nat, a as nat, b as nat, hash) {
            Some((out, _)) => Some(out),
            None => None,
        }
    }
}

/// The content range that a slice carries.
pub fn bounds(c: u64, start: u64, len: u64) -> (r: (u64, u64))
    ensures
        r == slice_bounds(c, start, len),
{
    if c == 0 {
        return (0, 0);
    }
    let lo = if start < c {
        start
    } else {
        c - 1
    };
    let end = if len < c && start < c - len {
        start + len
    } else {
        c
    };
    let hi = if end > lo {
        end
    } else {
        lo + 1
    };
    (lo, hi)
}

#[verifier::rlimit(40)]
fn extract_part(enc: &Vec<u8>, offset: u128, start: u64, end: u64, lo: u64, hi: u64, out: &mut Vec<u8>) -> (r: Result<(), Error>)
    ensures
        r is Ok <==> slice_part(enc@, offset as int, start, end, lo, hi) is Some,
        r is Ok ==> final(out)@ == old(out)@ + slice_part(enc@, offset as int, start, end, lo, hi).unwrap(),
        r is Err ==> r == Err::<(), Error>(Error::Truncated),
    decreases end - start,
{
    if !(start == end || (start < hi && lo < end)) || end < start {
        assert(slice_part(enc@, offset as int, start, end, lo, hi) == Some(Seq::<u8>::empty()));
        assert(out@ =~= out@ + Seq::<u8>::empty());
        return Ok(());
    }
    if end - start <= CHUNK_SIZE as u64 {
        let size = (end - start) as u128;
        if offset > enc.len() as u128 || size > enc.len() as u128 - offset {
            return Err(Error::Truncated);
        }
        let o = offset as usize;
        out.extend_from_slice(&enc.as_slice()[o..o + size as usize]);
        return Ok(());
    }
    if offset > enc.len() as u128 || (PARENT_SIZE as u128) > enc.len() as u128 - offset {
        return Err(Error::Truncated);
    }
    proof {
        lemma_left_len_bounds((end - start) as nat);
    }
    let split = start + left_len(end - start);
    let o = offset as usize;
    let ghost before = out@;
    out.extend_from_slice(&enc.as_slice()[o..o + PARENT_SIZE]);
    let ghost with_parent = out@;
    let left_offset = offset + PARENT_SIZE as u128;
    let right_offset = left_offset + encoded_subtree_size(split - start);
    match extract_part(enc, left_offset, start, split, lo, hi, out) {
        Ok(()) => {},
        Err(e) => return Err(e),
    }
    match extract_part(enc, right_offset, split, end, lo, hi, out) {
        Ok(()) => {},
        Err(e) => return Err(e),
    }
    proof {
        let p = enc@.subrange(offset as int, offset + PARENT_SIZE);
        assert(with_parent == before + p);
        let l = slice_part(enc@, offset + PARENT_SIZE, start, split, lo, hi).unwrap();
        let r = slice_part(enc@, right_offset as int, split, end, lo, hi).unwrap();
        assert(out@ =~= before + (p + l + r));
    }
    Ok(())
}

/// Extracts the slice of `[start, start + len)` from the combined encoding
/// `encoded`, without verifying it; `Truncated` where `encoded` ends early.
pub fn extract_slice(encoded: &Vec<u8>, start: u64, len: u64) -> (r: Result<Vec<u8>, Error>)
    ensures
        r is Ok <==> slice_spec(encoded@, start, len) is Some,
        r is Ok ==> r.unwrap()@ == slice_spec(encoded@, start, len).unwrap(),
{
    if encoded.len() < HEADER_SIZE {
        return Err(Error::Truncated);
    }
    let header = [encoded[0], encoded[1], encoded[2], encoded[3], encoded[4], encoded[5], encoded[6], encoded[7]];
    assert(header@ =~= encoded@.subrange(0, 8));
    let c = decode_len(&header);
    assert(le_value(header@) == le_value(encoded@));
    let (lo, hi) = bounds(c, start, len);
    let mut out: Vec<u8> = Vec::new();
    out.extend_from_slice(&header);
    match extract_part(encoded, HEADER_SIZE as u128, 0, c, lo, hi, &mut out) {
        Ok(()) => Ok(out),
        Err(e) => Err(e),
    }
}


/// Clipping two neighbouring pieces of content is clipping them together.
proof fn lemma_clip_concat(content: Seq<u8>, s: nat, m: nat, e: nat, a: int, b: int)
    requires
        s <= m <= e <= content.len(),
    ensures
        clip(content.subrange(s as int, m as int), s as int, a, b) + clip(
            content.subrange(m as int, e as int),
            m as int,
            a,
            b,
        ) =~= clip(content.subrange(s as int, e as int), s as int, a, b),
{
    let l = clip(content.subrange(s as int, m as int), s as int, a, b);
    let r = clip(content.subrange(m as int, e as int), m as int, a, b);
    let w = clip(content.subrange(s as int, e as int), s as int, a, b);
    let lo = if a > s { a } else { s as int };
    let hi = if b < e { b } else { e as int };
    if lo < hi {
        assert(w =~= content.subrange(lo, hi));
        let lm = if m < hi { m as int } else { hi };
        let rm = if m > lo { m as int } else { lo };
        if lo < lm {
            assert(l =~= content.subrange(lo, lm));
        } else {
            assert(l =~= Seq::<u8>::empty());
        }
        if rm < hi {
            assert(r =~= content.subrange(rm, hi));
        } else {
            assert(r =~= Seq::<u8>::empty());
        }
        assert(l + r =~= content.subrange(lo, hi));
    } else {
        assert(w =~= Seq::<u8>::empty());
        assert(l =~= Seq::<u8>::empty());
        assert(r =~= Seq::<u8>::empty());
    }
}

/// The slice bytes taken from a subtree's encoding are what the slice
/// carries of that subtree.
#[verifier::rlimit(60)]
proof fn lemma_slice_part_of_encoding(enc: Seq<u8>, offset: int, x: Seq<u8>, s: nat, e: nat, lo: u64, hi: u64)
    requires
        s <= e <= x.len() <= u64::MAX,
        0 <= offset,
        offset + tree_encoding(x.subrange(s as int, e as int), false).len() <= enc.len(),
        enc.subrange(offset, offset + tree_encoding(x.subrange(s as int, e as int), false).len())
            == tree_encoding(x.subrange(s as int, e as int), false),
    ensures
        slice_part(enc, offset, s as u64, e as u64, lo, hi) == Some(pruned(x, s, e, lo as nat, hi as nat)),
    decreases e - s,
{
    let t = x.subrange(s as int, e as int);
    let te = tree_encoding(t, false);
    lemma_tree_encoding_len(t);
    if !(s == e || (s < hi && lo < e)) {
    } else if e - s <= CHUNK_SIZE {
        assert(te == t);
    } else {
        lemma_left_len_bounds(t.len());
        let l = left_len_spec(t.len());
        let left = t.subrange(0, l as int);
        let right = t.subrange(l as int, t.len() as int);
        lemma_tree_hash_len(left, false);
        lemma_tree_hash_len(right, false);
        lemma_tree_encoding_len(left);
        lemma_tree_encoding_len(right);
        let tel = tree_encoding(left, false);
        let ter = tree_encoding(right, false);
        assert(te == tree_hash(left, false) + tree_hash(right, false) + tel + ter);
        let split = s + l;
        assert(left =~= x.subrange(s as int, split as int));
        assert(right =~= x.subrange(split as int, e as int));
        assert(enc.subrange(offset, offset + PARENT_SIZE) =~= te.subrange(0, 64));
        assert(te.subrange(0, 64) =~= tree_hash(left, false) + tree_hash(right, false));
        let lo_off = offset + PARENT_SIZE;
        assert(te.subrange(64, 64 + tel.len() as int) =~= tel);
        assert(enc.subrange(lo_off, lo_off + tel.len()) =~= te.subrange(64, 64 + tel.len() as int));
        lemma_slice_part_of_encoding(enc, lo_off, x, s, split, lo, hi);
        let ro = lo_off + encoded_subtree_size_spec(l);
        assert(te.subrange(64 + tel.len() as int, te.len() as int) =~= ter);
        assert(enc.subrange(ro, ro + ter.len()) =~= te.subrange(64 + tel.len() as int, te.len() as int));
        lemma_slice_part_of_encoding(enc, ro, x, split, e, lo, hi);
        assert(((e as u64) - (s as u64)) as nat == t.len());
        assert(((s as u64) + left_len_spec(((e as u64) - (s as u64)) as nat)) as u64 == split);
        assert(encoded_subtree_size_spec((split - s) as nat) == tel.len());
        assert(pruned(x, s, e, lo as nat, hi as nat) == tree_hash(left, false) + tree_hash(right, false)
            + pruned(x, s, split, lo as nat, hi as nat) + pruned(x, split, e, lo as nat, hi as nat));
    }
}

/// Decoding what a slice carries of a subtree gives that subtree's content
/// within the requested range, using every carried byte.
#[verifier::rlimit(60)]
proof fn lemma_decode_pruned(
    sl: Seq<u8>,
    offset: int,
    x: Seq<u8>,
    s: nat,
    e: nat,
    lo: nat,
    hi: nat,
    a: nat,
    b: nat,
)
    requires
        s <= e <= x.len() <= u64::MAX,
        0 <= offset,
        a >= b || (lo <= a && b <= hi),
        offset + pruned(x, s, e, lo, hi).len() <= sl.len(),
        sl.subrange(offset, offset + pruned(x, s, e, lo, hi).len()) == pruned(x, s, e, lo, hi),
    ensures
        decode_slice_part(
            sl,
            offset,
            s,
            e,
            x.len(),
            lo,
            hi,
            a,
            b,
            tree_hash(x.subrange(s as int, e as int), s == 0 && e == x.len()),
        ) == Some(
            (clip(x.subrange(s as int, e as int), s as int, a as int, b as int), pruned(x, s, e, lo, hi).len()),
        ),
    decreases e - s,
{
    let t = x.subrange(s as int, e as int);
    let p = pruned(x, s, e, lo, hi);
    if !(s == e || (s < hi && lo < e)) {
        assert(clip(t, s as int, a as int, b as int) =~= Seq::<u8>::empty());
    } else if e - s <= CHUNK_SIZE {
        assert(p == t);
    } else {
        lemma_left_len_bounds(t.len());
        let l = left_len_spec(t.len());
        let split = s + l;
        let left = x.subrange(s as int, split as int);
        let right = x.subrange(split as int, e as int);
        assert(t.subrange(0, l as int) =~= left);
        assert(t.subrange(l as int, t.len() as int) =~= right);
        let lh = tree_hash(left, false);
        let rh = tree_hash(right, false);
        lemma_tree_hash_len(left, false);
        lemma_tree_hash_len(right, false);
        let pl = pruned(x, s, split, lo, hi);
        let pr = pruned(x, split, e, lo, hi);
        assert(p == lh + rh + pl + pr);
        let parent = sl.subrange(offset, offset + PARENT_SIZE);
        assert(parent =~= p.subrange(0, 64));
        assert(p.subrange(0, 64) =~= lh + rh);
        assert(parent.subrange(0, 32) =~= lh);
        assert(parent.subrange(32, 64) =~= rh);
        let lo_off = offset + PARENT_SIZE;
        assert(p.subrange(64, 64 + pl.len() as int) =~= pl);
        assert(sl.subrange(lo_off, lo_off + pl.len()) =~= p.subrange(64, 64 + pl.len() as int));
        lemma_decode_pruned(sl, lo_off, x, s, split, lo, hi, a, b);
        let ro = lo_off + pl.len();
        assert(p.subrange(64 + pl.len() as int, p.len() as int) =~= pr);
        assert(sl.subrange(ro, ro + pr.len()) =~= p.subrange(64 + pl.len() as int, p.len() as int));
        lemma_decode_pruned(sl, ro, x, split, e, lo, hi, a, b);
        lemma_clip_concat(x, s, split, e, a as int, b as int);
        assert(node_hash(parent, finalization_of(s == 0 && e == x.len(), (e - s) as nat)) == tree_hash(
            t,
            s == 0 && e == x.len(),
        ));
    }
}

/// Extracting a slice from the combined encoding of any content and
/// decoding it under the content's root hash gives the requested range of
/// the content, cut off at the content's end.
pub proof fn lemma_slice_round_trip(content: Seq<u8>, start: u64, len: u64)
    requires
        content.len() <= u64::MAX,
    ensures
        slice_spec(encoding(content), start, len) is Some,
        decode_slice_spec(
            slice_spec(encoding(content), start, len).unwrap(),
            root_hash(content),
            start,
            len,
        ) == Some(
            content.subrange(
                if start < content.len() {
                    start as int
                } else {
                    content.len() as int
                },
                if start + len < content.len() {
                    start + len
                } else {
                    content.len() as int
                },
            ),
        ),
{
    let c = content.len() as u64;
    let enc = encoding(content);
    let te = tree_encoding(content, false);
    lemma_tree_encoding_len(content);
    lemma_len_round_trip(c);
    assert(enc == le_bytes(c) + te);
    assert(le_value(enc) == le_value(le_bytes(c)));
    let (lo, hi) = slice_bounds(c, start, len);
    let (a, b) = request_bounds(c, start, len);
    assert(content.subrange(0, content.len() as int) =~= content);
    assert(enc.subrange(8, 8 + te.len() as int) =~= te);
    lemma_slice_part_of_encoding(enc, 8, content, 0, content.len(), lo, hi);
    let p = pruned(content, 0, content.len(), lo as nat, hi as nat);
    let sl = enc.subrange(0, 8) + p;
    assert(sl == slice_spec(enc, start, len).unwrap());
    assert(enc.subrange(0, 8) =~= le_bytes(c));
    assert(le_value(sl) == le_value(le_bytes(c)));
    assert(sl.subrange(8, 8 + p.len() as int) =~= p);
    lemma_decode_pruned(sl, 8, content, 0, content.len(), lo as nat, hi as nat, a as nat, b as nat);
    let expected = content.subrange(
        if start < content.len() {
            start as int
        } else {
            content.len() as int
        },
        if start + len < content.len() {
            start + len
        } else {
            content.len() as int
        },
    );
    assert(clip(content.subrange(0, content.len() as int), 0, a as int, b as int) =~= expected);
}

/// The bytes of `bytes`, a subtree's content from `s`, within `[a, b)`.
fn clip_bytes(bytes: &Vec<u8>, s: u64, a: u64, b: u64) -> (r: Vec<u8>)
    ensures
        r@ == clip(bytes@, s as int, a as int, b as int),
{
    let n = bytes.len() as u128;
    let i: u128 = if a > s {
        (a - s) as u128
    } else {
        0
    };
    let mut out: Vec<u8> = Vec::new();
    if (b as u128) < (s as u128) {
        return out;
    }
    let j: u128 = if (b as u128) < s as u128 + n {
        (b - s) as u128
    } else {
        n
    };
    if i < j {
        out.extend_from_slice(&bytes.as_slice()[i as usize..j as usize]);
        assert(out@ =~= clip(bytes@, s as int, a as int, b as int));
    }
    out
}

#[verifier::rlimit(40)]
fn decode_slice_subtree(
    sl: &Vec<u8>,
    offset: usize,
    start: u64,
    end: u64,
    c: u64,
    bounds: (u64, u64, u64, u64),
    expected: &crate::hash::Hash,
    out: &mut Vec<u8>,
) -> (r: Result<usize, Error>)
    requires
        start <= end <= c,
    ensures
        ({
            let (lo, hi, a, b) = bounds;
            let part = decode_slice_part(
                sl@,
                offset as int,
                start as nat,
                end as nat,
                c as nat,
                lo as nat,
                hi as nat,
                a as nat,
                b as nat,
                expected@,
            );
            &&& r is Ok <==> part is Some
            &&& r is Ok ==> final(out)@ == old(out)@ + part.unwrap().0 && r.unwrap()
                == part.unwrap().1 && (r.unwrap() == 0 || offset + r.unwrap() <= sl@.len())
            &&& r is Err ==> r->Err_0 == decode_slice_error(
                sl@,
                offset as int,
                start as nat,
                end as nat,
                c as nat,
                lo as nat,
                hi as nat,
                a as nat,
                b as nat,
                expected@,
            )
        }),
    decreases end - start,
{
    let (lo, hi, a, b) = bounds;
    if !(start == end || (start < hi && lo < end)) {
        assert(out@ =~= out@ + Seq::<u8>::empty());
        return Ok(0);
    }
    let fin = finalization(start == 0 && end == c, end - start);
    if end - start <= CHUNK_SIZE as u64 {
        let size = (end - start) as usize;
        let bytes = match take_bytes(sl, offset, size) {
            Ok(b) => b,
            Err(e) => return Err(e),
        };
        let h = hash_node(bytes.as_slice(), fin);
        if !hashes_equal(&h, expected) {
            return Err(Error::HashMismatch);
        }
        let mut kept = clip_bytes(&bytes, start, a, b);
        out.append(&mut kept);
        return Ok(size);
    }
    let taken = take_bytes(sl, offset, PARENT_SIZE);
    let bytes = match taken {
        Ok(b) => b,
        Err(e) => return Err(e),
    };
    let available = sl.len();
    assert(offset + PARENT_SIZE <= available);
    let parent = parent_array(&bytes);
    let h = hash_node(parent.as_slice(), fin);
    if !hashes_equal(&h, expected) {
        return Err(Error::HashMismatch);
    }
    proof {
        lemma_left_len_bounds((end - start) as nat);
    }
    let split = start + left_len(end - start);
    let left_hash = child_hash(&parent, 0);
    let right_hash = child_hash(&parent, HASH_SIZE);
    let ghost before = out@;
    let left_used = match decode_slice_subtree(sl, offset + PARENT_SIZE, start, split, c, bounds, &left_hash, out) {
        Ok(n) => n,
        Err(e) => return Err(e),
    };
    let ghost after_left = out@;
    let right_used = match decode_slice_subtree(
        sl,
        offset + PARENT_SIZE + left_used,
        split,
        end,
        c,
        bounds,
        &right_hash,
        out,
    ) {
        Ok(n) => n,
        Err(e) => return Err(e),
    };
    assert(out@ =~= before + (after_left.subrange(before.len() as int, after_left.len() as int)
        + out@.subrange(after_left.len() as int, out@.len() as int)));
    Ok(PARENT_SIZE + left_used + right_used)
}

/// Verifies the slice `slice` of `[start, start + len)` against `root_hash`
/// and returns the content it covers.
pub fn decode_slice(slice: &Vec<u8>, root_hash: &crate::hash::Hash, start: u64, len: u64) -> (r: Result<Vec<u8>, Error>)
    ensures
        r is Ok <==> decode_slice_spec(slice@, root_hash@, start, len) is Some,
        r is Ok ==> r.unwrap()@ == decode_slice_spec(slice@, root_hash@, start, len).unwrap(),
        r is Err ==> r->Err_0 == decode_slice_error_of(slice@, root_hash@, start, len),
{
    if slice.len() < HEADER_SIZE {
        return Err(Error::Truncated);
    }
    let header = [slice[0], slice[1], slice[2], slice[3], slice[4], slice[5], slice[6], slice[7]];
    let c = decode_len(&header);
    assert(le_value(header@) == le_value(slice@));
    let (lo, hi) = bounds(c, start, len);
    let (a, b) = if start < c {
        (start, if len < c - start {
            start + len
        } else {
            c
        })
    } else {
        (c, c)
    };
    let mut out: Vec<u8> = Vec::new();
    match decode_slice_subtree(slice, HEADER_SIZE, 0, c, c, (lo, hi, a, b), root_hash, &mut out) {
        Ok(_) => {
            assert(out@ =~= Seq::<u8>::empty() + decode_slice_spec(slice@, root_hash@, start, len).unwrap());
            Ok(out)
        },
        Err(e) => Err(e),
    }
}

} // verus!
