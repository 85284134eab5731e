//! The verifying decoder: a state machine that is fed the parts of an
//! encoding and tells its driver what it needs next, and a seekable reader
//! that checks every chunk it hands out against the root hash.

use crate::encode::{
    encoded_subtree_size, encoded_subtree_size_spec, finalization, finalization_of,
    lemma_encoded_subtree_size_bound,
    lemma_encoded_subtree_split,
};
use crate::hash::{
    decode_len, floor_log2, hash_node, hashes_equal, le_value, left_len, left_len_spec,
    lemma_left_len_bounds, lemma_left_len_halves, node_hash, Finalization, CHUNK_SIZE, HASH_SIZE, HEADER_SIZE, MAX_DEPTH,
    PARENT_SIZE,
};
use crate::whole::{
    chunk_at, chunk_at_outboard, chunk_error, chunk_outboard_error, declared_hash, decode_outboard_spec, decode_spec, find_chunk, find_chunk_outboard,
    lemma_chunk_at, lemma_chunk_at_bounds, lemma_chunk_at_outboard, lemma_chunk_at_outboard_bounds, lemma_decode_outboard_part_len, lemma_decode_part_len,
};
use either::Either::{self, Left, Right};
use vstd::arithmetic::power2::{
    lemma2_to64, lemma_pow2_adds, lemma_pow2_strictly_increases, pow2,
};
use vstd::prelude::*;

verus! {

/// Room for every subtree that can wait on the stack: one pending right
/// sibling for each level of parents, plus the subtree being descended into.
pub const STACK_CAPACITY: usize = MAX_DEPTH + 1;

#[verifier::external_type_specification]
#[verifier::external_body]
#[verifier::reject_recursive_types(T)]
pub struct ExArrayVec<T, const CAP: usize>(arrayvec::ArrayVec<T, CAP>);

#[verifier::external_type_specification]
#[verifier::reject_recursive_types(L)]
#[verifier::reject_recursive_types(R)]
pub struct ExEither<L, R>(either::Either<L, R>);

/// A subtree that is still to be verified: the content range it covers and
/// the hash it must have.
#[derive(Clone, Copy, Debug)]
pub struct Subtree {
    pub hash: crate::hash::Hash,
    pub start: u64,
    pub end: u64,
}

/// The subtrees held by a stack, bottom first.
pub uninterp spec fn subtrees_of(v: arrayvec::ArrayVec<Subtree, STACK_CAPACITY>) -> Seq<Subtree>;

/// Relies on arrayvec::ArrayVec::new: an empty vector.
#[verifier::external_body]
fn stack_new() -> (r: arrayvec::ArrayVec<Subtree, STACK_CAPACITY>)
    ensures
        subtrees_of(r) == Seq::<Subtree>::empty(),
{
    arrayvec::ArrayVec::new()
}

/// Relies on arrayvec::ArrayVec::len: the number of items held.
#[verifier::external_body]
fn stack_len(v: &arrayvec::ArrayVec<Subtree, STACK_CAPACITY>) -> (r: usize)
    ensures
        r == subtrees_of(*v).len(),
{
    v.len()
}

/// Relies on arrayvec::ArrayVec::push: appends an item; it panics when the
/// vector is full, which `requires` leaves out.
#[verifier::external_body]
fn stack_push(v: &mut arrayvec::ArrayVec<Subtree, STACK_CAPACITY>, s: Subtree)
    requires
        subtrees_of(*old(v)).len() < STACK_CAPACITY,
    ensures
        subtrees_of(*final(v)) == subtrees_of(*old(v)).push(s),
{
    v.push(s)
}

/// Relies on arrayvec::ArrayVec::pop: removes and returns the last item.
#[verifier::external_body]
fn stack_pop(v: &mut arrayvec::ArrayVec<Subtree, STACK_CAPACITY>) -> (r: Option<Subtree>)
    ensures
        subtrees_of(*old(v)).len() == 0 ==> r is None && subtrees_of(*final(v)) == subtrees_of(
            *old(v),
        ),
        subtrees_of(*old(v)).len() > 0 ==> r == Some(subtrees_of(*old(v)).last())
            && subtrees_of(*final(v)) == subtrees_of(*old(v)).drop_last(),
{
    v.pop()
}

/// Relies on arrayvec::ArrayVec::clear: removes every item.
#[verifier::external_body]
fn stack_clear(v: &mut arrayvec::ArrayVec<Subtree, STACK_CAPACITY>)
    ensures
        subtrees_of(*final(v)) == Seq::<Subtree>::empty(),
{
    v.clear()
}

/// Relies on the slice method `last` of arrayvec::ArrayVec: its last item.
#[verifier::external_body]
fn stack_last(v: &arrayvec::ArrayVec<Subtree, STACK_CAPACITY>) -> (r: Option<Subtree>)
    ensures
        subtrees_of(*v).len() == 0 ==> r is None,
        subtrees_of(*v).len() > 0 ==> r == Some(subtrees_of(*v).last()),
{
    v.last().copied()
}

/// What the driver must supply next.
#[derive(Clone, Copy, Debug)]
pub enum StateNext {
    /// The eight-byte length header.
    Header,
    /// The parent node of a subtree of `size` bytes.
    Subtree { size: u64, skip: u64, finalization: Finalization },
    /// The hash of a chunk of `size` bytes, of which the first `skip` are
    /// before the current position.
    Chunk { size: usize, skip: usize, finalization: Finalization },
    /// Nothing: the end of the content, or the end of a seek.
    Done,
}

impl Subtree {
    /// The length of the covered range.
    pub open spec fn len_spec(&self) -> nat {
        (self.end - self.start) as nat
    }

    pub open spec fn is_root_spec(&self, content_length: u64) -> bool {
        self.start == 0 && self.end == content_length
    }

    /// The finalization under which this subtree's node is hashed.
    pub open spec fn finalization_spec(&self, content_length: u64) -> Finalization {
        finalization_of(self.is_root_spec(content_length), self.len_spec())
    }

    /// The event that reads this subtree's node at `content_position`.
    pub open spec fn state_next_spec(&self, content_length: u64, content_position: u64) -> StateNext {
        if self.len_spec() <= CHUNK_SIZE {
            StateNext::Chunk {
                size: self.len_spec() as usize,
                skip: (content_position - self.start) as usize,
                finalization: self.finalization_spec(content_length),
            }
        } else {
            StateNext::Subtree {
                size: self.len_spec() as u64,
                skip: (content_position - self.start) as u64,
                finalization: self.finalization_spec(content_length),
            }
        }
    }

    pub fn len(&self) -> (r: u64)
        requires
            self.start <= self.end,
        ensures
            r == self.len_spec(),
    {
        self.end - self.start
    }

    /// Whether this subtree covers the whole content.
    pub fn is_root(&self, content_length: u64) -> (r: bool)
        ensures
            r == self.is_root_spec(content_length),
    {
        self.start == 0 && self.end == content_length
    }

    pub fn finalization(&self, content_length: u64) -> (r: Finalization)
        requires
            self.start <= self.end,
        ensures
            r == self.finalization_spec(content_length),
    {
        finalization(self.is_root(content_length), self.len())
    }

    pub fn state_next(&self, content_length: u64, content_position: u64) -> (r: StateNext)
        requires
            self.start <= self.end,
            self.start <= content_position,
        ensures
            r == self.state_next_spec(content_length, content_position),
    {
        let skip = content_position - self.start;
        if self.len() <= CHUNK_SIZE as u64 {
            StateNext::Chunk {
                size: self.len() as usize,
                skip: skip as usize,
                finalization: self.finalization(content_length),
            }
        } else {
            StateNext::Subtree { size: self.len(), skip, finalization: self.finalization(content_length) }
        }
    }
}

/// The sum of the encoded sizes of the subtrees in `stack`.
pub open spec fn encoded_sum(stack: Seq<Subtree>) -> nat
    decreases stack.len(),
{
    if stack.len() == 0 {
        0
    } else {
        encoded_sum(stack.drop_last()) + encoded_subtree_size_spec(stack.last().len_spec())
    }
}

/// What a `State` holds, as plain values.
pub struct StateView {
    /// Pending subtrees, bottom first: the last one is processed next.
    pub stack: Seq<Subtree>,
    pub root_hash: crate::hash::Hash,
    pub content_length: Option<u64>,
    pub length_verified: bool,
    pub content_position: u64,
    pub encoded_offset: u128,
}

/// The verifier's state. It does no I/O: a driver reads what `read_next`,
/// `len_next` or `seek_next` asks for and feeds it back.
pub struct State {
    stack: arrayvec::ArrayVec<Subtree, STACK_CAPACITY>,
    root_hash: crate::hash::Hash,
    content_length: Option<u64>,
    length_verified: bool,
    content_position: u64,
    encoded_offset: u128,
}

impl View for State {
    type V = StateView;

    closed spec fn view(&self) -> StateView {
        StateView {
            stack: subtrees_of(self.stack),
            root_hash: self.root_hash,
            content_length: self.content_length,
            length_verified: self.length_verified,
            content_position: self.content_position,
            encoded_offset: self.encoded_offset,
        }
    }
}

impl StateView {
    /// The root subtree of a tree over `content_length` bytes.
    pub open spec fn root_subtree(self, content_length: u64) -> Seq<Subtree> {
        seq![Subtree { hash: self.root_hash, start: 0, end: content_length }]
    }

    /// The invariant of the state machine.
    pub open spec fn wf(self) -> bool {
        &&& self.stack.len() <= STACK_CAPACITY
        &&& forall|i: int|
            0 <= i < self.stack.len() ==> {
                &&& #[trigger] self.stack[i].start <= self.stack[i].end
                &&& self.stack[i].len_spec() <= pow2((64 - i) as nat)
            }
        &&& forall|i: int|
            0 <= i < self.stack.len() - 1 ==> #[trigger] self.stack[i + 1].end
                == self.stack[i].start
        &&& self.stack.len() > 0 ==> self.stack.last().start <= self.content_position
        &&& match self.content_length {
            None => self.stack.len() == 0 && !self.length_verified && self.encoded_offset == 0
                && self.content_position == 0,
            Some(c) => {
                &&& self.stack.len() > 0 ==> self.stack[0].end == c
                &&& !self.length_verified ==> self.content_position == 0
                &&& self.encoded_offset + encoded_sum(self.stack) == HEADER_SIZE
                    + encoded_subtree_size_spec(c as nat)
                &&& !self.length_verified ==> self.stack == self.root_subtree(c)
                &&& forall|i: int| 0 <= i < self.stack.len() ==> #[trigger] self.stack[i].end <= c
                &&& self.stack.len() <= 1 + tree_levels(c)
                &&& forall|i: int|
                    1 <= i < self.stack.len() ==> #[trigger] self.stack[i].len_spec() <= CHUNK_SIZE
                        * pow2((tree_levels(c) - i) as nat)
                &&& self.stack.len() > 0 && self.stack[0].start != 0 ==> self.stack[0].len_spec()
                    <= CHUNK_SIZE * pow2((tree_levels(c) - 1) as nat)
            },
        }
    }

    /// The state with the stack back at the root and the offset just past
    /// the header.
    pub open spec fn reset(self, content_length: u64) -> StateView {
        StateView {
            stack: self.root_subtree(content_length),
            encoded_offset: HEADER_SIZE as u128,
            ..self
        }
    }

    /// The verified content length, or else the event that leads to it.
    pub open spec fn len_next_spec(self) -> Either<u64, StateNext> {
        match self.content_length {
            None => Right(StateNext::Header),
            Some(c) => if self.length_verified {
                Left(c)
            } else {
                Right(self.stack.last().state_next_spec(c, self.content_position))
            },
        }
    }

    /// The next event of a plain read.
    pub open spec fn read_next_spec(self) -> StateNext {
        match self.len_next_spec() {
            Right(next) => next,
            Left(c) => if self.stack.len() > 0 {
                self.stack.last().state_next_spec(c, self.content_position)
            } else {
                StateNext::Done
            },
        }
    }

    /// The state after a seek to `target` has popped every subtree that ends
    /// at or before it.
    pub open spec fn pop_before(self, target: u64) -> StateView
        decreases self.stack.len(),
    {
        if self.stack.len() > 0 && self.stack.last().end <= target {
            StateView {
                stack: self.stack.drop_last(),
                encoded_offset: (self.encoded_offset + encoded_subtree_size_spec(
                    self.stack.last().len_spec(),
                )) as u128,
                ..self
            }.pop_before(target)
        } else {
            self
        }
    }

    /// What one call of `seek_next(target)` returns: the encoded offset, the
    /// event to supply there, and the state afterwards.
    pub open spec fn seek_next_spec(self, target: u64) -> (u128, StateNext, StateView) {
        match self.len_next_spec() {
            Right(next) => (self.encoded_offset, next, self),
            Left(c) => {
                let s1 = StateView { content_position: target, ..self };
                if s1.stack.len() == 0 && target >= c {
                    (s1.encoded_offset, StateNext::Done, s1)
                } else {
                    let s2 = if s1.stack.len() == 0 || target < s1.stack.last().start {
                        s1.reset(c)
                    } else {
                        s1
                    };
                    let s3 = s2.pop_before(target);
                    if s3.stack.len() == 0 || target - s3.stack.last().start < CHUNK_SIZE {
                        (s3.encoded_offset, StateNext::Done, s3)
                    } else {
                        (s3.encoded_offset, s3.stack.last().state_next_spec(c, target), s3)
                    }
                }
            },
        }
    }
}

/// The two child hashes held by a parent node.
pub open spec fn left_half(parent: Seq<u8>) -> Seq<u8> {
    parent.subrange(0, HASH_SIZE as int)
}

pub open spec fn right_half(parent: Seq<u8>) -> Seq<u8> {
    parent.subrange(HASH_SIZE as int, PARENT_SIZE as int)
}

/// The hash stored at `from` in a parent node.
pub(crate) fn child_hash(parent: &[u8; 64], from: usize) -> (r: crate::hash::Hash)
    requires
        from == 0 || from == HASH_SIZE,
    ensures
        r@ == parent@.subrange(from as int, from + HASH_SIZE),
{
    let mut r = [0u8; 32];
    let mut i: usize = 0;
    while i < HASH_SIZE
        invariant
            from == 0 || from == HASH_SIZE,
            i <= HASH_SIZE,
            r@.len() == HASH_SIZE,
            forall|j: int| 0 <= j < i ==> r@[j] == parent@[from + j],
        decreases HASH_SIZE - i,
    {
        r[i] = parent[from + i];
        i = i + 1;
    }
    assert(r@ =~= parent@.subrange(from as int, from + HASH_SIZE));
    r
}

/// The number of levels of parent nodes in the tree over `c` bytes.
pub open spec fn tree_levels(c: u64) -> nat {
    if c <= CHUNK_SIZE {
        0
    } else {
        floor_log2(((c - 1) / CHUNK_SIZE as int) as nat) + 1
    }
}

/// `pow2` never decreases.
proof fn lemma_pow2_mono(a: nat, b: nat)
    requires
        a <= b,
    ensures
        pow2(a) <= pow2(b),
{
    if a < b {
        lemma_pow2_strictly_increases(a, b);
    }
}

/// Splitting the pending subtree at stack index `t` puts its left child
/// within the bound for index `t + 1`, and that index within the tree's
/// levels.
proof fn lemma_split_height(c: u64, t: int, start: u64, len: nat)
    requires
        len > CHUNK_SIZE,
        len <= c,
        t >= 0,
        (t == 0 && start == 0 && len == c) || (t == 0 && start != 0 && len <= CHUNK_SIZE * pow2(
            (tree_levels(c) - 1) as nat,
        )) || (1 <= t <= tree_levels(c) && len <= CHUNK_SIZE * pow2((tree_levels(c) - t) as nat)),
    ensures
        t + 1 <= tree_levels(c),
        left_len_spec(len) <= CHUNK_SIZE * pow2((tree_levels(c) - (t + 1)) as nat),
        left_len_spec(len) <= CHUNK_SIZE * pow2((tree_levels(c) - 1) as nat),
{
    lemma2_to64();
    let h = tree_levels(c);
    lemma_left_len_bounds(len);
    if t == 0 && start == 0 && len == c {
    } else {
        let e: nat = if t == 0 {
            (h - 1) as nat
        } else {
            (h - t) as nat
        };
        lemma_pow2_adds(12, e);
        lemma_left_len_halves(len, 12 + e);
        lemma_pow2_adds(12, (e - 1) as nat);
        assert(((12 + e) - 1) as nat == 12 + (e - 1) as nat);
        if t == 0 {
            lemma_pow2_mono((h - 2) as nat, (h - 1) as nat);
        }
    }
    lemma_pow2_mono((h - (t + 1)) as nat, (h - 1) as nat);
}

/// Going back to the root keeps the invariant.
proof fn lemma_reset_wf(v: StateView, c: u64, position: u64)
    requires
        v.wf(),
        v.content_length == Some(c),
        v.length_verified || position == 0,
    ensures
        (StateView { content_position: position, ..v }).reset(c).wf(),
{
    lemma2_to64();
    let w = (StateView { content_position: position, ..v }).reset(c);
    assert(w.stack[0].len_spec() <= pow2(64));
    assert(w.stack.drop_last() =~= Seq::<Subtree>::empty());
    assert(encoded_sum(w.stack.drop_last()) == 0);
}

/// Popping a subtree that ends at or before the position, and moving the
/// offset past its encoding, keeps the invariant.
#[verifier::rlimit(40)]
proof fn lemma_pop_wf(v: StateView)
    requires
        v.wf(),
        v.content_length is Some,
        v.length_verified,
        v.stack.len() > 0,
        v.stack.last().end <= v.content_position,
    ensures
        v.encoded_offset + encoded_subtree_size_spec(v.stack.last().len_spec()) <= u128::MAX,
        (StateView {
            stack: v.stack.drop_last(),
            encoded_offset: (v.encoded_offset + encoded_subtree_size_spec(
                v.stack.last().len_spec(),
            )) as u128,
            ..v
        }).wf(),
{
    let c = v.content_length.unwrap();
    let w = StateView {
        stack: v.stack.drop_last(),
        encoded_offset: (v.encoded_offset + encoded_subtree_size_spec(v.stack.last().len_spec()))
            as u128,
        ..v
    };
    lemma_encoded_subtree_size_bound(c as nat);
    assert(encoded_sum(v.stack) == encoded_sum(w.stack) + encoded_subtree_size_spec(
        v.stack.last().len_spec(),
    ));
    assert forall|i: int| 0 <= i < w.stack.len() implies {
        &&& #[trigger] w.stack[i].start <= w.stack[i].end
        &&& w.stack[i].len_spec() <= pow2((64 - i) as nat)
    } by {
        assert(w.stack[i] == v.stack[i]);
    }
    assert forall|i: int| 0 <= i < w.stack.len() - 1 implies #[trigger] w.stack[i + 1].end
        == w.stack[i].start by {
        assert(w.stack[i] == v.stack[i]);
        assert(w.stack[i + 1] == v.stack[i + 1]);
    }
    if w.stack.len() > 0 {
        let k = v.stack.len() - 2;
        assert(v.stack[k + 1].end == v.stack[k].start);
    }
}

/// Popping during a seek changes only the stack and the offset.
proof fn lemma_pop_before_keeps(v: StateView, target: u64)
    ensures
        v.pop_before(target).content_position == v.content_position,
        v.pop_before(target).content_length == v.content_length,
        v.pop_before(target).length_verified == v.length_verified,
        v.pop_before(target).root_hash == v.root_hash,
    decreases v.stack.len(),
{
    if v.stack.len() > 0 && v.stack.last().end <= target {
        lemma_pop_before_keeps(
            StateView {
                stack: v.stack.drop_last(),
                encoded_offset: (v.encoded_offset + encoded_subtree_size_spec(
                    v.stack.last().len_spec(),
                )) as u128,
                ..v
            },
            target,
        );
    }
}

/// Once the length is verified, a seek step lands on its target.
pub proof fn lemma_seek_keeps(v: StateView, target: u64)
    requires
        v.length_verified,
        v.content_length is Some,
    ensures
        v.seek_next_spec(target).2.content_position == target,
        v.seek_next_spec(target).2.length_verified,
        v.seek_next_spec(target).2.root_hash == v.root_hash,
        v.seek_next_spec(target).2.content_length == v.content_length,
        v.seek_next_spec(target).1 != StateNext::Done ==> v.seek_next_spec(target).1
            == v.seek_next_spec(target).2.read_next_spec(),
{
    let c = v.content_length.unwrap();
    let s1 = StateView { content_position: target, ..v };
    lemma_pop_before_keeps(s1, target);
    lemma_pop_before_keeps(s1.reset(c), target);
}

/// A seek to the end of the content or past it pops every pending subtree.
proof fn lemma_pop_before_end(v: StateView, target: u64)
    requires
        v.content_length is Some,
        target >= v.content_length.unwrap(),
        forall|i: int| 0 <= i < v.stack.len() ==> #[trigger] v.stack[i].end <= v.content_length.unwrap(),
    ensures
        v.pop_before(target).stack.len() == 0,
    decreases v.stack.len(),
{
    if v.stack.len() > 0 {
        let w = StateView {
            stack: v.stack.drop_last(),
            encoded_offset: (v.encoded_offset + encoded_subtree_size_spec(v.stack.last().len_spec()))
                as u128,
            ..v
        };
        assert(v.stack[v.stack.len() - 1].end <= v.content_length.unwrap());
        assert forall|i: int| 0 <= i < w.stack.len() implies #[trigger] w.stack[i].end
            <= w.content_length.unwrap() by {
            assert(w.stack[i] == v.stack[i]);
        }
        lemma_pop_before_end(w, target);
    }
}

/// Once the length is verified, a seek to the end or past it leaves no
/// pending subtree.
#[verifier::rlimit(40)]
pub proof fn lemma_seek_past_end(v: StateView, target: u64)
    requires
        v.wf(),
        v.length_verified,
        v.content_length is Some,
        target >= v.content_length.unwrap(),
    ensures
        v.seek_next_spec(target).2.stack.len() == 0,
{
    let c = v.content_length.unwrap();
    let s1 = StateView { content_position: target, ..v };
    if !(s1.stack.len() == 0 && target >= c) {
        let s2 = if s1.stack.len() == 0 || target < s1.stack.last().start {
            s1.reset(c)
        } else {
            s1
        };
        assert forall|i: int| 0 <= i < s2.stack.len() implies #[trigger] s2.stack[i].end
            <= s2.content_length.unwrap() by {
            if !(s1.stack.len() == 0 || target < s1.stack.last().start) {
                assert(s2.stack[i] == v.stack[i]);
            }
        }
        lemma_pop_before_end(s2, target);
    }
}

impl State {
    pub open spec fn new_spec(root_hash: crate::hash::Hash) -> StateView {
        StateView {
            stack: Seq::empty(),
            root_hash,
            content_length: None,
            length_verified: false,
            content_position: 0,
            encoded_offset: 0,
        }
    }

    /// A state that will verify content against `root_hash`.
    pub fn new(root_hash: crate::hash::Hash) -> (r: State)
        ensures
            r@ == State::new_spec(root_hash),
            r@.wf(),
    {
        State {
            stack: stack_new(),
            root_hash,
            content_length: None,
            length_verified: false,
            content_position: 0,
            encoded_offset: 0,
        }
    }

    /// The next content byte to be delivered.
    pub fn position(&self) -> (r: u64)
        ensures
            r == self@.content_position,
    {
        self.content_position
    }

    fn reset_to_root(&mut self, content_length: u64)
        requires
            old(self)@.content_length == Some(content_length),
        ensures
            final(self)@ == old(self)@.reset(content_length),
    {
        self.encoded_offset = HEADER_SIZE as u128;
        stack_clear(&mut self.stack);
        stack_push(
            &mut self.stack,
            Subtree { hash: self.root_hash, start: 0, end: content_length },
        );
        assert(subtrees_of(self.stack) =~= old(self)@.root_subtree(content_length));
    }

    /// The event that the driver must supply next for a plain read.
    pub fn read_next(&self) -> (r: StateNext)
        requires
            self@.wf(),
        ensures
            r == self@.read_next_spec(),
    {
        let content_length;
        match self.len_next() {
            Left(len) => content_length = len,
            Right(next) => return next,
        }
        match stack_last(&self.stack) {
            Some(subtree) => subtree.state_next(content_length, self.content_position),
            None => StateNext::Done,
        }
    }

    /// Moves toward content position `content_position`: returns the encoded
    /// offset that the driver must read from next and the event it must
    /// supply there. `Done` ends the seek; a later read starts there.
    #[verifier::rlimit(40)]
    pub fn seek_next(&mut self, content_position: u64) -> (r: (u128, StateNext))
        requires
            old(self)@.wf(),
        ensures
            final(self)@.wf(),
            (r.0, r.1, final(self)@) == old(self)@.seek_next_spec(content_position),
    {
        let content_length;
        match self.len_next() {
            Left(len) => content_length = len,
            Right(next) => return (self.encoded_offset, next),
        }
        let ghost v0 = self@;
        proof {
            lemma_reset_wf(v0, content_length, content_position);
        }
        self.content_position = content_position;
        if stack_len(&self.stack) == 0 {
            if content_position >= content_length {
                return (self.encoded_offset, StateNext::Done);
            }
            self.reset_to_root(content_length);
        } else if content_position < stack_last(&self.stack).unwrap().start {
            self.reset_to_root(content_length);
        }
        let ghost reset = self@;
        assert({
            let s1 = StateView { content_position, ..v0 };
            reset == if s1.stack.len() == 0 || content_position < s1.stack.last().start {
                s1.reset(content_length)
            } else {
                s1
            }
        });
        loop
            invariant
                self@.wf(),
                self@.content_length == Some(content_length),
                self@.length_verified,
                self@.content_position == content_position,
                self@.pop_before(content_position) == reset.pop_before(content_position),
                v0 == old(self)@,
                v0.len_next_spec() == Left::<u64, StateNext>(content_length),
                !(v0.stack.len() == 0 && content_position >= content_length),
                ({
                    let s1 = StateView { content_position, ..v0 };
                    reset == if s1.stack.len() == 0 || content_position < s1.stack.last().start {
                        s1.reset(content_length)
                    } else {
                        s1
                    }
                }),
            decreases self@.stack.len(),
        {
            match stack_last(&self.stack) {
                None => {
                    assert(self@.pop_before(content_position) == self@);
                    return (self.encoded_offset, StateNext::Done);
                },
                Some(current) => {
                    if content_position < current.end {
                        assert(self@.pop_before(content_position) == self@);
                        if content_position - current.start < CHUNK_SIZE as u64 {
                            return (self.encoded_offset, StateNext::Done);
                        }
                        return (
                            self.encoded_offset,
                            current.state_next(content_length, content_position),
                        );
                    }
                    let ghost v = self@;
                    proof {
                        lemma_pop_wf(v);
                    }
                    self.encoded_offset = self.encoded_offset + encoded_subtree_size(current.len());
                    stack_pop(&mut self.stack);
                    assert(self@ == (StateView {
                        stack: v.stack.drop_last(),
                        encoded_offset: (v.encoded_offset + encoded_subtree_size_spec(
                            v.stack.last().len_spec(),
                        )) as u128,
                        ..v
                    }));
                },
            }
        }
    }

    /// Takes the length header. The stack becomes the root subtree, with the
    /// offset just past the header.
    pub fn feed_header(&mut self, header: [u8; 8])
        requires
            old(self)@.wf(),
            old(self)@.content_length is None,
        ensures
            final(self)@ == (StateView {
                content_length: Some(le_value(header@)),
                content_position: 0,
                ..old(self)@
            }).reset(le_value(header@)),
            final(self)@.wf(),
    {
        let content_length = decode_len(&header);
        self.content_length = Some(content_length);
        self.content_position = 0;
        self.reset_to_root(content_length);
        proof {
            lemma2_to64();
            let v = self@;
            assert(v.stack[0].len_spec() <= pow2(64));
            assert(encoded_sum(v.stack.drop_last()) == 0);
        }
    }

    /// Takes the parent node of the subtree on top of the stack. When its
    /// hash matches, the subtree is replaced by its right child and then its
    /// left child, whose hashes are the node's two halves; otherwise nothing
    /// changes and the result is `Err`.
    #[verifier::rlimit(40)]
    pub fn feed_parent(&mut self, parent: &[u8; 64]) -> (r: Result<(), ()>)
        requires
            old(self)@.wf(),
            old(self)@.content_length is Some,
            old(self)@.stack.len() > 0,
            old(self)@.stack.last().len_spec() > CHUNK_SIZE,
        ensures
            final(self)@.wf(),
            ({
                let v = old(self)@;
                let top = v.stack.last();
                let c = v.content_length.unwrap();
                let split = (top.start + left_len_spec(top.len_spec())) as u64;
                &&& (r is Ok) == (node_hash(parent@, top.finalization_spec(c)) == top.hash@)
                &&& r is Ok ==> final(self)@ == (StateView {
                    stack: v.stack.drop_last().push(
                        Subtree { hash: final(self)@.stack[v.stack.len() - 1].hash, start: split, end: top.end },
                    ).push(
                        Subtree { hash: final(self)@.stack.last().hash, start: top.start, end: split },
                    ),
                    encoded_offset: (v.encoded_offset + PARENT_SIZE) as u128,
                    length_verified: true,
                    ..v
                })
                &&& r is Ok ==> final(self)@.stack.last().hash@ == left_half(parent@)
                &&& r is Ok ==> final(self)@.stack[v.stack.len() - 1].hash@ == right_half(parent@)
                &&& r is Err ==> final(self)@ == v
            }),
    {
        let content_length = self.content_length.unwrap();
        let current = stack_last(&self.stack).unwrap();
        let computed = hash_node(parent.as_slice(), current.finalization(content_length));
        if !hashes_equal(&current.hash, &computed) {
            return Err(());
        }
        let ghost v = self@;
        let ghost n = v.stack.len();
        proof {
            lemma_left_len_bounds(current.len_spec());
            lemma_left_len_halves(current.len_spec(), (64 - (n - 1)) as nat);
            let c = v.content_length.unwrap();
            assert(v.stack[n - 1].start <= v.stack[n - 1].end);
            assert(v.stack[n - 1].end <= c);
            if n == 1 {
                assert(v.stack[0].end == c);
            } else {
                assert(v.stack[n - 1].len_spec() <= CHUNK_SIZE * pow2((tree_levels(c) - (n - 1)) as nat));
            }
            lemma_split_height(c, n - 1, current.start, current.len_spec());
            lemma_encoded_subtree_split(current.len_spec());
        }
        let split = current.start + left_len(current.len());
        let left = Subtree { hash: child_hash(parent, 0), start: current.start, end: split };
        let right = Subtree { hash: child_hash(parent, HASH_SIZE), start: split, end: current.end };
        stack_pop(&mut self.stack);
        stack_push(&mut self.stack, right);
        stack_push(&mut self.stack, left);
        self.encoded_offset = self.encoded_offset + PARENT_SIZE as u128;
        self.length_verified = true;
        proof {
            let w = self@;
            assert(w.stack.drop_last() =~= v.stack.drop_last().push(right));
            assert(w.stack.drop_last().drop_last() =~= v.stack.drop_last());
            assert(w.stack.last() == left);
            assert(w.stack.drop_last().last() == right);
            assert(encoded_sum(w.stack.drop_last()) == encoded_sum(v.stack.drop_last())
                + encoded_subtree_size_spec(right.len_spec()));
            assert(encoded_sum(w.stack) == encoded_sum(v.stack.drop_last())
                + encoded_subtree_size_spec(right.len_spec()) + encoded_subtree_size_spec(
                left.len_spec(),
            ));
            if n >= 2 {
                let k = n - 2;
                assert(v.stack[k + 1].end == v.stack[k].start);
            }
            assert forall|i: int| 0 <= i < w.stack.len() implies {
                &&& #[trigger] w.stack[i].start <= w.stack[i].end
                &&& w.stack[i].len_spec() <= pow2((64 - i) as nat)
            } by {
                if i < n - 1 {
                    assert(w.stack[i] == v.stack[i]);
                }
            }
            let c = v.content_length.unwrap();
            assert forall|i: int| 1 <= i < w.stack.len() implies #[trigger] w.stack[i].len_spec()
                <= CHUNK_SIZE * pow2((tree_levels(c) - i) as nat) by {
                if i < n - 1 {
                    assert(w.stack[i] == v.stack[i]);
                } else if i == n - 1 {
                    lemma_pow2_mono((tree_levels(c) - n) as nat, (tree_levels(c) - i) as nat);
                }
            }
            if n >= 2 {
                assert(w.stack[0] == v.stack[0]);
            }
            assert forall|i: int| 0 <= i < w.stack.len() implies #[trigger] w.stack[i].end <= c by {
                if i < n - 1 {
                    assert(w.stack[i] == v.stack[i]);
                }
            }
            assert forall|i: int| 0 <= i < w.stack.len() - 1 implies #[trigger] w.stack[i + 1].end
                == w.stack[i].start by {
                if i < n - 2 {
                    assert(w.stack[i] == v.stack[i]);
                    assert(w.stack[i + 1] == v.stack[i + 1]);
                } else if i == n - 2 {
                    assert(w.stack[i] == v.stack[i]);
                }
            }
        }
        Ok(())
    }

    /// Takes the hash of the subtree on top of the stack, computed by the
    /// driver from the bytes it read. When it matches, the subtree is popped
    /// and the position moves to its end; otherwise nothing changes and the
    /// result is `Err`.
    #[verifier::rlimit(40)]
    pub fn feed_subtree(&mut self, subtree: crate::hash::Hash) -> (r: Result<(), ()>)
        requires
            old(self)@.wf(),
            old(self)@.content_length is Some,
            old(self)@.stack.len() > 0,
        ensures
            final(self)@.wf(),
            ({
                let v = old(self)@;
                let top = v.stack.last();
                &&& (r is Ok) == (subtree@ == top.hash@)
                &&& r is Ok ==> final(self)@ == (StateView {
                    stack: v.stack.drop_last(),
                    content_position: top.end,
                    encoded_offset: (v.encoded_offset + encoded_subtree_size_spec(top.len_spec()))
                        as u128,
                    length_verified: true,
                    ..v
                })
                &&& r is Err ==> final(self)@ == v
            }),
    {
        let current = stack_last(&self.stack).unwrap();
        if !hashes_equal(&subtree, &current.hash) {
            return Err(());
        }
        let ghost v = self@;
        stack_pop(&mut self.stack);
        self.content_position = current.end;
        self.encoded_offset = self.encoded_offset + encoded_subtree_size(current.len());
        self.length_verified = true;
        proof {
            let w = self@;
            assert forall|i: int| 0 <= i < w.stack.len() implies {
                &&& #[trigger] w.stack[i].start <= w.stack[i].end
                &&& w.stack[i].len_spec() <= pow2((64 - i) as nat)
            } by {
                assert(w.stack[i] == v.stack[i]);
            }
            assert forall|i: int| 0 <= i < w.stack.len() - 1 implies #[trigger] w.stack[i + 1].end
                == w.stack[i].start by {
                assert(w.stack[i] == v.stack[i]);
                assert(w.stack[i + 1] == v.stack[i + 1]);
            }
            if w.stack.len() > 0 {
                let k = v.stack.len() - 2;
                assert(v.stack[k + 1].end == v.stack[k].start);
            }
        }
        Ok(())
    }

    /// The content length once the root node has been verified, or else the
    /// event that the driver must supply to get there. Where that event is a
    /// chunk, feeding it moves the position past the chunk.
    pub fn len_next(&self) -> (r: Either<u64, StateNext>)
        requires
            self@.wf(),
        ensures
            r == self@.len_next_spec(),
    {
        match self.content_length {
            Some(content_length) => {
                if self.length_verified {
                    Left(content_length)
                } else {
                    let current = stack_last(&self.stack).unwrap();
                    Right(current.state_next(content_length, self.content_position))
                }
            },
            None => Right(StateNext::Header),
        }
    }
}


/// Why decoding failed.
#[derive(Clone, Copy, Debug, PartialEq, Eq, Structural)]
pub enum Error {
    /// A node's hash does not match the hash its parent or the root gave.
    HashMismatch,
    /// The encoding ends before the tree that its header declares.
    Truncated,
    /// A seek target or an encoded offset is out of range.
    Overflow,
}

#[verifier::external_type_specification]
#[verifier::external_body]
pub struct ExIoError(std::io::Error);

#[verifier::external_type_specification]
pub struct ExIoErrorKind(std::io::ErrorKind);

/// The kind of an I/O error, as `std::io::Error::kind` reports it.
pub uninterp spec fn kind_of(e: std::io::Error) -> std::io::ErrorKind;

/// Relies on std::io::Error::new: an `InvalidData` error for a hash mismatch.
#[verifier::external_body]
fn hash_mismatch_io_error() -> (r: std::io::Error)
    ensures
        kind_of(r) == std::io::ErrorKind::InvalidData,
{
    std::io::Error::new(std::io::ErrorKind::InvalidData, "hash mismatch")
}

/// Relies on std::io::Error::new: an error for an encoded offset past `u64`.
#[verifier::external_body]
fn offset_overflow_io_error() -> (r: std::io::Error)
    ensures
        kind_of(r) == std::io::ErrorKind::Other,
{
    std::io::Error::new(std::io::ErrorKind::Other, "seek offset overflowed u64")
}

/// Relies on std::io::Error::new: an error for a seek before the start.
#[verifier::external_body]
fn seek_before_start_io_error() -> (r: std::io::Error)
    ensures
        kind_of(r) == std::io::ErrorKind::InvalidInput,
{
    std::io::Error::new(std::io::ErrorKind::InvalidInput, "seek before beginning")
}

/// Relies on std::io::Error::new: an error for a seek target past `u64`.
#[verifier::external_body]
fn seek_overflow_io_error() -> (r: std::io::Error)
    ensures
        kind_of(r) == std::io::ErrorKind::InvalidInput,
{
    std::io::Error::new(std::io::ErrorKind::InvalidInput, "seek target overflowed u64")
}

/// Relies on std::io::Error::kind: whether the error is a broken pipe.
#[verifier::external_body]
fn is_broken_pipe(e: &std::io::Error) -> (r: bool)
    ensures
        r == (kind_of(*e) == std::io::ErrorKind::BrokenPipe),
{
    e.kind() == std::io::ErrorKind::BrokenPipe
}

/// Treats a broken pipe while streaming content out as a clean end: a
/// consumer may stop reading early. Every other error passes through.
pub fn allow_broken_pipe<T>(result: std::io::Result<T>) -> (r: std::io::Result<()>)
    ensures
        result is Ok ==> r is Ok,
        result is Err ==> (r is Ok <==> kind_of(result->Err_0) == std::io::ErrorKind::BrokenPipe),
        r is Err ==> result is Err && r->Err_0 == result->Err_0,
{
    match result {
        Ok(_) => Ok(()),
        Err(e) => if is_broken_pipe(&e) {
            Ok(())
        } else {
            Err(e)
        },
    }
}

/// A hash mismatch from the state machine as an I/O error; success passes.
pub fn into_io<T>(r: Result<T, ()>) -> (out: std::io::Result<T>)
    ensures
        r is Ok <==> out is Ok,
        r is Ok ==> out.unwrap() == r.unwrap(),
        r is Err ==> kind_of(out->Err_0) == std::io::ErrorKind::InvalidData,
{
    match r {
        Ok(v) => Ok(v),
        Err(()) => Err(hash_mismatch_io_error()),
    }
}

/// An encoded offset as a `u64`, or an error where it does not fit.
pub fn cast_offset(offset: u128) -> (r: std::io::Result<u64>)
    ensures
        r is Ok <==> offset <= u64::MAX,
        r is Ok ==> r.unwrap() == offset,
        r is Err ==> kind_of(r->Err_0) == std::io::ErrorKind::Other,
{
    if offset > u64::MAX as u128 {
        Err(offset_overflow_io_error())
    } else {
        Ok(offset as u64)
    }
}

/// `position + offset`, or an error where that is negative or past `u64`.
pub fn add_offset(position: u64, offset: i64) -> (r: std::io::Result<u64>)
    ensures
        r is Ok <==> 0 <= position + offset <= u64::MAX,
        r is Ok ==> r.unwrap() == position + offset,
        r is Err ==> kind_of(r->Err_0) == std::io::ErrorKind::InvalidInput,
{
    let sum: i128 = position as i128 + offset as i128;
    if sum < 0 {
        Err(seek_before_start_io_error())
    } else if sum > u64::MAX as i128 {
        Err(seek_overflow_io_error())
    } else {
        Ok(sum as u64)
    }
}


/// `n` bytes of `src` from `pos`, or `Truncated` where it ends sooner.
pub(crate) fn take_bytes(src: &Vec<u8>, pos: usize, n: usize) -> (r: Result<Vec<u8>, Error>)
    ensures
        r is Ok <==> pos + n <= src@.len(),
        r is Ok ==> r.unwrap()@ == src@.subrange(pos as int, pos + n) && pos + n <= usize::MAX,
        r is Err ==> r == Err::<Vec<u8>, Error>(Error::Truncated),
{
    if pos > src.len() || n > src.len() - pos {
        return Err(Error::Truncated);
    }
    let mut out: Vec<u8> = Vec::new();
    out.extend_from_slice(&src.as_slice()[pos..pos + n]);
    assert(out@ =~= src@.subrange(pos as int, pos + n));
    Ok(out)
}

/// The 64 bytes of `b` as a parent node.
pub(crate) fn parent_array(b: &Vec<u8>) -> (r: [u8; 64])
    requires
        b@.len() == PARENT_SIZE,
    ensures
        r@ == b@,
{
    let mut r = [0u8; 64];
    let mut i: usize = 0;
    while i < PARENT_SIZE
        invariant
            i <= PARENT_SIZE,
            b@.len() == PARENT_SIZE,
            r@.len() == PARENT_SIZE,
            forall|j: int| 0 <= j < i ==> r@[j] == b@[j],
        decreases PARENT_SIZE - i,
    {
        r[i] = b[i];
        i = i + 1;
    }
    assert(r@ =~= b@);
    r
}

/// Where to seek to: from the start, from the end of the content, or from
/// the current position.
#[derive(Clone, Copy, Debug, PartialEq, Eq, Structural)]
pub enum SeekFrom {
    Start(u64),
    End(i64),
    Current(i64),
}

/// Relies on std::io::Error::new: an `UnexpectedEof` error for an encoding
/// that ends early.
#[verifier::external_body]
fn truncated_io_error() -> (r: std::io::Error)
    ensures
        kind_of(r) == std::io::ErrorKind::UnexpectedEof,
{
    std::io::Error::new(std::io::ErrorKind::UnexpectedEof, "encoding ends early")
}

/// The I/O error kind that stands for a decoding error.
pub open spec fn io_kind(e: Error) -> std::io::ErrorKind {
    match e {
        Error::HashMismatch => std::io::ErrorKind::InvalidData,
        Error::Truncated => std::io::ErrorKind::UnexpectedEof,
        Error::Overflow => std::io::ErrorKind::Other,
    }
}

/// A decoding error as an I/O error.
pub fn into_io_error(e: Error) -> (r: std::io::Error)
    ensures
        kind_of(r) == io_kind(e),
{
    match e {
        Error::HashMismatch => hash_mismatch_io_error(),
        Error::Truncated => truncated_io_error(),
        Error::Overflow => offset_overflow_io_error(),
    }
}

/// A verifying reader over an encoding held in memory: a combined encoding,
/// or an outboard tree together with the content it describes. Each read
/// checks the path from the root hash down to the chunk it reads from, and
/// hands out bytes of that one chunk.
pub struct Reader {
    /// The combined encoding, or the outboard tree.
    pub input: Vec<u8>,
    /// The content, for an outboard reader.
    pub content: Option<Vec<u8>>,
    pub root_hash: crate::hash::Hash,
    /// The next content byte to be read.
    pub position: u64,
}

impl Reader {
    /// The content that the reader's source decodes to under its root hash,
    /// or `None` where it fails to verify.
    pub open spec fn decodes_to(&self) -> Option<Seq<u8>> {
        match self.content {
            None => decode_spec(self.input@, self.root_hash@),
            Some(content) => decode_outboard_spec(content@, self.input@, self.root_hash@),
        }
    }

    /// The next content byte to be read.
    pub open spec fn pos(&self) -> u64 {
        self.position
    }

    /// The root hash that the reader checks against.
    pub open spec fn root(&self) -> Seq<u8> {
        self.root_hash@
    }

    /// The content length that the source's header declares.
    pub open spec fn declared_len(&self) -> u64 {
        le_value(self.input@)
    }

    /// The leaf that holds content byte `q`, checked along its whole path
    /// from the root hash: its start and its bytes.
    pub open spec fn leaf_at(&self, q: nat) -> Option<(nat, Seq<u8>)> {
        let c = le_value(self.input@);
        if self.input@.len() < HEADER_SIZE {
            None
        } else {
            match self.content {
                None => chunk_at(self.input@, HEADER_SIZE as int, 0, c as nat, c as nat, self.root_hash@, q),
                Some(content) => if content@.len() != c {
                    None
                } else {
                    chunk_at_outboard(self.input@, content@, HEADER_SIZE as int, 0, c as nat, c as nat, self.root_hash@, q)
                },
            }
        }
    }

    /// Which error finding the leaf that holds byte `q` meets, where
    /// `leaf_at` is `None`.
    pub open spec fn leaf_error(&self, q: nat) -> Error {
        let c = le_value(self.input@);
        if self.input@.len() < HEADER_SIZE {
            Error::Truncated
        } else {
            match self.content {
                None => chunk_error(self.input@, HEADER_SIZE as int, 0, c as nat, c as nat, self.root_hash@, q),
                Some(content) => if content@.len() != c {
                    Error::Truncated
                } else {
                    chunk_outboard_error(self.input@, content@, HEADER_SIZE as int, 0, c as nat, c as nat, self.root_hash@, q)
                },
            }
        }
    }

    /// A source whose root node is there but hashes to something else than
    /// the root hash fails every leaf lookup with `HashMismatch`.
    pub proof fn lemma_wrong_root(&self, q: nat)
        requires
            self.declared_root() is Some,
            self.declared_root() != Some(self.root()),
        ensures
            self.leaf_at(q) is None,
            self.leaf_error(q) == Error::HashMismatch,
    {
        let c = le_value(self.input@);
        match self.content {
            None => {},
            Some(content) => {
                if c <= CHUNK_SIZE {
                    assert(content@.subrange(0, c as int) =~= content@);
                }
            },
        }
    }

    /// The hash of the root node that the source declares: the root chunk
    /// (from the content, for an outboard reader) or the root parent node,
    /// hashed with the length from the header.
    pub open spec fn declared_root(&self) -> Option<Seq<u8>> {
        match self.content {
            None => declared_hash(self.input@),
            Some(content) => {
                let c = le_value(self.input@);
                if self.input@.len() < HEADER_SIZE || content@.len() != c {
                    None
                } else if c <= CHUNK_SIZE {
                    Some(node_hash(content@, finalization_of(true, c as nat)))
                } else if HEADER_SIZE + PARENT_SIZE > self.input@.len() {
                    None
                } else {
                    Some(
                        node_hash(
                            self.input@.subrange(HEADER_SIZE as int, HEADER_SIZE + PARENT_SIZE),
                            finalization_of(true, c as nat),
                        ),
                    )
                }
            },
        }
    }

    /// Finding any leaf checks the root node against the root hash first.
    pub proof fn lemma_leaf_checks_root(&self, q: nat)
        requires
            self.leaf_at(q) is Some,
        ensures
            self.declared_root() == Some(self.root()),
    {
        match self.content {
            None => {},
            Some(content) => {
                let c = le_value(self.input@);
                if c <= CHUNK_SIZE {
                    assert(content@.subrange(0, c as int) =~= content@);
                }
            },
        }
    }

    /// The byte whose leaf a read or a seek to `p` checks: `p` itself, or
    /// the last byte where `p` is at or past the end.
    pub open spec fn probe(p: u64, c: u64) -> u64 {
        if p < c {
            p
        } else if c > 0 {
            (c - 1) as u64
        } else {
            0
        }
    }

    /// A leaf found for byte `q` starts at or before `q` and ends within the
    /// declared length.
    proof fn lemma_leaf_bounds(&self, q: u64)
        requires
            self.leaf_at(q as nat) is Some,
        ensures
            ({
                let (cs, b) = self.leaf_at(q as nat).unwrap();
                cs <= q && cs + b.len() <= self.declared_len()
            }),
    {
        let c = le_value(self.input@);
        match self.content {
            None => {
                lemma_chunk_at_bounds(self.input@, HEADER_SIZE as int, 0, c as nat, c as nat, self.root_hash@, q as nat);
            },
            Some(content) => {
                lemma_chunk_at_outboard_bounds(self.input@, content@, HEADER_SIZE as int, 0, c as nat, c as nat, self.root_hash@, q as nat);
            },
        }
    }

    /// What the source decodes to is as long as its header says.
    proof fn lemma_decoded_len(&self, x: Seq<u8>)
        requires
            self.decodes_to() == Some(x),
        ensures
            x.len() == self.declared_len(),
    {
        let c = le_value(self.input@);
        match self.content {
            None => {
                lemma_decode_part_len(self.input@, HEADER_SIZE as int, 0, c as nat, c as nat, self.root_hash@);
            },
            Some(content) => {
                lemma_decode_outboard_part_len(self.input@, content@, HEADER_SIZE as int, 0, c as nat, c as nat, self.root_hash@);
            },
        }
    }

    /// Where the source decodes to `x`, the leaf at any byte of it is found
    /// and holds that part of `x`.
    proof fn lemma_leaf_at(&self, x: Seq<u8>, q: u64)
        requires
            self.decodes_to() == Some(x),
            q < x.len() || (q == 0 && x.len() == 0),
        ensures
            x.len() == self.declared_len(),
            self.leaf_at(q as nat) is Some,
            ({
                let (cs, b) = self.leaf_at(q as nat).unwrap();
                &&& cs <= q
                &&& cs + b.len() <= x.len()
                &&& (q < x.len() ==> q < cs + b.len())
                &&& b == x.subrange(cs as int, cs + b.len() as int)
            }),
    {
        let c = le_value(self.input@);
        match self.content {
            None => {
                lemma_decode_part_len(self.input@, HEADER_SIZE as int, 0, c as nat, c as nat, self.root_hash@);
                lemma_chunk_at(self.input@, HEADER_SIZE as int, 0, c as nat, c as nat, self.root_hash@, q as nat);
            },
            Some(content) => {
                lemma_decode_outboard_part_len(self.input@, content@, HEADER_SIZE as int, 0, c as nat, c as nat, self.root_hash@);
                lemma_chunk_at_outboard(self.input@, content@, HEADER_SIZE as int, 0, c as nat, c as nat, self.root_hash@, q as nat);
            },
        }
    }

    /// A reader of the combined encoding `input`, to be verified against
    /// `root_hash`.
    pub fn new(input: Vec<u8>, root_hash: crate::hash::Hash) -> (r: Reader)
        ensures
            r.decodes_to() == decode_spec(input@, root_hash@),
            r.root() == root_hash@,
            r.pos() == 0,
    {
        Reader { input, content: None, root_hash, position: 0 }
    }

    /// A reader of `content` under the outboard tree `outboard`, to be
    /// verified against `root_hash`.
    pub fn new_outboard(content: Vec<u8>, outboard: Vec<u8>, root_hash: crate::hash::Hash) -> (r:
        Reader)
        ensures
            r.decodes_to() == decode_outboard_spec(content@, outboard@, root_hash@),
            r.root() == root_hash@,
            r.pos() == 0,
    {
        Reader { input: outboard, content: Some(content), root_hash, position: 0 }
    }

    /// The next content byte to be read.
    pub fn position(&self) -> (r: u64)
        ensures
            r == self.pos(),
    {
        self.position
    }

    /// The declared content length.
    fn header_len(&self) -> (r: Result<u64, Error>)
        ensures
            r is Ok <==> self.input@.len() >= HEADER_SIZE,
            r is Ok ==> r.unwrap() == self.declared_len(),
            r is Err ==> r->Err_0 == Error::Truncated,
    {
        if self.input.len() < HEADER_SIZE {
            return Err(Error::Truncated);
        }
        let header = [
            self.input[0],
            self.input[1],
            self.input[2],
            self.input[3],
            self.input[4],
            self.input[5],
            self.input[6],
            self.input[7],
        ];
        let c = decode_len(&header);
        assert(le_value(header@) == le_value(self.input@));
        Ok(c)
    }

    /// Finds and checks the leaf that holds content byte `q`.
    fn leaf(&self, q: u64) -> (r: Result<(u64, Vec<u8>), Error>)
        ensures
            r is Ok <==> self.leaf_at(q as nat) is Some,
            r is Err ==> r->Err_0 == self.leaf_error(q as nat),
            r is Ok ==> r.unwrap().0 == self.leaf_at(q as nat).unwrap().0 && r.unwrap().1@
                == self.leaf_at(q as nat).unwrap().1,
    {
        let c = match self.header_len() {
            Ok(c) => c,
            Err(e) => return Err(e),
        };
        match &self.content {
            None => find_chunk(&self.input, HEADER_SIZE as u128, 0, c, c, &self.root_hash, q),
            Some(content) => {
                if content.len() as u64 != c {
                    return Err(Error::Truncated);
                }
                find_chunk_outboard(&self.input, content, HEADER_SIZE as u128, 0, c, c, &self.root_hash, q)
            },
        }
    }

    /// Up to `max` verified bytes from the current position; none at or past
    /// the end. Every read first checks the path from the root hash to the
    /// chunk it reads from, so a wrong root hash fails the first read.
    pub fn read(&mut self, max: usize) -> (r: Result<Vec<u8>, Error>)
        ensures
            final(self).decodes_to() == old(self).decodes_to(),
            final(self).root() == old(self).root(),
            r is Ok ==> old(self).leaf_at(Reader::probe(old(self).pos(), old(self).declared_len()) as nat) is Some,
            final(self).declared_root() == old(self).declared_root(),
            r is Ok ==> old(self).declared_root() == Some(old(self).root()),
            r is Ok ==> final(self).pos() == old(self).pos() + r.unwrap()@.len(),
            r is Err ==> r->Err_0 == old(self).leaf_error(Reader::probe(old(self).pos(), old(self).declared_len()) as nat),
            old(self).declared_root() is Some && old(self).declared_root() != Some(old(self).root())
                ==> r == Err::<Vec<u8>, Error>(Error::HashMismatch),
            r is Err ==> final(self).pos() == old(self).pos(),
            r is Ok && r.unwrap()@.len() > 0 ==> ({
                let (cs, b) = old(self).leaf_at(old(self).pos() as nat).unwrap();
                &&& old(self).leaf_at(old(self).pos() as nat) is Some
                &&& cs <= old(self).pos()
                &&& r.unwrap()@ == b.subrange(old(self).pos() - cs, old(self).pos() - cs + r.unwrap()@.len())
            }),
            old(self).decodes_to() is Some ==> ({
                let x = old(self).decodes_to().unwrap();
                let p = old(self).pos();
                &&& r is Ok
                &&& p < x.len() && max > 0 ==> 0 < r.unwrap()@.len() <= max && p + r.unwrap()@.len()
                    <= x.len() && r.unwrap()@ == x.subrange(p as int, p + r.unwrap()@.len())
                &&& !(p < x.len() && max > 0) ==> r.unwrap()@.len() == 0
            }),
    {
        let c = match self.header_len() {
            Ok(c) => c,
            Err(e) => return Err(e),
        };
        let p = self.position;
        let q = if p < c {
            p
        } else if c > 0 {
            c - 1
        } else {
            0
        };
        proof {
            if self.decodes_to() is Some {
                self.lemma_decoded_len(self.decodes_to().unwrap());
                self.lemma_leaf_at(self.decodes_to().unwrap(), q);
            }
            if self.declared_root() is Some && self.declared_root() != Some(self.root()) {
                self.lemma_wrong_root(q as nat);
            }
        }
        let (cs, bytes) = match self.leaf(q) {
            Ok(found) => found,
            Err(e) => return Err(e),
        };
        proof {
            self.lemma_leaf_checks_root(q as nat);
        }
        proof {
            self.lemma_leaf_bounds(q);
        }
        if p >= c || max == 0 || p - cs >= bytes.len() as u64 {
            return Ok(Vec::new());
        }
        let i = (p - cs) as usize;
        let available = bytes.len() - i;
        let n = if max < available {
            max
        } else {
            available
        };
        let mut out: Vec<u8> = Vec::new();
        out.extend_from_slice(&bytes.as_slice()[i..i + n]);
        self.position = p + n as u64;
        proof {
            assert(out@ =~= bytes@.subrange(i as int, i + n));
            if self.decodes_to() is Some {
                let x = self.decodes_to().unwrap();
                assert(out@ =~= x.subrange(p as int, p + n));
            }
        }
        Ok(out)
    }

    /// Every verified byte from the current position to the end.
    pub fn read_to_end(&mut self) -> (r: Result<Vec<u8>, Error>)
        ensures
            final(self).decodes_to() == old(self).decodes_to(),
            old(self).declared_root() is Some && old(self).declared_root() != Some(old(self).root())
                ==> r == Err::<Vec<u8>, Error>(Error::HashMismatch),
            old(self).decodes_to() is Some ==> ({
                let x = old(self).decodes_to().unwrap();
                let p = old(self).pos();
                &&& r is Ok
                &&& r.unwrap()@ == if p < x.len() {
                    x.subrange(p as int, x.len() as int)
                } else {
                    Seq::<u8>::empty()
                }
            }),
    {
        let ghost p0 = self.position;
        let mut out: Vec<u8> = Vec::new();
        loop
            invariant
                self.decodes_to() == old(self).decodes_to(),
                self.root() == old(self).root(),
                self.pos() >= p0,
                self.declared_root() == old(self).declared_root(),
                p0 == old(self).pos(),
                old(self).decodes_to() is Some ==> ({
                    let x = old(self).decodes_to().unwrap();
                    &&& p0 < x.len() ==> self.pos() <= x.len() && out@ == x.subrange(p0 as int, self.pos() as int)
                    &&& p0 >= x.len() ==> out@.len() == 0 && self.pos() == p0
                }),
            decreases u64::MAX - self.pos(),
        {
            let ghost before = out@;
            let mut part = match self.read(CHUNK_SIZE) {
                Ok(part) => part,
                Err(e) => return Err(e),
            };
            if part.len() == 0 {
                proof {
                    if old(self).decodes_to() is Some {
                        let x = old(self).decodes_to().unwrap();
                        if p0 < x.len() {
                            assert(out@ =~= x.subrange(p0 as int, x.len() as int));
                        }
                    }
                }
                return Ok(out);
            }
            out.append(&mut part);
            proof {
                if old(self).decodes_to() is Some {
                    let x = old(self).decodes_to().unwrap();
                    if p0 < x.len() {
                        assert(out@ =~= x.subrange(p0 as int, self.pos() as int));
                    }
                }
            }
        }
    }

    /// Moves to content position `position` and returns it. The path to the
    /// leaf there (or to the last leaf, at or past the end) is checked first,
    /// which verifies the content length.
    pub fn seek(&mut self, position: u64) -> (r: Result<u64, Error>)
        ensures
            final(self).decodes_to() == old(self).decodes_to(),
            final(self).root() == old(self).root(),
            r is Ok ==> r.unwrap() == position && final(self).pos() == position,
            r is Ok ==> old(self).leaf_at(Reader::probe(position, old(self).declared_len()) as nat) is Some,
            r is Ok ==> old(self).declared_root() == Some(old(self).root()),
            r is Err ==> final(self).pos() == old(self).pos(),
            old(self).decodes_to() is Some ==> r == Ok::<u64, Error>(position),
            r is Err ==> r->Err_0 == old(self).leaf_error(Reader::probe(position, old(self).declared_len()) as nat),
            old(self).declared_root() is Some && old(self).declared_root() != Some(old(self).root())
                ==> r == Err::<u64, Error>(Error::HashMismatch),
    {
        let c = match self.header_len() {
            Ok(c) => c,
            Err(e) => return Err(e),
        };
        let q = if position < c {
            position
        } else if c > 0 {
            c - 1
        } else {
            0
        };
        proof {
            if self.decodes_to() is Some {
                self.lemma_decoded_len(self.decodes_to().unwrap());
                self.lemma_leaf_at(self.decodes_to().unwrap(), q);
            }
            if self.declared_root() is Some && self.declared_root() != Some(self.root()) {
                self.lemma_wrong_root(q as nat);
            }
        }
        match self.leaf(q) {
            Ok(_) => {},
            Err(e) => return Err(e),
        }
        proof {
            self.lemma_leaf_checks_root(q as nat);
        }
        self.position = position;
        Ok(position)
    }

    /// Seeks from the start, from the verified end of the content, or from
    /// the current position; a target before the start or past `u64` is an
    /// `InvalidInput` error.
    pub fn seek_from(&mut self, from: SeekFrom) -> (r: std::io::Result<u64>)
        ensures
            final(self).decodes_to() == old(self).decodes_to(),
            r is Ok ==> final(self).pos() == r.unwrap(),
            r is Err ==> final(self).pos() == old(self).pos(),
            old(self).decodes_to() is Some ==> ({
                let x = old(self).decodes_to().unwrap();
                match from {
                    SeekFrom::Start(s) => r is Ok && r.unwrap() == s,
                    SeekFrom::End(off) => (r is Ok <==> 0 <= x.len() + off <= u64::MAX) && (r is Ok
                        ==> r.unwrap() == x.len() + off) && (r is Err ==> kind_of(r->Err_0)
                        == std::io::ErrorKind::InvalidInput),
                    SeekFrom::Current(off) => (r is Ok <==> 0 <= old(self).pos() + off <= u64::MAX)
                        && (r is Ok ==> r.unwrap() == old(self).pos() + off) && (r is Err ==> kind_of(
                        r->Err_0,
                    ) == std::io::ErrorKind::InvalidInput),
                }
            }),
    {
        proof {
            if self.decodes_to() is Some {
                let x = self.decodes_to().unwrap();
                self.lemma_decoded_len(x);
                if x.len() > 0 {
                    self.lemma_leaf_at(x, (x.len() - 1) as u64);
                } else {
                    self.lemma_leaf_at(x, 0);
                }
            }
        }
        let target = match from {
            SeekFrom::Start(s) => s,
            SeekFrom::End(off) => {
                let c = match self.header_len() {
                    Ok(c) => c,
                    Err(e) => return Err(into_io_error(e)),
                };
                let last = if c > 0 {
                    c - 1
                } else {
                    0
                };
                match self.leaf(last) {
                    Ok(_) => {},
                    Err(e) => return Err(into_io_error(e)),
                }
                match add_offset(c, off) {
                    Ok(t) => t,
                    Err(e) => return Err(e),
                }
            },
            SeekFrom::Current(off) => match add_offset(self.position, off) {
                Ok(t) => t,
                Err(e) => return Err(e),
            },
        };
        match self.seek(target) {
            Ok(t) => Ok(t),
            Err(e) => Err(into_io_error(e)),
        }
    }
}

} // verus!
