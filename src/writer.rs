//! Hashing content that arrives in pieces: one chunk is buffered, and each
//! finished subtree waits on a stack until its sibling is done.

use crate::decode::Subtree;
use crate::encode::{finalization_of, root_hash, tree_hash};
use crate::hash::{
    hash_node, lemma_left_len_of_power, node_hash, Finalization, CHUNK_SIZE,
};
use vstd::arithmetic::power2::{lemma_pow2_pos, lemma_pow2_strictly_increases, lemma_pow2_unfold, pow2};
use vstd::prelude::*;

verus! {

/// `pow2` never decreases.
proof fn lemma_pow2_le(a: nat, b: nat)
    requires
        a <= b,
    ensures
        pow2(a) <= pow2(b),
{
    if a < b {
        lemma_pow2_strictly_increases(a, b);
    }
}

/// Two full subtrees of the same power-of-two size hash, side by side, to
/// the subtree that covers both.
proof fn lemma_merge_hash(c: Seq<u8>, s: nat, m: nat, e: nat, k: nat)
    requires
        s <= m <= e <= c.len(),
        m - s == CHUNK_SIZE * pow2(k),
        e - m == CHUNK_SIZE * pow2(k),
    ensures
        tree_hash(c.subrange(s as int, e as int), false) == node_hash(
            tree_hash(c.subrange(s as int, m as int), false) + tree_hash(
                c.subrange(m as int, e as int),
                false,
            ),
            Finalization::NotRoot,
        ),
{
    lemma_pow2_pos(k);
    lemma_join_hash(c, s, m, e, k, false);
}

/// A full subtree of `CHUNK_SIZE * pow2(k)` bytes followed by no more than
/// as much again is the left child of the subtree that covers both.
proof fn lemma_join_hash(c: Seq<u8>, s: nat, m: nat, e: nat, k: nat, is_root: bool)
    requires
        s <= m < e <= c.len(),
        m - s == CHUNK_SIZE * pow2(k),
        e - m <= CHUNK_SIZE * pow2(k),
    ensures
        tree_hash(c.subrange(s as int, e as int), is_root) == node_hash(
            tree_hash(c.subrange(s as int, m as int), false) + tree_hash(
                c.subrange(m as int, e as int),
                false,
            ),
            finalization_of(is_root, (e - s) as nat),
        ),
{
    lemma_pow2_pos(k);
    assert(2 * CHUNK_SIZE * pow2(k) == 2 * (CHUNK_SIZE * pow2(k))) by (nonlinear_arith);
    let seg = c.subrange(s as int, e as int);
    lemma_left_len_of_power(seg.len(), k);
    assert(seg.subrange(0, (m - s) as int) =~= c.subrange(s as int, m as int));
    assert(seg.subrange((m - s) as int, seg.len() as int) =~= c.subrange(m as int, e as int));
}

/// A hasher fed with content piece by piece.
pub struct Writer {
    buf: Vec<u8>,
    stack: Vec<Subtree>,
    total: u64,
    content: Ghost<Seq<u8>>,
    exps: Ghost<Seq<nat>>,
}

impl Writer {
    /// Everything written so far.
    pub closed spec fn written(&self) -> Seq<u8> {
        self.content@
    }

    /// The stack of full subtrees, each a power-of-two number of chunks and
    /// hashed as a non-root node; from the bottom, each is more than twice
    /// as long as the next, except that with `merging` the top two may tie.
    pub closed spec fn stack_ok(&self, merging: bool) -> bool {
        let st = self.stack@;
        let c = self.content@;
        let ex = self.exps@;
        &&& ex.len() == st.len()
        &&& st.len() == 0 ==> self.total == self.buf@.len()
        &&& st.len() > 0 ==> st[0].start == 0 && st.last().end == self.total - self.buf@.len()
        &&& forall|i: int| 0 <= i < st.len() - 1 ==> #[trigger] st[i + 1].start == st[i].end
        &&& forall|i: int|
            0 <= i < st.len() ==> {
                &&& #[trigger] st[i].start <= st[i].end
                &&& st[i].end <= self.total - self.buf@.len()
                &&& st[i].end - st[i].start == CHUNK_SIZE * pow2(ex[i])
                &&& st[i].hash@ == tree_hash(c.subrange(st[i].start as int, st[i].end as int), false)
            }
        &&& forall|i: int|
            0 <= i < st.len() - 1 ==> if merging && i == st.len() - 2 {
                ex[i] >= #[trigger] ex[i + 1]
            } else {
                ex[i] > ex[i + 1]
            }
    }

    pub closed spec fn well_kept(&self) -> bool {
        &&& self.content@.len() == self.total
        &&& self.buf@.len() <= CHUNK_SIZE
        &&& self.buf@.len() <= self.total
        &&& self.content@.subrange(self.total - self.buf@.len(), self.total as int) == self.buf@
    }

    pub closed spec fn wf(&self) -> bool {
        &&& self.well_kept()
        &&& self.stack_ok(false)
        &&& (self.total == 0) == (self.buf@.len() == 0)
    }

    /// A hasher that has been given nothing yet.
    pub fn new() -> (r: Writer)
        ensures
            r.wf(),
            r.written() == Seq::<u8>::empty(),
    {
        let r = Writer {
            buf: Vec::new(),
            stack: Vec::new(),
            total: 0,
            content: Ghost(Seq::empty()),
            exps: Ghost(Seq::empty()),
        };
        assert(r.content@.subrange(0, 0) =~= r.buf@);
        r
    }

    /// Adds `input` to the content.
    #[verifier::rlimit(40)]
    pub fn write(&mut self, input: &[u8])
        requires
            old(self).wf(),
            old(self).written().len() + input@.len() <= u64::MAX,
        ensures
            final(self).wf(),
            final(self).written() == old(self).written() + input@,
    {
        let mut pos: usize = 0;
        while pos < input.len()
            invariant
                self.wf(),
                pos <= input@.len(),
                self.content@ == old(self).content@ + input@.subrange(0, pos as int),
                self.total == old(self).total + pos,
                old(self).content@.len() + input@.len() <= u64::MAX,
            decreases input@.len() - pos,
        {
            if self.buf.len() == CHUNK_SIZE {
                self.push_chunk();
            }
            let room = CHUNK_SIZE - self.buf.len();
            let take = if room < input.len() - pos {
                room
            } else {
                input.len() - pos
            };
            let ghost c = self.content@;
            let ghost st = self.stack@;
            let ghost old_buf = self.buf@;
            self.buf.extend_from_slice(&input[pos..pos + take]);
            self.total = self.total + take as u64;
            self.content = Ghost(c + input@.subrange(pos as int, pos + take));
            pos = pos + take;
            proof {
                let c2 = self.content@;
                assert(c2 =~= old(self).content@ + input@.subrange(0, pos as int));
                assert(c2.subrange(self.total - self.buf@.len(), self.total as int) =~= self.buf@);
                assert forall|i: int| 0 <= i < st.len() implies c2.subrange(
                    #[trigger] st[i].start as int,
                    st[i].end as int,
                ) == c.subrange(st[i].start as int, st[i].end as int) by {
                    assert(st[i].start <= st[i].end);
                    assert(c2.subrange(st[i].start as int, st[i].end as int) =~= c.subrange(
                        st[i].start as int,
                        st[i].end as int,
                    ));
                }
                let ex = self.exps@;
                assert forall|i: int| 0 <= i < st.len() implies {
                    &&& #[trigger] st[i].start <= st[i].end
                    &&& st[i].end <= self.total - self.buf@.len()
                    &&& st[i].end - st[i].start == CHUNK_SIZE * pow2(ex[i])
                    &&& st[i].hash@ == tree_hash(c2.subrange(st[i].start as int, st[i].end as int), false)
                } by {
                    assert(c2.subrange(st[i].start as int, st[i].end as int) == c.subrange(
                        st[i].start as int,
                        st[i].end as int,
                    ));
                }
            }
        }
        proof {
            assert(input@.subrange(0, pos as int) =~= input@);
        }
    }

    /// The root hash of everything written.
    #[verifier::rlimit(40)]
    pub fn finish(&self) -> (r: crate::hash::Hash)
        requires
            self.wf(),
        ensures
            r@ == root_hash(self.written()),
    {
        let ghost c = self.content@;
        let ghost st = self.stack@;
        let ghost ex = self.exps@;
        let n = self.stack.len();
        if n == 0 {
            proof {
                assert(c =~= c.subrange(0, self.total as int));
            }
            return hash_node(self.buf.as_slice(), Finalization::Root(self.total));
        }
        let pending = self.total - self.buf.len() as u64;
        proof {
            assert(st[0].start <= st[0].end);
            lemma_pow2_pos(ex[0]);
            assert(c.subrange(pending as int, self.total as int) == self.buf@);
        }
        let mut h = hash_node(self.buf.as_slice(), Finalization::NotRoot);
        let mut i: usize = n;
        while i > 0
            invariant
                self.wf(),
                c == self.content@,
                st == self.stack@,
                ex == self.exps@,
                n == st.len(),
                n > 0,
                i <= n,
                pending == self.total - self.buf@.len(),
                self.buf@.len() > 0,
                ({
                    let from: int = if i == n {
                        pending as int
                    } else {
                        st[i as int].start as int
                    };
                    &&& 0 <= from < self.total
                    &&& h@ == tree_hash(c.subrange(from, self.total as int), i == 0)
                    &&& i < n ==> self.total - from <= CHUNK_SIZE * pow2(ex[i as int] + 1)
                    &&& i == n ==> self.total - from <= CHUNK_SIZE
                }),
            decreases i,
        {
            let j = i - 1;
            let ghost from: int = if i == n {
                pending as int
            } else {
                st[i as int].start as int
            };
            let left = self.stack[j];
            let mut parent: Vec<u8> = Vec::new();
            parent.extend_from_slice(left.hash.as_slice());
            parent.extend_from_slice(h.as_slice());
            let fin = if j == 0 {
                Finalization::Root(self.total)
            } else {
                Finalization::NotRoot
            };
            proof {
                let k = ex[j as int];
                assert(st[j as int].start <= st[j as int].end);
                if i < n {
                    let jj: int = j as int;
                    assert(st[jj + 1].start == st[jj].end);
                    assert(ex[jj] > ex[jj + 1]);
                    lemma_pow2_le(ex[jj + 1] + 1, k);
                } else {
                    lemma_pow2_pos(k);
                }
                assert(st[j as int].end == from);
                assert(parent@ =~= left.hash@ + h@);
                if j == 0 {
                    assert(st[0].start == 0);
                }
                lemma_join_hash(
                    c,
                    st[j as int].start as nat,
                    from as nat,
                    self.total as nat,
                    k,
                    j == 0,
                );
                lemma_pow2_unfold(k + 1);
                assert(((k + 1) - 1) as nat == k);
                assert(fin == finalization_of(j == 0, (self.total - st[j as int].start) as nat));
            }
            h = hash_node(parent.as_slice(), fin);
            i = j;
        }
        proof {
            assert(c.subrange(0, self.total as int) =~= c);
        }
        h
    }

    /// Hashes the full buffered chunk onto the stack and merges equal
    /// neighbours.
    #[verifier::rlimit(40)]
    fn push_chunk(&mut self)
        requires
            old(self).well_kept(),
            old(self).stack_ok(false),
            old(self).buf@.len() == CHUNK_SIZE,
        ensures
            final(self).well_kept(),
            final(self).stack_ok(false),
            final(self).buf@.len() == 0,
            final(self).total == old(self).total,
            final(self).content@ == old(self).content@,
    {
        let ghost c = self.content@;
        let start = self.total - CHUNK_SIZE as u64;
        let h = hash_node(self.buf.as_slice(), Finalization::NotRoot);
        proof {
            lemma_pow2_pos(0);
            assert(pow2(0) == 1) by {
                vstd::arithmetic::power2::lemma2_to64();
            }
            assert(c.subrange(start as int, self.total as int) == self.buf@);
            assert(h@ == tree_hash(c.subrange(start as int, self.total as int), false));
        }
        let ghost st0 = self.stack@;
        self.stack.push(Subtree { hash: h, start, end: self.total });
        self.exps = Ghost(self.exps@.push(0));
        self.buf = Vec::new();
        proof {
            let st = self.stack@;
            assert forall|i: int| 0 <= i < st.len() - 1 implies #[trigger] st[i + 1].start == st[i].end by {
                if i < st.len() - 2 {
                    assert(st[i] == st0[i] && st[i + 1] == st0[i + 1]);
                }
            }
            assert(self.content@.subrange(self.total as int, self.total as int) =~= self.buf@);
        }
        while self.stack.len() >= 2 && self.stack[self.stack.len() - 2].end - self.stack[self.stack.len() - 2].start
            == self.stack[self.stack.len() - 1].end - self.stack[self.stack.len() - 1].start
            invariant
                self.well_kept(),
                self.stack_ok(true),
                self.buf@.len() == 0,
                self.total == old(self).total,
                self.content@ == c,
            decreases self.stack@.len(),
        {
            let ghost st = self.stack@;
            let ghost ex = self.exps@;
            let n = self.stack.len();
            let right = self.stack.pop().unwrap();
            let left = self.stack.pop().unwrap();
            let mut parent: Vec<u8> = Vec::new();
            parent.extend_from_slice(left.hash.as_slice());
            parent.extend_from_slice(right.hash.as_slice());
            let h = hash_node(parent.as_slice(), Finalization::NotRoot);
            proof {
                let k = ex[n - 2];
                let below: int = n - 2;
                assert(st[below + 1].start == st[below].end);
                assert(st[below].start <= st[below].end);
                assert(st[below + 1].start <= st[below + 1].end);
                assert(ex[below] >= ex[below + 1]);
                if ex[n - 1] < k {
                    lemma_pow2_strictly_increases(ex[n - 1], k);
                }
                assert(ex[n - 1] == k);
                assert(parent@ =~= left.hash@ + right.hash@);
                lemma_merge_hash(c, left.start as nat, left.end as nat, right.end as nat, k);
                lemma_pow2_unfold(k + 1);
                assert(((k + 1) - 1) as nat == k);
            }
            self.stack.push(Subtree { hash: h, start: left.start, end: right.end });
            self.exps = Ghost(self.exps@.drop_last().drop_last().push(ex[n - 2] + 1));
            proof {
                let st2 = self.stack@;
                let ex2 = self.exps@;
                assert forall|i: int| 0 <= i < st2.len() - 1 implies #[trigger] st2[i + 1].start
                    == st2[i].end by {
                    if i < st2.len() - 2 {
                        assert(st2[i] == st[i] && st2[i + 1] == st[i + 1]);
                    } else {
                        assert(st2[i] == st[i]);
                        assert(st[i + 1].start == st[i].end);
                    }
                }
                assert forall|i: int| 0 <= i < st2.len() implies {
                    &&& #[trigger] st2[i].start <= st2[i].end
                    &&& st2[i].end <= self.total - self.buf@.len()
                    &&& st2[i].end - st2[i].start == CHUNK_SIZE * pow2(ex2[i])
                    &&& st2[i].hash@ == tree_hash(c.subrange(st2[i].start as int, st2[i].end as int), false)
                } by {
                    if i < st2.len() - 1 {
                        assert(st2[i] == st[i] && ex2[i] == ex[i]);
                    }
                }
                assert forall|i: int| 0 <= i < st2.len() - 1 implies if i == st2.len() - 2 {
                    ex2[i] >= #[trigger] ex2[i + 1]
                } else {
                    ex2[i] > ex2[i + 1]
                } by {
                    assert(ex2[i] == ex[i]);
                    if i < st2.len() - 2 {
                        assert(ex2[i + 1] == ex[i + 1]);
                    } else {
                        assert(ex[i] > ex[i + 1]);
                    }
                }
            }
        }
        proof {
            let st = self.stack@;
            let ex = self.exps@;
            if st.len() >= 2 {
                let n = st.len();
                if ex[n - 2] == ex[n - 1] {
                    assert(false);
                }
            }
        }
    }
}

} // verus!
