//! Incremental hashing: a stack of subtree hashes merged like the carries of a binary counter,
//! and a writer that cuts its input into chunks.
use vstd::prelude::*;
use vstd::slice::slice_subrange;
use arrayvec::ArrayVec;
use crate::simple::{is_pow2, lemma_pow2_leq_unique};
use crate::hash::{
    finalize_hash, node_hash, parent_node, root_hash, split_len,
    tree_hash, CHUNK_SIZE, Finalization, MAX_DEPTH, ParentNode,
};

verus! {

#[verifier::external_type_specification]
#[verifier::external_body]
#[verifier::reject_recursive_types(T)]
pub struct ExArrayVec<T, const CAP: usize>(ArrayVec<T, CAP>);

/// The hashes held by a stack, bottom first.
pub uninterp spec fn stack_items(v: ArrayVec<[u8; 32], 64>) -> Seq<[u8; 32]>;

/// Relies on arrayvec::ArrayVec::new: a new vector is empty.
#[verifier::external_body]
fn stack_new() -> (r: ArrayVec<crate::hash::Hash, MAX_DEPTH>)
    ensures
        stack_items(r) == Seq::<crate::hash::Hash>::empty(),
{
    ArrayVec::new()
}

/// Relies on arrayvec::ArrayVec::len: the number of elements held.
#[verifier::external_body]
fn stack_len(v: &ArrayVec<crate::hash::Hash, MAX_DEPTH>) -> (r: usize)
    ensures
        r == stack_items(*v).len(),
{
    v.len()
}

/// Relies on arrayvec::ArrayVec::push: below capacity, the element goes on top.
#[verifier::external_body]
fn stack_push(v: &mut ArrayVec<crate::hash::Hash, MAX_DEPTH>, h: crate::hash::Hash)
    requires
        stack_items(*old(v)).len() < MAX_DEPTH,
    ensures
        stack_items(*final(v)) == stack_items(*old(v)).push(h),
{
    v.push(h)
}

/// Relies on arrayvec::ArrayVec::pop: the top element comes off, or `None` when empty.
#[verifier::external_body]
fn stack_pop(v: &mut ArrayVec<crate::hash::Hash, MAX_DEPTH>) -> (r: Option<crate::hash::Hash>)
    ensures
        stack_items(*old(v)).len() == 0 ==> r is None && stack_items(*final(v)) == stack_items(
            *old(v),
        ),
        stack_items(*old(v)).len() > 0 ==> r == Some(stack_items(*old(v)).last())
            && stack_items(*final(v)) == stack_items(*old(v)).drop_last(),
{
    v.pop()
}

/// Relies on indexing an arrayvec::ArrayVec through its slice: the element at `i`.
#[verifier::external_body]
fn stack_get(v: &ArrayVec<crate::hash::Hash, MAX_DEPTH>, i: usize) -> (r: crate::hash::Hash)
    requires
        i < stack_items(*v).len(),
    ensures
        r == stack_items(*v)[i as int],
{
    v[i]
}

/// The number of one bits of `n`.
pub open spec fn popcount(n: nat) -> nat
    decreases n,
{
    if n == 0 {
        0
    } else {
        (n % 2) + popcount(n / 2)
    }
}

/// The stack after merging its top two hashes into their parent, finished as `fin`.
pub open spec fn merge_top(s: Seq<Seq<u8>>, fin: Finalization) -> Seq<Seq<u8>> {
    s.subrange(0, s.len() - 2).push(node_hash(s[s.len() - 2] + s[s.len() - 1], fin))
}

/// The stack after merging until it holds one subtree per one bit of the chunk count.
pub open spec fn balance(s: Seq<Seq<u8>>, total: u64) -> Seq<Seq<u8>>
    decreases s.len(),
{
    if s.len() >= 2 && s.len() > popcount((total / (CHUNK_SIZE as u64)) as nat) {
        balance(merge_top(s, Finalization::NotRoot), total)
    } else {
        s
    }
}

/// The root that merging a non-empty stack down to one hash gives.
pub open spec fn finish_root(s: Seq<Seq<u8>>, total: u64) -> Seq<u8>
    decreases s.len(),
{
    if s.len() > 2 {
        finish_root(merge_top(s, Finalization::NotRoot), total)
    } else if s.len() == 2 {
        node_hash(s[0] + s[1], Finalization::Root(total))
    } else {
        s[0]
    }
}

pub proof fn lemma_popcount_le_bits(n: nat, k: nat)
    requires
        n < vstd::arithmetic::power2::pow2(k),
    ensures
        popcount(n) <= k,
    decreases k,
{
    if k > 0 {
        vstd::arithmetic::power2::lemma_pow2_unfold(k);
        assert(n / 2 < vstd::arithmetic::power2::pow2((k - 1) as nat));
        lemma_popcount_le_bits(n / 2, (k - 1) as nat);
    } else {
        vstd::arithmetic::power2::lemma2_to64();
    }
}

pub proof fn lemma_popcount_succ(n: nat)
    ensures
        popcount(n + 1) <= popcount(n) + 1,
        n + 1 > 0 ==> popcount(n + 1) >= 1,
    decreases n,
{
    if n % 2 == 1 {
        lemma_popcount_succ(n / 2);
        assert((n + 1) / 2 == n / 2 + 1);
    }
}

/// Pending subtree hashes and the number of bytes they cover.
pub struct State {
    subtrees: ArrayVec<crate::hash::Hash, MAX_DEPTH>,
    total_len: u64,
}

/// What one step of finishing gives: a parent node that was merged, or the root hash.
pub enum StateFinish {
    Parent(ParentNode),
    Root(crate::hash::Hash),
}

impl State {
    /// The pending subtree hashes, bottom first.
    pub closed spec fn subtrees(&self) -> Seq<Seq<u8>> {
        stack_items(self.subtrees).map_values(|h: crate::hash::Hash| h@)
    }

    /// The number of bytes pushed so far.
    pub closed spec fn total(&self) -> u64 {
        self.total_len
    }

    /// Whole chunks have been pushed so far, and the stack holds one subtree for each one bit
    /// of their count, plus at most the carries of the last push.
    pub open spec fn can_push(&self) -> bool {
        let c = (self.total() / (CHUNK_SIZE as u64)) as nat;
        &&& self.subtrees().len() <= MAX_DEPTH
        &&& self.total() % (CHUNK_SIZE as u64) == 0
        &&& self.total() == 0 ==> self.subtrees().len() == 0
        &&& self.total() > 0 ==> popcount(c) <= self.subtrees().len() <= popcount(
            (c - 1) as nat,
        ) + 1
    }

    pub fn new() -> (r: Self)
        ensures
            r.subtrees() == Seq::<Seq<u8>>::empty(),
            r.total() == 0,
            r.can_push(),
    {
        let r = State { subtrees: stack_new(), total_len: 0 };
        assert(r.subtrees() =~= Seq::<Seq<u8>>::empty());
        r
    }

    /// The number of bytes pushed so far.
    pub fn count(&self) -> (r: u64)
        ensures
            r == self.total(),
    {
        self.total_len
    }

    fn chunk_popcount(&self) -> (r: usize)
        ensures
            r == popcount((self.total() / (CHUNK_SIZE as u64)) as nat),
            r <= 52,
    {
        let mut n: u64 = self.total_len / CHUNK_SIZE as u64;
        let mut r: usize = 0;
        proof {
            vstd::arithmetic::power2::lemma2_to64_rest();
            assert(n < 0x10000000000000) by (nonlinear_arith)
                requires n == self.total_len / 4096, self.total_len <= 0xffff_ffff_ffff_ffff;
            lemma_popcount_le_bits(n as nat, 52);
        }
        while n > 0
            invariant
                r + popcount(n as nat) == popcount((self.total() / (CHUNK_SIZE as u64)) as nat),
                popcount((self.total() / (CHUNK_SIZE as u64)) as nat) <= 52,
            decreases n,
        {
            r = r + (n % 2) as usize;
            n = n / 2;
        }
        r
    }

    /// Whether the stack holds more subtrees than the chunk count has one bits.
    fn needs_merge(&self) -> (r: bool)
        ensures
            r == (self.subtrees().len() > popcount((self.total() / (CHUNK_SIZE as u64)) as nat)),
    {
        stack_len(&self.subtrees) > self.chunk_popcount()
    }

    fn merge_inner(&mut self, fin: Finalization) -> (r: ParentNode)
        requires
            2 <= old(self).subtrees().len() <= MAX_DEPTH,
        ensures
            r@ == old(self).subtrees()[old(self).subtrees().len() - 2] + old(self).subtrees()[old(
                self,
            ).subtrees().len() - 1],
            final(self).subtrees() == merge_top(old(self).subtrees(), fin),
            final(self).total() == old(self).total(),
    {
        let ghost s = self.subtrees();
        let right_child = stack_pop(&mut self.subtrees).unwrap();
        let left_child = stack_pop(&mut self.subtrees).unwrap();
        let node = parent_node(&left_child, &right_child);
        let parent = finalize_hash(node.as_slice(), fin);
        stack_push(&mut self.subtrees, parent);
        assert(self.subtrees() =~= merge_top(s, fin));
        node
    }

    proof fn lemma_can_push_bounds(&self)
        requires
            self.can_push(),
        ensures
            self.total() > 0 ==> popcount((self.total() / (CHUNK_SIZE as u64)) as nat) >= 1,
            popcount((self.total() / (CHUNK_SIZE as u64)) as nat) <= 52,
    {
        let c = (self.total() / (CHUNK_SIZE as u64)) as nat;
        assert(c < 0x10000000000000) by (nonlinear_arith)
            requires c == self.total() / 4096, self.total() <= 0xffff_ffff_ffff_ffff;
        vstd::arithmetic::power2::lemma2_to64_rest();
        lemma_popcount_le_bits(c, 52);
        if self.total() > 0 {
            assert(c >= 1);
            lemma_popcount_succ((c - 1) as nat);
        }
    }

    /// Adds the hash of a subtree of `len` bytes: a whole chunk, or the last, shorter one.
    /// Pending merges are done first, so that the stack is balanced before the push.
    pub fn push_subtree(&mut self, hash: &crate::hash::Hash, len: usize)
        requires
            old(self).can_push(),
            len <= CHUNK_SIZE,
            old(self).total() + len <= u64::MAX,
        ensures
            final(self).subtrees() == balance(old(self).subtrees(), old(self).total()).push(
                hash@,
            ),
            final(self).total() == old(self).total() + len,
            1 <= final(self).subtrees().len() <= MAX_DEPTH,
            len == CHUNK_SIZE ==> final(self).can_push(),
    {
        let ghost s0 = self.subtrees();
        let ghost c = (self.total() / (CHUNK_SIZE as u64)) as nat;
        proof {
            self.lemma_can_push_bounds();
        }
        while self.needs_merge()
            invariant
                self.total() == old(self).total(),
                c == (self.total() / (CHUNK_SIZE as u64)) as nat,
                self.total() == 0 ==> self.subtrees().len() == 0,
                self.total() > 0 ==> popcount(c) >= 1,
                popcount(c) <= self.subtrees().len() <= MAX_DEPTH,
                balance(self.subtrees(), self.total()) == balance(s0, self.total()),
            decreases self.subtrees().len(),
        {
            self.merge_inner(Finalization::NotRoot);
        }
        assert(balance(self.subtrees(), self.total()) == self.subtrees());
        stack_push(&mut self.subtrees, *hash);
        assert(self.subtrees() =~= balance(s0, old(self).total()).push(hash@));
        self.total_len = self.total_len + len as u64;
        proof {
            if len == CHUNK_SIZE {
                assert((self.total() / (CHUNK_SIZE as u64)) as nat == c + 1);
                lemma_popcount_succ(c);
            }
        }
    }

    /// Merges the top two subtrees when a merge is pending, and returns their parent node.
    pub fn merge_parent(&mut self) -> (r: Option<ParentNode>)
        requires
            old(self).can_push(),
        ensures
            final(self).can_push(),
            final(self).total() == old(self).total(),
            old(self).subtrees().len() > popcount((old(self).total() / (CHUNK_SIZE as u64)) as nat)
                ==> ({
                let s = old(self).subtrees();
                &&& r matches Some(p) && p@ == s[s.len() - 2] + s[s.len() - 1]
                &&& final(self).subtrees() == merge_top(s, Finalization::NotRoot)
            }),
            old(self).subtrees().len() <= popcount((old(self).total() / (CHUNK_SIZE as u64)) as nat)
                ==> r is None && final(self).subtrees() == old(self).subtrees(),
    {
        proof {
            self.lemma_can_push_bounds();
        }
        if !self.needs_merge() {
            return None;
        }
        Some(self.merge_inner(Finalization::NotRoot))
    }

    /// One step of finishing: merges the top two subtrees, as the root when only two are left,
    /// or returns the root hash when one is left.
    pub fn merge_finish(&mut self) -> (r: StateFinish)
        requires
            1 <= old(self).subtrees().len() <= MAX_DEPTH,
        ensures
            final(self).total() == old(self).total(),
            1 <= final(self).subtrees().len() <= MAX_DEPTH,
            ({
                let s = old(self).subtrees();
                if s.len() > 2 {
                    &&& r matches StateFinish::Parent(p) && p@ == s[s.len() - 2] + s[s.len() - 1]
                    &&& final(self).subtrees() == merge_top(s, Finalization::NotRoot)
                } else if s.len() == 2 {
                    &&& r matches StateFinish::Parent(p) && p@ == s[0] + s[1]
                    &&& final(self).subtrees() == merge_top(
                        s,
                        Finalization::Root(old(self).total()),
                    )
                } else {
                    &&& r matches StateFinish::Root(h) && h@ == s[0]
                    &&& final(self).subtrees() == s
                }
            }),
    {
        let n = stack_len(&self.subtrees);
        if n > 2 {
            StateFinish::Parent(self.merge_inner(Finalization::NotRoot))
        } else if n == 2 {
            let root_fin = Finalization::Root(self.total_len);
            StateFinish::Parent(self.merge_inner(root_fin))
        } else {
            StateFinish::Root(stack_get(&self.subtrees, 0))
        }
    }

    /// Merges everything that is left and returns the root hash.
    pub fn finish(&mut self) -> (r: crate::hash::Hash)
        requires
            1 <= old(self).subtrees().len() <= MAX_DEPTH,
        ensures
            r@ == finish_root(old(self).subtrees(), old(self).total()),
    {
        loop
            invariant
                1 <= self.subtrees().len() <= MAX_DEPTH,
                self.total() == old(self).total(),
                finish_root(self.subtrees(), self.total()) == finish_root(
                    old(self).subtrees(),
                    old(self).total(),
                ),
            decreases self.subtrees().len(),
        {
            let ghost s = self.subtrees();
            match self.merge_finish() {
                StateFinish::Parent(_) => {
                    assert(self.subtrees().len() == s.len() - 1);
                },
                StateFinish::Root(root) => {
                    return root;
                },
            }
        }
    }
}


/// The stack of a state that was pushed the whole chunks of `input`, one at a time.
pub open spec fn stack_of(input: Seq<u8>) -> Seq<Seq<u8>>
    decreases input.len(),
{
    if input.len() < CHUNK_SIZE {
        seq![]
    } else {
        let k = input.len() - CHUNK_SIZE;
        let prev = input.subrange(0, k);
        balance(stack_of(prev), prev.len() as u64).push(
            node_hash(input.subrange(k, input.len() as int), Finalization::NotRoot),
        )
    }
}

/// The root that incremental hashing of `input` gives: all chunks but the last are pushed
/// whole, the last is pushed as it is, and the stack is merged down to one hash. Input of at
/// most one chunk is a single root node.
pub open spec fn incremental_root(input: Seq<u8>) -> Seq<u8> {
    if input.len() <= CHUNK_SIZE {
        node_hash(input, Finalization::Root(input.len() as u64))
    } else {
        let k = ((input.len() - 1) / (CHUNK_SIZE as int)) * (CHUNK_SIZE as int);
        finish_root(
            balance(stack_of(input.subrange(0, k)), k as u64).push(
                node_hash(input.subrange(k, input.len() as int), Finalization::NotRoot),
            ),
            input.len() as u64,
        )
    }
}

/// Hashes input that arrives in pieces, one chunk at a time.
pub struct Writer {
    chunk: Vec<u8>,
    state: State,
    written: Ghost<Seq<u8>>,
}

impl Writer {
    /// All bytes written so far.
    pub closed spec fn written(&self) -> Seq<u8> {
        self.written@
    }

    /// The state holds the whole chunks before the last, and the buffer the rest of the input;
    /// once a chunk has been pushed the buffer is never empty.
    pub closed spec fn wf(&self) -> bool {
        let pushed = self.written@.subrange(0, self.state.total() as int);
        &&& self.state.can_push()
        &&& self.state.total() + self.chunk@.len() == self.written@.len()
        &&& self.written@.len() <= u64::MAX
        &&& self.written@ == pushed + self.chunk@
        &&& self.state.subtrees() == stack_of(pushed)
        &&& self.chunk@.len() <= CHUNK_SIZE
        &&& self.state.total() > 0 ==> self.chunk@.len() >= 1
    }

    pub fn new() -> (r: Self)
        ensures
            r.wf(),
            r.written() == Seq::<u8>::empty(),
    {
        let r = Writer { chunk: Vec::new(), state: State::new(), written: Ghost(Seq::empty()) };
        assert(r.written@.subrange(0, 0) =~= Seq::<u8>::empty());
        assert(r.written@ =~= r.written@.subrange(0, 0) + r.chunk@);
        r
    }

    /// Adds `input` to what has been written.
    pub fn update(&mut self, input: &[u8])
        requires
            old(self).wf(),
            old(self).written().len() + input@.len() <= u64::MAX,
        ensures
            final(self).wf(),
            final(self).written() == old(self).written() + input@,
    {
        let mut pos: usize = 0;
        while pos < input.len()
            invariant
                self.wf(),
                pos <= input@.len(),
                self.written() == old(self).written() + input@.subrange(0, pos as int),
                old(self).written().len() + input@.len() <= u64::MAX,
            decreases input@.len() - pos,
        {
            if self.chunk.len() == CHUNK_SIZE {
                let ghost pushed = self.written@.subrange(0, self.state.total() as int);
                let h = finalize_hash(self.chunk.as_slice(), Finalization::NotRoot);
                self.state.push_subtree(&h, CHUNK_SIZE);
                proof {
                    let np = pushed + self.chunk@;
                    assert(np.subrange(0, np.len() - CHUNK_SIZE) =~= pushed);
                    assert(np.subrange(np.len() - CHUNK_SIZE, np.len() as int) =~= self.chunk@);
                    assert(self.written@.subrange(0, self.state.total() as int) =~= np);
                }
                self.chunk = Vec::new();
                assert(self.written@ =~= self.written@ + self.chunk@);
            }
            let want = CHUNK_SIZE - self.chunk.len();
            let rest = input.len() - pos;
            let take = if want < rest {
                want
            } else {
                rest
            };
            let ghost pushed = self.written@.subrange(0, self.state.total() as int);
            self.chunk.extend_from_slice(slice_subrange(input, pos, pos + take));
            self.written = Ghost(self.written@ + input@.subrange(pos as int, (pos + take) as int));
            proof {
                assert(input@.subrange(0, pos as int) + input@.subrange(pos as int, (pos + take) as int)
                    =~= input@.subrange(0, (pos + take) as int));
                assert(self.written@.subrange(0, self.state.total() as int) =~= pushed);
                assert(self.written@ =~= pushed + self.chunk@);
            }
            pos = pos + take;
        }
        assert(input@.subrange(0, input@.len() as int) =~= input@);
    }

    /// The root hash of everything written: the same as hashing it all at once.
    pub fn finish(&mut self) -> (r: crate::hash::Hash)
        requires
            old(self).wf(),
        ensures
            r@ == incremental_root(old(self).written()),
            r@ == root_hash(old(self).written()),
    {
        proof {
            lemma_incremental_root(self.written@);
        }
        let ghost w = self.written@;
        let ghost pushed = self.written@.subrange(0, self.state.total() as int);
        let fin = if self.state.count() == 0 {
            Finalization::Root(self.chunk.len() as u64)
        } else {
            Finalization::NotRoot
        };
        let h = finalize_hash(self.chunk.as_slice(), fin);
        proof {
            if self.state.total() > 0 {
                let n = w.len();
                let t = self.state.total() as int;
                assert(t % 4096 == 0);
                assert(((n - 1) / 4096) * 4096 == t) by (nonlinear_arith)
                    requires n == t + self.chunk@.len(), 1 <= self.chunk@.len() <= 4096, t % 4096 == 0, t >= 0;
                assert(w.subrange(0, t) == pushed);
                assert(w.subrange(t, n as int) =~= self.chunk@);
            } else {
                assert(w =~= self.chunk@);
                assert(self.state.subtrees() =~= seq![]);
            }
        }
        self.state.push_subtree(&h, self.chunk.len());
        self.state.finish()
    }
}


/// The sizes, in chunks, of the perfect subtrees that `c` blocks of `u` chunks each form once
/// merged, largest first: one for each one bit of `c`.
pub open spec fn block_sizes(c: nat, u: nat) -> Seq<nat>
    decreases c,
{
    if c == 0 {
        seq![]
    } else if c % 2 == 1 {
        block_sizes(c / 2, 2 * u).push(u)
    } else {
        block_sizes(c / 2, 2 * u)
    }
}

/// The hashes of the consecutive blocks of `p` whose sizes, in chunks, are `sizes`.
pub open spec fn block_hashes(p: Seq<u8>, sizes: Seq<nat>) -> Seq<Seq<u8>>
    decreases sizes.len(),
{
    if sizes.len() == 0 {
        seq![]
    } else {
        let cut = p.len() - 4096 * sizes.last();
        block_hashes(p.subrange(0, cut), sizes.drop_last()).push(
            tree_hash(p.subrange(cut, p.len() as int), Finalization::NotRoot),
        )
    }
}

proof fn lemma_block_hashes_len(p: Seq<u8>, sizes: Seq<nat>)
    ensures
        block_hashes(p, sizes).len() == sizes.len(),
    decreases sizes.len(),
{
    if sizes.len() > 0 {
        let cut = p.len() - 4096 * sizes.last();
        lemma_block_hashes_len(p.subrange(0, cut), sizes.drop_last());
    }
}

proof fn lemma_block_sizes_len(c: nat, u: nat)
    ensures
        block_sizes(c, u).len() == popcount(c),
    decreases c,
{
    if c > 0 {
        lemma_block_sizes_len(c / 2, 2 * u);
    }
}

/// A perfect tree of `q` chunks followed by at most as many bytes splits between the two.
proof fn lemma_tree_hash_after_perfect(a: Seq<u8>, y: Seq<u8>, q: nat, fin: Finalization)
    requires
        is_pow2(q),
        a.len() == 4096 * q,
        1 <= y.len() <= a.len(),
    ensures
        tree_hash(a + y, fin) == node_hash(
            tree_hash(a, Finalization::NotRoot) + tree_hash(y, Finalization::NotRoot),
            fin,
        ),
{
    let x = a + y;
    let n = x.len();
    let m = ((n - 1) as nat) / 4096;
    assert(q >= 1) by {
        if q == 0 {
            assert(is_pow2(0) == false);
        }
    }
    assert(q <= m && m < 2 * q) by (nonlinear_arith)
        requires a.len() == 4096 * q, 1 <= y.len() <= a.len(), n == a.len() + y.len(), m == (n - 1) / 4096, q >= 1;
    lemma_pow2_leq_unique(m, q);
    assert(split_len(n) == a.len());
    assert(x.subrange(0, a.len() as int) =~= a);
    assert(x.subrange(a.len() as int, n as int) =~= y);
}

proof fn lemma_pow2_double(u: nat)
    requires
        is_pow2(u),
    ensures
        is_pow2(2 * u),
{
    assert((2 * u) / 2 == u);
}

proof fn lemma_carry(pp: Seq<u8>, l: Seq<u8>, c: nat, u: nat, total: u64)
    requires
        c >= 1,
        is_pow2(u),
        pp.len() == 4096 * u * (c - 1),
        l.len() == 4096 * u,
        popcount((total / 4096) as nat) == popcount(c),
    ensures
        balance(block_hashes(pp, block_sizes((c - 1) as nat, u)).push(tree_hash(l, Finalization::NotRoot)), total)
            == block_hashes(pp + l, block_sizes(c, u)),
    decreases c,
{
    let m = (c - 1) as nat;
    let p = pp + l;
    lemma_block_sizes_len(m, u);
    lemma_block_sizes_len(c, u);
    lemma_pow2_double(u);
    let stack = block_hashes(pp, block_sizes(m, u)).push(tree_hash(l, Finalization::NotRoot));
    lemma_block_hashes_len(pp, block_sizes(m, u));
    if c % 2 == 1 {
        assert(m / 2 == c / 2);
        assert(block_sizes(m, u) == block_sizes(m / 2, 2 * u));
        assert(popcount(c) == popcount(m) + 1);
        assert(balance(stack, total) == stack);
        assert(block_sizes(c, u) == block_sizes(c / 2, 2 * u).push(u));
        assert(block_sizes(c / 2, 2 * u).push(u).drop_last() =~= block_sizes(c / 2, 2 * u));
        assert(p.subrange(0, p.len() - 4096 * u) =~= pp);
        assert(p.subrange(p.len() - 4096 * u, p.len() as int) =~= l);
    } else {
        assert(m % 2 == 1);
        assert(c / 2 == m / 2 + 1);
        lemma_popcount_succ(m / 2);
        assert(popcount(c) < popcount(m) + 1);
        let cut = pp.len() - 4096 * u;
        assert(cut == 4096 * (2 * u) * (c / 2 - 1)) by (nonlinear_arith)
            requires cut == pp.len() - 4096 * u, pp.len() == 4096 * u * (c - 1), c % 2 == 0, c >= 1;
        let ppp = pp.subrange(0, cut);
        let b1 = pp.subrange(cut, pp.len() as int);
        assert(block_sizes(m, u) == block_sizes(m / 2, 2 * u).push(u));
        assert(block_sizes(m / 2, 2 * u).push(u).drop_last() =~= block_sizes(m / 2, 2 * u));
        assert(stack.len() == popcount(m) + 1);
        let below = block_hashes(ppp, block_sizes(m / 2, 2 * u));
        assert(stack == below.push(tree_hash(b1, Finalization::NotRoot)).push(
            tree_hash(l, Finalization::NotRoot),
        ));
        lemma_tree_hash_after_perfect(b1, l, u, Finalization::NotRoot);
        assert(merge_top(stack, Finalization::NotRoot) =~= below.push(
            tree_hash(b1 + l, Finalization::NotRoot),
        ));
        assert(balance(stack, total) == balance(merge_top(stack, Finalization::NotRoot), total));
        lemma_carry(ppp, b1 + l, c / 2, 2 * u, total);
        assert(ppp + (b1 + l) =~= p);
        assert(block_sizes(c, u) == block_sizes(c / 2, 2 * u));
    }
}

proof fn lemma_stack_of(p: Seq<u8>, c: nat)
    requires
        p.len() == 4096 * c,
        p.len() <= u64::MAX,
    ensures
        balance(stack_of(p), p.len() as u64) == block_hashes(p, block_sizes(c, 1)),
    decreases c,
{
    if c == 0 {
        assert(balance(seq![], 0) == Seq::<Seq<u8>>::empty());
    } else {
        let k = p.len() - 4096;
        let prev = p.subrange(0, k);
        let l = p.subrange(k, p.len() as int);
        lemma_stack_of(prev, (c - 1) as nat);
        assert(node_hash(l, Finalization::NotRoot) == tree_hash(l, Finalization::NotRoot));
        assert(((p.len() as u64) / 4096) as nat == c);
        assert(is_pow2(1));
        lemma_carry(prev, l, c, 1, p.len() as u64);
        assert(prev + l =~= p);
    }
}

proof fn lemma_finish(x: Seq<u8>, y: Seq<u8>, c: nat, u: nat)
    requires
        c >= 1,
        is_pow2(u),
        x.len() == 4096 * u * c,
        1 <= y.len() <= 4096 * u,
        x.len() + y.len() <= u64::MAX,
    ensures
        finish_root(block_hashes(x, block_sizes(c, u)).push(tree_hash(y, Finalization::NotRoot)), (x.len() + y.len()) as u64)
            == tree_hash(x + y, Finalization::Root((x.len() + y.len()) as u64)),
    decreases c,
{
    let n = (x.len() + y.len()) as u64;
    lemma_block_sizes_len(c, u);
    lemma_block_sizes_len(c / 2, 2 * u);
    lemma_pow2_double(u);
    let stack = block_hashes(x, block_sizes(c, u)).push(tree_hash(y, Finalization::NotRoot));
    if c % 2 == 1 {
        let cut = x.len() - 4096 * u;
        assert(cut == 4096 * (2 * u) * (c / 2)) by (nonlinear_arith)
            requires cut == x.len() - 4096 * u, x.len() == 4096 * u * c, c % 2 == 1;
        let xx = x.subrange(0, cut);
        let b = x.subrange(cut, x.len() as int);
        let below = block_hashes(xx, block_sizes(c / 2, 2 * u));
        assert(block_sizes(c, u) == block_sizes(c / 2, 2 * u).push(u));
        assert(block_sizes(c / 2, 2 * u).push(u).drop_last() =~= block_sizes(c / 2, 2 * u));
        lemma_block_hashes_len(xx, block_sizes(c / 2, 2 * u));
        assert(stack == below.push(tree_hash(b, Finalization::NotRoot)).push(
            tree_hash(y, Finalization::NotRoot),
        ));
        assert(xx + (b + y) =~= x + y);
        if c / 2 == 0 {
            assert(below.len() == 0);
            assert(xx.len() == 0);
            assert(b =~= x);
            lemma_tree_hash_after_perfect(b, y, u, Finalization::Root(n));
            assert(stack.len() == 2);
            assert(x + y =~= b + y);
        } else {
            lemma_popcount_succ((c / 2 - 1) as nat);
            assert(stack.len() > 2);
            lemma_tree_hash_after_perfect(b, y, u, Finalization::NotRoot);
            assert(merge_top(stack, Finalization::NotRoot) =~= below.push(
                tree_hash(b + y, Finalization::NotRoot),
            ));
            lemma_finish(xx, b + y, c / 2, 2 * u);
        }
    } else {
        assert(x.len() == 4096 * (2 * u) * (c / 2)) by (nonlinear_arith)
            requires x.len() == 4096 * u * c, c % 2 == 0;
        assert(block_sizes(c, u) == block_sizes(c / 2, 2 * u));
        lemma_finish(x, y, c / 2, 2 * u);
    }
}

/// Hashing incrementally, chunk by chunk, gives the root hash of the whole input.
pub proof fn lemma_incremental_root(input: Seq<u8>)
    requires
        input.len() <= u64::MAX,
    ensures
        incremental_root(input) == root_hash(input),
{
    let n = input.len();
    if n > CHUNK_SIZE {
        let k = ((n - 1) / 4096) * 4096;
        let c = ((n - 1) / 4096) as nat;
        assert(1 <= c && k == 4096 * c && 1 <= n - k <= 4096) by (nonlinear_arith)
            requires k == ((n - 1) / 4096) * 4096, c == (n - 1) / 4096, n > 4096;
        let x = input.subrange(0, k as int);
        let y = input.subrange(k as int, n as int);
        lemma_stack_of(x, c);
        assert(node_hash(y, Finalization::NotRoot) == tree_hash(y, Finalization::NotRoot));
        assert(is_pow2(1));
        lemma_finish(x, y, c, 1);
        assert(x + y =~= input);
    }
}

} // verus!
