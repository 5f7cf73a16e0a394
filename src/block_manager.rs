//! Paged key/value cache bookkeeping.
//!
//! The cache is a pool of fixed-size blocks. Each sequence owns a block table,
//! an ordered list of block handles: logical position `p` of the sequence lives
//! in block `table[p / B]`, slot `p % B`. Blocks are reference counted so that
//! forked sequences share their common prefix; a write into a shared block
//! first copies it (copy-on-write).
//!
//! The cached entries themselves are opaque `u64` handles here: the manager
//! decides where each entry goes and which blocks are copied, and records the
//! entries so that what each sequence sees can be stated and checked.
use vstd::prelude::*;

verus! {

/// Sum of a sequence of counters.
pub open spec fn sum_counts(s: Seq<usize>) -> int
    decreases s.len(),
{
    if s.len() == 0 {
        0
    } else {
        sum_counts(s.drop_last()) + s.last() as int
    }
}

/// Total number of handles over all block tables.
pub open spec fn total_handles(ts: Seq<Seq<usize>>) -> int
    decreases ts.len(),
{
    if ts.len() == 0 {
        0
    } else {
        total_handles(ts.drop_last()) + ts.last().len()
    }
}

/// Number of block tables that hold block `b`.
pub open spec fn holders(ts: Seq<Seq<usize>>, b: usize) -> int
    decreases ts.len(),
{
    if ts.len() == 0 {
        0
    } else {
        holders(ts.drop_last(), b) + if ts.last().contains(b) {
            1int
        } else {
            0int
        }
    }
}

proof fn lemma_sum_update(s: Seq<usize>, i: int, v: usize)
    requires
        0 <= i < s.len(),
    ensures
        sum_counts(s.update(i, v)) == sum_counts(s) - s[i] + v,
    decreases s.len(),
{
    if i == s.len() - 1 {
        assert(s.update(i, v).drop_last() =~= s.drop_last());
    } else {
        lemma_sum_update(s.drop_last(), i, v);
        assert(s.update(i, v).drop_last() =~= s.drop_last().update(i, v));
    }
}

proof fn lemma_sum_push(s: Seq<usize>, v: usize)
    ensures
        sum_counts(s.push(v)) == sum_counts(s) + v,
{
    assert(s.push(v).drop_last() =~= s);
}

proof fn lemma_total_update(ts: Seq<Seq<usize>>, i: int, t: Seq<usize>)
    requires
        0 <= i < ts.len(),
    ensures
        total_handles(ts.update(i, t)) == total_handles(ts) - ts[i].len() + t.len(),
    decreases ts.len(),
{
    if i == ts.len() - 1 {
        assert(ts.update(i, t).drop_last() =~= ts.drop_last());
    } else {
        lemma_total_update(ts.drop_last(), i, t);
        assert(ts.update(i, t).drop_last() =~= ts.drop_last().update(i, t));
    }
}

proof fn lemma_total_push(ts: Seq<Seq<usize>>, t: Seq<usize>)
    ensures
        total_handles(ts.push(t)) == total_handles(ts) + t.len(),
{
    assert(ts.push(t).drop_last() =~= ts);
}

proof fn lemma_holders_update(ts: Seq<Seq<usize>>, i: int, t: Seq<usize>, b: usize)
    requires
        0 <= i < ts.len(),
    ensures
        holders(ts.update(i, t), b) == holders(ts, b) - (if ts[i].contains(b) {
            1int
        } else {
            0int
        }) + (if t.contains(b) {
            1int
        } else {
            0int
        }),
    decreases ts.len(),
{
    if i == ts.len() - 1 {
        assert(ts.update(i, t).drop_last() =~= ts.drop_last());
    } else {
        lemma_holders_update(ts.drop_last(), i, t, b);
        assert(ts.update(i, t).drop_last() =~= ts.drop_last().update(i, t));
    }
}

proof fn lemma_holders_push(ts: Seq<Seq<usize>>, t: Seq<usize>, b: usize)
    ensures
        holders(ts.push(t), b) == holders(ts, b) + if t.contains(b) {
            1int
        } else {
            0int
        },
{
    assert(ts.push(t).drop_last() =~= ts);
}

proof fn lemma_holders_bounds(ts: Seq<Seq<usize>>, b: usize)
    ensures
        0 <= holders(ts, b) <= ts.len(),
        (exists|s: int| 0 <= s < ts.len() && #[trigger] ts[s].contains(b)) ==> holders(ts, b) >= 1,
    decreases ts.len(),
{
    if ts.len() > 0 {
        lemma_holders_bounds(ts.drop_last(), b);
        if exists|s: int| 0 <= s < ts.len() && #[trigger] ts[s].contains(b) {
            let s = choose|s: int| 0 <= s < ts.len() && #[trigger] ts[s].contains(b);
            if s < ts.len() - 1 {
                assert(ts.drop_last()[s] == ts[s]);
            }
        }
    }
}

/// A block held by exactly one table is held by no other table.
proof fn lemma_single_holder(ts: Seq<Seq<usize>>, s: int, b: usize)
    requires
        0 <= s < ts.len(),
        ts[s].contains(b),
        holders(ts, b) == 1,
    ensures
        forall|t: int| 0 <= t < ts.len() && t != s ==> !(#[trigger] ts[t]).contains(b),
    decreases ts.len(),
{
    lemma_holders_bounds(ts.drop_last(), b);
    if s == ts.len() - 1 {
        assert forall|t: int| 0 <= t < ts.len() && t != s implies !(#[trigger] ts[t]).contains(b) by {
            if ts[t].contains(b) {
                assert(ts.drop_last()[t] == ts[t]);
                lemma_holders_bounds(ts.drop_last(), b);
            }
        }
    } else {
        assert(ts.drop_last()[s] == ts[s]);
        lemma_holders_bounds(ts.drop_last(), b);
        lemma_single_holder(ts.drop_last(), s, b);
        assert forall|t: int| 0 <= t < ts.len() && t != s implies !(#[trigger] ts[t]).contains(b) by {
            if t < ts.len() - 1 {
                assert(ts.drop_last()[t] == ts[t]);
            }
        }
    }
}

proof fn lemma_div_below(p: int, n: int, bs: int)
    requires
        0 <= p < n * bs,
        bs > 0,
        n >= 0,
    ensures
        0 <= p / bs < n,
        0 <= p % bs < bs,
{
    assert(0 <= p / bs < n) by (nonlinear_arith)
        requires
            0 <= p < n * bs,
            bs > 0,
    ;
    assert(0 <= p % bs < bs) by (nonlinear_arith)
        requires
            bs > 0,
    ;
}

/// Why a block manager operation could not be carried out.
#[derive(Debug, Clone, Copy, PartialEq, Eq, Structural)]
pub enum BlockError {
    /// The free list cannot supply the blocks the operation needs.
    OutOfMemory,
}

/// Where one written entry goes: a physical block and the slot within it.
#[derive(Debug, Clone, Copy, PartialEq, Eq, Structural)]
pub struct SlotRef {
    pub block: usize,
    pub offset: usize,
}

/// A copy that copy-on-write made: the storage of block `src` is duplicated
/// into block `dst`, which replaced `src` at `index` in the writer's table.
#[derive(Debug, Clone, Copy, PartialEq, Eq, Structural)]
pub struct BlockCopy {
    pub index: usize,
    pub src: usize,
    pub dst: usize,
}

/// What a write did to the physical storage: block copies first, then one
/// slot per written entry.
#[derive(Debug, Clone)]
pub struct WritePlan {
    pub copies: Vec<BlockCopy>,
    pub slots: Vec<SlotRef>,
}

/// Owner of the block pool, the block tables and the reference counts.
pub struct BlockManager {
    block_size: usize,
    refcounts: Vec<usize>,
    free: Vec<usize>,
    tables: Vec<Vec<usize>>,
    lens: Vec<usize>,
    slots: Vec<Vec<u64>>,
}

impl BlockManager {
    /// Tokens per block.
    pub closed spec fn block_size(&self) -> nat {
        self.block_size as nat
    }

    /// Size of the block pool.
    pub closed spec fn num_blocks(&self) -> nat {
        self.refcounts@.len()
    }

    /// Number of sequence ids handed out so far.
    pub closed spec fn num_seqs(&self) -> nat {
        self.tables@.len()
    }

    /// Reference count of block `b`.
    pub closed spec fn refcount(&self, b: int) -> nat {
        self.refcounts@[b] as nat
    }

    /// Reference counts of all blocks, indexed by block.
    pub closed spec fn refcounts(&self) -> Seq<usize> {
        self.refcounts@
    }

    /// Blocks ready to be handed out.
    pub closed spec fn free_list(&self) -> Seq<usize> {
        self.free@
    }

    /// Block table of sequence `s`.
    pub closed spec fn table(&self, s: int) -> Seq<usize> {
        self.tables@[s as int]@
    }

    /// All block tables, indexed by sequence id.
    pub closed spec fn tables(&self) -> Seq<Seq<usize>> {
        self.tables@.map_values(|t: Vec<usize>| t@)
    }

    /// Number of entries written for sequence `s`.
    pub closed spec fn seq_len(&self, s: int) -> nat {
        self.lens@[s] as nat
    }

    /// The entries sequence `s` reads back, in position order.
    pub closed spec fn contents(&self, s: int) -> Seq<u64> {
        Seq::new(
            self.lens@[s] as nat,
            |p: int| self.slots@[self.tables@[s as int]@[p / self.block_size as int] as int]@[p
                % self.block_size as int],
        )
    }

    spec fn table_ok(&self, s: int) -> bool {
        let t = self.tables@[s as int]@;
        &&& t.no_duplicates()
        &&& forall|j: int| 0 <= j < t.len() ==> (#[trigger] t[j]) < self.refcounts@.len()
        &&& self.lens@[s] <= t.len() * self.block_size
    }

    /// Well-formedness: the pool, the free list, the tables and the counts agree.
    pub closed spec fn wf(&self) -> bool {
        let nb = self.refcounts@.len();
        &&& self.block_size > 0
        &&& nb <= usize::MAX
        &&& self.slots@.len() == nb
        &&& forall|b: int| 0 <= b < nb ==> (#[trigger] self.slots@[b])@.len() == self.block_size
        &&& self.free@.no_duplicates()
        &&& forall|i: int| 0 <= i < self.free@.len() ==> (#[trigger] self.free@[i]) < nb
        &&& forall|b: usize|
            b < nb ==> (self.refcounts@[b as int] == 0 <==> #[trigger] self.free@.contains(b))
        &&& self.lens@.len() == self.tables@.len()
        &&& forall|s: int| 0 <= s < self.tables@.len() ==> #[trigger] self.table_ok(s)
        &&& forall|b: usize| b < nb ==> self.refcounts@[b as int] == #[trigger] holders(self.tables(), b)
        &&& sum_counts(self.refcounts@) == total_handles(self.tables())
    }

    /// An empty pool of `num_blocks` blocks of `block_size` slots each.
    pub fn new(num_blocks: usize, block_size: usize) -> (m: Self)
        requires
            block_size > 0,
        ensures
            m.wf(),
            m.block_size() == block_size,
            m.num_blocks() == num_blocks,
            m.num_seqs() == 0,
            m.free_list().len() == num_blocks,
            forall|b: int| 0 <= b < num_blocks ==> m.refcount(b) == 0,
    {
        let mut refcounts: Vec<usize> = Vec::new();
        let mut free: Vec<usize> = Vec::new();
        let mut slots: Vec<Vec<u64>> = Vec::new();
        let mut i: usize = 0;
        while i < num_blocks
            invariant
                i <= num_blocks,
                block_size > 0,
                refcounts@.len() == i,
                slots@.len() == i,
                free@ == Seq::new(i as nat, |k: int| k as usize),
                forall|b: int| 0 <= b < i ==> refcounts@[b] == 0,
                forall|b: int| 0 <= b < i ==> (#[trigger] slots@[b])@.len() == block_size,
                sum_counts(refcounts@) == 0,
            decreases num_blocks - i,
        {
            proof {
                lemma_sum_push(refcounts@, 0);
            }
            refcounts.push(0);
            free.push(i);
            slots.push(vec![0u64; block_size]);
            i = i + 1;
        }
        let m = BlockManager {
            block_size,
            refcounts,
            free,
            tables: Vec::new(),
            lens: Vec::new(),
            slots,
        };
        proof {
            assert(m.tables() =~= Seq::<Seq<usize>>::empty());
            assert forall|b: usize| b < num_blocks implies (m.refcounts@[b as int] == 0
                <==> #[trigger] m.free@.contains(b)) by {
                assert(m.free@[b as int] == b);
            }
        }
        m
    }

    /// Hands out a new sequence id with an empty block table.
    pub fn add_sequence(&mut self) -> (s: usize)
        requires
            old(self).wf(),
        ensures
            final(self).wf(),
            s == old(self).num_seqs(),
            final(self).num_seqs() == old(self).num_seqs() + 1,
            final(self).table(s as int) == Seq::<usize>::empty(),
            final(self).seq_len(s as int) == 0,
            final(self).block_size() == old(self).block_size(),
            final(self).num_blocks() == old(self).num_blocks(),
            final(self).free_list() == old(self).free_list(),
            final(self).refcounts() == old(self).refcounts(),
            forall|t: int|
                0 <= t < old(self).num_seqs() ==> {
                    &&& #[trigger] final(self).table(t) == old(self).table(t)
                    &&& final(self).contents(t) == old(self).contents(t)
                },
    {
        let s = self.tables.len();
        proof {
            assert forall|b: usize| #[trigger] holders(self.tables().push(Seq::empty()), b) == holders(self.tables(), b) by {
                lemma_holders_push(self.tables(), Seq::empty(), b);
            }
            lemma_total_push(self.tables(), Seq::empty());
        }
        let ghost before = self.tables();
        self.tables.push(Vec::new());
        self.lens.push(0);
        proof {
            assert(self.tables() =~= before.push(Seq::empty()));
            assert forall|t: int| 0 <= t < self.tables@.len() implies #[trigger] self.table_ok(t) by {
                if t < s {
                    assert(old(self).table_ok(t));
                }
            }
            assert forall|t: int| 0 <= t < old(self).num_seqs() implies #[trigger] self.table(t) == old(self).table(t)
                && self.contents(t) == old(self).contents(t) by {
                assert(self.contents(t) =~= old(self).contents(t));
            }
        }
        s
    }

    /// Number of blocks a sequence of `n` tokens occupies.
    pub open spec fn blocks_for(n: nat, bs: nat) -> nat {
        if n % bs == 0 {
            n / bs
        } else {
            n / bs + 1
        }
    }

    /// How many fresh blocks `allocate(s, n)` takes from the free list.
    pub open spec fn blocks_missing(&self, s: int, n: nat) -> nat {
        let want = Self::blocks_for(n, self.block_size());
        if want > self.table(s).len() {
            (want - self.table(s).len()) as nat
        } else {
            0
        }
    }

    /// Grows the block table of `s` until it covers `needed_tokens` positions,
    /// taking fresh blocks (reference count 1) from the free list.
    pub fn allocate(&mut self, s: usize, needed_tokens: usize) -> (r: Result<(), BlockError>)
        requires
            old(self).wf(),
            s < old(self).num_seqs(),
        ensures
            final(self).wf(),
            r is Ok <==> old(self).blocks_missing(s as int, needed_tokens as nat) <= old(self).free_list().len(),
            r is Err ==> r == Err::<(), BlockError>(BlockError::OutOfMemory) && *final(self) == *old(self),
            r is Ok ==> {
                let added = old(self).blocks_missing(s as int, needed_tokens as nat);
                &&& final(self).table(s as int).len() == old(self).table(s as int).len() + added
                &&& final(self).table(s as int).subrange(0, old(self).table(s as int).len() as int)
                    == old(self).table(s as int)
                &&& final(self).free_list().len() == old(self).free_list().len() - added
                &&& final(self).table(s as int).len() * final(self).block_size() >= needed_tokens
            },
            final(self).block_size() == old(self).block_size(),
            final(self).num_blocks() == old(self).num_blocks(),
            final(self).num_seqs() == old(self).num_seqs(),
            forall|t: int| 0 <= t < old(self).num_seqs() ==> #[trigger] final(self).contents(t) == old(self).contents(t),
            forall|t: int| 0 <= t < old(self).num_seqs() ==> #[trigger] final(self).seq_len(t) == old(self).seq_len(t),
            forall|t: int|
                0 <= t < old(self).num_seqs() && t != s ==> #[trigger] final(self).table(t) == old(self).table(t),
    {
        let bs = self.block_size;
        let want: usize = if needed_tokens % bs == 0 {
            needed_tokens / bs
        } else {
            assert(needed_tokens / bs < usize::MAX) by (nonlinear_arith)
                requires
                    bs > 0,
                    needed_tokens % bs != 0,
            ;
            needed_tokens / bs + 1
        };
        let have = self.tables[s].len();
        let missing: usize = if want > have {
            want - have
        } else {
            0
        };
        if missing > self.free.len() {
            return Err(BlockError::OutOfMemory);
        }
        proof {
            assert(want * bs >= needed_tokens) by (nonlinear_arith)
                requires
                    bs > 0,
                    want as int == (if needed_tokens % bs == 0 {
                        needed_tokens as int / bs as int
                    } else {
                        needed_tokens as int / bs as int + 1
                    }),
            ;
        }
        let mut k: usize = 0;
        while k < missing
            invariant
                self.wf(),
                old(self).wf(),
                k <= missing,
                missing <= old(self).free_list().len(),
                bs == self.block_size,
                s < self.tables@.len(),
                self.free@.len() == old(self).free@.len() - k,
                self.tables@[s as int]@.len() == have + k,
                self.tables@[s as int]@.subrange(0, have as int) == old(self).tables@[s as int]@,
                have == old(self).tables@[s as int]@.len(),
                self.slots@ == old(self).slots@,
                self.lens@ == old(self).lens@,
                self.refcounts@.len() == old(self).refcounts@.len(),
                self.tables@.len() == old(self).tables@.len(),
                forall|t: int| 0 <= t < self.tables@.len() && t != s ==> #[trigger] self.tables@[t] == old(self).tables@[t],
            decreases missing - k,
        {
            let ghost pre_free = self.free@;
            let ghost pre = *self;
            let b = self.free.pop().unwrap();
            let ghost ts = self.tables();
            let ghost t_old = self.tables@[s as int]@;
            proof {
                assert(pre_free == self.free@.push(b));
                assert(pre_free[pre_free.len() - 1] == b);
                assert(pre_free.contains(b));
                assert(b < self.refcounts@.len());
                assert(!self.free@.contains(b)) by {
                    if self.free@.contains(b) {
                        let j = choose|j: int| 0 <= j < self.free@.len() && self.free@[j] == b;
                        assert(pre_free[j] == pre_free[pre_free.len() - 1]);
                    }
                }
                assert forall|x: usize| #[trigger] self.free@.contains(x) implies pre_free.contains(x) && x != b by {
                    let j = choose|j: int| 0 <= j < self.free@.len() && self.free@[j] == x;
                    assert(pre_free[j] == x);
                }
                assert forall|x: usize| #[trigger] pre_free.contains(x) && x != b implies self.free@.contains(x) by {
                    let j = choose|j: int| 0 <= j < pre_free.len() && pre_free[j] == x;
                    assert(self.free@[j] == x);
                }
            }
            assert(self.refcounts@[b as int] == 0);
            proof {
                lemma_holders_bounds(ts, b);
                assert(!t_old.contains(b)) by {
                    if t_old.contains(b) {
                        assert(ts[s as int].contains(b));
                    }
                }
                lemma_sum_update(self.refcounts@, b as int, 1);
                lemma_total_update(ts, s as int, t_old.push(b));
                assert forall|x: usize| #[trigger] holders(ts.update(s as int, t_old.push(b)), x) == holders(ts, x)
                    + (if x == b { 1int } else { 0int }) by {
                    lemma_holders_update(ts, s as int, t_old.push(b), x);
                    assert(t_old.push(b).contains(x) <==> (t_old.contains(x) || x == b)) by {
                        if t_old.push(b).contains(x) {
                            let j = choose|j: int| 0 <= j < t_old.push(b).len() && t_old.push(b)[j] == x;
                            if j < t_old.len() {
                                assert(t_old[j] == x);
                            }
                        }
                        if t_old.contains(x) {
                            let j = choose|j: int| 0 <= j < t_old.len() && t_old[j] == x;
                            assert(t_old.push(b)[j] == x);
                        }
                        if x == b {
                            assert(t_old.push(b)[t_old.len() as int] == x);
                        }
                    }
                }
            }
            self.refcounts.set(b, 1);
            self.tables[s].push(b);
            proof {
                assert(self.tables() =~= ts.update(s as int, t_old.push(b)));
                assert(self.tables@[s as int]@ == t_old.push(b));
                assert forall|t: int| 0 <= t < self.tables@.len() implies #[trigger] self.table_ok(t) by {
                    assert(pre.table_ok(t));
                    if t == s {
                        let nt = t_old.push(b);
                        assert(self.tables@[t]@ == nt);
                        assert(self.lens@[t] <= t_old.len() * self.block_size);
                        assert(t_old.len() * self.block_size <= (t_old.len() + 1) * self.block_size) by (nonlinear_arith);
                        assert forall|i: int, j: int| 0 <= i < j < nt.len() implies nt[i] != nt[j] by {
                            if j == t_old.len() {
                                assert(t_old.contains(t_old[i]));
                            }
                        }
                        assert forall|j: int| 0 <= j < nt.len() implies (#[trigger] nt[j]) < self.refcounts@.len() by {
                            if j < t_old.len() {
                                assert(t_old[j] == nt[j]);
                            }
                        }
                    }
                }
                assert forall|x: usize| x < self.refcounts@.len() implies (self.refcounts@[x as int] == 0
                    <==> #[trigger] self.free@.contains(x)) by {
                    assert(pre.refcounts@[x as int] == 0 <==> pre_free.contains(x));
                    if x != b {
                        assert(self.refcounts@[x as int] == pre.refcounts@[x as int]);
                        assert(pre_free.contains(x) <==> self.free@.contains(x));
                    }
                }
                assert(self.tables@[s as int]@.subrange(0, have as int) =~= old(self).tables@[s as int]@);
            }
            k = k + 1;
        }
        proof {
            assert forall|t: int| 0 <= t < old(self).num_seqs() implies #[trigger] self.contents(t) == old(self).contents(t) by {
                let bsi = self.block_size as int;
                assert(old(self).table_ok(t));
                assert forall|p: int| 0 <= p < self.lens@[t] implies #[trigger] self.tables@[t]@[p / bsi] == old(self).tables@[t]@[p / bsi] by {
                    lemma_div_below(p, old(self).tables@[t]@.len() as int, bsi);
                    if t == s {
                        assert(self.tables@[s as int]@.subrange(0, have as int)[p / bsi] == self.tables@[s as int]@[p / bsi]);
                    }
                }
                assert(self.contents(t) =~= old(self).contents(t));
            }
            assert((have + missing) * bs >= needed_tokens) by (nonlinear_arith)
                requires
                    want * bs >= needed_tokens,
                    missing == (if want > have { want - have } else { 0 }),
            ;
        }
        Ok(())
    }

    /// What `fork(parent)` leaves behind when it hands out `child`.
    pub open spec fn fork_post(pre: Self, post: Self, parent: int, child: int) -> bool {
        &&& child == pre.num_seqs()
        &&& post.num_seqs() == pre.num_seqs() + 1
        &&& post.block_size() == pre.block_size()
        &&& post.num_blocks() == pre.num_blocks()
        &&& post.table(child) == pre.table(parent)
        &&& post.seq_len(child) == pre.seq_len(parent)
        &&& post.contents(child) == pre.contents(parent)
        &&& post.free_list() == pre.free_list()
        &&& forall|t: int|
            0 <= t < pre.num_seqs() ==> {
                &&& #[trigger] post.table(t) == pre.table(t)
                &&& post.seq_len(t) == pre.seq_len(t)
                &&& post.contents(t) == pre.contents(t)
            }
        &&& forall|b: usize|
            b < pre.num_blocks() ==> #[trigger] post.refcount(b as int) == pre.refcount(b as int) + (if pre.table(
                parent,
            ).contains(b) {
                1int
            } else {
                0int
            })
    }

    /// Starts a new sequence that shares every block of `parent`: the child's
    /// table is a copy of the parent's and each of its blocks gains a reference.
    pub fn fork(&mut self, parent: usize) -> (child: usize)
        requires
            old(self).wf(),
            parent < old(self).num_seqs(),
            old(self).num_seqs() < usize::MAX,
        ensures
            final(self).wf(),
            Self::fork_post(*old(self), *final(self), parent as int, child as int),
    {
        let ghost ts = self.tables();
        let ghost pt = self.tables@[parent as int]@;
        let ghost old_ref = self.refcounts@;
        let n = self.tables[parent].len();
        let mut copy: Vec<usize> = Vec::new();
        let mut i: usize = 0;
        proof {
            assert(old(self).table_ok(parent as int));
        }
        while i < n
            invariant
                old(self).wf(),
                i <= n,
                n == pt.len(),
                pt == old(self).tables@[parent as int]@,
                pt.no_duplicates(),
                forall|j: int| 0 <= j < pt.len() ==> (#[trigger] pt[j]) < old_ref.len(),
                ts == old(self).tables(),
                old_ref == old(self).refcounts@,
                self.tables@ == old(self).tables@,
                self.free@ == old(self).free@,
                self.lens@ == old(self).lens@,
                self.slots@ == old(self).slots@,
                self.block_size == old(self).block_size,
                self.refcounts@.len() == old_ref.len(),
                ts.len() < usize::MAX,
                parent < ts.len(),
                copy@ == pt.subrange(0, i as int),
                forall|x: usize|
                    x < old_ref.len() ==> #[trigger] self.refcounts@[x as int] == old_ref[x as int] + (if pt.subrange(
                        0,
                        i as int,
                    ).contains(x) {
                        1int
                    } else {
                        0int
                    }),
                sum_counts(self.refcounts@) == sum_counts(old_ref) + i,
            decreases n - i,
        {
            let b = self.tables[parent][i];
            proof {
                assert(b == pt[i as int]);
                assert(!pt.subrange(0, i as int).contains(b)) by {
                    if pt.subrange(0, i as int).contains(b) {
                        let j = choose|j: int| 0 <= j < i && pt.subrange(0, i as int)[j] == b;
                        assert(pt[j] == pt[i as int]);
                    }
                }
                assert(ts[parent as int].contains(b)) by {
                    assert(ts[parent as int][i as int] == b);
                }
                lemma_holders_bounds(ts, b);
                lemma_sum_update(self.refcounts@, b as int, (self.refcounts@[b as int] + 1) as usize);
            }
            let c = self.refcounts[b];
            self.refcounts.set(b, c + 1);
            copy.push(b);
            proof {
                assert forall|x: usize| x < old_ref.len() implies #[trigger] self.refcounts@[x as int] == old_ref[x as int]
                    + (if pt.subrange(0, i + 1).contains(x) {
                    1int
                } else {
                    0int
                }) by {
                    assert(pt.subrange(0, i + 1) =~= pt.subrange(0, i as int).push(b));
                    if pt.subrange(0, i as int).push(b).contains(x) && x != b {
                        let j = choose|j: int| 0 <= j < i + 1 && pt.subrange(0, i as int).push(b)[j] == x;
                        assert(pt.subrange(0, i as int)[j] == x);
                    }
                    if pt.subrange(0, i as int).contains(x) {
                        let j = choose|j: int| 0 <= j < i && pt.subrange(0, i as int)[j] == x;
                        assert(pt.subrange(0, i as int).push(b)[j] == x);
                    }
                    if x == b {
                        assert(pt.subrange(0, i as int).push(b)[i as int] == x);
                    }
                }
                assert(copy@ =~= pt.subrange(0, i + 1));
            }
            i = i + 1;
        }
        let child = self.tables.len();
        let len = self.lens[parent];
        self.tables.push(copy);
        self.lens.push(len);
        proof {
            assert(pt.subrange(0, n as int) =~= pt);
            assert(self.tables() =~= ts.push(pt));
            lemma_total_push(ts, pt);
            assert forall|x: usize| x < self.refcounts@.len() implies self.refcounts@[x as int] == #[trigger] holders(
                self.tables(),
                x,
            ) by {
                lemma_holders_push(ts, pt, x);
            }
            assert forall|x: usize| x < self.refcounts@.len() implies (self.refcounts@[x as int] == 0
                <==> #[trigger] self.free@.contains(x)) by {
                assert(old_ref[x as int] == 0 <==> old(self).free@.contains(x));
                if pt.contains(x) {
                    let j = choose|j: int| 0 <= j < pt.len() && pt[j] == x;
                    assert(ts[parent as int][j] == x);
                    lemma_holders_bounds(ts, x);
                }
            }
            assert forall|t: int| 0 <= t < self.tables@.len() implies #[trigger] self.table_ok(t) by {
                if t < child {
                    assert(old(self).table_ok(t));
                } else {
                    assert(old(self).table_ok(parent as int));
                }
            }
            assert forall|t: int| 0 <= t < old(self).num_seqs() implies {
                &&& #[trigger] self.table(t) == old(self).table(t)
                &&& self.seq_len(t) == old(self).seq_len(t)
                &&& self.contents(t) == old(self).contents(t)
            } by {
                assert(self.contents(t) =~= old(self).contents(t));
            }
            assert(self.contents(child as int) =~= old(self).contents(parent as int));
            assert forall|b: usize| b < old(self).num_blocks() implies #[trigger] self.refcount(b as int) == old(self).refcount(b as int)
                + (if old(self).table(parent as int).contains(b) {
                1int
            } else {
                0int
            }) by {
                let x = b;
                assert(self.refcounts@[x as int] == old_ref[x as int] + (if pt.subrange(0, n as int).contains(x) {
                    1int
                } else {
                    0int
                }));
            }
        }
        child
    }

    /// What `free(s)` leaves behind.
    pub open spec fn free_post(pre: Self, post: Self, s: int) -> bool {
        &&& post.num_seqs() == pre.num_seqs()
        &&& post.block_size() == pre.block_size()
        &&& post.num_blocks() == pre.num_blocks()
        &&& post.table(s) == Seq::<usize>::empty()
        &&& post.seq_len(s) == 0
        &&& forall|t: int|
            0 <= t < pre.num_seqs() && t != s ==> {
                &&& #[trigger] post.table(t) == pre.table(t)
                &&& post.seq_len(t) == pre.seq_len(t)
                &&& post.contents(t) == pre.contents(t)
            }
        &&& forall|b: usize|
            b < pre.num_blocks() ==> #[trigger] post.refcount(b as int) == pre.refcount(b as int) - (if pre.table(
                s,
            ).contains(b) {
                1int
            } else {
                0int
            })
    }

    /// Releases sequence `s`: each of its blocks loses a reference, and blocks
    /// whose count reaches zero return to the free list.
    pub fn free(&mut self, s: usize)
        requires
            old(self).wf(),
            s < old(self).num_seqs(),
        ensures
            final(self).wf(),
            Self::free_post(*old(self), *final(self), s as int),
    {
        let ghost ts = self.tables();
        let ghost pt = self.tables@[s as int]@;
        let ghost old_ref = self.refcounts@;
        let n = self.tables[s].len();
        let mut i: usize = 0;
        proof {
            assert(old(self).table_ok(s as int));
        }
        while i < n
            invariant
                old(self).wf(),
                i <= n,
                n == pt.len(),
                pt == old(self).tables@[s as int]@,
                pt.no_duplicates(),
                forall|j: int| 0 <= j < pt.len() ==> (#[trigger] pt[j]) < old_ref.len(),
                ts == old(self).tables(),
                old_ref == old(self).refcounts@,
                self.tables@ == old(self).tables@,
                self.lens@ == old(self).lens@,
                self.slots@ == old(self).slots@,
                self.block_size == old(self).block_size,
                self.refcounts@.len() == old_ref.len(),
                s < ts.len(),
                self.free@.no_duplicates(),
                forall|j: int| 0 <= j < self.free@.len() ==> (#[trigger] self.free@[j]) < old_ref.len(),
                forall|x: usize| x < old_ref.len() ==> (self.refcounts@[x as int] == 0 <==> #[trigger] self.free@.contains(x)),
                forall|x: usize|
                    x < old_ref.len() ==> #[trigger] self.refcounts@[x as int] == old_ref[x as int] - (if pt.subrange(
                        0,
                        i as int,
                    ).contains(x) {
                        1int
                    } else {
                        0int
                    }),
                sum_counts(self.refcounts@) == sum_counts(old_ref) - i,
            decreases n - i,
        {
            let b = self.tables[s][i];
            proof {
                assert(b == pt[i as int]);
                assert(!pt.subrange(0, i as int).contains(b)) by {
                    if pt.subrange(0, i as int).contains(b) {
                        let j = choose|j: int| 0 <= j < i && pt.subrange(0, i as int)[j] == b;
                        assert(pt[j] == pt[i as int]);
                    }
                }
                assert(ts[s as int].contains(b)) by {
                    assert(ts[s as int][i as int] == b);
                }
                lemma_holders_bounds(ts, b);
                lemma_sum_update(self.refcounts@, b as int, (self.refcounts@[b as int] - 1) as usize);
            }
            let c = self.refcounts[b];
            self.refcounts.set(b, c - 1);
            let ghost pre_free = self.free@;
            if c == 1 {
                self.free.push(b);
            }
            proof {
                assert(!pre_free.contains(b));
                assert forall|x: usize| x < old_ref.len() implies #[trigger] self.refcounts@[x as int] == old_ref[x as int]
                    - (if pt.subrange(0, i + 1).contains(x) {
                    1int
                } else {
                    0int
                }) by {
                    assert(pt.subrange(0, i + 1) =~= pt.subrange(0, i as int).push(b));
                    if pt.subrange(0, i as int).push(b).contains(x) && x != b {
                        let j = choose|j: int| 0 <= j < i + 1 && pt.subrange(0, i as int).push(b)[j] == x;
                        assert(pt.subrange(0, i as int)[j] == x);
                    }
                    if pt.subrange(0, i as int).contains(x) {
                        let j = choose|j: int| 0 <= j < i && pt.subrange(0, i as int)[j] == x;
                        assert(pt.subrange(0, i as int).push(b)[j] == x);
                    }
                    if x == b {
                        assert(pt.subrange(0, i as int).push(b)[i as int] == x);
                    }
                }
                assert forall|x: usize| x < old_ref.len() implies (self.refcounts@[x as int] == 0
                    <==> #[trigger] self.free@.contains(x)) by {
                    if c == 1 {
                        assert(self.free@ == pre_free.push(b));
                        if x != b {
                            if self.free@.contains(x) {
                                let j = choose|j: int| 0 <= j < self.free@.len() && self.free@[j] == x;
                                assert(pre_free[j] == x);
                            }
                            if pre_free.contains(x) {
                                let j = choose|j: int| 0 <= j < pre_free.len() && pre_free[j] == x;
                                assert(self.free@[j] == x);
                            }
                        } else {
                            assert(self.free@[pre_free.len() as int] == x);
                        }
                    }
                }
                if c == 1 {
                    assert forall|j: int, k: int| 0 <= j < k < self.free@.len() implies self.free@[j] != self.free@[k] by {
                        if k == pre_free.len() {
                            assert(pre_free.contains(pre_free[j]));
                        }
                    }
                }
            }
            i = i + 1;
        }
        self.tables.set(s, Vec::new());
        self.lens.set(s, 0);
        proof {
            assert(pt.subrange(0, n as int) =~= pt);
            assert(self.tables() =~= ts.update(s as int, Seq::empty()));
            lemma_total_update(ts, s as int, Seq::empty());
            assert forall|x: usize| x < self.refcounts@.len() implies self.refcounts@[x as int] == #[trigger] holders(
                self.tables(),
                x,
            ) by {
                lemma_holders_update(ts, s as int, Seq::empty(), x);
            }
            assert forall|t: int| 0 <= t < self.tables@.len() implies #[trigger] self.table_ok(t) by {
                assert(old(self).table_ok(t));
            }
            assert forall|t: int| 0 <= t < old(self).num_seqs() && t != s implies {
                &&& #[trigger] self.table(t) == old(self).table(t)
                &&& self.seq_len(t) == old(self).seq_len(t)
                &&& self.contents(t) == old(self).contents(t)
            } by {
                assert(self.contents(t) =~= old(self).contents(t));
            }
            assert forall|b: usize| b < old(self).num_blocks() implies #[trigger] self.refcount(b as int) == old(self).refcount(b as int)
                - (if old(self).table(s as int).contains(b) {
                1int
            } else {
                0int
            }) by {
                let x = b;
                assert(self.refcounts@[x as int] == old_ref[x as int] - (if pt.subrange(0, n as int).contains(x) {
                    1int
                } else {
                    0int
                }));
            }
        }
    }

    /// Positions `[p0, p0 + n)` live in blocks `[p0 / B, end)`.
    proof fn lemma_span(p0: int, n: int, len: int, bs: int)
        requires
            bs > 0,
            p0 >= 0,
            n > 0,
            len >= 0,
            p0 + n <= len * bs,
        ensures
            p0 / bs < (p0 + n - 1) / bs + 1 <= len,
            forall|p: int| p0 <= p < p0 + n ==> p0 / bs <= #[trigger] (p / bs) < (p0 + n - 1) / bs + 1,
    {
        lemma_div_below(p0 + n - 1, len, bs);
        assert(p0 / bs <= (p0 + n - 1) / bs) by (nonlinear_arith)
            requires
                bs > 0,
                p0 >= 0,
                n > 0,
        ;
        assert forall|p: int| p0 <= p < p0 + n implies p0 / bs <= #[trigger] (p / bs) < (p0 + n - 1) / bs + 1 by {
            assert(p0 / bs <= p / bs) by (nonlinear_arith)
                requires
                    bs > 0,
                    p0 >= 0,
                    p0 <= p,
            ;
            assert(p / bs <= (p0 + n - 1) / bs) by (nonlinear_arith)
                requires
                    bs > 0,
                    p >= 0,
                    p <= p0 + n - 1,
            ;
        }
    }

    /// Two positions that share a block and a slot are the same position.
    proof fn lemma_same_slot(p: int, q: int, bs: int)
        requires
            bs > 0,
            p >= 0,
            q >= 0,
            p / bs == q / bs,
            p % bs == q % bs,
        ensures
            p == q,
    {
        assert(p == bs * (p / bs) + p % bs) by (nonlinear_arith)
            requires
                bs > 0,
        ;
        assert(q == bs * (q / bs) + q % bs) by (nonlinear_arith)
            requires
                bs > 0,
        ;
    }

    /// Copy-on-write of the block at index `j` of the table of `s`, when shared.
    fn make_exclusive(&mut self, s: usize, j: usize, copies: &mut Vec<BlockCopy>) -> (r: Result<(), BlockError>)
        requires
            old(self).wf(),
            s < old(self).num_seqs(),
            j < old(self).table(s as int).len(),
        ensures
            final(self).wf(),
            final(self).block_size() == old(self).block_size(),
            final(self).num_blocks() == old(self).num_blocks(),
            final(self).num_seqs() == old(self).num_seqs(),
            final(self).lens@ == old(self).lens@,
            final(self).table(s as int).len() == old(self).table(s as int).len(),
            forall|k: int| 0 <= k < old(self).table(s as int).len() && k != j
                ==> #[trigger] final(self).table(s as int)[k] == old(self).table(s as int)[k],
            forall|k: int| 0 <= k < old(self).table(s as int).len() && k != j
                ==> #[trigger] final(self).refcount(final(self).table(s as int)[k] as int) == old(self).refcount(old(self).table(s as int)[k] as int),
            forall|t: int| 0 <= t < old(self).num_seqs() && t != s ==> #[trigger] final(self).table(t) == old(self).table(t),
            forall|t: int| 0 <= t < old(self).num_seqs() ==> #[trigger] final(self).contents(t) == old(self).contents(t),
            r is Ok ==> final(self).refcount(final(self).table(s as int)[j as int] as int) == 1,
            r is Ok ==> final(self).table(s as int)[j as int] == old(self).table(s as int)[j as int]
                && final(copies)@ == old(copies)@ || final(copies)@ == old(copies)@.push(
                BlockCopy { index: j, src: old(self).table(s as int)[j as int], dst: final(self).table(s as int)[j as int] },
            ),
            r is Err ==> r == Err::<(), BlockError>(BlockError::OutOfMemory) && final(self).free_list().len() == 0
                && final(copies)@ == old(copies)@ && final(self).refcount(final(self).table(s as int)[j as int] as int)
                > 1,
    {
        let b = self.tables[s][j];
        let ghost ts = self.tables();
        let ghost t_old = self.tables@[s as int]@;
        proof {
            assert(self.table_ok(s as int));
            assert(ts[s as int].contains(b)) by {
                assert(ts[s as int][j as int] == b);
            }
            lemma_holders_bounds(ts, b);
        }
        if self.refcounts[b] <= 1 {
            return Ok(());
        }
        if self.free.len() == 0 {
            return Err(BlockError::OutOfMemory);
        }
        let ghost pre_free = self.free@;
        let ghost pre = *self;
        let nb = self.free.pop().unwrap();
        proof {
            assert(pre_free == self.free@.push(nb));
            assert(pre_free[pre_free.len() - 1] == nb);
            assert(pre_free.contains(nb));
            assert(!self.free@.contains(nb)) by {
                if self.free@.contains(nb) {
                    let i = choose|i: int| 0 <= i < self.free@.len() && self.free@[i] == nb;
                    assert(pre_free[i] == pre_free[pre_free.len() - 1]);
                }
            }
            assert forall|x: usize| #[trigger] self.free@.contains(x) implies pre_free.contains(x) && x != nb by {
                let i = choose|i: int| 0 <= i < self.free@.len() && self.free@[i] == x;
                assert(pre_free[i] == x);
            }
            assert forall|x: usize| #[trigger] pre_free.contains(x) && x != nb implies self.free@.contains(x) by {
                let i = choose|i: int| 0 <= i < pre_free.len() && pre_free[i] == x;
                assert(self.free@[i] == x);
            }
            lemma_holders_bounds(ts, nb);
            assert forall|t: int| 0 <= t < ts.len() implies !(#[trigger] ts[t]).contains(nb) by {
                if ts[t].contains(nb) {
                    lemma_holders_bounds(ts, nb);
                }
            }
            assert(!t_old.contains(nb)) by {
                assert(ts[s as int] == t_old);
            }
        }
        let bs = self.block_size;
        let mut data: Vec<u64> = Vec::new();
        let mut k: usize = 0;
        while k < bs
            invariant
                k <= bs,
                bs == self.block_size,
                b < self.slots@.len(),
                self.slots@[b as int]@.len() == bs,
                data@ == self.slots@[b as int]@.subrange(0, k as int),
            decreases bs - k,
        {
            data.push(self.slots[b][k]);
            k = k + 1;
        }
        proof {
            assert(data@ =~= self.slots@[b as int]@);
        }
        let ghost ts2 = ts.update(s as int, t_old.update(j as int, nb));
        proof {
            lemma_sum_update(self.refcounts@, b as int, (self.refcounts@[b as int] - 1) as usize);
            lemma_sum_update(self.refcounts@.update(b as int, (self.refcounts@[b as int] - 1) as usize), nb as int, 1);
            lemma_total_update(ts, s as int, t_old.update(j as int, nb));
            assert forall|x: usize| #[trigger] holders(ts2, x) == holders(ts, x) - (if x == b {
                1int
            } else {
                0int
            }) + (if x == nb {
                1int
            } else {
                0int
            }) by {
                lemma_holders_update(ts, s as int, t_old.update(j as int, nb), x);
                let t2 = t_old.update(j as int, nb);
                if x == b {
                    assert(t_old.contains(x)) by {
                        assert(t_old[j as int] == x);
                    }
                    assert(!t2.contains(x)) by {
                        if t2.contains(x) {
                            let i = choose|i: int| 0 <= i < t2.len() && t2[i] == x;
                            assert(t_old[i] == t_old[j as int]);
                        }
                    }
                } else if x == nb {
                    assert(t2[j as int] == x);
                } else {
                    if t2.contains(x) {
                        let i = choose|i: int| 0 <= i < t2.len() && t2[i] == x;
                        assert(t_old[i] == x);
                    }
                    if t_old.contains(x) {
                        let i = choose|i: int| 0 <= i < t_old.len() && t_old[i] == x;
                        assert(t2[i] == x);
                    }
                }
            }
        }
        let c = self.refcounts[b];
        self.refcounts.set(b, c - 1);
        self.refcounts.set(nb, 1);
        self.slots.set(nb, data);
        self.tables[s].set(j, nb);
        copies.push(BlockCopy { index: j, src: b, dst: nb });
        proof {
            assert(self.tables() =~= ts2);
            assert(self.tables@[s as int]@ == t_old.update(j as int, nb));
            assert forall|x: usize| x < self.refcounts@.len() implies (self.refcounts@[x as int] == 0
                <==> #[trigger] self.free@.contains(x)) by {
                assert(pre.refcounts@[x as int] == 0 <==> pre_free.contains(x));
            }
            assert forall|t: int| 0 <= t < self.tables@.len() implies #[trigger] self.table_ok(t) by {
                assert(pre.table_ok(t));
                if t == s {
                    let t2 = t_old.update(j as int, nb);
                    assert forall|i: int, i2: int| 0 <= i < i2 < t2.len() implies t2[i] != t2[i2] by {
                        if i == j {
                            assert(t_old.contains(t2[i2]));
                        } else if i2 == j {
                            assert(t_old.contains(t2[i]));
                        }
                    }
                }
            }
            assert forall|t: int| 0 <= t < old(self).num_seqs() implies #[trigger] self.contents(t) == old(self).contents(t) by {
                let bsi = self.block_size as int;
                assert(pre.table_ok(t));
                assert forall|p: int| 0 <= p < self.lens@[t] implies #[trigger] self.slots@[self.tables@[t]@[p / bsi] as int]@[p % bsi]
                    == pre.slots@[pre.tables@[t]@[p / bsi] as int]@[p % bsi] by {
                    lemma_div_below(p, pre.tables@[t]@.len() as int, bsi);
                    let q = p / bsi;
                    if t != s {
                        assert(ts[t].contains(pre.tables@[t]@[q]) ) by {
                            assert(ts[t][q] == pre.tables@[t]@[q]);
                        }
                    } else if q != j {
                        assert(t_old.contains(t_old[q]));
                    }
                }
                assert(self.contents(t) =~= old(self).contents(t));
            }
        }
        Ok(())
    }

    /// What `write(s, entries)` leaves behind when it succeeds.
    pub open spec fn write_post(pre: Self, post: Self, s: int, entries: Seq<u64>) -> bool {
        &&& post.num_seqs() == pre.num_seqs()
        &&& post.block_size() == pre.block_size()
        &&& post.num_blocks() == pre.num_blocks()
        &&& post.seq_len(s) == pre.seq_len(s) + entries.len()
        &&& post.contents(s) == pre.contents(s) + entries
        &&& post.table(s).len() == pre.table(s).len()
        &&& forall|t: int|
            0 <= t < pre.num_seqs() && t != s ==> {
                &&& #[trigger] post.table(t) == pre.table(t)
                &&& post.seq_len(t) == pre.seq_len(t)
                &&& post.contents(t) == pre.contents(t)
            }
    }

    /// Appends `entries` at the end of sequence `s`. Each block the new
    /// entries land in is first made exclusive to `s`: a shared block is
    /// copied into a fresh one, which replaces it in the table of `s` while
    /// the original loses a reference. The blocks must have been allocated.
    pub fn write(&mut self, s: usize, entries: &Vec<u64>) -> (r: Result<WritePlan, BlockError>)
        requires
            old(self).wf(),
            s < old(self).num_seqs(),
            old(self).seq_len(s as int) + entries.len() <= old(self).table(s as int).len() * old(self).block_size(),
            old(self).seq_len(s as int) + entries.len() <= usize::MAX,
        ensures
            final(self).wf(),
            final(self).num_seqs() == old(self).num_seqs(),
            final(self).block_size() == old(self).block_size(),
            final(self).num_blocks() == old(self).num_blocks(),
            forall|t: int|
                0 <= t < old(self).num_seqs() && t != s ==> {
                    &&& #[trigger] final(self).table(t) == old(self).table(t)
                    &&& final(self).seq_len(t) == old(self).seq_len(t)
                    &&& final(self).contents(t) == old(self).contents(t)
                },
            r is Ok ==> Self::write_post(*old(self), *final(self), s as int, entries@),
            r matches Ok(plan) ==> {
                &&& plan.slots@.len() == entries.len()
                &&& forall|i: int|
                    0 <= i < entries.len() ==> {
                        let p = old(self).seq_len(s as int) + i;
                        let bs = final(self).block_size() as int;
                        &&& #[trigger] plan.slots@[i] == (SlotRef {
                            block: final(self).table(s as int)[p / bs],
                            offset: (p % bs) as usize,
                        })
                        &&& final(self).refcount(plan.slots@[i].block as int) == 1
                    }
                &&& forall|c: int|
                    0 <= c < plan.copies@.len() ==> {
                        let k = (#[trigger] plan.copies@[c]).index as int;
                        &&& 0 <= k < final(self).table(s as int).len()
                        &&& plan.copies@[c].src == old(self).table(s as int)[k]
                        &&& plan.copies@[c].dst == final(self).table(s as int)[k]
                    }
            },
            r is Err ==> {
                &&& r == Err::<WritePlan, BlockError>(BlockError::OutOfMemory)
                &&& final(self).free_list().len() == 0
                &&& final(self).seq_len(s as int) == old(self).seq_len(s as int)
                &&& final(self).contents(s as int) == old(self).contents(s as int)
                &&& exists|p: int|
                    old(self).seq_len(s as int) <= p < old(self).seq_len(s as int) + entries.len() && final(self).refcount(
                        #[trigger] final(self).table(s as int)[p / final(self).block_size() as int] as int,
                    ) > 1
            },
    {
        let n = entries.len();
        let len0 = self.lens[s];
        let bs = self.block_size;
        let mut copies: Vec<BlockCopy> = Vec::new();
        let mut slots: Vec<SlotRef> = Vec::new();
        if n == 0 {
            proof {
                assert(old(self).contents(s as int) + entries@ =~= old(self).contents(s as int));
            }
            return Ok(WritePlan { copies, slots });
        }
        let first = len0 / bs;
        let end = (len0 + n - 1) / bs + 1;
        proof {
            assert(self.table_ok(s as int));
            Self::lemma_span(len0 as int, n as int, self.tables@[s as int]@.len() as int, bs as int);
        }
        let mut j = first;
        while j < end
            invariant
                self.wf(),
                old(self).wf(),
                first <= j <= end,
                end <= self.tables@[s as int]@.len(),
                s < self.tables@.len(),
                self.tables@.len() == old(self).tables@.len(),
                self.tables@[s as int]@.len() == old(self).tables@[s as int]@.len(),
                self.lens@ == old(self).lens@,
                self.block_size == bs,
                bs == old(self).block_size,
                bs > 0,
                n == entries@.len(),
                n > 0,
                len0 == old(self).lens@[s as int],
                first == len0 / bs,
                end as int == (len0 + n - 1) as int / bs as int + 1,
                self.refcounts@.len() == old(self).refcounts@.len(),
                forall|t: int| 0 <= t < old(self).num_seqs() && t != s ==> #[trigger] self.table(t) == old(self).table(t),
                forall|t: int| 0 <= t < old(self).num_seqs() ==> #[trigger] self.contents(t) == old(self).contents(t),
                forall|k: int| first <= k < j ==> #[trigger] self.refcounts@[self.tables@[s as int]@[k] as int] == 1,
                forall|k: int| 0 <= k < self.tables@[s as int]@.len() && !(first <= k < j)
                    ==> #[trigger] self.tables@[s as int]@[k] == old(self).tables@[s as int]@[k],
                forall|c: int|
                    0 <= c < copies@.len() ==> {
                        let k = (#[trigger] copies@[c]).index as int;
                        &&& first <= k < j
                        &&& copies@[c].src == old(self).tables@[s as int]@[k]
                        &&& copies@[c].dst == self.tables@[s as int]@[k]
                    },
            decreases end - j,
        {
            let ghost pre = *self;
            let ghost pre_copies = copies@;
            let r = self.make_exclusive(s, j, &mut copies);
            if r.is_err() {
                proof {
                    let jj = j as int;
                    let bsi = bs as int;
                    let p0 = len0 as int;
                    let pe = p0 + n - 1;
                    let p = if jj * bsi > p0 { jj * bsi } else { p0 };
                    assert(p0 <= p < p0 + n && p / bsi == jj) by (nonlinear_arith)
                        requires
                            bsi > 0,
                            p0 >= 0,
                            n > 0,
                            p0 / bsi <= jj,
                            jj < pe / bsi + 1,
                            pe == p0 + n - 1,
                            p == (if jj * bsi > p0 { jj * bsi } else { p0 }),
                    ;
                    assert(self.refcount(self.table(s as int)[p / self.block_size() as int] as int) > 1);
                }
                return Err(BlockError::OutOfMemory);
            }
            proof {
                assert forall|c: int| 0 <= c < copies@.len() implies {
                    let k = (#[trigger] copies@[c]).index as int;
                    &&& first <= k < j + 1
                    &&& copies@[c].src == old(self).tables@[s as int]@[k]
                    &&& copies@[c].dst == self.tables@[s as int]@[k]
                } by {
                    if c < pre_copies.len() {
                        assert(copies@[c] == pre_copies[c]);
                        let k = pre_copies[c].index as int;
                        assert(self.tables@[s as int]@[k] == pre.tables@[s as int]@[k]);
                    }
                }
                assert forall|k: int| first <= k < j + 1 implies #[trigger] self.refcounts@[self.tables@[s as int]@[k] as int] == 1 by {
                    if k < j {
                        assert(self.refcount(self.table(s as int)[k] as int) == pre.refcount(pre.table(s as int)[k] as int));
                    }
                }
            }
            j = j + 1;
        }
        let ghost mid = *self;
        proof {
            assert(j == end);
            assert(mid.refcounts@ == self.refcounts@);
            assert(forall|k: int| first <= k < end ==> #[trigger] self.refcounts@[self.tables@[s as int]@[k] as int] == 1);
            assert forall|k: int| first <= k < end implies #[trigger] mid.refcounts@[mid.tables@[s as int]@[k] as int] == 1 by {
                assert(self.refcounts@[self.tables@[s as int]@[k] as int] == 1);
            }
        }
        let mut i: usize = 0;
        while i < n
            invariant
                self.wf(),
                mid.wf(),
                i <= n,
                n == entries@.len(),
                s < self.tables@.len(),
                self.tables@ == mid.tables@,
                self.refcounts@ == mid.refcounts@,
                self.free@ == mid.free@,
                self.block_size == bs,
                bs == old(self).block_size,
                bs > 0,
                mid.lens@ == old(self).lens@,
                mid.tables@.len() == old(self).tables@.len(),
                mid.tables@[s as int]@.len() == old(self).tables@[s as int]@.len(),
                forall|t: int|
                    0 <= t < old(self).num_seqs() && t != s ==> {
                        &&& #[trigger] mid.table(t) == old(self).table(t)
                        &&& mid.contents(t) == old(self).contents(t)
                    },
                forall|c: int|
                    0 <= c < copies@.len() ==> {
                        let k = (#[trigger] copies@[c]).index as int;
                        &&& first <= k < end
                        &&& copies@[c].src == old(self).tables@[s as int]@[k]
                        &&& copies@[c].dst == mid.tables@[s as int]@[k]
                    },
                len0 == mid.lens@[s as int],
                len0 + n <= usize::MAX,
                len0 + n <= mid.tables@[s as int]@.len() * bs,
                first == len0 / bs,
                end as int == (len0 + n - 1) as int / bs as int + 1,
                end <= mid.tables@[s as int]@.len(),
                forall|p: int| len0 <= p < len0 + n ==> first <= #[trigger] (p / bs as int) < end,
                forall|k: int| first <= k < end ==> #[trigger] mid.refcounts@[mid.tables@[s as int]@[k] as int] == 1,
                self.lens@ == mid.lens@.update(s as int, (len0 + i) as usize),
                self.contents(s as int) == mid.contents(s as int) + entries@.subrange(0, i as int),
                forall|t: int| 0 <= t < mid.num_seqs() && t != s ==> #[trigger] self.contents(t) == mid.contents(t),
                slots@.len() == i,
                forall|k: int| 0 <= k < i ==> #[trigger] slots@[k] == (SlotRef {
                    block: mid.tables@[s as int]@[(len0 + k) / bs as int],
                    offset: ((len0 + k) % bs as int) as usize,
                }),
            decreases n - i,
        {
            let p = len0 + i;
            let q = p / bs;
            let off = p % bs;
            proof {
                assert(first <= q < end);
                lemma_div_below(p as int, mid.tables@[s as int]@.len() as int, bs as int);
            }
            let blk = self.tables[s][q];
            let ghost pre = *self;
            let ghost ts = self.tables();
            proof {
                assert(mid.table_ok(s as int));
                assert(ts[s as int].contains(blk)) by {
                    assert(ts[s as int][q as int] == blk);
                }
                assert(holders(ts, blk) == 1);
                lemma_single_holder(ts, s as int, blk);
            }
            self.slots[blk].set(off, entries[i]);
            self.lens.set(s, p + 1);
            slots.push(SlotRef { block: blk, offset: off });
            proof {
                let bsi = bs as int;
                assert forall|t: int| 0 <= t < self.tables@.len() implies #[trigger] self.table_ok(t) by {
                    assert(pre.table_ok(t));
                }
                assert forall|x: usize| x < self.refcounts@.len() implies (self.refcounts@[x as int] == 0
                    <==> #[trigger] self.free@.contains(x)) by {
                    assert(pre.refcounts@[x as int] == 0 <==> pre.free@.contains(x));
                }
                assert forall|t: int| 0 <= t < mid.num_seqs() && t != s implies #[trigger] self.contents(t) == mid.contents(t) by {
                    assert(pre.table_ok(t));
                    assert forall|p2: int| 0 <= p2 < self.lens@[t] implies #[trigger] self.slots@[self.tables@[t]@[p2 / bsi] as int]@[p2 % bsi]
                        == pre.slots@[pre.tables@[t]@[p2 / bsi] as int]@[p2 % bsi] by {
                        lemma_div_below(p2, pre.tables@[t]@.len() as int, bsi);
                        assert(ts[t][p2 / bsi] == pre.tables@[t]@[p2 / bsi]);
                        assert(ts[t].contains(pre.tables@[t]@[p2 / bsi]));
                    }
                    assert(self.contents(t) =~= pre.contents(t));
                }
                let tb = self.tables@[s as int]@;
                assert forall|p2: int| 0 <= p2 < len0 + i implies #[trigger] self.slots@[tb[p2 / bsi] as int]@[p2 % bsi]
                    == pre.slots@[tb[p2 / bsi] as int]@[p2 % bsi] by {
                    lemma_div_below(p2, tb.len() as int, bsi);
                    if tb[p2 / bsi] == blk {
                        assert(tb[p2 / bsi] == tb[q as int]);
                        if p2 / bsi != q {
                            assert(false);
                        }
                        if p2 % bsi == off {
                            Self::lemma_same_slot(p2, p as int, bsi);
                        }
                    }
                }
                assert(self.slots@[blk as int]@[off as int] == entries@[i as int]);
                assert(tb[(p as int) / bsi] == blk);
                assert(self.contents(s as int)[p as int] == entries@[i as int]);
                assert forall|p2: int| 0 <= p2 < len0 + i implies #[trigger] self.contents(s as int)[p2] == pre.contents(s as int)[p2] by {
                }
                assert(self.contents(s as int) =~= pre.contents(s as int).push(entries@[i as int]));
                assert(entries@.subrange(0, i + 1) =~= entries@.subrange(0, i as int).push(entries@[i as int]));
                assert(self.contents(s as int) =~= mid.contents(s as int) + entries@.subrange(0, i + 1));
            }
            i = i + 1;
        }
        proof {
            assert(entries@.subrange(0, n as int) =~= entries@);
            assert forall|t: int| 0 <= t < old(self).num_seqs() && t != s implies {
                &&& #[trigger] self.table(t) == old(self).table(t)
                &&& self.seq_len(t) == old(self).seq_len(t)
                &&& self.contents(t) == old(self).contents(t)
            } by {
                assert(mid.table(t) == old(self).table(t));
                assert(self.contents(t) == mid.contents(t));
            }
            assert forall|k: int| 0 <= k < n implies #[trigger] self.refcount(slots@[k].block as int) == 1 by {
                assert(first <= (len0 + k) / (bs as int) < end);
            }
            assert(Self::write_post(*old(self), *self, s as int, entries@));
        }
        Ok(WritePlan { copies, slots })
    }

    /// The block table of `s` and the number of positions it holds, as the
    /// attention kernel reads them.
    pub fn gather_for_attention(&self, s: usize) -> (r: (Vec<usize>, usize))
        requires
            self.wf(),
            s < self.num_seqs(),
        ensures
            r.0@ == self.table(s as int),
            r.1 == self.seq_len(s as int),
    {
        let n = self.tables[s].len();
        let mut out: Vec<usize> = Vec::new();
        let mut i: usize = 0;
        while i < n
            invariant
                i <= n,
                s < self.tables@.len(),
                n == self.tables@[s as int]@.len(),
                out@ == self.tables@[s as int]@.subrange(0, i as int),
            decreases n - i,
        {
            out.push(self.tables[s][i]);
            i = i + 1;
        }
        proof {
            assert(out@ =~= self.tables@[s as int]@);
        }
        (out, self.lens[s])
    }

    /// The entries sequence `s` reads back.
    pub fn read(&self, s: usize) -> (r: Vec<u64>)
        requires
            self.wf(),
            s < self.num_seqs(),
        ensures
            r@ == self.contents(s as int),
    {
        let n = self.lens[s];
        let bs = self.block_size;
        let mut out: Vec<u64> = Vec::new();
        let mut p: usize = 0;
        proof {
            assert(self.table_ok(s as int));
        }
        while p < n
            invariant
                self.wf(),
                p <= n,
                s < self.tables@.len(),
                n == self.lens@[s as int],
                bs == self.block_size,
                out@ == self.contents(s as int).subrange(0, p as int),
            decreases n - p,
        {
            proof {
                assert(self.table_ok(s as int));
                lemma_div_below(p as int, self.tables@[s as int]@.len() as int, bs as int);
            }
            let b = self.tables[s][p / bs];
            out.push(self.slots[b][p % bs]);
            proof {
                assert(out@ =~= self.contents(s as int).subrange(0, p + 1));
            }
            p = p + 1;
        }
        proof {
            assert(out@ =~= self.contents(s as int));
        }
        out
    }

    /// Tokens per block.
    pub fn block_size_of(&self) -> (r: usize)
        ensures
            r == self.block_size(),
    {
        self.block_size
    }

    /// Number of sequence ids handed out so far.
    pub fn num_sequences(&self) -> (r: usize)
        ensures
            r == self.num_seqs(),
    {
        self.tables.len()
    }

    /// Number of blocks on the free list.
    pub fn num_free(&self) -> (r: usize)
        ensures
            r == self.free_list().len(),
    {
        self.free.len()
    }

    /// Reference count of block `b`.
    pub fn refcount_of(&self, b: usize) -> (r: usize)
        requires
            b < self.num_blocks(),
        ensures
            r == self.refcount(b as int),
    {
        self.refcounts[b]
    }

    /// Number of positions sequence `s` holds.
    pub fn len_of(&self, s: usize) -> (r: usize)
        requires
            self.wf(),
            s < self.num_seqs(),
        ensures
            r == self.seq_len(s as int),
    {
        self.lens[s]
    }

    /// Number of positions the blocks of `s` can hold.
    pub fn capacity_of(&self, s: usize) -> (r: usize)
        requires
            self.wf(),
            s < self.num_seqs(),
        ensures
            r == if self.table(s as int).len() * self.block_size() <= usize::MAX {
                self.table(s as int).len() * self.block_size()
            } else {
                usize::MAX as nat
            },
    {
        let n = self.tables[s].len();
        let bs = self.block_size;
        if n > usize::MAX / bs {
            proof {
                assert(n * bs > usize::MAX) by (nonlinear_arith)
                    requires
                        bs > 0,
                        n > usize::MAX / bs,
                ;
            }
            usize::MAX
        } else {
            proof {
                assert(n * bs <= usize::MAX) by (nonlinear_arith)
                    requires
                        bs > 0,
                        n <= usize::MAX / bs,
                ;
            }
            n * bs
        }
    }
}

/// Reference counts balance the block tables, after any sequence of
/// operations: the counts add up to the number of handles held over all
/// tables; a block is on the free list, once, exactly when its count is zero,
/// so the free blocks and the blocks in use split the pool; no table holds a
/// block of count zero, nor any block twice.
pub proof fn lemma_refcount_conservation(m: &BlockManager)
    requires
        m.wf(),
    ensures
        sum_counts(m.refcounts()) == total_handles(m.tables()),
        m.free_list().no_duplicates(),
        forall|b: usize| b < m.num_blocks() ==> (m.refcount(b as int) == 0 <==> #[trigger] m.free_list().contains(b)),
        forall|b: usize, s: int|
            b < m.num_blocks() && 0 <= s < m.num_seqs() && m.refcount(b as int) == 0 ==> !#[trigger] m.table(s).contains(b),
        forall|i: int| 0 <= i < m.free_list().len() ==> (#[trigger] m.free_list()[i]) < m.num_blocks(),
        forall|s: int| 0 <= s < m.num_seqs() ==> (#[trigger] m.table(s)).no_duplicates(),
        forall|s: int, j: int| 0 <= s < m.num_seqs() && 0 <= j < m.table(s).len() ==> (#[trigger] m.table(s)[j]) < m.num_blocks(),
{
    assert forall|s: int| 0 <= s < m.num_seqs() implies (#[trigger] m.table(s)).no_duplicates() by {
        assert(m.table_ok(s));
    }
    assert forall|s: int, j: int| 0 <= s < m.num_seqs() && 0 <= j < m.table(s).len() implies (#[trigger] m.table(s)[j])
        < m.num_blocks() by {
        assert(m.table_ok(s));
    }
    assert forall|b: usize, s: int|
        b < m.num_blocks() && 0 <= s < m.num_seqs() && m.refcount(b as int) == 0 implies !#[trigger] m.table(s).contains(b) by {
        if m.table(s).contains(b) {
            assert(m.tables()[s] == m.table(s));
            lemma_holders_bounds(m.tables(), b);
        }
    }
}

/// Copy-on-write isolates a fork: after `fork(parent)` hands out `child` and
/// `child` is written to, the parent still reads exactly what it read before,
/// and the child reads the parent's entries followed by what it wrote.
pub proof fn lemma_copy_on_write_isolation(
    m0: BlockManager,
    m1: BlockManager,
    m2: BlockManager,
    parent: int,
    child: int,
    entries: Seq<u64>,
)
    requires
        0 <= parent < m0.num_seqs(),
        BlockManager::fork_post(m0, m1, parent, child),
        BlockManager::write_post(m1, m2, child, entries),
    ensures
        m2.contents(parent) == m0.contents(parent),
        m2.contents(child) == m0.contents(parent) + entries,
{
    assert(m1.table(parent) == m0.table(parent));
    assert(parent != child);
    assert(m2.table(parent) == m1.table(parent));
}



/// Number of blocks among the first `n` whose count is positive: the
/// blocks in use.
pub open spec fn used_count(rc: Seq<usize>, n: nat) -> nat
    decreases n,
{
    if n == 0 {
        0
    } else {
        used_count(rc, (n - 1) as nat) + if rc[n - 1] > 0 {
            1nat
        } else {
            0nat
        }
    }
}

spec fn zero_set(rc: Seq<usize>, n: nat) -> Set<usize> {
    Set::new(|b: usize| b < n && rc[b as int] == 0)
}

proof fn lemma_zero_set(rc: Seq<usize>, n: nat)
    requires
        n <= rc.len(),
        rc.len() <= usize::MAX,
    ensures
        zero_set(rc, n).finite(),
        zero_set(rc, n).len() + used_count(rc, n) == n,
    decreases n,
{
    if n == 0 {
        assert(zero_set(rc, 0) =~= Set::<usize>::empty());
    } else {
        lemma_zero_set(rc, (n - 1) as nat);
        let k = (n - 1) as usize;
        if rc[n - 1] == 0 {
            assert(zero_set(rc, n) =~= zero_set(rc, (n - 1) as nat).insert(k));
            assert(!zero_set(rc, (n - 1) as nat).contains(k));
        } else {
            assert(zero_set(rc, n) =~= zero_set(rc, (n - 1) as nat));
        }
    }
}

/// The free blocks and the blocks in use split the pool: their numbers add
/// up to the size of the pool.
pub proof fn lemma_free_plus_used(m: &BlockManager)
    requires
        m.wf(),
    ensures
        m.free_list().len() + used_count(m.refcounts(), m.num_blocks()) == m.num_blocks(),
{
    let rc = m.refcounts@;
    let nb = rc.len();
    lemma_zero_set(rc, nb);
    assert(m.free_list().to_set() =~= zero_set(rc, nb)) by {
        assert forall|b: usize| #[trigger] m.free_list().to_set().contains(b) <==> zero_set(rc, nb).contains(b) by {
            if m.free_list().contains(b) {
                let i = choose|i: int| 0 <= i < m.free@.len() && m.free@[i] == b;
                assert(m.free@[i] < nb);
            }
        }
    }
    m.free_list().unique_seq_to_set();
}


/// Forking a sequence whose blocks it holds alone (as a freshly written
/// prompt's are) shares every block between the two, each then counted
/// twice.
pub proof fn lemma_fork_shares_blocks(m0: BlockManager, m1: BlockManager, parent: int, child: int)
    requires
        m0.wf(),
        0 <= parent < m0.num_seqs(),
        BlockManager::fork_post(m0, m1, parent, child),
        forall|j: int| 0 <= j < m0.table(parent).len() ==> m0.refcount(#[trigger] m0.table(parent)[j] as int) == 1,
    ensures
        m1.table(child) == m1.table(parent),
        forall|j: int| 0 <= j < m1.table(child).len() ==> m1.refcount(#[trigger] m1.table(child)[j] as int) == 2,
{
    assert(m1.table(parent) == m0.table(parent));
    assert forall|j: int| 0 <= j < m1.table(child).len() implies m1.refcount(#[trigger] m1.table(child)[j] as int) == 2 by {
        let b = m0.table(parent)[j];
        assert(m0.table_ok(parent));
        assert(m0.table(parent).contains(b));
        assert(m0.refcount(m0.table(parent)[j] as int) == 1);
        assert(m1.refcount(b as int) == m0.refcount(b as int) + 1);
    }
}

} // verus!
