use vstd::prelude::*;
use crate::block::{Allocator, PhysicalTokenBlock};
use crate::sequence::{Sequence, SequenceGroup};
use crate::tables::{
    count, ids_blocks, lemma_count_prefix, lemma_count_push, lemma_count_update_last,
    lemma_ids_blocks_skip, lemma_ids_blocks_suffix, lemma_lookup_at, lemma_lookup_count,
    lemma_lookup_push, lemma_lookup_remove, lemma_refs_pos, lemma_refs_push, lemma_refs_remove,
    lookup, refs, unique_keys, TableView,
};
use std::collections::HashMap;

verus! {

broadcast use vstd::std_specs::hash::group_hash_axioms;

/// The answer to an allocation request.
#[derive(Clone, Copy, Debug, PartialEq, Eq, Structural)]
pub enum AllocStatus {
    /// Enough fast-tier blocks are free now.
    Ready,
    /// The fast tier is large enough, but too few of its blocks are free.
    Later,
    /// The fast tier is smaller than the request.
    Impossible,
}

/// Maps each sequence, by id, to the physical blocks that hold its tokens,
/// and owns the fast-tier (GPU) and slow-tier (CPU) pools of those blocks.
/// Blocks are shared between sequences by reference count.
pub struct BlockEngine {
    block_size: usize,
    num_gpu_blocks: usize,
    num_cpu_blocks: usize,
    gpu_allocator: Allocator,
    cpu_allocator: Allocator,
    block_tables: Vec<(usize, Vec<PhysicalTokenBlock>)>,
}

pub open spec fn table_view(e: (usize, Vec<PhysicalTokenBlock>)) -> (usize, TableView) {
    (e.0, e.1@)
}

/// `t2` is `t` with each block replaced by the block of tier `gpu` whose
/// id `m` gives for the old block's id.
pub open spec fn mapped(t: TableView, t2: TableView, m: Map<usize, usize>, gpu: bool) -> bool {
    &&& t2.len() == t.len()
    &&& forall|j: int| 0 <= j < t.len() ==> m.contains_key(#[trigger] t[j].block_id)
        && t2[j] == (PhysicalTokenBlock { block_id: m[t[j].block_id], is_gpu: gpu })
}

/// No two ids map to one id.
pub open spec fn injective(m: Map<usize, usize>) -> bool {
    forall|a: usize, b: usize| m.contains_key(a) && m.contains_key(b) && a != b ==> #[trigger] m[a] != #[trigger] m[b]
}

/// Swapping moves a block to the other tier: every slot of a table whose
/// blocks are all of one tier refers, after the swap, to a block of the
/// other tier, which is never the block it referred to before.
pub proof fn lemma_swap_changes_tier(t: TableView, t2: TableView, m: Map<usize, usize>, gpu: bool, j: int)
    requires
        mapped(t, t2, m, gpu),
        forall|q: int| 0 <= q < t.len() ==> (#[trigger] t[q]).is_gpu == !gpu,
        0 <= j < t.len(),
    ensures
        t2[j].is_gpu == gpu,
        t2[j] != t[j],
{
    assert(t[j].is_gpu == !gpu);
    assert(m.contains_key(t[j].block_id));
}

/// Within one swap, two slots that referred to the same block (in the same
/// table or in two tables of the group) refer to the same new block.
pub proof fn lemma_swap_shares_destination(
    t1: TableView,
    t1n: TableView,
    t2: TableView,
    t2n: TableView,
    m: Map<usize, usize>,
    gpu: bool,
    i: int,
    j: int,
)
    requires
        mapped(t1, t1n, m, gpu),
        mapped(t2, t2n, m, gpu),
        0 <= i < t1.len(),
        0 <= j < t2.len(),
        t1[i] == t2[j],
    ensures
        t1n[i] == t2n[j],
{
    assert(m.contains_key(t1[i].block_id) && m.contains_key(t2[j].block_id));
    assert(t1n[i] == (PhysicalTokenBlock { block_id: m[t1[i].block_id], is_gpu: gpu }));
    assert(t2n[j] == (PhysicalTokenBlock { block_id: m[t2[j].block_id], is_gpu: gpu }));
}

impl BlockEngine {
    /// Every (sequence id, table) pair, in no meaningful order.
    pub closed spec fn tables(&self) -> Seq<(usize, TableView)> {
        self.block_tables@.map_values(|e: (usize, Vec<PhysicalTokenBlock>)| table_view(e))
    }

    /// The block table of sequence `id`, if it has one.
    pub open spec fn table(&self, id: usize) -> Option<TableView> {
        lookup(self.tables(), id)
    }

    /// Table slots, over all sequences, that refer to `b`.
    pub open spec fn references(&self, b: PhysicalTokenBlock) -> nat {
        refs(self.tables(), b)
    }

    pub closed spec fn num_gpu(&self) -> nat {
        self.num_gpu_blocks as nat
    }

    pub closed spec fn num_cpu(&self) -> nat {
        self.num_cpu_blocks as nat
    }

    pub closed spec fn free_gpu(&self) -> nat {
        self.gpu_allocator.free().len()
    }

    pub closed spec fn free_cpu(&self) -> nat {
        self.cpu_allocator.free().len()
    }

    pub closed spec fn spec_block_size(&self) -> usize {
        self.block_size
    }

    /// `b` names a block of its tier's pool.
    pub open spec fn valid_block(&self, b: PhysicalTokenBlock) -> bool {
        b.block_id < if b.is_gpu { self.num_gpu() } else { self.num_cpu() }
    }

    /// The reference count that `b`'s pool keeps for it.
    pub closed spec fn refcount(&self, b: PhysicalTokenBlock) -> nat {
        if b.is_gpu {
            self.gpu_allocator.rc()[b.block_id as int] as nat
        } else {
            self.cpu_allocator.rc()[b.block_id as int] as nat
        }
    }

    /// `b` is on its pool's free list.
    pub closed spec fn is_free(&self, b: PhysicalTokenBlock) -> bool {
        if b.is_gpu {
            self.gpu_allocator.free().contains(b.block_id)
        } else {
            self.cpu_allocator.free().contains(b.block_id)
        }
    }

    closed spec fn pools_ok(&self) -> bool {
        &&& self.gpu_allocator.wf()
        &&& self.cpu_allocator.wf()
        &&& self.gpu_allocator.tier()
        &&& !self.cpu_allocator.tier()
        &&& self.gpu_allocator.rc().len() == self.num_gpu_blocks
        &&& self.cpu_allocator.rc().len() == self.num_cpu_blocks
    }

    closed spec fn tables_ok(&self) -> bool {
        &&& unique_keys(self.tables())
        &&& self.tables().len() == self.block_tables@.len()
        &&& forall|k: int, j: int|
            0 <= k < self.tables().len() && 0 <= j < self.tables()[k].1.len()
                ==> self.valid_block(#[trigger] self.tables()[k].1[j])
    }

    /// The pools are sound, sequence ids are unique, tables hold blocks of
    /// the pools, and each block's count equals its live references.
    pub closed spec fn wf(&self) -> bool {
        &&& self.pools_ok()
        &&& self.tables_ok()
        &&& forall|b: PhysicalTokenBlock|
            self.valid_block(b) ==> #[trigger] self.refcount(b) == #[trigger] self.references(b)
    }

    /// The reference count of every block equals the number of table slots
    /// that refer to it; a block that no table refers to is on its tier's
    /// free list, and a block that some table refers to is not.
    pub proof fn lemma_refcount_conservation(&self, b: PhysicalTokenBlock)
        requires
            self.wf(),
            self.valid_block(b),
        ensures
            self.refcount(b) == self.references(b),
            self.is_free(b) <==> self.references(b) == 0,
    {
        assert(self.refcount(b) == self.references(b));
        if b.is_gpu {
            self.gpu_allocator.lemma_free_iff(b.block_id);
        } else {
            self.cpu_allocator.lemma_free_iff(b.block_id);
        }
    }

    /// Every block in a table is a block of its pool with a positive count,
    /// so releasing a table slot never frees a block twice.
    pub proof fn lemma_table_blocks(&self, k: int, j: int)
        requires
            self.wf(),
            0 <= k < self.tables().len(),
            0 <= j < self.tables()[k].1.len(),
        ensures
            self.valid_block(self.tables()[k].1[j]),
            self.refcount(self.tables()[k].1[j]) >= 1,
    {
        lemma_refs_pos(self.tables(), k, j);
        let b = self.tables()[k].1[j];
        assert(self.valid_block(b));
        assert(self.refcount(b) == self.references(b));
    }

    pub fn new(block_size: usize, num_gpu_blocks: usize, num_cpu_blocks: usize) -> (r: Self)
        ensures
            r.wf(),
            r.tables() == Seq::<(usize, TableView)>::empty(),
            forall|id: usize| #[trigger] r.table(id) is None,
            r.num_gpu() == num_gpu_blocks,
            r.num_cpu() == num_cpu_blocks,
            r.free_gpu() == num_gpu_blocks,
            r.free_cpu() == num_cpu_blocks,
            r.spec_block_size() == block_size,
    {
        let gpu_allocator = Allocator::new(block_size, num_gpu_blocks, true);
        let cpu_allocator = Allocator::new(block_size, num_cpu_blocks, false);
        let r = BlockEngine {
            block_size,
            num_gpu_blocks,
            num_cpu_blocks,
            gpu_allocator,
            cpu_allocator,
            block_tables: Vec::new(),
        };
        assert(r.tables() =~= Seq::<(usize, TableView)>::empty());
        assert forall|b: PhysicalTokenBlock| r.valid_block(b) implies
            #[trigger] r.refcount(b) == #[trigger] r.references(b) by {
        }
        r
    }

    pub fn block_size(&self) -> (r: usize)
        ensures
            r == self.spec_block_size(),
    {
        self.block_size
    }

    pub fn get_num_free_gpu_blocks(&self) -> (r: usize)
        ensures
            r == self.free_gpu(),
    {
        self.gpu_allocator.get_num_free_blocks()
    }

    pub fn get_num_free_cpu_blocks(&self) -> (r: usize)
        ensures
            r == self.free_cpu(),
    {
        self.cpu_allocator.get_num_free_blocks()
    }

    /// The reference count of a block of either tier.
    pub fn get_refcount(&self, b: PhysicalTokenBlock) -> (r: usize)
        requires
            self.wf(),
            self.valid_block(b),
        ensures
            r == self.refcount(b),
    {
        if b.is_gpu {
            self.gpu_allocator.refcount(b.block_id)
        } else {
            self.cpu_allocator.refcount(b.block_id)
        }
    }

    /// Position of sequence `id` in the list of tables.
    fn find(&self, id: usize) -> (r: Option<usize>)
        ensures
            match r {
                Some(k) => k < self.tables().len() && self.tables()[k as int].0 == id,
                None => self.table(id) is None,
            },
    {
        let mut k: usize = 0;
        while k < self.block_tables.len()
            invariant
                k <= self.tables().len(),
                self.tables().len() == self.block_tables@.len(),
                forall|i: int| 0 <= i < k ==> #[trigger] self.tables()[i].0 != id,
            decreases self.block_tables@.len() - k,
        {
            if self.block_tables[k].0 == id {
                return Some(k);
            }
            k = k + 1;
        }
        None
    }

    /// The block table of sequence `id`, if it has one.
    pub fn get_block_table(&self, id: usize) -> (r: Option<Vec<PhysicalTokenBlock>>)
        requires
            self.wf(),
        ensures
            match r {
                Some(t) => self.table(id) == Some(t@),
                None => self.table(id) is None,
            },
    {
        match self.find(id) {
            Some(k) => {
                proof {
                    lemma_lookup_at(self.tables(), k as int);
                }
                let t = copy_table(&self.block_tables[k].1);
                Some(t)
            },
            None => None,
        }
    }

    /// The answer to an allocation request for the group.
    pub open spec fn alloc_status(&self, seq_group: &SequenceGroup) -> AllocStatus {
        if seq_group.required_blocks() > self.num_gpu() {
            AllocStatus::Impossible
        } else if seq_group.required_blocks() > self.free_gpu() {
            AllocStatus::Later
        } else {
            AllocStatus::Ready
        }
    }

    /// When an allocation request is answered `Ready`, the fast tier has a
    /// free block for every block the group needs, so the allocation that
    /// follows takes exactly that many and leaves a free count of at least 0.
    pub proof fn lemma_admission_sound(&self, seq_group: &SequenceGroup)
        requires
            self.wf(),
            seq_group.wf(),
            self.alloc_status(seq_group) == AllocStatus::Ready,
        ensures
            seq_group.required_blocks() <= self.free_gpu(),
            self.free_gpu() - seq_group.required_blocks() >= 0,
    {
    }

    /// Whether the group's blocks can be allocated in the fast tier: never
    /// when it needs more blocks than the tier has, later when it needs more
    /// than are free now.
    pub fn can_allocate(&self, seq_group: &SequenceGroup) -> (r: AllocStatus)
        requires
            self.wf(),
            seq_group.wf(),
        ensures
            r == self.alloc_status(seq_group),
    {
        let num_required_blocks = seq_group.get_total_logical_token_blocks();
        let num_free_gpu_blocks = self.gpu_allocator.get_num_free_blocks();
        if num_required_blocks > self.num_gpu_blocks {
            AllocStatus::Impossible
        } else if num_required_blocks > num_free_gpu_blocks {
            AllocStatus::Later
        } else {
            AllocStatus::Ready
        }
    }

    /// Whether the fast tier has a free block for every block that the next
    /// token of each of the group's sequences needs.
    pub fn can_append_token_to_seq(&self, seq_group: &SequenceGroup) -> (r: bool)
        requires
            self.wf(),
            seq_group.wf(),
        ensures
            r == (seq_group.growth() <= self.free_gpu()),
    {
        let free_blocks = self.gpu_allocator.get_num_free_blocks();
        seq_group.total_blocks_to_add_new_tok() <= free_blocks
    }

    /// Takes the entry at `k` out of the list of tables.
    fn take_entry(&mut self, k: usize) -> (r: (usize, Vec<PhysicalTokenBlock>))
        requires
            old(self).pools_ok(),
            old(self).tables_ok(),
            k < old(self).tables().len(),
        ensures
            final(self).pools_ok(),
            final(self).tables_ok(),
            final(self).gpu_allocator == old(self).gpu_allocator,
            final(self).cpu_allocator == old(self).cpu_allocator,
            final(self).num_gpu_blocks == old(self).num_gpu_blocks,
            final(self).num_cpu_blocks == old(self).num_cpu_blocks,
            final(self).block_size == old(self).block_size,
            final(self).tables() == old(self).tables().remove(k as int),
            table_view(r) == old(self).tables()[k as int],
            old(self).table(r.0) == Some(r.1@),
            final(self).table(r.0) is None,
            forall|x: usize| x != r.0 ==> #[trigger] final(self).table(x) == old(self).table(x),
            forall|b: PhysicalTokenBlock| #[trigger] old(self).references(b)
                == final(self).references(b) + count(r.1@, b),
            forall|j: int| 0 <= j < r.1@.len() ==> old(self).valid_block(#[trigger] r.1@[j]),
    {
        let ghost pre = *self;
        let r = self.block_tables.remove(k);
        proof {
            let t = pre.tables();
            assert(self.tables() =~= t.remove(k as int));
            lemma_lookup_remove(t, k as int);
            lemma_lookup_at(t, k as int);
            assert forall|b: PhysicalTokenBlock| #[trigger] pre.references(b)
                == self.references(b) + count(r.1@, b) by {
                lemma_refs_remove(t, k as int, b);
            }
            assert forall|a: int, j: int|
                0 <= a < self.tables().len() && 0 <= j < self.tables()[a].1.len()
                    implies self.valid_block(#[trigger] self.tables()[a].1[j]) by {
                let aa = if a < k { a } else { a + 1 };
                assert(self.tables()[a] == t[aa]);
            }
            assert forall|j: int| 0 <= j < r.1@.len() implies pre.valid_block(#[trigger] r.1@[j]) by {
                assert(t[k as int].1[j] == r.1@[j]);
            }
        }
        r
    }

    /// Adds an entry under a key that has none.
    fn put_entry(&mut self, id: usize, table: Vec<PhysicalTokenBlock>)
        requires
            old(self).pools_ok(),
            old(self).tables_ok(),
            old(self).table(id) is None,
            forall|j: int| 0 <= j < table@.len() ==> old(self).valid_block(#[trigger] table@[j]),
        ensures
            final(self).pools_ok(),
            final(self).tables_ok(),
            final(self).gpu_allocator == old(self).gpu_allocator,
            final(self).cpu_allocator == old(self).cpu_allocator,
            final(self).num_gpu_blocks == old(self).num_gpu_blocks,
            final(self).num_cpu_blocks == old(self).num_cpu_blocks,
            final(self).block_size == old(self).block_size,
            final(self).table(id) == Some(table@),
            forall|x: usize| x != id ==> #[trigger] final(self).table(x) == old(self).table(x),
            forall|b: PhysicalTokenBlock| #[trigger] final(self).references(b)
                == old(self).references(b) + count(table@, b),
    {
        let ghost pre = *self;
        let ghost tv = table@;
        self.block_tables.push((id, table));
        proof {
            let t = pre.tables();
            assert(self.tables() =~= t.push((id, tv)));
            lemma_lookup_push(t, (id, tv));
            assert forall|b: PhysicalTokenBlock| #[trigger] self.references(b)
                == pre.references(b) + count(tv, b) by {
                lemma_refs_push(t, (id, tv), b);
            }
            assert forall|a: int, j: int|
                0 <= a < self.tables().len() && 0 <= j < self.tables()[a].1.len()
                    implies self.valid_block(#[trigger] self.tables()[a].1[j]) by {
                if a < t.len() {
                    assert(self.tables()[a] == t[a]);
                }
            }
        }
    }

    /// Releases every block of the sequence's table in its tier's pool and
    /// removes the table. Blocks no other table refers to go back to their
    /// free lists.
    pub fn free_sequence(&mut self, sequence: &Sequence)
        requires
            old(self).wf(),
            old(self).table(sequence.spec_id()) is Some,
        ensures
            final(self).wf(),
            final(self).num_gpu() == old(self).num_gpu(),
            final(self).num_cpu() == old(self).num_cpu(),
            final(self).spec_block_size() == old(self).spec_block_size(),
            final(self).table(sequence.spec_id()) is None,
            forall|x: usize| x != sequence.spec_id() ==> #[trigger] final(self).table(x) == old(self).table(x),
            forall|b: PhysicalTokenBlock| old(self).valid_block(b) ==> #[trigger] final(self).refcount(b)
                == old(self).refcount(b) - count(old(self).table(sequence.spec_id()).unwrap(), b),
    {
        let id = sequence.get_id();
        let k = self.find(id).unwrap();
        let ghost pre = *self;
        let (_, mut table) = self.take_entry(k);
        let ghost tv = table@;
        let ghost mid = *self;
        proof {
            assert forall|b: PhysicalTokenBlock| pre.valid_block(b) implies #[trigger] self.refcount(b)
                == self.references(b) + count(table@, b) by {
                assert(pre.refcount(b) == pre.references(b));
                assert(pre.references(b) == mid.references(b) + count(tv, b));
            }
        }
        while table.len() > 0
            invariant
                self.pools_ok(),
                self.tables_ok(),
                self.tables() == mid.tables(),
                self.num_gpu_blocks == pre.num_gpu_blocks,
                self.num_cpu_blocks == pre.num_cpu_blocks,
                self.block_size == pre.block_size,
                forall|j: int| 0 <= j < table@.len() ==> pre.valid_block(#[trigger] table@[j]),
                forall|b: PhysicalTokenBlock| pre.valid_block(b) ==> #[trigger] self.refcount(b)
                    == self.references(b) + count(table@, b),
                forall|b: PhysicalTokenBlock| pre.valid_block(b) ==> #[trigger] pre.refcount(b)
                    == self.refcount(b) + count(tv, b) - count(table@, b),
                forall|b: PhysicalTokenBlock| count(table@, b) <= #[trigger] count(tv, b),
            decreases table@.len(),
        {
            let ghost prev = table@;
            let ghost before = *self;
            let b = table.pop().unwrap();
            proof {
                assert(table@ =~= prev.drop_last());
                assert(before.refcount(b) == before.references(b) + count(prev, b));
                assert(prev.len() - 1 < prev.len());
            }
            if b.is_gpu {
                self.gpu_allocator.free_block(b.block_id);
            } else {
                self.cpu_allocator.free_block(b.block_id);
            }
            proof {
                assert forall|c: PhysicalTokenBlock| pre.valid_block(c) implies #[trigger] self.refcount(c)
                    == self.references(c) + count(table@, c) by {
                    assert(before.refcount(c) == before.references(c) + count(prev, c));
                }
                assert forall|c: PhysicalTokenBlock| pre.valid_block(c) implies #[trigger] pre.refcount(c)
                    == self.refcount(c) + count(tv, c) - count(table@, c) by {
                    assert(before.refcount(c) == before.references(c) + count(prev, c));
                }
                assert forall|c: PhysicalTokenBlock| count(table@, c) <= #[trigger] count(tv, c) by {
                    assert(count(prev, c) <= count(tv, c));
                }
            }
        }
        proof {
            assert forall|b: PhysicalTokenBlock| self.valid_block(b) implies
                #[trigger] self.refcount(b) == #[trigger] self.references(b) by {
                assert(pre.valid_block(b));
            }
            assert forall|b: PhysicalTokenBlock| pre.valid_block(b) implies #[trigger] self.refcount(b)
                == pre.refcount(b) - count(pre.table(id).unwrap(), b) by {
                assert(pre.refcount(b) == pre.references(b));
                assert(pre.references(b) == mid.references(b) + count(tv, b));
            }
            assert forall|x: usize| x != id implies #[trigger] self.table(x) == pre.table(x) by {
                assert(mid.table(x) == pre.table(x));
            }
        }
    }

    /// Makes room for the sequence's next token. When every logical block
    /// is full, a fresh fast-tier block is added to its table. Otherwise the
    /// last block takes the token: if other tables share it, it is copied on
    /// write — a fresh block replaces it in this table only, one reference to
    /// it is dropped, and `(old id, new id)` is returned so that the contents
    /// can be copied before the write.
    pub fn append_token_slot_to_seq(&mut self, sequence: &Sequence) -> (r: Option<(usize, usize)>)
        requires
            old(self).wf(),
            sequence.wf(),
            old(self).table(sequence.spec_id()) is Some,
            sequence.growth() == 1 ==> old(self).free_gpu() >= 1,
            sequence.growth() == 0 ==> ({
                let t = old(self).table(sequence.spec_id()).unwrap();
                &&& t.len() > 0
                &&& t.last().is_gpu
                &&& old(self).refcount(t.last()) > 1 ==> old(self).free_gpu() >= 1
            }),
        ensures
            final(self).wf(),
            final(self).num_gpu() == old(self).num_gpu(),
            final(self).num_cpu() == old(self).num_cpu(),
            final(self).spec_block_size() == old(self).spec_block_size(),
            final(self).free_cpu() == old(self).free_cpu(),
            forall|x: usize| x != sequence.spec_id() ==> #[trigger] final(self).table(x) == old(self).table(x),
            final(self).table(sequence.spec_id()) is Some,
            ({
                let t = old(self).table(sequence.spec_id()).unwrap();
                let t2 = final(self).table(sequence.spec_id()).unwrap();
                if sequence.growth() == 1 {
                    &&& r is None
                    &&& t2.len() == t.len() + 1
                    &&& t2.take(t.len() as int) == t
                    &&& t2.last().is_gpu
                    &&& old(self).refcount(t2.last()) == 0
                    &&& final(self).refcount(t2.last()) == 1
                    &&& final(self).free_gpu() == old(self).free_gpu() - 1
                    &&& forall|b: PhysicalTokenBlock| old(self).valid_block(b) && b != t2.last()
                        ==> #[trigger] final(self).refcount(b) == old(self).refcount(b)
                } else if old(self).refcount(t.last()) == 1 {
                    &&& r is None
                    &&& *final(self) == *old(self)
                } else {
                    let nb = PhysicalTokenBlock { block_id: r.unwrap().1, is_gpu: true };
                    &&& r == Some((t.last().block_id, nb.block_id))
                    &&& t2 == t.update(t.len() - 1, nb)
                    &&& old(self).valid_block(nb)
                    &&& old(self).refcount(nb) == 0
                    &&& final(self).refcount(nb) == 1
                    &&& final(self).refcount(t.last()) == old(self).refcount(t.last()) - 1
                    &&& final(self).free_gpu() == old(self).free_gpu() - 1
                    &&& forall|b: PhysicalTokenBlock| old(self).valid_block(b) && b != nb && b != t.last()
                        ==> #[trigger] final(self).refcount(b) == old(self).refcount(b)
                }
            }),
    {
        let id = sequence.get_id();
        let k = self.find(id).unwrap();
        proof {
            lemma_lookup_at(self.tables(), k as int);
        }
        let growth = sequence.blocks_to_add_new_tok();
        if growth == 0 {
            let n = self.block_tables[k].1.len();
            let last = self.block_tables[k].1[n - 1];
            proof {
                assert(self.tables()[k as int].1[n - 1] == last);
                self.lemma_table_blocks(k as int, n - 1);
            }
            if self.gpu_allocator.refcount(last.block_id) == 1 {
                return None;
            }
        }
        let ghost pre = *self;
        let (_, mut table) = self.take_entry(k);
        let ghost tv = table@;
        let ghost mid = *self;
        let nb = self.gpu_allocator.allocate();
        proof {
            assert(pre.valid_block(nb));
            assert(pre.refcount(nb) == pre.references(nb));
            assert(pre.references(nb) == mid.references(nb) + count(tv, nb));
        }
        if growth == 1 {
            table.push(nb);
            proof {
                assert(table@.take(tv.len() as int) =~= tv);
                assert forall|b: PhysicalTokenBlock| pre.valid_block(b) implies
                    #[trigger] self.refcount(b) == mid.references(b) + count(table@, b) by {
                    lemma_count_push(tv, nb, b);
                    assert(pre.refcount(b) == pre.references(b));
                    assert(pre.references(b) == mid.references(b) + count(tv, b));
                }
            }
            let ghost tv2 = table@;
            let ghost pp = *self;
            self.put_entry(id, table);
            proof {
                assert(pp.tables() == mid.tables());
                assert forall|b: PhysicalTokenBlock| self.valid_block(b) implies
                    #[trigger] self.refcount(b) == #[trigger] self.references(b) by {
                    assert(pre.valid_block(b));
                    assert(pp.refcount(b) == mid.references(b) + count(tv2, b));
                    assert(self.references(b) == pp.references(b) + count(tv2, b));
                }
                assert forall|b: PhysicalTokenBlock| pre.valid_block(b) && b != nb implies
                    #[trigger] self.refcount(b) == pre.refcount(b) by {
                }
                assert forall|x: usize| x != id implies #[trigger] self.table(x) == pre.table(x) by {
                    assert(mid.table(x) == pre.table(x));
                }
            }
            None
        } else {
            let n = table.len();
            let last = table[n - 1];
            proof {
                assert(pre.refcount(last) > 1);
                assert(nb != last);
            }
            self.gpu_allocator.free_block(last.block_id);
            table.set(n - 1, nb);
            proof {
                assert forall|b: PhysicalTokenBlock| pre.valid_block(b) implies
                    #[trigger] self.refcount(b) == mid.references(b) + count(table@, b) by {
                    lemma_count_update_last(tv, nb, b);
                    assert(pre.refcount(b) == pre.references(b));
                    assert(pre.references(b) == mid.references(b) + count(tv, b));
                }
            }
            let ghost tv2 = table@;
            let ghost pp = *self;
            self.put_entry(id, table);
            proof {
                assert(pp.tables() == mid.tables());
                assert forall|b: PhysicalTokenBlock| self.valid_block(b) implies
                    #[trigger] self.refcount(b) == #[trigger] self.references(b) by {
                    assert(pre.valid_block(b));
                    assert(pp.refcount(b) == mid.references(b) + count(tv2, b));
                    assert(self.references(b) == pp.references(b) + count(tv2, b));
                }
                assert forall|b: PhysicalTokenBlock| pre.valid_block(b) && b != nb && b != last implies
                    #[trigger] self.refcount(b) == pre.refcount(b) by {
                }
                assert forall|x: usize| x != id implies #[trigger] self.table(x) == pre.table(x) by {
                    assert(mid.table(x) == pre.table(x));
                }
            }
            Some((last.block_id, nb.block_id))
        }
    }

    /// Free blocks of one tier.
    pub open spec fn free_of(&self, gpu: bool) -> nat {
        if gpu { self.free_gpu() } else { self.free_cpu() }
    }

    /// Table slots, summed over the group's sequences, that a swap of the
    /// group moves.
    pub open spec fn swap_blocks(&self, seq_group: &SequenceGroup) -> nat {
        ids_blocks(self.tables(), seq_group.ids())
    }

    fn pool_allocate(&mut self, gpu: bool) -> (r: PhysicalTokenBlock)
        requires
            old(self).pools_ok(),
            old(self).free_of(gpu) > 0,
        ensures
            final(self).pools_ok(),
            final(self).block_tables == old(self).block_tables,
            final(self).num_gpu_blocks == old(self).num_gpu_blocks,
            final(self).num_cpu_blocks == old(self).num_cpu_blocks,
            final(self).block_size == old(self).block_size,
            r.is_gpu == gpu,
            old(self).valid_block(r),
            old(self).refcount(r) == 0,
            final(self).refcount(r) == 1,
            forall|c: PhysicalTokenBlock| old(self).valid_block(c) && c != r ==> #[trigger] final(self).refcount(c) == old(self).refcount(c),
            final(self).free_of(gpu) == old(self).free_of(gpu) - 1,
            final(self).free_of(!gpu) == old(self).free_of(!gpu),
    {
        if gpu {
            self.gpu_allocator.allocate()
        } else {
            self.cpu_allocator.allocate()
        }
    }

    fn pool_add_ref(&mut self, b: PhysicalTokenBlock)
        requires
            old(self).pools_ok(),
            old(self).valid_block(b),
            0 < old(self).refcount(b) < usize::MAX,
        ensures
            final(self).pools_ok(),
            final(self).block_tables == old(self).block_tables,
            final(self).num_gpu_blocks == old(self).num_gpu_blocks,
            final(self).num_cpu_blocks == old(self).num_cpu_blocks,
            final(self).block_size == old(self).block_size,
            final(self).refcount(b) == old(self).refcount(b) + 1,
            forall|c: PhysicalTokenBlock| old(self).valid_block(c) && c != b ==> #[trigger] final(self).refcount(c) == old(self).refcount(c),
            final(self).free_gpu() == old(self).free_gpu(),
            final(self).free_cpu() == old(self).free_cpu(),
    {
        if b.is_gpu {
            self.gpu_allocator.add_ref(b.block_id);
        } else {
            self.cpu_allocator.add_ref(b.block_id);
        }
    }

    fn pool_free(&mut self, b: PhysicalTokenBlock)
        requires
            old(self).pools_ok(),
            old(self).valid_block(b),
            old(self).refcount(b) > 0,
        ensures
            final(self).pools_ok(),
            final(self).block_tables == old(self).block_tables,
            final(self).num_gpu_blocks == old(self).num_gpu_blocks,
            final(self).num_cpu_blocks == old(self).num_cpu_blocks,
            final(self).block_size == old(self).block_size,
            final(self).refcount(b) == old(self).refcount(b) - 1,
            forall|c: PhysicalTokenBlock| old(self).valid_block(c) && c != b ==> #[trigger] final(self).refcount(c) == old(self).refcount(c),
            final(self).free_of(!b.is_gpu) == old(self).free_of(!b.is_gpu),
            final(self).free_of(b.is_gpu) >= old(self).free_of(b.is_gpu),
    {
        if b.is_gpu {
            self.gpu_allocator.free_block(b.block_id);
        } else {
            self.cpu_allocator.free_block(b.block_id);
        }
    }

    /// Length of the table of sequence `id`, 0 if it has none.
    fn table_len(&self, id: usize) -> (r: usize)
        requires
            self.tables_ok(),
        ensures
            r == match self.table(id) {
                Some(x) => x.len(),
                None => 0,
            },
    {
        match self.find(id) {
            Some(k) => {
                proof {
                    lemma_lookup_at(self.tables(), k as int);
                }
                self.block_tables[k].1.len()
            },
            None => 0,
        }
    }

    /// Whether the tables of the group's sequences have no more slots, in
    /// all, than `free`.
    fn group_fits(&self, seq_group: &SequenceGroup, free: usize) -> (r: bool)
        requires
            self.tables_ok(),
        ensures
            r == (self.swap_blocks(seq_group) <= free),
    {
        let seqs = seq_group.get_seqs();
        let ghost ids = seq_group.ids();
        let mut total: usize = 0;
        let mut i: usize = seqs.len();
        proof {
            assert(ids.skip(i as int) =~= Seq::<usize>::empty());
        }
        while i > 0
            invariant
                self.tables_ok(),
                seqs@ == seq_group.seqs(),
                ids == seq_group.ids(),
                ids.len() == seqs@.len(),
                i <= seqs@.len(),
                total == ids_blocks(self.tables(), ids.skip(i as int)),
                total <= free,
            decreases i,
        {
            let n = self.table_len(seqs[i - 1].get_id());
            proof {
                lemma_ids_blocks_skip(self.tables(), ids, i - 1);
                lemma_ids_blocks_suffix(self.tables(), ids, i - 1);
            }
            if n > free - total {
                return false;
            }
            total = total + n;
            i = i - 1;
        }
        proof {
            assert(ids.skip(0) =~= ids);
        }
        true
    }

    /// Whether the slow tier has a free block for every table slot of the
    /// group's sequences (shared slots counted once per table).
    pub fn can_swap_out_seq_group(&self, seq_group: &SequenceGroup) -> (r: bool)
        requires
            self.wf(),
        ensures
            r == (self.swap_blocks(seq_group) <= self.free_cpu()),
    {
        self.group_fits(seq_group, self.cpu_allocator.get_num_free_blocks())
    }

    /// Whether the fast tier has a free block for every table slot of the
    /// group's sequences (shared slots counted once per table).
    pub fn can_swap_in_seq_group(&self, seq_group: &SequenceGroup) -> (r: bool)
        requires
            self.wf(),
        ensures
            r == (self.swap_blocks(seq_group) <= self.free_gpu()),
    {
        self.group_fits(seq_group, self.gpu_allocator.get_num_free_blocks())
    }

    /// Every sequence of the group has a table, and its blocks are all of
    /// tier `gpu`.
    pub open spec fn group_in_tier(&self, seq_group: &SequenceGroup, gpu: bool) -> bool {
        forall|i: int| 0 <= i < seq_group.ids().len() ==> {
            let t = #[trigger] self.table(seq_group.ids()[i]);
            &&& t is Some
            &&& forall|j: int| 0 <= j < t.unwrap().len() ==> (#[trigger] t.unwrap()[j]).is_gpu == gpu
        }
    }

    /// Moves the group's tables to tier `to_gpu`: each source block gets one
    /// fresh block of the other tier, shared by every slot that referred to
    /// it, and each slot releases its source block.
    #[verifier::rlimit(60)]
    fn swap(&mut self, seq_group: &SequenceGroup, to_gpu: bool) -> (r: HashMap<usize, usize>)
        requires
            old(self).wf(),
            seq_group.wf(),
            old(self).group_in_tier(seq_group, !to_gpu),
            old(self).swap_blocks(seq_group) <= old(self).free_of(to_gpu),
        ensures
            final(self).wf(),
            final(self).num_gpu() == old(self).num_gpu(),
            final(self).num_cpu() == old(self).num_cpu(),
            final(self).spec_block_size() == old(self).spec_block_size(),
            forall|x: usize| !seq_group.ids().contains(x) ==> #[trigger] final(self).table(x) == old(self).table(x),
            forall|i: int| 0 <= i < seq_group.ids().len() ==> #[trigger] final(self).table(seq_group.ids()[i]) is Some
                && mapped(old(self).table(seq_group.ids()[i]).unwrap(), final(self).table(seq_group.ids()[i]).unwrap(), r@, to_gpu),
            injective(r@),
            forall|x: usize| #[trigger] r@.contains_key(x) ==> old(self).refcount(PhysicalTokenBlock { block_id: r@[x], is_gpu: to_gpu }) == 0,
            forall|x: usize, y: usize| #[trigger] r@.contains_key(x) && !seq_group.ids().contains(y)
                && #[trigger] final(self).table(y) is Some
                ==> count(final(self).table(y).unwrap(), PhysicalTokenBlock { block_id: r@[x], is_gpu: to_gpu }) == 0,
    {
        let mut mapping: HashMap<usize, usize> = HashMap::new();
        let ghost mut used: Set<usize> = Set::empty();
        let seqs = seq_group.get_seqs();
        let ghost ids = seq_group.ids();
        let mut s: usize = 0;
        proof {
            assert(ids.skip(0) =~= ids);
            assert(ids.take(0) =~= Seq::<usize>::empty());
        }
        while s < seqs.len()
            invariant
                self.pools_ok(),
                self.tables_ok(),
                self.num_gpu_blocks == old(self).num_gpu_blocks,
                self.num_cpu_blocks == old(self).num_cpu_blocks,
                self.block_size == old(self).block_size,
                seq_group.wf(),
                seqs@ == seq_group.seqs(),
                ids == seq_group.ids(),
                ids.len() == seqs@.len(),
                s <= seqs@.len(),
                old(self).wf(),
                old(self).group_in_tier(seq_group, !to_gpu),
                forall|x: usize| !ids.take(s as int).contains(x) ==> #[trigger] self.table(x) == old(self).table(x),
                forall|i: int| 0 <= i < s ==> #[trigger] self.table(ids[i]) is Some
                    && mapped(old(self).table(ids[i]).unwrap(), self.table(ids[i]).unwrap(), mapping@, to_gpu),
                self.free_of(to_gpu) >= ids_blocks(old(self).tables(), ids.skip(s as int)),
                forall|b: PhysicalTokenBlock| self.valid_block(b) ==> #[trigger] self.refcount(b) == #[trigger] self.references(b),
                forall|x: usize| #[trigger] mapping@.contains_key(x) ==> {
                    let src = PhysicalTokenBlock { block_id: x, is_gpu: !to_gpu };
                    let dst = PhysicalTokenBlock { block_id: mapping@[x], is_gpu: to_gpu };
                    &&& self.valid_block(src)
                    &&& self.valid_block(dst)
                    &&& used.contains(mapping@[x])
                    &&& self.refcount(dst) + self.refcount(src) == old(self).refcount(src)
                    &&& old(self).refcount(dst) == 0
                },
                forall|c: PhysicalTokenBlock| self.valid_block(c) && c.is_gpu != to_gpu && !mapping@.contains_key(c.block_id)
                    ==> #[trigger] self.refcount(c) == old(self).refcount(c),
                forall|c: PhysicalTokenBlock| self.valid_block(c) && c.is_gpu == to_gpu && !used.contains(c.block_id)
                    ==> #[trigger] self.refcount(c) == old(self).refcount(c),
                forall|v: usize| #[trigger] used.contains(v) ==> self.valid_block(PhysicalTokenBlock { block_id: v, is_gpu: to_gpu })
                    && self.refcount(PhysicalTokenBlock { block_id: v, is_gpu: to_gpu }) >= 1,
                injective(mapping@),
            decreases seqs@.len() - s,
        {
            let id = seqs[s].get_id();
            let k = self.find(id).unwrap();
            let ghost pre = *self;
            let ghost m0 = mapping@;
            proof {
                assert(ids[s as int] == id);
                assert(!ids.take(s as int).contains(id)) by {
                    if ids.take(s as int).contains(id) {
                        let q = choose|q: int| 0 <= q < s && ids.take(s as int)[q] == id;
                        assert(ids[q] == ids[s as int]);
                    }
                }
                assert(old(self).table(ids[s as int]) is Some);
                lemma_ids_blocks_skip(old(self).tables(), ids, s as int);
            }
            let (_, table) = self.take_entry(k);
            let ghost tv = table@;
            let ghost mid = *self;
            proof {
                assert(tv == old(self).table(id).unwrap());
                assert(forall|j: int| 0 <= j < tv.len() ==> (#[trigger] tv[j]).is_gpu == !to_gpu);
                assert(self.free_of(to_gpu) >= tv.len() + ids_blocks(old(self).tables(), ids.skip(s + 1)));
                assert(tv.take(0) =~= Seq::<PhysicalTokenBlock>::empty());
                assert(forall|c: PhysicalTokenBlock| #[trigger] self.refcount(c) == pre.refcount(c));
                assert forall|b: PhysicalTokenBlock| self.valid_block(b) implies #[trigger] self.refcount(b)
                    + count(tv.take(0), b) == self.references(b) + count(tv, b) + count(Seq::<PhysicalTokenBlock>::empty(), b) by {
                    assert(pre.refcount(b) == pre.references(b));
                }
            }
            let mut new_table: Vec<PhysicalTokenBlock> = Vec::new();
            let mut j: usize = 0;
            while j < table.len()
                invariant
                    self.pools_ok(),
                    self.tables_ok(),
                    self.tables() == mid.tables(),
                    self.num_gpu_blocks == old(self).num_gpu_blocks,
                    self.num_cpu_blocks == old(self).num_cpu_blocks,
                    self.block_size == old(self).block_size,
                    table@ == tv,
                    j <= tv.len(),
                    new_table@.len() == j,
                    forall|q: int| 0 <= q < tv.len() ==> (#[trigger] tv[q]).is_gpu == !to_gpu && old(self).valid_block(tv[q]),
                    forall|q: int| 0 <= q < j ==> mapping@.contains_key(#[trigger] tv[q].block_id)
                        && new_table@[q] == (PhysicalTokenBlock { block_id: mapping@[tv[q].block_id], is_gpu: to_gpu }),
                    forall|x: usize| #[trigger] m0.contains_key(x) ==> mapping@.contains_key(x) && mapping@[x] == m0[x],
                    forall|b: PhysicalTokenBlock| self.valid_block(b) ==> #[trigger] self.refcount(b) + count(tv.take(j as int), b)
                        == self.references(b) + count(tv, b) + count(new_table@, b),
                    self.free_of(to_gpu) + j >= tv.len() + ids_blocks(old(self).tables(), ids.skip(s + 1)),
                    forall|x: usize| #[trigger] mapping@.contains_key(x) ==> {
                        let src = PhysicalTokenBlock { block_id: x, is_gpu: !to_gpu };
                        let dst = PhysicalTokenBlock { block_id: mapping@[x], is_gpu: to_gpu };
                        &&& self.valid_block(src)
                        &&& self.valid_block(dst)
                        &&& used.contains(mapping@[x])
                        &&& self.refcount(dst) + self.refcount(src) == old(self).refcount(src)
                        &&& old(self).refcount(dst) == 0
                    },
                    forall|c: PhysicalTokenBlock| self.valid_block(c) && c.is_gpu != to_gpu && !mapping@.contains_key(c.block_id)
                        ==> #[trigger] self.refcount(c) == old(self).refcount(c),
                    forall|c: PhysicalTokenBlock| self.valid_block(c) && c.is_gpu == to_gpu && !used.contains(c.block_id)
                        ==> #[trigger] self.refcount(c) == old(self).refcount(c),
                    forall|v: usize| #[trigger] used.contains(v) ==> self.valid_block(PhysicalTokenBlock { block_id: v, is_gpu: to_gpu })
                    && self.refcount(PhysicalTokenBlock { block_id: v, is_gpu: to_gpu }) >= 1,
                    injective(mapping@),
                decreases tv.len() - j,
            {
                let sb = table[j];
                let ghost before = *self;
                let ghost nprev = new_table@;
                let ghost mprev = mapping@;
                proof {
                    assert(tv[j as int] == sb);
                    assert(tv.take(j + 1).drop_last() =~= tv.take(j as int));
                    lemma_count_prefix(tv, j + 1, sb);
                    assert(before.refcount(sb) + count(tv.take(j as int), sb)
                        == before.references(sb) + count(tv, sb) + count(nprev, sb));
                    assert(before.refcount(sb) >= 1);
                }
                let db = match mapping.get(&sb.block_id) {
                    Some(v) => {
                        let db = PhysicalTokenBlock { block_id: *v, is_gpu: to_gpu };
                        proof {
                            assert(mapping@.contains_key(sb.block_id));
                            assert(self.refcount(db) + self.refcount(sb) == old(self).refcount(sb));
                        }
                        self.pool_add_ref(db);
                        db
                    },
                    None => {
                        let nb = self.pool_allocate(to_gpu);
                        proof {
                            assert(!used.contains(nb.block_id));
                            assert(before.refcount(nb) == old(self).refcount(nb));
                            assert forall|x: usize| #[trigger] mprev.contains_key(x) implies mprev[x] != nb.block_id by {
                                assert(used.contains(mprev[x]));
                            }
                            assert(!mprev.contains_key(sb.block_id));
                            assert(before.refcount(sb) == old(self).refcount(sb));
                        }
                        mapping.insert(sb.block_id, nb.block_id);
                        proof {
                            used = used.insert(nb.block_id);
                        }
                        nb
                    },
                };
                new_table.push(db);
                self.pool_free(sb);
                proof {
                    assert(mapping@.contains_key(sb.block_id) && mapping@[sb.block_id] == db.block_id);
                    assert forall|b: PhysicalTokenBlock| self.valid_block(b) implies #[trigger] self.refcount(b)
                        + count(tv.take(j + 1), b) == self.references(b) + count(tv, b) + count(new_table@, b) by {
                        lemma_count_push(nprev, db, b);
                        assert(before.refcount(b) + count(tv.take(j as int), b)
                            == before.references(b) + count(tv, b) + count(nprev, b));
                    }
                    assert forall|q: int| 0 <= q < j + 1 implies mapping@.contains_key(#[trigger] tv[q].block_id)
                        && new_table@[q] == (PhysicalTokenBlock { block_id: mapping@[tv[q].block_id], is_gpu: to_gpu }) by {
                        if q < j {
                            assert(nprev[q] == new_table@[q]);
                        }
                    }
                    assert forall|x: usize| #[trigger] mapping@.contains_key(x) implies {
                        let src = PhysicalTokenBlock { block_id: x, is_gpu: !to_gpu };
                        let dst = PhysicalTokenBlock { block_id: mapping@[x], is_gpu: to_gpu };
                        &&& self.valid_block(src)
                        &&& self.valid_block(dst)
                        &&& used.contains(mapping@[x])
                        &&& self.refcount(dst) + self.refcount(src) == old(self).refcount(src)
                        &&& old(self).refcount(dst) == 0
                    } by {
                        if x != sb.block_id {
                            assert(mprev.contains_key(x));
                            assert(mprev[x] != mapping@[sb.block_id]);
                        }
                    }
                    assert forall|v: usize| #[trigger] used.contains(v) implies
                        self.valid_block(PhysicalTokenBlock { block_id: v, is_gpu: to_gpu })
                        && self.refcount(PhysicalTokenBlock { block_id: v, is_gpu: to_gpu }) >= 1 by {
                        let c = PhysicalTokenBlock { block_id: v, is_gpu: to_gpu };
                        if v != db.block_id {
                            assert(before.refcount(c) >= 1);
                        }
                    }
                }
                j = j + 1;
            }
            proof {
                assert(tv.take(j as int) =~= tv);
            }
            let ghost nt = new_table@;
            let ghost pp = *self;
            proof {
                assert(mid.table(id) is None);
                assert forall|q: int| 0 <= q < nt.len() implies pp.valid_block(#[trigger] nt[q]) by {
                    assert(mapping@.contains_key(tv[q].block_id));
                }
            }
            self.put_entry(id, new_table);
            proof {
                assert(forall|c: PhysicalTokenBlock| #[trigger] self.refcount(c) == pp.refcount(c));
                assert forall|b: PhysicalTokenBlock| self.valid_block(b) implies
                    #[trigger] self.refcount(b) == #[trigger] self.references(b) by {
                    assert(pp.refcount(b) + count(tv, b) == mid.references(b) + count(tv, b) + count(nt, b));
                }
                assert forall|x: usize| !ids.take(s + 1).contains(x) implies #[trigger] self.table(x) == old(self).table(x) by {
                    assert(ids.take(s + 1)[s as int] == id);
                    if ids.take(s as int).contains(x) {
                        let q = choose|q: int| 0 <= q < s && ids.take(s as int)[q] == x;
                        assert(ids.take(s + 1)[q] == x);
                    }
                    assert(mid.table(x) == pre.table(x));
                }
                assert forall|i: int| 0 <= i < s + 1 implies #[trigger] self.table(ids[i]) is Some
                    && mapped(old(self).table(ids[i]).unwrap(), self.table(ids[i]).unwrap(), mapping@, to_gpu) by {
                    if i < s {
                        assert(ids[i] != id);
                        assert(mid.table(ids[i]) == pre.table(ids[i]));
                        let t = old(self).table(ids[i]).unwrap();
                        assert(mapped(t, pre.table(ids[i]).unwrap(), m0, to_gpu));
                        assert forall|q: int| 0 <= q < t.len() implies mapping@.contains_key(#[trigger] t[q].block_id)
                            && self.table(ids[i]).unwrap()[q] == (PhysicalTokenBlock { block_id: mapping@[t[q].block_id], is_gpu: to_gpu }) by {
                            assert(m0.contains_key(t[q].block_id));
                        }
                    }
                }
            }
            s = s + 1;
        }
        proof {
            assert(ids.take(s as int) =~= ids);
            assert forall|x: usize, y: usize| #[trigger] mapping@.contains_key(x) && !ids.contains(y)
                && #[trigger] self.table(y) is Some
                implies count(self.table(y).unwrap(), PhysicalTokenBlock { block_id: mapping@[x], is_gpu: to_gpu }) == 0 by {
                let dst = PhysicalTokenBlock { block_id: mapping@[x], is_gpu: to_gpu };
                assert(old(self).valid_block(dst));
                assert(old(self).refcount(dst) == old(self).references(dst));
                lemma_lookup_count(old(self).tables(), y, dst);
            }
        }
        mapping
    }

    /// Moves the group's tables from the fast tier to the slow tier and
    /// returns, for each fast-tier block that moved, the id of the slow-tier
    /// block that takes its contents. Slots that shared a block share its
    /// replacement. The caller has checked `can_swap_out_seq_group`.
    pub fn swap_out(&mut self, seq_group: &SequenceGroup) -> (r: HashMap<usize, usize>)
        requires
            old(self).wf(),
            seq_group.wf(),
            old(self).group_in_tier(seq_group, true),
            old(self).swap_blocks(seq_group) <= old(self).free_cpu(),
        ensures
            final(self).wf(),
            final(self).num_gpu() == old(self).num_gpu(),
            final(self).num_cpu() == old(self).num_cpu(),
            final(self).spec_block_size() == old(self).spec_block_size(),
            forall|x: usize| !seq_group.ids().contains(x) ==> #[trigger] final(self).table(x) == old(self).table(x),
            forall|i: int| 0 <= i < seq_group.ids().len() ==> #[trigger] final(self).table(seq_group.ids()[i]) is Some
                && mapped(old(self).table(seq_group.ids()[i]).unwrap(), final(self).table(seq_group.ids()[i]).unwrap(), r@, false),
            injective(r@),
            forall|x: usize| #[trigger] r@.contains_key(x) ==> old(self).refcount(PhysicalTokenBlock { block_id: r@[x], is_gpu: false }) == 0,
            forall|x: usize, y: usize| #[trigger] r@.contains_key(x) && !seq_group.ids().contains(y)
                && #[trigger] final(self).table(y) is Some
                ==> count(final(self).table(y).unwrap(), PhysicalTokenBlock { block_id: r@[x], is_gpu: false }) == 0,
    {
        self.swap(seq_group, false)
    }

    /// Moves the group's tables from the slow tier to the fast tier and
    /// returns, for each slow-tier block that moved, the id of the fast-tier
    /// block that takes its contents. Slots that shared a block share its
    /// replacement. The caller has checked `can_swap_in_seq_group`.
    pub fn swap_in(&mut self, seq_group: &SequenceGroup) -> (r: HashMap<usize, usize>)
        requires
            old(self).wf(),
            seq_group.wf(),
            old(self).group_in_tier(seq_group, false),
            old(self).swap_blocks(seq_group) <= old(self).free_gpu(),
        ensures
            final(self).wf(),
            final(self).num_gpu() == old(self).num_gpu(),
            final(self).num_cpu() == old(self).num_cpu(),
            final(self).spec_block_size() == old(self).spec_block_size(),
            forall|x: usize| !seq_group.ids().contains(x) ==> #[trigger] final(self).table(x) == old(self).table(x),
            forall|i: int| 0 <= i < seq_group.ids().len() ==> #[trigger] final(self).table(seq_group.ids()[i]) is Some
                && mapped(old(self).table(seq_group.ids()[i]).unwrap(), final(self).table(seq_group.ids()[i]).unwrap(), r@, true),
            injective(r@),
            forall|x: usize| #[trigger] r@.contains_key(x) ==> old(self).refcount(PhysicalTokenBlock { block_id: r@[x], is_gpu: true }) == 0,
            forall|x: usize, y: usize| #[trigger] r@.contains_key(x) && !seq_group.ids().contains(y)
                && #[trigger] final(self).table(y) is Some
                ==> count(final(self).table(y).unwrap(), PhysicalTokenBlock { block_id: r@[x], is_gpu: true }) == 0,
    {
        self.swap(seq_group, true)
    }

    /// Gives the group one table of fresh fast-tier blocks, one block per
    /// logical block, which every sequence of the group shares: each block's
    /// count is the number of sequences. The caller has checked
    /// `can_allocate`.
    pub fn allocate(&mut self, seq_group: &SequenceGroup)
        requires
            old(self).wf(),
            seq_group.wf(),
            seq_group.required_blocks() <= old(self).free_gpu(),
            forall|i: int|
                0 <= i < seq_group.ids().len() ==> old(self).table(#[trigger] seq_group.ids()[i]) is None,
        ensures
            final(self).wf(),
            final(self).num_gpu() == old(self).num_gpu(),
            final(self).num_cpu() == old(self).num_cpu(),
            final(self).spec_block_size() == old(self).spec_block_size(),
            final(self).free_cpu() == old(self).free_cpu(),
            final(self).free_gpu() == old(self).free_gpu() - seq_group.required_blocks(),
            forall|x: usize| !seq_group.ids().contains(x) ==> #[trigger] final(self).table(x) == old(self).table(x),
            seq_group.ids().len() > 0 ==> final(self).table(seq_group.ids()[0]) is Some,
            seq_group.ids().len() > 0 ==> ({
                let t = final(self).table(seq_group.ids()[0]).unwrap();
                &&& t.len() == seq_group.required_blocks()
                &&& t.no_duplicates()
                &&& forall|i: int| 0 <= i < seq_group.ids().len()
                    ==> final(self).table(#[trigger] seq_group.ids()[i]) == Some(t)
                &&& forall|j: int| 0 <= j < t.len() ==> (#[trigger] t[j]).is_gpu
                    && old(self).refcount(t[j]) == 0
                    && final(self).refcount(t[j]) == seq_group.ids().len()
            }),
    {
        let n = seq_group.get_total_logical_token_blocks();
        let mut block_table: Vec<PhysicalTokenBlock> = Vec::new();
        let mut i: usize = 0;
        while i < n
            invariant
                self.pools_ok(),
                self.tables_ok(),
                self.tables() == old(self).tables(),
                self.num_gpu_blocks == old(self).num_gpu_blocks,
                self.num_cpu_blocks == old(self).num_cpu_blocks,
                self.block_size == old(self).block_size,
                self.cpu_allocator == old(self).cpu_allocator,
                i <= n,
                n == seq_group.required_blocks(),
                n <= old(self).free_gpu(),
                self.free_gpu() == old(self).free_gpu() - i,
                block_table@.len() == i,
                block_table@.no_duplicates(),
                forall|j: int| 0 <= j < i ==> (#[trigger] block_table@[j]).is_gpu
                    && self.valid_block(block_table@[j])
                    && old(self).refcount(block_table@[j]) == 0
                    && self.refcount(block_table@[j]) == 1,
                forall|b: PhysicalTokenBlock| self.valid_block(b) ==>
                    #[trigger] self.refcount(b) == self.references(b) + count(block_table@, b),
                forall|b: PhysicalTokenBlock| self.valid_block(b) ==>
                    #[trigger] old(self).refcount(b) == old(self).references(b),
            decreases n - i,
        {
            let ghost prev = block_table@;
            let ghost pre = *self;
            let nb = self.gpu_allocator.allocate();
            proof {
                assert(pre.valid_block(nb));
                assert(pre.refcount(nb) == 0);
                assert(!prev.contains(nb)) by {
                    if prev.contains(nb) {
                        let k = choose|k: int| 0 <= k < prev.len() && prev[k] == nb;
                        assert(pre.refcount(prev[k]) == 1);
                    }
                }
            }
            block_table.push(nb);
            proof {
                assert forall|b: PhysicalTokenBlock| self.valid_block(b) implies
                    #[trigger] self.refcount(b) == self.references(b) + count(block_table@, b) by {
                    lemma_count_push(prev, nb, b);
                    assert(pre.refcount(b) == pre.references(b) + count(prev, b));
                }
                assert forall|j: int| 0 <= j < i + 1 implies (#[trigger] block_table@[j]).is_gpu
                    && self.valid_block(block_table@[j])
                    && old(self).refcount(block_table@[j]) == 0
                    && self.refcount(block_table@[j]) == 1 by {
                    if j < i {
                        assert(block_table@[j] == prev[j]);
                        assert(block_table@[j] != nb);
                    }
                }
                assert forall|a: int, c: int| 0 <= a < c < block_table@.len() implies
                    block_table@[a] != block_table@[c] by {
                    if c == i as int {
                        assert(prev[a] == block_table@[a]);
                    } else {
                        assert(prev[a] == block_table@[a] && prev[c] == block_table@[c]);
                    }
                }
            }
            i = i + 1;
        }
        let seqs = seq_group.get_seqs();
        let ghost ids = seq_group.ids();
        let mut s: usize = 0;
        while s < seqs.len()
            invariant
                self.pools_ok(),
                self.tables_ok(),
                self.num_gpu_blocks == old(self).num_gpu_blocks,
                self.num_cpu_blocks == old(self).num_cpu_blocks,
                self.block_size == old(self).block_size,
                self.cpu_allocator == old(self).cpu_allocator,
                seq_group.wf(),
                seqs@ == seq_group.seqs(),
                ids == seq_group.ids(),
                ids.len() == seqs@.len(),
                s <= seqs@.len(),
                n == seq_group.required_blocks(),
                self.free_gpu() == old(self).free_gpu() - n,
                block_table@.len() == n,
                block_table@.no_duplicates(),
                forall|j: int| 0 <= j < n ==> (#[trigger] block_table@[j]).is_gpu
                    && self.valid_block(block_table@[j])
                    && old(self).refcount(block_table@[j]) == 0
                    && self.refcount(block_table@[j]) == if s == 0 { 1 } else { s as int },
                forall|b: PhysicalTokenBlock| self.valid_block(b) ==>
                    #[trigger] self.refcount(b) == self.references(b) + if s == 0 { count(block_table@, b) } else { 0 },
                forall|x: usize| !ids.take(s as int).contains(x) ==> #[trigger] self.table(x) == old(self).table(x),
                forall|k: int| 0 <= k < s ==> #[trigger] self.table(ids[k]) == Some(block_table@),
                forall|k: int| 0 <= k < ids.len() ==> old(self).table(#[trigger] ids[k]) is None,
            decreases seqs@.len() - s,
        {
            let ghost before = *self;
            if s > 0 {
                let ghost tabs = self.block_tables@;
                let mut j: usize = 0;
                while j < block_table.len()
                    invariant
                        self.pools_ok(),
                        self.tables_ok(),
                        self.num_gpu_blocks == old(self).num_gpu_blocks,
                        self.num_cpu_blocks == old(self).num_cpu_blocks,
                        self.block_size == old(self).block_size,
                        self.cpu_allocator == old(self).cpu_allocator,
                        0 < s < seqs@.len(),
                        seqs@.len() <= usize::MAX,
                        j <= block_table@.len(),
                        block_table@.len() == n,
                        self.free_gpu() == old(self).free_gpu() - n,
                        block_table@.no_duplicates(),
                        forall|k: int| 0 <= k < n ==> (#[trigger] block_table@[k]).is_gpu
                            && self.valid_block(block_table@[k])
                            && old(self).refcount(block_table@[k]) == 0
                            && self.refcount(block_table@[k]) == if k < j { s as int + 1 } else { s as int },
                        forall|b: PhysicalTokenBlock| self.valid_block(b) ==>
                            #[trigger] self.refcount(b) == self.references(b) + count(block_table@.take(j as int), b),
                        self.block_tables@ == tabs,
                    decreases block_table@.len() - j,
                {
                    let ghost pre = *self;
                    let b = block_table[j];
                    proof {
                        assert(pre.refcount(b) == s as int);
                    }
                    self.gpu_allocator.add_ref(b.block_id);
                    proof {
                        assert(block_table@.take(j + 1).drop_last() =~= block_table@.take(j as int));
                        assert forall|c: PhysicalTokenBlock| self.valid_block(c) implies
                            #[trigger] self.refcount(c) == self.references(c) + count(block_table@.take(j + 1), c) by {
                            assert(pre.refcount(c) == pre.references(c) + count(block_table@.take(j as int), c));
                        }
                        assert forall|k: int| 0 <= k < n implies (#[trigger] block_table@[k]).is_gpu
                            && self.valid_block(block_table@[k])
                            && old(self).refcount(block_table@[k]) == 0
                            && self.refcount(block_table@[k]) == if k < j + 1 { s as int + 1 } else { s as int } by {
                            assert(pre.refcount(block_table@[k]) == if k < j { s as int + 1 } else { s as int });
                            if k != j as int {
                                assert(block_table@[k] != b);
                            }
                        }
                    }
                    j = j + 1;
                }
                assert(block_table@.take(j as int) =~= block_table@);
            }
            let id = seqs[s].get_id();
            let copy = copy_table(&block_table);
            let ghost pre = *self;
            proof {
                assert(pre.tables() =~= before.tables());
                assert(forall|x: usize| #[trigger] pre.table(x) == before.table(x));
                assert(ids[s as int] == id);
                assert(!ids.take(s as int).contains(id)) by {
                    if ids.take(s as int).contains(id) {
                        let k = choose|k: int| 0 <= k < s && ids.take(s as int)[k] == id;
                        assert(ids[k] == ids[s as int]);
                    }
                }
                assert(pre.table(id) is None);
            }
            self.block_tables.push((id, copy));
            proof {
                assert(self.tables() =~= pre.tables().push((id, block_table@)));
                lemma_lookup_push(pre.tables(), (id, block_table@));
                assert forall|k: int, j: int|
                    0 <= k < self.tables().len() && 0 <= j < self.tables()[k].1.len()
                        implies self.valid_block(#[trigger] self.tables()[k].1[j]) by {
                    if k < pre.tables().len() {
                        assert(self.tables()[k] == pre.tables()[k]);
                    }
                }
                assert forall|b: PhysicalTokenBlock| self.valid_block(b) implies
                    #[trigger] self.refcount(b) == self.references(b) + if s + 1 == 0 { count(block_table@, b) } else { 0 } by {
                    lemma_refs_push(pre.tables(), (id, block_table@), b);
                    assert(pre.refcount(b) == pre.references(b) + count(block_table@, b));
                }
                assert forall|x: usize| !ids.take(s + 1).contains(x) implies #[trigger] self.table(x) == old(self).table(x) by {
                    assert(ids.take(s + 1)[s as int] == id);
                    if ids.take(s as int).contains(x) {
                        let k = choose|k: int| 0 <= k < s && ids.take(s as int)[k] == x;
                        assert(ids.take(s + 1)[k] == x);
                    }
                    assert(pre.table(x) == old(self).table(x));
                }
                assert forall|k: int| 0 <= k < s + 1 implies #[trigger] self.table(ids[k]) == Some(block_table@) by {
                    if k < s {
                        assert(pre.table(ids[k]) == Some(block_table@));
                        assert(ids[k] != id);
                    }
                }
            }
            s = s + 1;
        }
        proof {
            assert(ids.take(s as int) =~= ids);
        }
    }
}

fn copy_table(t: &Vec<PhysicalTokenBlock>) -> (r: Vec<PhysicalTokenBlock>)
    ensures
        r@ == t@,
{
    let mut r: Vec<PhysicalTokenBlock> = Vec::new();
    let mut i: usize = 0;
    while i < t.len()
        invariant
            i <= t@.len(),
            r@ == t@.take(i as int),
        decreases t@.len() - i,
    {
        r.push(t[i]);
        i = i + 1;
        assert(r@ =~= t@.take(i as int));
    }
    assert(t@.take(i as int) =~= t@);
    r
}

} // verus!
