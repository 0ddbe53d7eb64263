use vstd::prelude::*;

verus! {

/// A handle to one physical block: its id within its tier and the tier it
/// lives in (`is_gpu` for the fast tier). The tier never changes: moving a
/// block's contents to the other tier always takes a new block there.
#[derive(Clone, Copy, Debug, PartialEq, Eq, Structural, Hash)]
pub struct PhysicalTokenBlock {
    pub block_id: usize,
    pub is_gpu: bool,
}

/// A pool of physical blocks of one tier. Block `i` has reference count
/// `refcounts[i]`; the free list holds exactly the blocks whose count is 0.
pub struct Allocator {
    block_size: usize,
    is_gpu: bool,
    refcounts: Vec<usize>,
    free_blocks: Vec<usize>,
}

impl Allocator {
    pub closed spec fn rc(&self) -> Seq<usize> {
        self.refcounts@
    }

    pub closed spec fn free(&self) -> Seq<usize> {
        self.free_blocks@
    }

    pub closed spec fn tier(&self) -> bool {
        self.is_gpu
    }

    pub closed spec fn spec_block_size(&self) -> usize {
        self.block_size
    }

    pub closed spec fn wf(&self) -> bool {
        &&& self.free_blocks@.no_duplicates()
        &&& forall|k: int| 0 <= k < self.free_blocks@.len() ==> #[trigger] self.free_blocks@[k] < self.refcounts@.len()
        &&& forall|i: usize| i < self.refcounts@.len() ==>
            (#[trigger] self.refcounts@[i as int] == 0 <==> self.free_blocks@.contains(i))
    }

    /// A block is on the free list exactly when its count is 0.
    pub proof fn lemma_free_iff(&self, id: usize)
        requires
            self.wf(),
            id < self.rc().len(),
        ensures
            self.rc()[id as int] == 0 <==> self.free().contains(id),
    {
    }

    /// A pool of `num_blocks` free blocks of one tier.
    pub fn new(block_size: usize, num_blocks: usize, is_gpu: bool) -> (r: Self)
        ensures
            r.wf(),
            r.tier() == is_gpu,
            r.spec_block_size() == block_size,
            r.rc().len() == num_blocks,
            forall|i: int| 0 <= i < num_blocks ==> #[trigger] r.rc()[i] == 0,
            r.free().len() == num_blocks,
    {
        let mut refcounts: Vec<usize> = Vec::new();
        let mut free_blocks: Vec<usize> = Vec::new();
        let mut id: usize = 0;
        while id < num_blocks
            invariant
                id <= num_blocks,
                refcounts@.len() == id,
                free_blocks@.len() == id,
                forall|k: int| 0 <= k < id ==> #[trigger] refcounts@[k] == 0,
                forall|k: int| 0 <= k < id ==> #[trigger] free_blocks@[k] == k,
            decreases num_blocks - id,
        {
            refcounts.push(0);
            free_blocks.push(id);
            id = id + 1;
        }
        let r = Allocator { block_size, is_gpu, refcounts, free_blocks };
        assert forall|i: usize| i < r.refcounts@.len() implies
            (#[trigger] r.refcounts@[i as int] == 0 <==> r.free_blocks@.contains(i)) by {
            assert(r.free_blocks@[i as int] == i);
        }
        r
    }

    pub fn get_num_free_blocks(&self) -> (r: usize)
        ensures
            r == self.free().len(),
    {
        self.free_blocks.len()
    }

    pub fn get_num_blocks(&self) -> (r: usize)
        ensures
            r == self.rc().len(),
    {
        self.refcounts.len()
    }

    pub fn is_gpu(&self) -> (r: bool)
        ensures
            r == self.tier(),
    {
        self.is_gpu
    }

    pub fn refcount(&self, id: usize) -> (r: usize)
        requires
            id < self.rc().len(),
        ensures
            r == self.rc()[id as int],
    {
        self.refcounts[id]
    }

    /// Takes a free block and gives it a reference count of 1.
    pub fn allocate(&mut self) -> (r: PhysicalTokenBlock)
        requires
            old(self).wf(),
            old(self).free().len() > 0,
        ensures
            final(self).wf(),
            final(self).tier() == old(self).tier(),
            final(self).spec_block_size() == old(self).spec_block_size(),
            r.is_gpu == old(self).tier(),
            r.block_id < old(self).rc().len(),
            old(self).rc()[r.block_id as int] == 0,
            final(self).rc() == old(self).rc().update(r.block_id as int, 1),
            final(self).free().len() == old(self).free().len() - 1,
    {
        let id = self.free_blocks.pop().unwrap();
        proof {
            assert(old(self).free_blocks@.contains(id));
            assert(self.free_blocks@ =~= old(self).free_blocks@.drop_last());
            assert(old(self).free_blocks@[old(self).free_blocks@.len() - 1] == id);
        }
        self.refcounts.set(id, 1);
        proof {
            assert forall|i: usize| i < self.refcounts@.len() implies
                (#[trigger] self.refcounts@[i as int] == 0 <==> self.free_blocks@.contains(i)) by {
                if i == id {
                    if self.free_blocks@.contains(i) {
                        let k = choose|k: int| 0 <= k < self.free_blocks@.len() && self.free_blocks@[k] == i;
                        assert(old(self).free_blocks@[k] == old(self).free_blocks@[old(self).free_blocks@.len() - 1]);
                    }
                } else {
                    if old(self).free_blocks@.contains(i) {
                        let k = choose|k: int| 0 <= k < old(self).free_blocks@.len() && old(self).free_blocks@[k] == i;
                        assert(k != old(self).free_blocks@.len() - 1);
                        assert(self.free_blocks@[k] == i);
                    }
                }
            }
        }
        PhysicalTokenBlock { block_id: id, is_gpu: self.is_gpu }
    }

    /// Adds one reference to a block that is already in use.
    pub fn add_ref(&mut self, id: usize)
        requires
            old(self).wf(),
            id < old(self).rc().len(),
            0 < old(self).rc()[id as int] < usize::MAX,
        ensures
            final(self).wf(),
            final(self).tier() == old(self).tier(),
            final(self).spec_block_size() == old(self).spec_block_size(),
            final(self).rc() == old(self).rc().update(id as int, (old(self).rc()[id as int] + 1) as usize),
            final(self).free() == old(self).free(),
    {
        let c = self.refcounts[id];
        self.refcounts.set(id, c + 1);
        proof {
            assert forall|i: usize| i < self.refcounts@.len() implies
                (#[trigger] self.refcounts@[i as int] == 0 <==> self.free_blocks@.contains(i)) by {
                assert(old(self).refcounts@[i as int] == 0 <==> old(self).free_blocks@.contains(i));
            }
        }
    }

    /// Drops one reference to a block; a block whose count reaches 0 goes
    /// back to the free list. The block must be in use: releasing a block
    /// whose count is already 0 is a double free, which this pool never
    /// performs.
    pub fn free_block(&mut self, id: usize)
        requires
            old(self).wf(),
            id < old(self).rc().len(),
            old(self).rc()[id as int] > 0,
        ensures
            final(self).wf(),
            final(self).tier() == old(self).tier(),
            final(self).spec_block_size() == old(self).spec_block_size(),
            final(self).rc() == old(self).rc().update(id as int, (old(self).rc()[id as int] - 1) as usize),
            final(self).free().len() == old(self).free().len() + if old(self).rc()[id as int] == 1 { 1int } else { 0int },
    {
        let c = self.refcounts[id];
        self.refcounts.set(id, c - 1);
        if c == 1 {
            self.free_blocks.push(id);
            proof {
                assert(!old(self).free_blocks@.contains(id));
                assert forall|a: int, b: int| 0 <= a < b < self.free_blocks@.len() implies
                    self.free_blocks@[a] != self.free_blocks@[b] by {
                    if b == self.free_blocks@.len() - 1 {
                        assert(old(self).free_blocks@[a] == self.free_blocks@[a]);
                    }
                }
            }
        }
        proof {
            assert forall|i: usize| i < self.refcounts@.len() implies
                (#[trigger] self.refcounts@[i as int] == 0 <==> self.free_blocks@.contains(i)) by {
                assert(old(self).refcounts@[i as int] == 0 <==> old(self).free_blocks@.contains(i));
                if c == 1 && i == id {
                    assert(self.free_blocks@[self.free_blocks@.len() - 1] == id);
                }
                if c == 1 && i != id && self.free_blocks@.contains(i) {
                    let k = choose|k: int| 0 <= k < self.free_blocks@.len() && self.free_blocks@[k] == i;
                    assert(k < old(self).free_blocks@.len());
                    assert(old(self).free_blocks@[k] == i);
                }
                if c == 1 && old(self).free_blocks@.contains(i) {
                    let k = choose|k: int| 0 <= k < old(self).free_blocks@.len() && old(self).free_blocks@[k] == i;
                    assert(self.free_blocks@[k] == i);
                }
            }
        }
    }
}

} // verus!
