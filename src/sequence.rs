use vstd::prelude::*;

verus! {

/// Number of blocks of `block_size` slots that hold `len` tokens.
pub open spec fn blocks_for(len: nat, block_size: nat) -> nat
    recommends
        block_size > 0,
{
    if len % block_size == 0 {
        len / block_size
    } else {
        len / block_size + 1
    }
}

/// The minimal view of a generation sequence that the block engine needs:
/// its id and how many tokens it holds.
pub struct Sequence {
    id: usize,
    num_tokens: usize,
    block_size: usize,
}

impl Sequence {
    pub closed spec fn spec_id(&self) -> usize {
        self.id
    }

    pub closed spec fn len(&self) -> nat {
        self.num_tokens as nat
    }

    pub closed spec fn spec_block_size(&self) -> nat {
        self.block_size as nat
    }

    pub open spec fn wf(&self) -> bool {
        self.spec_block_size() > 0
    }

    /// Logical blocks the sequence's tokens fill.
    pub open spec fn logical_blocks(&self) -> nat {
        blocks_for(self.len(), self.spec_block_size())
    }

    /// Physical blocks the next token needs: a new one exactly when every
    /// logical block is full (or there is none yet).
    pub open spec fn growth(&self) -> nat {
        if self.len() % self.spec_block_size() == 0 {
            1
        } else {
            0
        }
    }

    pub fn new(id: usize, num_tokens: usize, block_size: usize) -> (r: Self)
        requires
            block_size > 0,
        ensures
            r.wf(),
            r.spec_id() == id,
            r.len() == num_tokens,
            r.spec_block_size() == block_size,
    {
        Sequence { id, num_tokens, block_size }
    }

    pub fn get_id(&self) -> (r: usize)
        ensures
            r == self.spec_id(),
    {
        self.id
    }

    pub fn get_len(&self) -> (r: usize)
        ensures
            r == self.len(),
    {
        self.num_tokens
    }

    pub fn get_logical_token_blocks(&self) -> (r: usize)
        requires
            self.wf(),
        ensures
            r == self.logical_blocks(),
    {
        let q = self.num_tokens / self.block_size;
        if self.num_tokens % self.block_size == 0 {
            q
        } else {
            proof {
                assert(q * self.block_size <= self.num_tokens) by (nonlinear_arith)
                    requires
                        q == self.num_tokens / self.block_size,
                        self.block_size > 0,
                ;
                assert(self.num_tokens % self.block_size != 0);
                assert(q < self.num_tokens) by (nonlinear_arith)
                    requires
                        q * self.block_size <= self.num_tokens,
                        self.num_tokens % self.block_size != 0,
                        q == self.num_tokens / self.block_size,
                        self.block_size > 0,
                ;
            }
            q + 1
        }
    }

    pub fn blocks_to_add_new_tok(&self) -> (r: usize)
        requires
            self.wf(),
        ensures
            r == self.growth(),
    {
        if self.num_tokens % self.block_size == 0 {
            1
        } else {
            0
        }
    }

    /// Records one more token.
    pub fn append_token(&mut self)
        requires
            old(self).len() < usize::MAX,
        ensures
            final(self).spec_id() == old(self).spec_id(),
            final(self).spec_block_size() == old(self).spec_block_size(),
            final(self).len() == old(self).len() + 1,
    {
        self.num_tokens = self.num_tokens + 1;
    }
}

/// Ids of the sequences, in order.
pub open spec fn seq_ids(s: Seq<Sequence>) -> Seq<usize> {
    s.map_values(|x: Sequence| x.spec_id())
}

/// The most logical blocks any of the sequences fills.
pub open spec fn max_blocks(s: Seq<Sequence>) -> nat
    decreases s.len(),
{
    if s.len() == 0 {
        0
    } else {
        let m = max_blocks(s.drop_last());
        let b = s.last().logical_blocks();
        if b > m { b } else { m }
    }
}

/// Physical blocks the next token of every sequence needs, summed.
pub open spec fn total_growth(s: Seq<Sequence>) -> nat
    decreases s.len(),
{
    if s.len() == 0 {
        0
    } else {
        total_growth(s.drop_last()) + s.last().growth()
    }
}

/// Sequences that were spawned together from one prompt (parallel samples,
/// beam branches). Ids are distinct.
pub struct SequenceGroup {
    seqs: Vec<Sequence>,
}

impl SequenceGroup {
    pub closed spec fn seqs(&self) -> Seq<Sequence> {
        self.seqs@
    }

    pub open spec fn ids(&self) -> Seq<usize> {
        seq_ids(self.seqs())
    }

    pub open spec fn wf(&self) -> bool {
        &&& self.ids().no_duplicates()
        &&& forall|i: int| 0 <= i < self.seqs().len() ==> #[trigger] self.seqs()[i].wf()
    }

    /// Blocks one shared table needs to hold the tokens of every member.
    pub open spec fn required_blocks(&self) -> nat {
        max_blocks(self.seqs())
    }

    pub open spec fn growth(&self) -> nat {
        total_growth(self.seqs())
    }

    pub fn new(seqs: Vec<Sequence>) -> (r: Self)
        requires
            seq_ids(seqs@).no_duplicates(),
            forall|i: int| 0 <= i < seqs@.len() ==> #[trigger] seqs@[i].wf(),
        ensures
            r.wf(),
            r.seqs() == seqs@,
    {
        SequenceGroup { seqs }
    }

    pub fn get_seqs(&self) -> (r: &Vec<Sequence>)
        ensures
            r@ == self.seqs(),
    {
        &self.seqs
    }

    pub fn get_total_logical_token_blocks(&self) -> (r: usize)
        requires
            self.wf(),
        ensures
            r == self.required_blocks(),
    {
        let mut m: usize = 0;
        let mut i: usize = 0;
        while i < self.seqs.len()
            invariant
                self.wf(),
                i <= self.seqs@.len(),
                m == max_blocks(self.seqs@.take(i as int)),
            decreases self.seqs@.len() - i,
        {
            assert(self.seqs@.take(i + 1).drop_last() =~= self.seqs@.take(i as int));
            assert(self.seqs@[i as int].wf());
            let b = self.seqs[i].get_logical_token_blocks();
            if b > m {
                m = b;
            }
            i = i + 1;
        }
        assert(self.seqs@.take(i as int) =~= self.seqs@);
        m
    }

    pub fn total_blocks_to_add_new_tok(&self) -> (r: usize)
        requires
            self.wf(),
        ensures
            r == self.growth(),
    {
        let mut t: usize = 0;
        let mut i: usize = 0;
        while i < self.seqs.len()
            invariant
                self.wf(),
                i <= self.seqs@.len(),
                t == total_growth(self.seqs@.take(i as int)),
                t <= i,
            decreases self.seqs@.len() - i,
        {
            assert(self.seqs@.take(i + 1).drop_last() =~= self.seqs@.take(i as int));
            assert(self.seqs@[i as int].wf());
            let g = self.seqs[i].blocks_to_add_new_tok();
            t = t + g;
            i = i + 1;
        }
        assert(self.seqs@.take(i as int) =~= self.seqs@);
        t
    }
}

} // verus!
