use vstd::prelude::*;

verus! {

/// A fixed-capacity, append-only buffer of token ids: one chunk of a
/// sequence's logical token stream.
pub struct LogicalTokenBlock {
    tokens: Vec<usize>,
    block_id: usize,
    block_size: usize,
    num_tokens: usize,
}

impl LogicalTokenBlock {
    /// The tokens appended so far, in order.
    pub closed spec fn view_tokens(&self) -> Seq<usize> {
        self.tokens@.take(self.num_tokens as int)
    }

    pub closed spec fn spec_block_id(&self) -> usize {
        self.block_id
    }

    pub closed spec fn capacity(&self) -> nat {
        self.block_size as nat
    }

    pub closed spec fn wf(&self) -> bool {
        &&& self.tokens@.len() == self.block_size
        &&& self.num_tokens <= self.block_size
    }

    pub fn new(block_id: usize, block_size: usize) -> (r: Self)
        ensures
            r.wf(),
            r.spec_block_id() == block_id,
            r.capacity() == block_size,
            r.view_tokens() == Seq::<usize>::empty(),
    {
        let mut tokens: Vec<usize> = Vec::new();
        let mut i: usize = 0;
        while i < block_size
            invariant
                i <= block_size,
                tokens@.len() == i,
            decreases block_size - i,
        {
            tokens.push(0);
            i = i + 1;
        }
        let r = LogicalTokenBlock { tokens, block_id, block_size, num_tokens: 0 };
        assert(r.view_tokens() =~= Seq::<usize>::empty());
        r
    }

    pub fn block_id(&self) -> (r: usize)
        ensures
            r == self.spec_block_id(),
    {
        self.block_id
    }

    pub fn num_tokens(&self) -> (r: usize)
        requires
            self.wf(),
        ensures
            r == self.view_tokens().len(),
    {
        self.num_tokens
    }

    /// The token at position `i`.
    pub fn get_token(&self, i: usize) -> (r: usize)
        requires
            self.wf(),
            i < self.view_tokens().len(),
        ensures
            r == self.view_tokens()[i as int],
    {
        self.tokens[i]
    }

    pub fn is_full(&self) -> (r: bool)
        requires
            self.wf(),
        ensures
            r == (self.view_tokens().len() == self.capacity()),
    {
        self.num_tokens == self.block_size
    }

    /// Appends one token at the end; the block must not be full.
    pub fn append_token_id(&mut self, token: usize)
        requires
            old(self).wf(),
            old(self).view_tokens().len() < old(self).capacity(),
        ensures
            final(self).wf(),
            final(self).view_tokens() == old(self).view_tokens().push(token),
            final(self).capacity() == old(self).capacity(),
            final(self).spec_block_id() == old(self).spec_block_id(),
    {
        let n = self.num_tokens;
        self.tokens.set(n, token);
        self.num_tokens = n + 1;
        assert(self.view_tokens() =~= old(self).view_tokens().push(token));
    }

    /// Appends the tokens in order; all of them must fit.
    pub fn append_tokens(&mut self, tokens: &[usize])
        requires
            old(self).wf(),
            old(self).view_tokens().len() + tokens@.len() <= old(self).capacity(),
        ensures
            final(self).wf(),
            final(self).view_tokens() == old(self).view_tokens() + tokens@,
            final(self).capacity() == old(self).capacity(),
            final(self).spec_block_id() == old(self).spec_block_id(),
    {
        let mut i: usize = 0;
        while i < tokens.len()
            invariant
                i <= tokens@.len(),
                self.wf(),
                self.view_tokens() == old(self).view_tokens() + tokens@.take(i as int),
                self.view_tokens().len() + tokens@.len() - i <= self.capacity(),
                self.capacity() == old(self).capacity(),
                self.spec_block_id() == old(self).spec_block_id(),
            decreases tokens@.len() - i,
        {
            self.append_token_id(tokens[i]);
            assert(tokens@.take(i + 1) =~= tokens@.take(i as int).push(tokens@[i as int]));
            i = i + 1;
        }
        assert(tokens@.take(tokens@.len() as int) =~= tokens@);
    }
}

} // verus!
