use vstd::prelude::*;
use crate::block::PhysicalTokenBlock;

verus! {

/// A block table: the physical blocks that realise one sequence's logical
/// blocks, in order.
pub type TableView = Seq<PhysicalTokenBlock>;

/// Occurrences of `b` in one table.
pub open spec fn count(s: TableView, b: PhysicalTokenBlock) -> nat
    decreases s.len(),
{
    if s.len() == 0 {
        0
    } else {
        count(s.drop_last(), b) + if s.last() == b { 1nat } else { 0nat }
    }
}

/// Occurrences of `b` over all tables: its live references.
pub open spec fn refs(t: Seq<(usize, TableView)>, b: PhysicalTokenBlock) -> nat
    decreases t.len(),
{
    if t.len() == 0 {
        0
    } else {
        refs(t.drop_last(), b) + count(t.last().1, b)
    }
}

pub open spec fn unique_keys(t: Seq<(usize, TableView)>) -> bool {
    forall|i: int, j: int|
        0 <= i < t.len() && 0 <= j < t.len() && i != j ==> #[trigger] t[i].0 != #[trigger] t[j].0
}

pub open spec fn has_key(t: Seq<(usize, TableView)>, id: usize) -> bool {
    exists|k: int| 0 <= k < t.len() && t[k].0 == id
}

/// The table of sequence `id`, if it has one.
pub open spec fn lookup(t: Seq<(usize, TableView)>, id: usize) -> Option<TableView> {
    if has_key(t, id) {
        Some(t[choose|k: int| 0 <= k < t.len() && t[k].0 == id].1)
    } else {
        None
    }
}

pub proof fn lemma_count_push(s: TableView, x: PhysicalTokenBlock, b: PhysicalTokenBlock)
    ensures
        count(s.push(x), b) == count(s, b) + if x == b { 1nat } else { 0nat },
{
    assert(s.push(x).drop_last() =~= s);
}

pub proof fn lemma_count_update_last(s: TableView, x: PhysicalTokenBlock, b: PhysicalTokenBlock)
    requires
        s.len() > 0,
    ensures
        count(s.update(s.len() - 1, x), b) + (if s.last() == b { 1nat } else { 0nat })
            == count(s, b) + if x == b { 1nat } else { 0nat },
{
    assert(s.update(s.len() - 1, x).drop_last() =~= s.drop_last());
}

pub proof fn lemma_count_pos(s: TableView, j: int)
    requires
        0 <= j < s.len(),
    ensures
        count(s, s[j]) >= 1,
    decreases s.len(),
{
    if j < s.len() - 1 {
        lemma_count_pos(s.drop_last(), j);
    }
}

pub proof fn lemma_refs_remove(t: Seq<(usize, TableView)>, p: int, b: PhysicalTokenBlock)
    requires
        0 <= p < t.len(),
    ensures
        refs(t, b) == refs(t.remove(p), b) + count(t[p].1, b),
    decreases t.len(),
{
    if p == t.len() - 1 {
        assert(t.remove(p) =~= t.drop_last());
    } else {
        assert(t.remove(p).drop_last() =~= t.drop_last().remove(p));
        assert(t.remove(p).last() == t.last());
        lemma_refs_remove(t.drop_last(), p, b);
    }
}

pub proof fn lemma_refs_push(t: Seq<(usize, TableView)>, e: (usize, TableView), b: PhysicalTokenBlock)
    ensures
        refs(t.push(e), b) == refs(t, b) + count(e.1, b),
{
    assert(t.push(e).drop_last() =~= t);
}

/// A block that stands in some table has at least one live reference.
pub proof fn lemma_refs_pos(t: Seq<(usize, TableView)>, k: int, j: int)
    requires
        0 <= k < t.len(),
        0 <= j < t[k].1.len(),
    ensures
        refs(t, t[k].1[j]) >= 1,
{
    lemma_refs_remove(t, k, t[k].1[j]);
    lemma_count_pos(t[k].1, j);
}

/// No table holds more references to `b` than all tables together.
pub proof fn lemma_lookup_count(t: Seq<(usize, TableView)>, id: usize, b: PhysicalTokenBlock)
    requires
        unique_keys(t),
        lookup(t, id) is Some,
    ensures
        count(lookup(t, id).unwrap(), b) <= refs(t, b),
{
    assert(has_key(t, id));
    let k = choose|k: int| 0 <= k < t.len() && t[k].0 == id;
    lemma_lookup_at(t, k);
    lemma_refs_remove(t, k, b);
}

pub proof fn lemma_lookup_at(t: Seq<(usize, TableView)>, k: int)
    requires
        unique_keys(t),
        0 <= k < t.len(),
    ensures
        lookup(t, t[k].0) == Some(t[k].1),
{
    assert(has_key(t, t[k].0));
    let c = choose|c: int| 0 <= c < t.len() && t[c].0 == t[k].0;
    assert(c == k);
}

/// Removing the entry at `p` drops its key and keeps every other table.
pub proof fn lemma_lookup_remove(t: Seq<(usize, TableView)>, p: int)
    requires
        unique_keys(t),
        0 <= p < t.len(),
    ensures
        unique_keys(t.remove(p)),
        lookup(t.remove(p), t[p].0) is None,
        forall|x: usize| x != t[p].0 ==> #[trigger] lookup(t.remove(p), x) == lookup(t, x),
{
    let r = t.remove(p);
    assert forall|i: int, j: int| 0 <= i < r.len() && 0 <= j < r.len() && i != j implies
        #[trigger] r[i].0 != #[trigger] r[j].0 by {
        let ii = if i < p { i } else { i + 1 };
        let jj = if j < p { j } else { j + 1 };
        assert(r[i] == t[ii] && r[j] == t[jj]);
    }
    assert(!has_key(r, t[p].0)) by {
        if has_key(r, t[p].0) {
            let k = choose|k: int| 0 <= k < r.len() && r[k].0 == t[p].0;
            let kk = if k < p { k } else { k + 1 };
            assert(r[k] == t[kk]);
        }
    }
    assert forall|x: usize| x != t[p].0 implies #[trigger] lookup(r, x) == lookup(t, x) by {
        if has_key(t, x) {
            let k = choose|k: int| 0 <= k < t.len() && t[k].0 == x;
            lemma_lookup_at(t, k);
            let kk = if k < p { k } else { k - 1 };
            assert(r[kk] == t[k]);
            lemma_lookup_at(r, kk);
        } else {
            if has_key(r, x) {
                let k = choose|k: int| 0 <= k < r.len() && r[k].0 == x;
                let kk = if k < p { k } else { k + 1 };
                assert(r[k] == t[kk]);
            }
        }
    }
}

/// Adding an entry under a fresh key gives that key its table and keeps
/// every other table.
pub proof fn lemma_lookup_push(t: Seq<(usize, TableView)>, e: (usize, TableView))
    requires
        unique_keys(t),
        lookup(t, e.0) is None,
    ensures
        unique_keys(t.push(e)),
        lookup(t.push(e), e.0) == Some(e.1),
        forall|x: usize| x != e.0 ==> #[trigger] lookup(t.push(e), x) == lookup(t, x),
{
    let r = t.push(e);
    assert forall|i: int, j: int| 0 <= i < r.len() && 0 <= j < r.len() && i != j implies
        #[trigger] r[i].0 != #[trigger] r[j].0 by {
        if i == t.len() as int {
            assert(!(0 <= j < t.len() && t[j].0 == e.0));
        } else if j == t.len() as int {
            assert(!(0 <= i < t.len() && t[i].0 == e.0));
        } else {
            assert(r[i] == t[i] && r[j] == t[j]);
        }
    }
    lemma_lookup_at(r, t.len() as int);
    assert forall|x: usize| x != e.0 implies #[trigger] lookup(r, x) == lookup(t, x) by {
        if has_key(t, x) {
            let k = choose|k: int| 0 <= k < t.len() && t[k].0 == x;
            lemma_lookup_at(t, k);
            assert(r[k] == t[k]);
            lemma_lookup_at(r, k);
        } else {
            if has_key(r, x) {
                let k = choose|k: int| 0 <= k < r.len() && r[k].0 == x;
                assert(r[k] == t[k]);
            }
        }
    }
}

/// Blocks in the tables of the given sequences, summed; a sequence with
/// no table counts 0.
pub open spec fn ids_blocks(t: Seq<(usize, TableView)>, ids: Seq<usize>) -> nat
    decreases ids.len(),
{
    if ids.len() == 0 {
        0
    } else {
        (match lookup(t, ids[0]) {
            Some(x) => x.len(),
            None => 0,
        }) + ids_blocks(t, ids.skip(1))
    }
}

pub proof fn lemma_ids_blocks_skip(t: Seq<(usize, TableView)>, ids: Seq<usize>, i: int)
    requires
        0 <= i < ids.len(),
    ensures
        ids_blocks(t, ids.skip(i)) == (match lookup(t, ids[i]) {
            Some(x) => x.len(),
            None => 0,
        }) + ids_blocks(t, ids.skip(i + 1)),
{
    assert(ids.skip(i).skip(1) =~= ids.skip(i + 1));
    assert(ids.skip(i)[0] == ids[i]);
}

pub proof fn lemma_ids_blocks_suffix(t: Seq<(usize, TableView)>, ids: Seq<usize>, i: int)
    requires
        0 <= i <= ids.len(),
    ensures
        ids_blocks(t, ids) >= ids_blocks(t, ids.skip(i)),
    decreases i,
{
    if i == 0 {
        assert(ids.skip(0) =~= ids);
    } else {
        lemma_ids_blocks_suffix(t, ids, i - 1);
        lemma_ids_blocks_skip(t, ids, i - 1);
    }
}

pub proof fn lemma_count_prefix(s: TableView, i: int, b: PhysicalTokenBlock)
    requires
        0 <= i <= s.len(),
    ensures
        count(s.take(i), b) <= count(s, b),
    decreases s.len(),
{
    if i < s.len() {
        assert(s.drop_last().take(i) =~= s.take(i));
        lemma_count_prefix(s.drop_last(), i, b);
    } else {
        assert(s.take(i) =~= s);
    }
}

} // verus!
