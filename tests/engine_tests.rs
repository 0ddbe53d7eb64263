use paged_blocks::block::{Allocator, PhysicalTokenBlock};
use paged_blocks::engine::{AllocStatus, BlockEngine};
use paged_blocks::logical_block::LogicalTokenBlock;
use paged_blocks::sequence::{Sequence, SequenceGroup};

fn gpu(id: usize) -> PhysicalTokenBlock {
    PhysicalTokenBlock { block_id: id, is_gpu: true }
}

fn group(ids: &[usize], len: usize, block_size: usize) -> SequenceGroup {
    SequenceGroup::new(ids.iter().map(|&i| Sequence::new(i, len, block_size)).collect())
}

#[test]
fn logical_block_appends_until_full() {
    let mut b = LogicalTokenBlock::new(3, 2);
    assert_eq!(b.block_id(), 3);
    assert!(!b.is_full());
    b.append_token_id(7);
    assert_eq!(b.num_tokens(), 1);
    assert!(!b.is_full());
    b.append_token_id(9);
    assert!(b.is_full());
    assert_eq!(b.num_tokens(), 2);
}

#[test]
fn logical_block_append_tokens_in_order() {
    let mut b = LogicalTokenBlock::new(0, 4);
    b.append_tokens(&[1, 2, 3]);
    assert_eq!(b.num_tokens(), 3);
    assert!(!b.is_full());
    b.append_tokens(&[4]);
    assert!(b.is_full());
}

#[test]
fn zero_capacity_block_is_full() {
    let b = LogicalTokenBlock::new(0, 0);
    assert!(b.is_full());
}

#[test]
fn sequence_growth_and_logical_blocks() {
    let s = Sequence::new(1, 5, 4);
    assert_eq!(s.get_logical_token_blocks(), 2);
    assert_eq!(s.blocks_to_add_new_tok(), 0);
    let s = Sequence::new(1, 8, 4);
    assert_eq!(s.get_logical_token_blocks(), 2);
    assert_eq!(s.blocks_to_add_new_tok(), 1);
    let s = Sequence::new(1, 0, 4);
    assert_eq!(s.get_logical_token_blocks(), 0);
    assert_eq!(s.blocks_to_add_new_tok(), 1);
    let mut s = Sequence::new(2, 3, 4);
    s.append_token();
    assert_eq!(s.get_len(), 4);
    assert_eq!(s.blocks_to_add_new_tok(), 1);
}

#[test]
fn group_totals() {
    let g = SequenceGroup::new(vec![Sequence::new(1, 5, 4), Sequence::new(2, 9, 4), Sequence::new(3, 8, 4)]);
    assert_eq!(g.get_total_logical_token_blocks(), 3);
    assert_eq!(g.total_blocks_to_add_new_tok(), 1);
    assert_eq!(g.get_seqs().len(), 3);
}

#[test]
fn pool_allocates_and_recycles() {
    let mut p = Allocator::new(4, 2, true);
    assert_eq!(p.get_num_free_blocks(), 2);
    let a = p.allocate();
    assert!(a.is_gpu);
    assert_eq!(p.refcount(a.block_id), 1);
    assert_eq!(p.get_num_free_blocks(), 1);
    p.add_ref(a.block_id);
    assert_eq!(p.refcount(a.block_id), 2);
    p.free_block(a.block_id);
    assert_eq!(p.get_num_free_blocks(), 1);
    p.free_block(a.block_id);
    assert_eq!(p.refcount(a.block_id), 0);
    assert_eq!(p.get_num_free_blocks(), 2);
}

#[test]
fn new_engine_is_empty() {
    let e = BlockEngine::new(4, 8, 6);
    assert_eq!(e.block_size(), 4);
    assert_eq!(e.get_num_free_gpu_blocks(), 8);
    assert_eq!(e.get_num_free_cpu_blocks(), 6);
    assert!(e.get_block_table(0).is_none());
}

#[test]
fn can_allocate_three_answers() {
    let mut e = BlockEngine::new(4, 3, 3);
    assert_eq!(e.can_allocate(&group(&[1], 12, 4)), AllocStatus::Ready);
    assert_eq!(e.can_allocate(&group(&[1], 13, 4)), AllocStatus::Impossible);
    let g = group(&[1], 8, 4);
    e.allocate(&g);
    assert_eq!(e.can_allocate(&group(&[2], 8, 4)), AllocStatus::Later);
    assert_eq!(e.can_allocate(&group(&[2], 4, 4)), AllocStatus::Ready);
    assert_eq!(e.can_allocate(&group(&[2], 16, 4)), AllocStatus::Impossible);
}

#[test]
fn shared_prompt_scenario_copy_on_write() {
    let mut e = BlockEngine::new(4, 10, 10);
    let g = group(&[1, 2], 5, 4);
    assert_eq!(g.get_total_logical_token_blocks(), 2);
    assert_eq!(e.can_allocate(&g), AllocStatus::Ready);
    e.allocate(&g);
    assert_eq!(e.get_num_free_gpu_blocks(), 8);
    let t1 = e.get_block_table(1).unwrap();
    let t2 = e.get_block_table(2).unwrap();
    assert_eq!(t1.len(), 2);
    assert_eq!(t1, t2);
    assert_eq!(e.get_refcount(t1[1]), 2);

    let s1 = Sequence::new(1, 5, 4);
    assert_eq!(s1.blocks_to_add_new_tok(), 0);
    let cow = e.append_token_slot_to_seq(&s1);
    let (old_id, new_id) = cow.unwrap();
    assert_eq!(old_id, t1[1].block_id);
    assert_ne!(new_id, old_id);
    assert_eq!(e.get_refcount(gpu(old_id)), 1);
    assert_eq!(e.get_refcount(gpu(new_id)), 1);
    assert_eq!(e.get_num_free_gpu_blocks(), 7);
    let n1 = e.get_block_table(1).unwrap();
    assert_eq!(n1[0], t1[0]);
    assert_eq!(n1[1], gpu(new_id));
    assert_eq!(e.get_block_table(2).unwrap(), t2);
    assert_eq!(e.get_refcount(t1[0]), 2);
}

#[test]
fn copy_on_write_leaves_other_references() {
    let mut e = BlockEngine::new(2, 6, 2);
    let g = group(&[10, 11, 12], 3, 2);
    e.allocate(&g);
    let shared = e.get_block_table(10).unwrap()[1];
    assert_eq!(e.get_refcount(shared), 3);
    let (old_id, new_id) = e.append_token_slot_to_seq(&Sequence::new(11, 3, 2)).unwrap();
    assert_eq!(old_id, shared.block_id);
    assert_eq!(e.get_refcount(shared), 2);
    assert_eq!(e.get_refcount(gpu(new_id)), 1);
    assert_eq!(e.get_block_table(10).unwrap()[1], shared);
    assert_eq!(e.get_block_table(12).unwrap()[1], shared);
    assert_eq!(e.get_block_table(11).unwrap()[1], gpu(new_id));
}

#[test]
fn append_into_exclusive_block_needs_nothing() {
    let mut e = BlockEngine::new(4, 4, 0);
    e.allocate(&group(&[1], 5, 4));
    let before = e.get_block_table(1).unwrap();
    assert_eq!(e.append_token_slot_to_seq(&Sequence::new(1, 5, 4)), None);
    assert_eq!(e.get_block_table(1).unwrap(), before);
    assert_eq!(e.get_num_free_gpu_blocks(), 2);
}

#[test]
fn append_with_full_blocks_adds_block() {
    let mut e = BlockEngine::new(4, 4, 0);
    e.allocate(&group(&[1], 8, 4));
    assert_eq!(e.append_token_slot_to_seq(&Sequence::new(1, 8, 4)), None);
    let t = e.get_block_table(1).unwrap();
    assert_eq!(t.len(), 3);
    assert_eq!(e.get_refcount(t[2]), 1);
    assert_eq!(e.get_num_free_gpu_blocks(), 1);
}

#[test]
fn can_append_counts_growth() {
    let mut e = BlockEngine::new(4, 3, 0);
    let g = group(&[1, 2], 8, 4);
    e.allocate(&g);
    assert_eq!(e.get_num_free_gpu_blocks(), 1);
    assert!(!e.can_append_token_to_seq(&g));
    assert!(e.can_append_token_to_seq(&group(&[1, 2], 7, 4)));
    assert!(e.can_append_token_to_seq(&group(&[1], 8, 4)));
}

#[test]
fn free_sequence_returns_blocks() {
    let mut e = BlockEngine::new(4, 4, 0);
    e.allocate(&group(&[1, 2], 5, 4));
    let t = e.get_block_table(1).unwrap();
    e.free_sequence(&Sequence::new(1, 5, 4));
    assert!(e.get_block_table(1).is_none());
    assert_eq!(e.get_refcount(t[0]), 1);
    assert_eq!(e.get_num_free_gpu_blocks(), 2);
    e.free_sequence(&Sequence::new(2, 5, 4));
    assert_eq!(e.get_refcount(t[0]), 0);
    assert_eq!(e.get_refcount(t[1]), 0);
    assert_eq!(e.get_num_free_gpu_blocks(), 4);
    assert_eq!(e.can_allocate(&group(&[3], 16, 4)), AllocStatus::Ready);
}

#[test]
fn swap_out_and_in_deduplicates() {
    let mut e = BlockEngine::new(4, 6, 6);
    let g = group(&[1, 2], 5, 4);
    e.allocate(&g);
    e.append_token_slot_to_seq(&Sequence::new(1, 5, 4)).unwrap();
    let t1 = e.get_block_table(1).unwrap();
    let t2 = e.get_block_table(2).unwrap();
    assert!(e.can_swap_out_seq_group(&g));
    let m = e.swap_out(&g);
    assert_eq!(m.len(), 3);
    assert_eq!(e.get_num_free_gpu_blocks(), 6);
    assert_eq!(e.get_num_free_cpu_blocks(), 3);
    let c1 = e.get_block_table(1).unwrap();
    let c2 = e.get_block_table(2).unwrap();
    assert_eq!(c1[0], c2[0]);
    assert!(!c1[0].is_gpu);
    assert_eq!(c1[0].block_id, m[&t1[0].block_id]);
    assert_eq!(c2[1].block_id, m[&t2[1].block_id]);
    assert_ne!(c1[1], c2[1]);
    assert_eq!(e.get_refcount(c1[0]), 2);
    assert_eq!(e.get_refcount(c1[1]), 1);
    assert_eq!(e.get_refcount(c2[1]), 1);

    assert!(e.can_swap_in_seq_group(&g));
    let back = e.swap_in(&g);
    assert_eq!(back.len(), 3);
    assert_eq!(e.get_num_free_cpu_blocks(), 6);
    assert_eq!(e.get_num_free_gpu_blocks(), 3);
    let g1 = e.get_block_table(1).unwrap();
    let g2 = e.get_block_table(2).unwrap();
    assert!(g1[0].is_gpu);
    assert_eq!(g1[0], g2[0]);
    assert_eq!(e.get_refcount(g1[0]), 2);
    assert_eq!(g1[0].block_id, back[&c1[0].block_id]);
}

#[test]
fn swap_admission_counts_each_table() {
    let mut e = BlockEngine::new(4, 4, 3);
    let g = group(&[1, 2], 8, 4);
    e.allocate(&g);
    assert!(!e.can_swap_out_seq_group(&g));
    assert!(e.can_swap_out_seq_group(&group(&[1], 8, 4)));
    assert!(e.can_swap_out_seq_group(&group(&[7], 8, 4)));
}

#[test]
fn logical_block_keeps_token_values() {
    let mut b = LogicalTokenBlock::new(1, 3);
    b.append_tokens(&[5, 6]);
    b.append_token_id(8);
    assert_eq!(b.get_token(0), 5);
    assert_eq!(b.get_token(1), 6);
    assert_eq!(b.get_token(2), 8);
}

#[test]
fn counts_follow_references_through_many_operations() {
    let mut e = BlockEngine::new(2, 8, 8);
    let g = group(&[1, 2, 3], 3, 2);
    e.allocate(&g);
    let t = e.get_block_table(1).unwrap();
    assert_eq!(e.get_refcount(t[0]), 3);
    e.append_token_slot_to_seq(&Sequence::new(2, 3, 2)).unwrap();
    e.append_token_slot_to_seq(&Sequence::new(3, 3, 2)).unwrap();
    assert_eq!(e.append_token_slot_to_seq(&Sequence::new(1, 3, 2)), None);
    assert_eq!(e.get_refcount(t[1]), 1);
    assert_eq!(e.get_refcount(t[0]), 3);
    assert_eq!(e.get_num_free_gpu_blocks(), 4);
    e.free_sequence(&Sequence::new(2, 3, 2));
    e.free_sequence(&Sequence::new(3, 3, 2));
    assert_eq!(e.get_refcount(t[0]), 1);
    assert_eq!(e.get_num_free_gpu_blocks(), 6);
    e.free_sequence(&Sequence::new(1, 3, 2));
    assert_eq!(e.get_refcount(t[0]), 0);
    assert_eq!(e.get_refcount(t[1]), 0);
    assert_eq!(e.get_num_free_gpu_blocks(), 8);
}

#[test]
fn swap_of_empty_group_moves_nothing() {
    let mut e = BlockEngine::new(4, 2, 2);
    let g = SequenceGroup::new(Vec::new());
    assert_eq!(g.get_total_logical_token_blocks(), 0);
    assert!(e.can_swap_out_seq_group(&g));
    let m = e.swap_out(&g);
    assert!(m.is_empty());
    assert_eq!(e.get_num_free_gpu_blocks(), 2);
    assert_eq!(e.get_num_free_cpu_blocks(), 2);
}

#[test]
fn freed_swapped_sequence_returns_slow_blocks() {
    let mut e = BlockEngine::new(4, 2, 2);
    let g = group(&[4], 6, 4);
    e.allocate(&g);
    e.swap_out(&g);
    assert_eq!(e.get_num_free_cpu_blocks(), 0);
    e.free_sequence(&Sequence::new(4, 6, 4));
    assert_eq!(e.get_num_free_cpu_blocks(), 2);
    assert_eq!(e.get_num_free_gpu_blocks(), 2);
}
