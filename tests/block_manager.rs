use mistralrs::block_manager::{BlockError, BlockManager};

fn entries(start: u64, n: u64) -> Vec<u64> {
    (start..start + n).collect()
}

#[test]
fn allocate_takes_whole_blocks() {
    let mut m = BlockManager::new(8, 16);
    let s = m.add_sequence();
    assert_eq!(m.allocate(s, 17), Ok(()));
    let (table, len) = m.gather_for_attention(s);
    assert_eq!(table.len(), 2);
    assert_eq!(len, 0);
    assert_eq!(m.num_free(), 6);
    for b in &table {
        assert_eq!(m.refcount_of(*b), 1);
    }
    // Asking for no more than is held takes nothing.
    assert_eq!(m.allocate(s, 32), Ok(()));
    assert_eq!(m.num_free(), 6);
}

#[test]
fn allocate_out_of_memory_changes_nothing() {
    let mut m = BlockManager::new(2, 4);
    let s = m.add_sequence();
    assert_eq!(m.allocate(s, 9), Err(BlockError::OutOfMemory));
    assert_eq!(m.num_free(), 2);
    assert_eq!(m.gather_for_attention(s).0.len(), 0);
    assert_eq!(m.allocate(s, 8), Ok(()));
    assert_eq!(m.num_free(), 0);
}

#[test]
fn write_maps_positions_to_slots() {
    let mut m = BlockManager::new(4, 4);
    let s = m.add_sequence();
    m.allocate(s, 6).unwrap();
    let plan = m.write(s, &entries(100, 6)).unwrap();
    let (table, len) = m.gather_for_attention(s);
    assert_eq!(len, 6);
    assert!(plan.copies.is_empty());
    assert_eq!(plan.slots.len(), 6);
    for (i, slot) in plan.slots.iter().enumerate() {
        assert_eq!(slot.block, table[i / 4]);
        assert_eq!(slot.offset, i % 4);
    }
    assert_eq!(m.read(s), entries(100, 6));
}

#[test]
fn refcounts_balance_after_fork_and_free() {
    let mut m = BlockManager::new(10, 4);
    let a = m.add_sequence();
    m.allocate(a, 12).unwrap();
    m.write(a, &entries(0, 12)).unwrap();
    let b = m.fork(a);
    let c = m.fork(b);
    let (table, _) = m.gather_for_attention(a);
    for blk in &table {
        assert_eq!(m.refcount_of(*blk), 3);
    }
    let total: usize = (0..10).map(|blk| m.refcount_of(blk)).sum();
    let handles: usize = [a, b, c].iter().map(|s| m.gather_for_attention(*s).0.len()).sum();
    assert_eq!(total, handles);
    m.free(b);
    m.free(a);
    for blk in &table {
        assert_eq!(m.refcount_of(*blk), 1);
    }
    assert_eq!(m.num_free(), 7);
    m.free(c);
    assert_eq!(m.num_free(), 10);
    for blk in 0..10 {
        assert_eq!(m.refcount_of(blk), 0);
    }
    assert_eq!(m.len_of(c), 0);
}

#[test]
fn copy_on_write_keeps_parent_content() {
    let mut m = BlockManager::new(8, 4);
    let parent = m.add_sequence();
    m.allocate(parent, 8).unwrap();
    m.write(parent, &entries(10, 6)).unwrap();
    let child = m.fork(parent);
    let before = m.read(parent);
    let plan = m.write(child, &vec![7, 8]).unwrap();
    assert_eq!(plan.copies.len(), 1);
    let copy = plan.copies[0];
    assert_eq!(copy.index, 1);
    assert_eq!(m.read(parent), before);
    let mut expected = before.clone();
    expected.extend([7, 8]);
    assert_eq!(m.read(child), expected);
    let (pt, _) = m.gather_for_attention(parent);
    let (ct, _) = m.gather_for_attention(child);
    assert_eq!(pt[0], ct[0]);
    assert_ne!(pt[1], ct[1]);
    assert_eq!(copy.src, pt[1]);
    assert_eq!(copy.dst, ct[1]);
    assert_eq!(m.refcount_of(pt[0]), 2);
    assert_eq!(m.refcount_of(pt[1]), 1);
    assert_eq!(m.refcount_of(ct[1]), 1);
}

#[test]
fn copy_on_write_needs_a_free_block() {
    let mut m = BlockManager::new(1, 4);
    let parent = m.add_sequence();
    m.allocate(parent, 4).unwrap();
    m.write(parent, &vec![1, 2]).unwrap();
    let child = m.fork(parent);
    assert_eq!(m.write(child, &vec![3]).unwrap_err(), BlockError::OutOfMemory);
    assert_eq!(m.read(child), vec![1, 2]);
    assert_eq!(m.read(parent), vec![1, 2]);
}

/// Two sequences with the same 32-token prompt and blocks of 16 share two
/// full blocks. The next token of A lands in a block of its own, so the
/// shared blocks are not copied and keep both references.
#[test]
fn block_reuse_full_prompt_blocks() {
    let mut m = BlockManager::new(8, 16);
    let a = m.add_sequence();
    m.allocate(a, 32).unwrap();
    m.write(a, &entries(0, 32)).unwrap();
    let b = m.fork(a);
    let (shared, _) = m.gather_for_attention(a);
    assert_eq!(shared.len(), 2);
    assert_eq!(m.gather_for_attention(b).0, shared);
    for blk in &shared {
        assert_eq!(m.refcount_of(*blk), 2);
    }
    m.allocate(a, 33).unwrap();
    let plan = m.write(a, &vec![99]).unwrap();
    assert!(plan.copies.is_empty());
    for blk in &shared {
        assert_eq!(m.refcount_of(*blk), 2);
    }
    assert_eq!(m.read(b), entries(0, 32));
}

/// When the shared last block is only partly filled, A's next token is
/// written into it: the block is copied and the original drops from two
/// references to one.
#[test]
fn block_reuse_copy_on_write_of_last_block() {
    let mut m = BlockManager::new(8, 16);
    let a = m.add_sequence();
    m.allocate(a, 32).unwrap();
    m.write(a, &entries(0, 31)).unwrap();
    let b = m.fork(a);
    let (shared, _) = m.gather_for_attention(a);
    assert_eq!(m.refcount_of(shared[1]), 2);
    let plan = m.write(a, &vec![99]).unwrap();
    assert_eq!(plan.copies.len(), 1);
    assert_eq!(m.refcount_of(shared[1]), 1);
    assert_eq!(m.refcount_of(shared[0]), 2);
    assert_eq!(m.read(b), entries(0, 31));
    let mut expected = entries(0, 31);
    expected.push(99);
    assert_eq!(m.read(a), expected);
}

#[test]
fn capacity_counts_slots() {
    let mut m = BlockManager::new(4, 16);
    let s = m.add_sequence();
    assert_eq!(m.capacity_of(s), 0);
    m.allocate(s, 20).unwrap();
    assert_eq!(m.capacity_of(s), 32);
    assert_eq!(m.block_size_of(), 16);
}

#[test]
fn write_fails_only_on_needed_copy() {
    // No copy needed: the write succeeds with an empty free list.
    let mut m = BlockManager::new(1, 4);
    let s = m.add_sequence();
    m.allocate(s, 4).unwrap();
    assert_eq!(m.num_free(), 0);
    assert!(m.write(s, &vec![1, 2, 3]).is_ok());
}
