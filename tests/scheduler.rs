use mistralrs::scheduler::{choose_victim, select_batch, SchedEntry};

fn e(running: bool, in_prompt: bool, blocks_needed: usize, admitted: u64) -> SchedEntry {
    SchedEntry { running, in_prompt, blocks_needed, admitted }
}

#[test]
fn prompt_phase_first_within_budget() {
    let entries = vec![
        e(true, false, 1, 0),
        e(true, true, 4, 1),
        e(false, true, 1, 2),
        e(true, true, 3, 3),
        e(true, false, 1, 4),
    ];
    let (chosen, used) = select_batch(&entries, 8, 6);
    // Prompt phase: entry 1 (4 blocks) fits, entry 3 (3 more) does not.
    // Decode phase: entries 0 and 4 fit in the 2 blocks left.
    assert_eq!(chosen, vec![1, 0, 4]);
    assert_eq!(used, 6);
    let (chosen, used) = select_batch(&entries, 2, 100);
    assert_eq!(chosen, vec![1, 3]);
    assert_eq!(used, 7);
}

#[test]
fn victim_is_latest_admitted_running() {
    let entries = vec![e(true, false, 1, 5), e(false, false, 1, 9), e(true, true, 1, 7), e(true, false, 1, 7)];
    assert_eq!(choose_victim(&entries, None), Some(2));
    assert_eq!(choose_victim(&vec![e(false, false, 0, 1)], None), None);
}

use mistralrs::block_manager::{BlockError, BlockManager};
use mistralrs::scheduler::{allocate_or_evict, commit_sampled, record_delivery};
use mistralrs::sequence::{SeqState, Sequence, StopReason};

#[test]
fn allocation_evicts_latest_admitted() {
    let mut bm = BlockManager::new(4, 4);
    let ids: Vec<usize> = (0..3).map(|_| bm.add_sequence()).collect();
    bm.allocate(ids[0], 4).unwrap();
    bm.allocate(ids[1], 4).unwrap();
    bm.allocate(ids[2], 8).unwrap();
    assert_eq!(bm.num_free(), 0);
    let mut entries = vec![e(true, false, 1, 0), e(true, false, 1, 1), e(true, false, 2, 2)];
    let evicted = allocate_or_evict(&mut bm, &mut entries, &ids, 0, 8).unwrap();
    assert_eq!(evicted, vec![2]);
    assert!(!entries[2].running);
    assert!(entries[0].running && entries[1].running);
    assert_eq!(bm.gather_for_attention(ids[2]).0.len(), 0);
    assert_eq!(bm.gather_for_attention(ids[0]).0.len(), 2);
    assert_eq!(bm.num_free(), 1);
    // Nothing else may go: entry 0 cannot grow past what entry 1 leaves.
    let mut entries2 = entries.clone();
    let r = allocate_or_evict(&mut bm, &mut entries2, &ids, 0, 20);
    assert_eq!(r, Err(BlockError::OutOfMemory));
    assert!(!entries2[1].running);
}

#[test]
fn closed_sink_releases_blocks_and_freezes_sequence() {
    let mut bm = BlockManager::new(4, 4);
    let c = bm.add_sequence();
    bm.allocate(c, 8).unwrap();
    let mut seq = Sequence::new(0, vec![1, 2], None, vec![], vec![]);
    seq.set_state(SeqState::Running);
    commit_sampled(&mut seq, 3, false, None);
    record_delivery(&mut seq, &mut bm, c, false);
    assert_eq!(seq.state(), SeqState::Finished(StopReason::Cancelled));
    assert_eq!(bm.num_free(), 4);
    assert_eq!(commit_sampled(&mut seq, 4, false, None), None);
    assert_eq!(seq.committed_tokens(), vec![1, 2, 3]);
}

#[test]
fn allocation_without_pressure_evicts_nothing() {
    let mut bm = BlockManager::new(4, 4);
    let ids = vec![bm.add_sequence(), bm.add_sequence()];
    let mut entries = vec![e(true, false, 1, 0), e(true, false, 1, 1)];
    assert_eq!(allocate_or_evict(&mut bm, &mut entries, &ids, 1, 8), Ok(vec![]));
    assert!(entries[0].running);
}

#[test]
fn evicted_are_the_latest_admitted() {
    let mut bm = BlockManager::new(3, 4);
    let ids: Vec<usize> = (0..3).map(|_| bm.add_sequence()).collect();
    for id in &ids {
        bm.allocate(*id, 4).unwrap();
    }
    let mut entries = vec![e(true, false, 1, 9), e(true, false, 1, 2), e(true, false, 1, 5)];
    let evicted = allocate_or_evict(&mut bm, &mut entries, &ids, 1, 8).unwrap();
    assert_eq!(evicted, vec![0]);
    assert!(entries[2].running);
}
