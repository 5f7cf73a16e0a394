//! Decisions of the step loop that depend on plain state only: which running
//! sequences go into the next batch, and which one to evict when the cache
//! is full.
use vstd::prelude::*;

use crate::block_manager::{BlockError, BlockManager};
use crate::sequence::{SeqState, Sequence, StopReason};

verus! {

/// What the scheduler knows of one sequence when it builds a batch.
#[derive(Debug, Clone, Copy, PartialEq, Eq, Structural)]
pub struct SchedEntry {
    pub running: bool,
    /// Still in the prompt phase (its prompt has not been run yet).
    pub in_prompt: bool,
    /// Fresh cache blocks this step needs for it.
    pub blocks_needed: usize,
    /// Admission order: larger means admitted later.
    pub admitted: u64,
}

/// State of a selection pass after looking at the first `i` entries: the
/// chosen indices and the blocks they use. Entries of the wanted phase are
/// taken in order while the batch has room and the blocks fit.
pub open spec fn pass_state(
    e: Seq<SchedEntry>,
    want_prompt: bool,
    max_batch: nat,
    free_blocks: nat,
    init: (Seq<usize>, nat),
    i: int,
) -> (Seq<usize>, nat)
    decreases i,
{
    if i <= 0 {
        init
    } else {
        let prev = pass_state(e, want_prompt, max_batch, free_blocks, init, i - 1);
        let x = e[i - 1];
        if x.running && x.in_prompt == want_prompt && prev.0.len() < max_batch && prev.1 + x.blocks_needed
            <= free_blocks {
            (prev.0.push((i - 1) as usize), (prev.1 + x.blocks_needed) as nat)
        } else {
            prev
        }
    }
}

/// The batch: prompt-phase sequences first, then decode-phase ones.
pub open spec fn batch_spec(e: Seq<SchedEntry>, max_batch: nat, free_blocks: nat) -> (Seq<usize>, nat) {
    let first = pass_state(e, true, max_batch, free_blocks, (Seq::empty(), 0), e.len() as int);
    pass_state(e, false, max_batch, free_blocks, first, e.len() as int)
}

proof fn lemma_pass_props(
    e: Seq<SchedEntry>,
    want_prompt: bool,
    max_batch: nat,
    free_blocks: nat,
    init: (Seq<usize>, nat),
    i: int,
)
    requires
        0 <= i <= e.len(),
        e.len() <= usize::MAX,
        init.0.len() <= max_batch,
        init.1 <= free_blocks,
        forall|k: int| 0 <= k < init.0.len() ==> (#[trigger] init.0[k]) < e.len() && e[init.0[k] as int].running,
    ensures
        ({
            let st = pass_state(e, want_prompt, max_batch, free_blocks, init, i);
            &&& init.0.len() <= st.0.len() <= max_batch
            &&& st.1 <= free_blocks
            &&& st.0.subrange(0, init.0.len() as int) == init.0
            &&& forall|k: int| 0 <= k < st.0.len() ==> (#[trigger] st.0[k]) < e.len() && e[st.0[k] as int].running
            &&& forall|k: int| init.0.len() <= k < st.0.len() ==> (#[trigger] st.0[k]) < i
        }),
    decreases i,
{
    if i > 0 {
        lemma_pass_props(e, want_prompt, max_batch, free_blocks, init, i - 1);
        let prev = pass_state(e, want_prompt, max_batch, free_blocks, init, i - 1);
        let st = pass_state(e, want_prompt, max_batch, free_blocks, init, i);
        let x = e[i - 1];
        if x.running && x.in_prompt == want_prompt && prev.0.len() < max_batch && prev.1 + x.blocks_needed
            <= free_blocks {
            assert(st.0 == prev.0.push((i - 1) as usize));
            assert(st.0.subrange(0, init.0.len() as int) =~= prev.0.subrange(0, init.0.len() as int));
            assert forall|k: int| 0 <= k < st.0.len() implies (#[trigger] st.0[k]) < e.len() && e[st.0[k] as int].running by {
                if k < prev.0.len() {
                    assert(st.0[k] == prev.0[k]);
                }
            }
            assert forall|k: int| init.0.len() <= k < st.0.len() implies (#[trigger] st.0[k]) < i by {
                if k < prev.0.len() {
                    assert(st.0[k] == prev.0[k]);
                }
            }
        } else {
            assert(st == prev);
        }
    } else {
        assert(init.0.subrange(0, init.0.len() as int) =~= init.0);
    }
}

/// Chooses the batch for the next step: running sequences in the prompt
/// phase first, then the others, each taken in order when the batch has
/// room and the blocks it needs fit in what is left of `free_blocks`.
/// Returns the chosen indices and the blocks they use.
pub fn select_batch(entries: &Vec<SchedEntry>, max_batch: usize, free_blocks: usize) -> (r: (Vec<usize>, usize))
    ensures
        (r.0@, r.1 as nat) == batch_spec(entries@, max_batch as nat, free_blocks as nat),
        r.0@.len() <= max_batch,
        r.1 <= free_blocks,
        forall|k: int| 0 <= k < r.0@.len() ==> (#[trigger] r.0@[k]) < entries.len() && entries@[r.0@[k] as int].running,
{
    let mut chosen: Vec<usize> = Vec::new();
    let mut used: usize = 0;
    let ghost e = entries@;
    let mut phase: usize = 0;
    let ghost init0: (Seq<usize>, nat) = (Seq::empty(), 0);
    while phase < 2
        invariant
            phase <= 2,
            e == entries@,
            phase == 0 ==> (chosen@, used as nat) == init0,
            phase == 1 ==> (chosen@, used as nat) == pass_state(e, true, max_batch as nat, free_blocks as nat, init0, e.len() as int),
            phase == 2 ==> (chosen@, used as nat) == batch_spec(e, max_batch as nat, free_blocks as nat),
            init0 == (Seq::<usize>::empty(), 0nat),
            chosen@.len() <= max_batch,
            used <= free_blocks,
            forall|k: int| 0 <= k < chosen@.len() ==> (#[trigger] chosen@[k]) < e.len() && e[chosen@[k] as int].running,
        decreases 2 - phase,
    {
        let want_prompt = phase == 0;
        let ghost start: (Seq<usize>, nat) = (chosen@, used as nat);
        let mut i: usize = 0;
        while i < entries.len()
            invariant
                i <= entries.len(),
                e == entries@,
                start.0.len() <= max_batch,
                start.1 <= free_blocks,
                forall|k: int| 0 <= k < start.0.len() ==> (#[trigger] start.0[k]) < e.len() && e[start.0[k] as int].running,
                (chosen@, used as nat) == pass_state(e, want_prompt, max_batch as nat, free_blocks as nat, start, i as int),
            decreases entries.len() - i,
        {
            proof {
                lemma_pass_props(e, want_prompt, max_batch as nat, free_blocks as nat, start, i as int);
            }
            let x = entries[i];
            if x.running && x.in_prompt == want_prompt && chosen.len() < max_batch && x.blocks_needed <= free_blocks - used {
                chosen.push(i);
                used = used + x.blocks_needed;
            }
            i = i + 1;
        }
        proof {
            lemma_pass_props(e, want_prompt, max_batch as nat, free_blocks as nat, start, e.len() as int);
        }
        phase = phase + 1;
    }
    (chosen, used)
}

/// Entry `j` can be evicted: it runs and is not the one to keep.
pub open spec fn evictable(e: Seq<SchedEntry>, keep: Option<usize>, j: int) -> bool {
    e[j].running && keep != Some(j as usize)
}

/// `r` is an evictable entry admitted last (the first such on ties).
pub open spec fn is_victim(e: Seq<SchedEntry>, keep: Option<usize>, r: int) -> bool {
    &&& 0 <= r < e.len()
    &&& evictable(e, keep, r)
    &&& forall|j: int| 0 <= j < e.len() && #[trigger] evictable(e, keep, j) ==> e[j].admitted <= e[r].admitted
    &&& forall|j: int| 0 <= j < r && #[trigger] evictable(e, keep, j) ==> e[j].admitted < e[r].admitted
}

/// The sequence to evict when the cache cannot hold the batch: the running
/// one admitted most recently, other than `keep`. None when there is none.
pub fn choose_victim(entries: &Vec<SchedEntry>, keep: Option<usize>) -> (r: Option<usize>)
    ensures
        r matches Some(i) ==> is_victim(entries@, keep, i as int),
        r is None ==> forall|j: int| 0 <= j < entries.len() ==> !#[trigger] evictable(entries@, keep, j),
{
    let mut best: Option<usize> = None;
    let mut i: usize = 0;
    while i < entries.len()
        invariant
            i <= entries.len(),
            best matches Some(b) ==> b < i && evictable(entries@, keep, b as int) && (forall|j: int|
                0 <= j < i && #[trigger] evictable(entries@, keep, j) ==> entries@[j].admitted
                    <= entries@[b as int].admitted) && (forall|j: int|
                0 <= j < b && #[trigger] evictable(entries@, keep, j) ==> entries@[j].admitted
                    < entries@[b as int].admitted),
            best is None ==> forall|j: int| 0 <= j < i ==> !#[trigger] evictable(entries@, keep, j),
        decreases entries.len() - i,
    {
        let candidate = entries[i].running && match keep {
            Some(k) => k != i,
            None => true,
        };
        if candidate {
            match best {
                None => {
                    best = Some(i);
                },
                Some(b) => {
                    if entries[i].admitted > entries[b].admitted {
                        best = Some(i);
                    }
                },
            }
        }
        i = i + 1;
    }
    best
}

/// Number of running entries.
pub open spec fn running_count(e: Seq<SchedEntry>) -> nat
    decreases e.len(),
{
    if e.len() == 0 {
        0
    } else {
        running_count(e.drop_last()) + if e.last().running {
            1nat
        } else {
            0nat
        }
    }
}

proof fn lemma_running_count_stop(e: Seq<SchedEntry>, i: int, x: SchedEntry)
    requires
        0 <= i < e.len(),
        e[i].running,
        !x.running,
    ensures
        running_count(e.update(i, x)) + 1 == running_count(e),
    decreases e.len(),
{
    if i == e.len() - 1 {
        assert(e.update(i, x).drop_last() =~= e.drop_last());
    } else {
        assert(e.update(i, x).drop_last() =~= e.drop_last().update(i, x));
        lemma_running_count_stop(e.drop_last(), i, x);
    }
}

/// Allocates cache blocks so that the sequence of entry `who` covers
/// `needed_tokens` positions. While the free list is too short, the running
/// entry admitted most recently (other than `who`) is evicted: its blocks
/// are freed and it stops running, to be resumed later from its prompt.
/// Returns the evicted entries, in order; fails when nothing is left to
/// evict.
pub fn allocate_or_evict(
    bm: &mut BlockManager,
    entries: &mut Vec<SchedEntry>,
    seq_ids: &Vec<usize>,
    who: usize,
    needed_tokens: usize,
) -> (r: Result<Vec<usize>, BlockError>)
    requires
        old(bm).wf(),
        who < old(entries).len(),
        old(entries).len() == seq_ids.len(),
        forall|i: int| 0 <= i < seq_ids.len() ==> (#[trigger] seq_ids@[i]) < old(bm).num_seqs(),
        forall|i: int, j: int| 0 <= i < j < seq_ids.len() ==> seq_ids@[i] != seq_ids@[j],
    ensures
        final(bm).wf(),
        final(bm).num_seqs() == old(bm).num_seqs(),
        final(entries).len() == old(entries).len(),
        forall|i: int|
            0 <= i < old(entries).len() ==> {
                &&& (#[trigger] final(entries)@[i]).in_prompt == old(entries)@[i].in_prompt
                &&& final(entries)@[i].blocks_needed == old(entries)@[i].blocks_needed
                &&& final(entries)@[i].admitted == old(entries)@[i].admitted
                &&& final(entries)@[i].running ==> old(entries)@[i].running
            },
        final(entries)@[who as int] == old(entries)@[who as int],
        r matches Ok(evicted) ==> {
            &&& final(bm).table(seq_ids@[who as int] as int).len() * final(bm).block_size() >= needed_tokens
            &&& forall|k: int|
                0 <= k < evicted@.len() ==> {
                    let v = #[trigger] evicted@[k] as int;
                    &&& 0 <= v < old(entries).len()
                    &&& v != who
                    &&& old(entries)@[v].running
                    &&& !final(entries)@[v].running
                    &&& final(bm).table(seq_ids@[v] as int) == Seq::<usize>::empty()
                }
            &&& forall|i: int|
                0 <= i < old(entries).len() && old(entries)@[i].running && !(#[trigger] final(entries)@[i]).running
                    ==> evicted@.contains(i as usize)
            &&& forall|k: int, i: int|
                0 <= k < evicted@.len() && 0 <= i < old(entries).len() && i != who && (#[trigger] final(entries)@[i]).running ==> old(entries)@[i].admitted <= old(entries)@[#[trigger] evicted@[k] as int].admitted
        },
        old(bm).blocks_missing(seq_ids@[who as int] as int, needed_tokens as nat) <= old(bm).free_list().len() ==> (r matches Ok(
            evicted,
        ) && evicted@.len() == 0),
        r is Err ==> r == Err::<Vec<usize>, BlockError>(BlockError::OutOfMemory) && final(bm).blocks_missing(
            seq_ids@[who as int] as int,
            needed_tokens as nat,
        ) > final(bm).free_list().len() && forall|j: int|
            0 <= j < final(entries).len() ==> !#[trigger] evictable(final(entries)@, Some(who), j),
{
    let mut evicted: Vec<usize> = Vec::new();
    loop
        invariant
            bm.wf(),
            bm.num_seqs() == old(bm).num_seqs(),
            who < entries.len(),
            entries.len() == old(entries).len(),
            entries.len() == seq_ids.len(),
            forall|i: int| 0 <= i < seq_ids.len() ==> (#[trigger] seq_ids@[i]) < old(bm).num_seqs(),
            forall|i: int, j: int| 0 <= i < j < seq_ids.len() ==> seq_ids@[i] != seq_ids@[j],
            forall|i: int|
                0 <= i < old(entries).len() ==> {
                    &&& (#[trigger] entries@[i]).in_prompt == old(entries)@[i].in_prompt
                    &&& entries@[i].blocks_needed == old(entries)@[i].blocks_needed
                    &&& entries@[i].admitted == old(entries)@[i].admitted
                    &&& entries@[i].running ==> old(entries)@[i].running
                },
            entries@[who as int] == old(entries)@[who as int],
            forall|k: int, i: int|
                0 <= k < evicted@.len() && 0 <= i < old(entries).len() && i != who && (#[trigger] entries@[i]).running
                    ==> old(entries)@[i].admitted <= old(entries)@[#[trigger] evicted@[k] as int].admitted,
            evicted@.len() == 0 ==> *bm == *old(bm),
            evicted@.len() > 0 ==> old(bm).blocks_missing(seq_ids@[who as int] as int, needed_tokens as nat) > old(
                bm,
            ).free_list().len(),
            forall|k: int|
                0 <= k < evicted@.len() ==> {
                    let v = #[trigger] evicted@[k] as int;
                    &&& 0 <= v < old(entries).len()
                    &&& v != who
                    &&& old(entries)@[v].running
                    &&& !entries@[v].running
                    &&& bm.table(seq_ids@[v] as int) == Seq::<usize>::empty()
                },
            forall|i: int|
                0 <= i < old(entries).len() && old(entries)@[i].running && !(#[trigger] entries@[i]).running
                    ==> evicted@.contains(i as usize),
        decreases running_count(entries@),
    {
        let ghost before = *bm;
        match bm.allocate(seq_ids[who], needed_tokens) {
            Ok(()) => {
                proof {
                    assert forall|k: int| 0 <= k < evicted@.len() implies bm.table(seq_ids@[evicted@[k] as int] as int)
                        == Seq::<usize>::empty() by {
                        let v = evicted@[k] as int;
                        assert(seq_ids@[v] != seq_ids@[who as int]);
                        assert(bm.table(seq_ids@[v] as int) == before.table(seq_ids@[v] as int));
                    }
                }
                return Ok(evicted);
            },
            Err(_) => {},
        }
        match choose_victim(entries, Some(who)) {
            None => {
                return Err(BlockError::OutOfMemory);
            },
            Some(v) => {
                let ghost pre_bm = *bm;
                let ghost pre_entries = entries@;
                let ghost pre_evicted = evicted@;
                bm.free(seq_ids[v]);
                let mut x = entries[v];
                x.running = false;
                proof {
                    lemma_running_count_stop(entries@, v as int, x);
                }
                entries.set(v, x);
                evicted.push(v);
                proof {
                    assert forall|k: int| 0 <= k < evicted@.len() implies {
                        let w = #[trigger] evicted@[k] as int;
                        &&& 0 <= w < old(entries).len()
                        &&& w != who
                        &&& old(entries)@[w].running
                        &&& !entries@[w].running
                        &&& bm.table(seq_ids@[w] as int) == Seq::<usize>::empty()
                    } by {
                        let w = evicted@[k] as int;
                        if k < evicted@.len() - 1 {
                            if w != v {
                                assert(seq_ids@[w] != seq_ids@[v as int]);
                                assert(bm.table(seq_ids@[w] as int) == pre_bm.table(seq_ids@[w] as int));
                            }
                        }
                    }
                    assert forall|k: int, i: int|
                        0 <= k < evicted@.len() && 0 <= i < old(entries).len() && i != who && (#[trigger] entries@[i]).running
                            implies old(entries)@[i].admitted <= old(entries)@[#[trigger] evicted@[k] as int].admitted by {
                        assert(entries@[i] == pre_entries[i]);
                        if k == evicted@.len() - 1 {
                            assert(evicted@[k] == v);
                            assert(evictable(pre_entries, Some(who), i));
                        } else {
                            assert(evicted@[k] == pre_evicted[k]);
                        }
                    }
                    assert forall|i: int|
                        0 <= i < old(entries).len() && old(entries)@[i].running && !(#[trigger] entries@[i]).running
                            implies evicted@.contains(i as usize) by {
                        if i == v {
                            assert(evicted@[evicted@.len() - 1] == v);
                        } else {
                            assert(entries@[i] == pre_entries[i]);
                            assert(pre_evicted.contains(i as usize));
                            let k = choose|k: int| 0 <= k < pre_evicted.len() && pre_evicted[k] == i as usize;
                            assert(evicted@ == pre_evicted.push(v));
                            assert(evicted@[k] == i as usize);
                        }
                    }
                }
            },
        }
    }
}


/// Records the outcome of sending a sequence's pending chunk (see
/// `Sequence::on_chunk_sent`). A sequence that is finished afterwards, by a
/// stop or by a closed sink, releases its cache blocks.
pub fn record_delivery(seq: &mut Sequence, bm: &mut BlockManager, cache_id: usize, delivered: bool)
    requires
        old(seq).wf(),
        old(bm).wf(),
        cache_id < old(bm).num_seqs(),
    ensures
        final(seq).wf(),
        final(bm).wf(),
        final(seq).committed() == old(seq).committed(),
        !delivered ==> final(seq).state_spec() == SeqState::Finished(StopReason::Cancelled),
        delivered ==> final(seq).chunks_spec() == old(seq).chunks_spec().push(
            old(seq).generated().subrange(old(seq).delivered_spec() as int, old(seq).generated().len() as int),
        ),
        final(seq).state_spec() is Finished ==> BlockManager::free_post(*old(bm), *final(bm), cache_id as int),
        !(final(seq).state_spec() is Finished) ==> *final(bm) == *old(bm),
{
    seq.on_chunk_sent(delivered);
    match seq.state() {
        SeqState::Finished(_) => bm.free(cache_id),
        _ => {},
    }
}

/// Commits a sampled token unless the sequence is finished, in which case
/// nothing changes: a cancelled or stopped sequence does not advance.
pub fn commit_sampled(seq: &mut Sequence, tok: u32, disable_eos_stop: bool, stop_string_hit: Option<usize>) -> (r: Option<
    StopReason,
>)
    requires
        old(seq).wf(),
        old(seq).all_tokens().len() == old(seq).committed().len(),
    ensures
        final(seq).wf(),
        old(seq).state_spec() is Finished ==> *final(seq) == *old(seq) && r is None,
        !(old(seq).state_spec() is Finished) ==> final(seq).committed() == old(seq).committed().push(tok),
{
    match seq.state() {
        SeqState::Finished(_) => None,
        _ => seq.add_token(tok, disable_eos_stop, stop_string_hit),
    }
}

} // verus!
