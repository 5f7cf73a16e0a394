//! Speculative decoding: reconciling the tokens a small draft model proposed
//! with the distributions a large target model gave for the same positions.
//!
//! Distributions are fixed-point probabilities (see `sampler::SCALE`), one
//! entry per vocabulary token. A drafted token `t` at position `i` is kept
//! outright when the target gives it at least the draft's probability, and
//! otherwise when a number drawn uniformly below `q_i(t)` falls below
//! `p_i(t)`, that is with chance `p_i(t) / q_i(t)`. The first rejected token is
//! replaced by a draw from the residual `max(0, p_i - q_i)`, and nothing after
//! it is looked at. When every draft is kept, one bonus token is drawn from
//! the target's distribution for the position after the last draft.
use rand::Rng;
use vstd::prelude::*;

use crate::chat_template::texts;
use crate::sequence::{stop_for, Sequence, StopReason};
use crate::sampler::{
    as_scores, desc_order, drawable, is_last_argmax, kept_by_position, kept_weight, Sampler, SamplerConfig, SamplerError,
};

verus! {

#[verifier::external_type_specification]
#[verifier::external_body]
pub struct ExIsaac64Rng(rand_isaac::Isaac64Rng);

/// Relies on `rand::Rng::gen_range` over `0..den` for `u32`: a value drawn
/// uniformly from the range, so below `den`; it panics on an empty range.
#[verifier::external_body]
fn uniform_below(rng: &mut rand_isaac::Isaac64Rng, den: u32) -> (r: u32)
    requires
        0 < den,
    ensures
        r < den,
{
    rng.gen_range(0..den)
}

/// Settings of speculative decoding.
#[derive(Debug, Clone, Copy)]
pub struct SpeculativeConfig {
    /// How many tokens the draft model proposes per target step.
    pub gamma: usize,
}

/// A token the draft model proposed, with the draft's distribution for its
/// position.
#[derive(Debug, Clone)]
pub struct DraftSample {
    pub token: u32,
    pub dist: Vec<u32>,
}

/// `max(0, p - q)`, entry by entry.
pub open spec fn residual_of(p: Seq<u32>, q: Seq<u32>) -> Seq<u32> {
    Seq::new(p.len(), |j: int| if p[j] > q[j] { (p[j] - q[j]) as u32 } else { 0u32 })
}

/// The distribution a rejected position is resampled from: `max(0, p - q)`.
pub fn residual_distribution(p: &Vec<u32>, q: &Vec<u32>) -> (r: Vec<u32>)
    requires
        p.len() == q.len(),
    ensures
        r@ == residual_of(p@, q@),
{
    let mut r: Vec<u32> = Vec::new();
    let mut j: usize = 0;
    while j < p.len()
        invariant
            j <= p.len(),
            p.len() == q.len(),
            r@ == residual_of(p@, q@).subrange(0, j as int),
        decreases p.len() - j,
    {
        let v = if p[j] > q[j] {
            p[j] - q[j]
        } else {
            0
        };
        r.push(v);
        proof {
            assert(r@ =~= residual_of(p@, q@).subrange(0, j + 1));
        }
        j = j + 1;
    }
    proof {
        assert(r@ =~= residual_of(p@, q@));
    }
    r
}

/// Whether a drafted token can be kept without a draw.
pub open spec fn accepted_outright(p: u32, q: u32) -> bool {
    p >= q
}

fn widen(d: &Vec<u32>) -> (r: Vec<i64>)
    ensures
        r@.len() == d@.len(),
        forall|j: int| 0 <= j < d@.len() ==> #[trigger] r@[j] == d@[j] as i64,
{
    let mut r: Vec<i64> = Vec::new();
    let mut j: usize = 0;
    while j < d.len()
        invariant
            j <= d.len(),
            r@.len() == j,
            forall|k: int| 0 <= k < j ==> #[trigger] r@[k] == d@[k] as i64,
        decreases d.len() - j,
    {
        r.push(d[j] as i64);
        j = j + 1;
    }
    r
}

/// Whether the inputs of `reconcile` fit together: `gamma` drafts, `gamma + 1`
/// target distributions, all over one vocabulary.
pub open spec fn shapes_agree(drafts: Seq<DraftSample>, targets: Seq<Vec<u32>>, vocab: nat) -> bool {
    &&& targets.len() == drafts.len() + 1
    &&& 0 < vocab <= u32::MAX
    &&& forall|i: int| 0 <= i < drafts.len() ==> (#[trigger] drafts[i]).dist@.len() == vocab
    &&& forall|i: int| 0 <= i < drafts.len() ==> (#[trigger] drafts[i]).token < vocab
    &&& forall|i: int| 0 <= i < targets.len() ==> (#[trigger] targets[i])@.len() == vocab
}

/// A distribution as sampler scores.
pub open spec fn widened(d: Seq<u32>) -> Seq<i128> {
    Seq::new(d.len(), |j: int| d[j] as i128)
}

/// `tok` can come out of choosing from `w`: the last most likely without a
/// temperature, a token of positive weight after top-k and top-p with one.
pub open spec fn drawn(cfg: SamplerConfig, w: Seq<i128>, tok: u32) -> bool {
    if cfg.temperature is None {
        is_last_argmax(w, tok as int)
    } else {
        exists|t: int| 0 <= t < w.len() && desc_order(w)[t] == tok && #[trigger] kept_by_position(w, cfg.topk, cfg.topp)[t] > 0
    }
}

/// Weights the draw at position `i` uses: the residual `max(0, p_i - q_i)`.
pub open spec fn residual_at(drafts: Seq<DraftSample>, targets: Seq<Vec<u32>>, i: int) -> Seq<i128> {
    widened(residual_of(targets[i]@, drafts[i].dist@))
}

/// Target probability of draft `i`'s token.
pub open spec fn p_at(drafts: Seq<DraftSample>, targets: Seq<Vec<u32>>, i: int) -> u32 {
    targets[i]@[drafts[i].token as int]
}

/// Draft probability of draft `i`'s token.
pub open spec fn q_at(drafts: Seq<DraftSample>, i: int) -> u32 {
    drafts[i].dist@[drafts[i].token as int]
}

/// `toks` is what reconciling the drafts may give, `draws` the uniform
/// numbers it drew: drafts kept in order, then either the replacement of a
/// draft not kept, drawn from the residual, or, all drafts kept, a bonus
/// drawn from the last target distribution. Draft `i` is examined with no
/// draw when `p >= q` and kept; otherwise with a draw `u < q`, and kept
/// exactly when `u < p`.
pub open spec fn reconciled(
    cfg: SamplerConfig,
    drafts: Seq<DraftSample>,
    targets: Seq<Vec<u32>>,
    toks: Seq<u32>,
    draws: Seq<Option<u32>>,
) -> bool {
    let m = toks.len() - 1;
    &&& draws.len() == (if m < drafts.len() { m + 1 } else { drafts.len() as int })
    &&& forall|i: int|
        0 <= i < draws.len() ==> ((#[trigger] draws[i]) is None <==> accepted_outright(
            p_at(drafts, targets, i),
            q_at(drafts, i),
        ))
    &&& forall|i: int| 0 <= i < draws.len() && draws[i] is Some ==> (#[trigger] draws[i])->0 < q_at(drafts, i)
    &&& forall|i: int| 0 <= i < m && draws[i] is Some ==> (#[trigger] draws[i])->0 < p_at(drafts, targets, i)
    &&& m < drafts.len() ==> draws[m] is Some && draws[m]->0 >= p_at(drafts, targets, m)
    &&& 1 <= toks.len() <= drafts.len() + 1
    &&& forall|i: int| 0 <= i < m ==> #[trigger] toks[i] == drafts[i].token
    &&& m < drafts.len() ==> !accepted_outright(
        targets[m]@[drafts[m].token as int],
        drafts[m].dist@[drafts[m].token as int],
    ) && drawn(cfg, residual_at(drafts, targets, m), toks[m])
    &&& m == drafts.len() ==> drawn(cfg, widened(targets[m]@), toks[m])
}

/// Every draw reconciling could make is possible: without a temperature
/// always; with one, when the residual of each draft not kept outright and
/// the bonus distribution leave weight after top-k and top-p.
pub open spec fn draws_possible(cfg: SamplerConfig, drafts: Seq<DraftSample>, targets: Seq<Vec<u32>>) -> bool {
    cfg.temperature is None || ((forall|i: int|
        0 <= i < drafts.len() && !accepted_outright(
            targets[i]@[drafts[i].token as int],
            drafts[i].dist@[drafts[i].token as int],
        ) ==> drawable(kept_by_position(#[trigger] residual_at(drafts, targets, i), cfg.topk, cfg.topp)))
        && drawable(kept_by_position(widened(targets[drafts.len() as int]@), cfg.topk, cfg.topp)))
}

/// In sampling mode a drawn token has positive weight.
pub proof fn lemma_drawn_positive(cfg: SamplerConfig, w: Seq<i128>, tok: u32)
    requires
        cfg.temperature is Some,
        drawn(cfg, w, tok),
    ensures
        w[tok as int] > 0,
{
    let kw = kept_by_position(w, cfg.topk, cfg.topp);
    let t = choose|t: int| 0 <= t < w.len() && desc_order(w)[t] == tok && #[trigger] kept_by_position(w, cfg.topk, cfg.topp)[t] > 0;
    assert(kw[t] == kept_weight(w, desc_order(w), cfg.topk, cfg.topp, t) as i128);
}

/// Rejection sampling over the drafts. Returns the tokens to commit: a run
/// of kept drafts followed by either the replacement of the first rejected
/// draft or, when all were kept, a bonus token (see `reconciled`). The
/// replacement and the bonus come from `sampler.sample_distribution`.
pub fn reconcile(
    drafts: &Vec<DraftSample>,
    targets: &Vec<Vec<u32>>,
    vocab: usize,
    rng: &mut rand_isaac::Isaac64Rng,
    sampler: &mut Sampler,
) -> (r: Result<Reconciliation, SamplerError>)
    requires
        shapes_agree(drafts@, targets@, vocab as nat),
    ensures
        final(sampler).cfg() == old(sampler).cfg(),
        draws_possible(old(sampler).cfg(), drafts@, targets@) ==> r is Ok,
        r is Err ==> r == Err::<Reconciliation, SamplerError>(SamplerError::InvalidWeights),
        r matches Ok(rec) ==> reconciled(old(sampler).cfg(), drafts@, targets@, rec.tokens@, rec.draws@) && forall|i: int|
            0 <= i < rec.tokens@.len() ==> #[trigger] rec.tokens@[i] < vocab,
{
    let gamma = drafts.len();
    let ghost cfg = old(sampler).cfg();
    let mut out: Vec<u32> = Vec::new();
    let mut draws: Vec<Option<u32>> = Vec::new();
    let mut i: usize = 0;
    let mut rejected = false;
    while i < gamma && !rejected
        invariant
            i <= gamma,
            draws@.len() == (if rejected { i + 1 } else { i as int }),
            forall|k: int|
                0 <= k < draws@.len() ==> ((#[trigger] draws@[k]) is None <==> accepted_outright(
                    p_at(drafts@, targets@, k),
                    q_at(drafts@, k),
                )),
            forall|k: int| 0 <= k < draws@.len() && draws@[k] is Some ==> (#[trigger] draws@[k])->0 < q_at(drafts@, k),
            forall|k: int| 0 <= k < i && draws@[k] is Some ==> (#[trigger] draws@[k])->0 < p_at(drafts@, targets@, k),
            rejected ==> draws@[i as int] is Some && draws@[i as int]->0 >= p_at(drafts@, targets@, i as int),
            gamma == drafts@.len(),
            shapes_agree(drafts@, targets@, vocab as nat),
            sampler.cfg() == cfg,
            cfg == old(sampler).cfg(),
            out@.len() == i,
            forall|k: int| 0 <= k < i ==> #[trigger] out@[k] == drafts@[k].token,
            forall|k: int| 0 <= k < i ==> #[trigger] out@[k] < vocab,
            rejected ==> i < gamma && !accepted_outright(
                targets@[i as int]@[drafts@[i as int].token as int],
                drafts@[i as int].dist@[drafts@[i as int].token as int],
            ),
        decreases gamma - i + (if rejected { 0int } else { 1int }),
    {
        let tok = drafts[i].token;
        let q = drafts[i].dist[tok as usize];
        let p = targets[i][tok as usize];
        let keep = if p >= q {
            draws.push(None);
            true
        } else {
            let u = uniform_below(rng, q);
            draws.push(Some(u));
            u < p
        };
        if keep {
            out.push(tok);
            i = i + 1;
        } else {
            rejected = true;
        }
    }
    let scores = if rejected {
        let res = residual_distribution(&targets[i], &drafts[i].dist);
        let sc = widen(&res);
        proof {
            assert(as_scores(sc@) =~= residual_at(drafts@, targets@, i as int));
        }
        sc
    } else {
        let sc = widen(&targets[gamma]);
        proof {
            assert(as_scores(sc@) =~= widened(targets@[gamma as int]@));
        }
        sc
    };
    let sampled = sampler.sample_distribution(&scores, false);
    match sampled {
        Err(e) => Err(e),
        Ok(st) => {
            out.push(st.token);
            proof {
                assert(out@[i as int] == st.token);
            }
            Ok(Reconciliation { tokens: out, draws })
        },
    }
}

/// The outcome of reconciling: the tokens to commit and, per examined
/// draft, the uniform draw that decided it (none when kept outright).
#[derive(Debug, Clone)]
pub struct Reconciliation {
    pub tokens: Vec<u32>,
    pub draws: Vec<Option<u32>>,
}

/// What the target model is fed to check the drafts: the whole sequence
/// on the first step (`is_prompt`), else its last committed token, then
/// every drafted token. It yields one distribution per draft and a bonus.
pub fn verify_input(committed: &Vec<u32>, is_prompt: bool, drafted: &Vec<u32>) -> (r: Vec<u32>)
    requires
        committed.len() > 0,
    ensures
        r@ == (if is_prompt {
            committed@
        } else {
            seq![committed@.last()]
        }) + drafted@,
{
    let mut r: Vec<u32> = Vec::new();
    if is_prompt {
        let mut i: usize = 0;
        while i < committed.len()
            invariant
                i <= committed.len(),
                r@ == committed@.subrange(0, i as int),
            decreases committed.len() - i,
        {
            r.push(committed[i]);
            i = i + 1;
        }
        proof {
            assert(committed@.subrange(0, committed.len() as int) =~= committed@);
        }
    } else {
        r.push(committed[committed.len() - 1]);
        proof {
            assert(r@ =~= seq![committed@.last()]);
        }
    }
    let ghost head = r@;
    let mut j: usize = 0;
    while j < drafted.len()
        invariant
            j <= drafted.len(),
            r@ == head + drafted@.subrange(0, j as int),
        decreases drafted.len() - j,
    {
        r.push(drafted[j]);
        proof {
            assert(r@ =~= head + drafted@.subrange(0, j + 1));
        }
        j = j + 1;
    }
    proof {
        assert(drafted@.subrange(0, drafted.len() as int) =~= drafted@);
    }
    r
}

/// How many of `toks` get committed onto a sequence holding `base_len`
/// tokens: all of them, unless one triggers a stop, which is the last.
pub open spec fn commit_count(
    eos: Seq<u32>,
    stop_ids: Seq<u32>,
    max_len: Option<usize>,
    base_len: nat,
    toks: Seq<u32>,
    disable_eos_stop: bool,
    i: int,
) -> int
    decreases toks.len() - i,
{
    if i >= toks.len() || i < 0 {
        toks.len() as int
    } else if stop_for(eos, stop_ids, max_len, toks[i], (base_len + i + 1) as nat, disable_eos_stop, None) is Some {
        i + 1
    } else {
        commit_count(eos, stop_ids, max_len, base_len, toks, disable_eos_stop, i + 1)
    }
}

/// Commits the accepted tokens one by one, checking the stop conditions
/// after each; a token that triggers a stop is the last one committed.
/// Returns how many were committed and the stop, if one fired.
pub fn commit_accepted(seq: &mut Sequence, toks: &Vec<u32>, disable_eos_stop: bool) -> (r: (usize, Option<StopReason>))
    requires
        old(seq).wf(),
        old(seq).all_tokens() == old(seq).committed(),
    ensures
        final(seq).wf(),
        r.0 == commit_count(
            old(seq).eos_ids_spec(),
            old(seq).stop_ids_spec(),
            old(seq).max_len_spec(),
            old(seq).committed().len(),
            toks@,
            disable_eos_stop,
            0,
        ),
        final(seq).committed() == old(seq).committed() + toks@.subrange(0, r.0 as int),
        final(seq).all_tokens() == final(seq).committed(),
        r.1 is Some <==> (r.0 > 0 && stop_for(
            old(seq).eos_ids_spec(),
            old(seq).stop_ids_spec(),
            old(seq).max_len_spec(),
            toks@[r.0 - 1],
            (old(seq).committed().len() + r.0) as nat,
            disable_eos_stop,
            None,
        ) is Some),
        r.1 is Some ==> r.1 == stop_for(
            old(seq).eos_ids_spec(),
            old(seq).stop_ids_spec(),
            old(seq).max_len_spec(),
            toks@[r.0 - 1],
            (old(seq).committed().len() + r.0) as nat,
            disable_eos_stop,
            None,
        ),
        final(seq).chunks_spec() == old(seq).chunks_spec(),
        final(seq).delivered_spec() == old(seq).delivered_spec(),
        final(seq).state_spec() == old(seq).state_spec(),
        r.1 is Some ==> final(seq).pending_stop_spec() == r.1,
        r.1 is None ==> final(seq).pending_stop_spec() == old(seq).pending_stop_spec(),
{
    let ghost base = old(seq).committed();
    let ghost eos = old(seq).eos_ids_spec();
    let ghost stops = old(seq).stop_ids_spec();
    let ghost ml = old(seq).max_len_spec();
    let mut i: usize = 0;
    let mut fired: Option<StopReason> = None;
    while i < toks.len() && fired.is_none()
        invariant
            i <= toks.len(),
            seq.wf(),
            seq.all_tokens() == seq.committed(),
            seq.committed() == base + toks@.subrange(0, i as int),
            forall|k: int|
                0 <= k < i && (fired is None || k < i - 1) ==> stop_for(
                    eos,
                    stops,
                    ml,
                    #[trigger] toks@[k],
                    (base.len() + k + 1) as nat,
                    disable_eos_stop,
                    None,
                ) is None,
            fired is Some ==> i > 0 && fired == stop_for(
                eos,
                stops,
                ml,
                toks@[i - 1],
                (base.len() + i) as nat,
                disable_eos_stop,
                None,
            ) && commit_count(eos, stops, ml, base.len(), toks@, disable_eos_stop, 0) == i,
            fired is None ==> commit_count(eos, stops, ml, base.len(), toks@, disable_eos_stop, 0) == commit_count(
                eos,
                stops,
                ml,
                base.len(),
                toks@,
                disable_eos_stop,
                i as int,
            ),
            seq.eos_ids_spec() == eos,
            seq.stop_ids_spec() == stops,
            seq.max_len_spec() == ml,
            seq.chunks_spec() == old(seq).chunks_spec(),
            seq.delivered_spec() == old(seq).delivered_spec(),
            seq.state_spec() == old(seq).state_spec(),
            fired is Some ==> seq.pending_stop_spec() == fired,
            fired is None ==> seq.pending_stop_spec() == old(seq).pending_stop_spec(),
        decreases toks.len() - i,
    {
        let stop = seq.add_token(toks[i], disable_eos_stop, None);
        proof {
            assert(toks@.subrange(0, i + 1) =~= toks@.subrange(0, i as int).push(toks@[i as int]));
            assert(seq.committed() =~= base + toks@.subrange(0, i + 1));
            assert(seq.committed().len() == base.len() + i + 1);
            if stop is None {
                assert(commit_count(eos, stops, ml, base.len(), toks@, disable_eos_stop, i as int) == commit_count(
                    eos,
                    stops,
                    ml,
                    base.len(),
                    toks@,
                    disable_eos_stop,
                    i + 1,
                ));
            } else {
                assert(commit_count(eos, stops, ml, base.len(), toks@, disable_eos_stop, i as int) == i + 1);
            }
        }
        fired = stop;
        i = i + 1;
    }
    proof {
        if fired is None {
            assert(i == toks.len());
            assert(toks@.subrange(0, toks.len() as int) =~= toks@);
        }
    }
    (i, fired)
}


/// What the speculative step asks its caller to run next.
#[derive(Debug, Clone)]
pub enum SpecAction {
    /// Run the draft model on `tokens` (a prompt pass when `is_prompt`),
    /// sample, and report the token with the draft's distribution.
    RunDraft { tokens: Vec<u32>, is_prompt: bool },
    /// Clear the draft's cache, rewind the target's cache by one token, run
    /// the target on `tokens` and report its distributions for the drafted
    /// positions and the bonus position.
    RunTarget { tokens: Vec<u32> },
}

/// One speculative step of a sequence: `gamma` draft proposals, then one
/// target pass and the reconciliation.
pub struct SpecStep {
    gamma: usize,
    is_prompt: bool,
    drafts: Vec<DraftSample>,
}

/// Tokens of the drafts.
pub open spec fn draft_tokens(d: Seq<DraftSample>) -> Seq<u32> {
    d.map_values(|x: DraftSample| x.token)
}

impl SpecStep {
    pub closed spec fn gamma_spec(&self) -> nat {
        self.gamma as nat
    }

    pub closed spec fn is_prompt_spec(&self) -> bool {
        self.is_prompt
    }

    pub closed spec fn drafts_spec(&self) -> Seq<DraftSample> {
        self.drafts@
    }

    /// A step proposing `config.gamma` tokens; `is_prompt` when the target
    /// has not seen the sequence yet.
    pub fn new(config: SpeculativeConfig, is_prompt: bool) -> (r: Self)
        requires
            config.gamma >= 1,
        ensures
            r.gamma_spec() == config.gamma,
            r.is_prompt_spec() == is_prompt,
            r.drafts_spec() == Seq::<DraftSample>::empty(),
    {
        SpecStep { gamma: config.gamma, is_prompt, drafts: Vec::new() }
    }

    /// The next model run: the draft while proposals are missing (its first
    /// run is a prompt pass), then the target over the last committed token
    /// (or the whole prompt) followed by the drafts.
    pub fn next_action(&self, seq: &Sequence) -> (r: SpecAction)
        requires
            seq.wf(),
            seq.committed().len() > 0,
        ensures
            self.drafts_spec().len() < self.gamma_spec() ==> (r matches SpecAction::RunDraft { tokens, is_prompt }
                && tokens@ == seq.all_tokens() && is_prompt == (self.drafts_spec().len() == 0)),
            self.drafts_spec().len() >= self.gamma_spec() ==> (r matches SpecAction::RunTarget { tokens } && tokens@
                == (if self.is_prompt_spec() {
                seq.committed()
            } else {
                seq![seq.committed().last()]
            }) + draft_tokens(self.drafts_spec())),
    {
        if self.drafts.len() < self.gamma {
            let all = seq.all_toks();
            let mut tokens: Vec<u32> = Vec::new();
            let mut i: usize = 0;
            while i < all.len()
                invariant
                    i <= all.len(),
                    tokens@ == all@.subrange(0, i as int),
                decreases all.len() - i,
            {
                tokens.push(all[i]);
                i = i + 1;
            }
            proof {
                assert(all@.subrange(0, all.len() as int) =~= all@);
            }
            SpecAction::RunDraft { tokens, is_prompt: self.drafts.len() == 0 }
        } else {
            let committed = seq.committed_tokens();
            let mut drafted: Vec<u32> = Vec::new();
            let mut i: usize = 0;
            while i < self.drafts.len()
                invariant
                    i <= self.drafts@.len(),
                    drafted@ == draft_tokens(self.drafts@).subrange(0, i as int),
                decreases self.drafts@.len() - i,
            {
                drafted.push(self.drafts[i].token);
                proof {
                    assert(drafted@ =~= draft_tokens(self.drafts@).subrange(0, i + 1));
                }
                i = i + 1;
            }
            proof {
                assert(drafted@ =~= draft_tokens(self.drafts@));
            }
            SpecAction::RunTarget { tokens: verify_input(&committed, self.is_prompt, &drafted) }
        }
    }

    /// Records a draft proposal and appends its token to the sequence's
    /// temporary tail.
    pub fn on_draft(&mut self, seq: &mut Sequence, sample: DraftSample)
        requires
            old(seq).wf(),
        ensures
            final(seq).wf(),
            final(self).drafts_spec() == old(self).drafts_spec().push(sample),
            final(self).gamma_spec() == old(self).gamma_spec(),
            final(self).is_prompt_spec() == old(self).is_prompt_spec(),
            final(seq).all_tokens() == old(seq).all_tokens().push(sample.token),
            final(seq).committed() == old(seq).committed(),
            final(seq).eos_ids_spec() == old(seq).eos_ids_spec(),
            final(seq).stop_ids_spec() == old(seq).stop_ids_spec(),
            final(seq).max_len_spec() == old(seq).max_len_spec(),
            final(seq).chunks_spec() == old(seq).chunks_spec(),
            final(seq).delivered_spec() == old(seq).delivered_spec(),
            final(seq).state_spec() == old(seq).state_spec(),
    {
        seq.add_tmp_tok(sample.token);
        self.drafts.push(sample);
    }

    /// Drops the proposals from the sequence's temporary tail and the
    /// prefill tokens, reconciles the proposals with the target's
    /// distributions (see `reconcile`), and commits what is accepted up to
    /// the first stop (see `commit_accepted`).
    pub fn finish(
        self,
        seq: &mut Sequence,
        targets: &Vec<Vec<u32>>,
        vocab: usize,
        rng: &mut rand_isaac::Isaac64Rng,
        sampler: &mut Sampler,
        disable_eos_stop: bool,
    ) -> (r: Result<StepOutcome, SamplerError>)
        requires
            old(seq).wf(),
            old(seq).all_tokens().len() - old(seq).committed().len() <= self.gamma_spec(),
            shapes_agree(self.drafts_spec(), targets@, vocab as nat),
        ensures
            final(seq).wf(),
            final(sampler).cfg() == old(sampler).cfg(),
            final(seq).all_tokens() == final(seq).committed(),
            final(seq).prefill_spec() is None,
            final(seq).chunks_spec() == old(seq).chunks_spec(),
            final(seq).delivered_spec() == old(seq).delivered_spec(),
            final(seq).state_spec() == old(seq).state_spec(),
            draws_possible(old(sampler).cfg(), self.drafts_spec(), targets@) ==> r is Ok,
            r is Err ==> r == Err::<StepOutcome, SamplerError>(SamplerError::InvalidWeights) && final(seq).committed()
                == old(seq).committed(),
            r matches Ok(o) ==> {
                let base = old(seq).committed();
                let n = o.committed as int;
                &&& reconciled(old(sampler).cfg(), self.drafts_spec(), targets@, o.accepted@, o.draws@)
                &&& n == commit_count(
                    old(seq).eos_ids_spec(),
                    old(seq).stop_ids_spec(),
                    old(seq).max_len_spec(),
                    base.len(),
                    o.accepted@,
                    disable_eos_stop,
                    0,
                )
                &&& 1 <= n <= o.accepted@.len()
                &&& final(seq).committed() == base + o.accepted@.subrange(0, n)
                &&& o.stop is Some <==> stop_for(
                    old(seq).eos_ids_spec(),
                    old(seq).stop_ids_spec(),
                    old(seq).max_len_spec(),
                    o.accepted@[n - 1],
                    (base.len() + n) as nat,
                    disable_eos_stop,
                    None,
                ) is Some
                &&& o.stop is Some ==> final(seq).pending_stop_spec() == o.stop
                &&& o.stop is None ==> final(seq).pending_stop_spec() == old(seq).pending_stop_spec()
                &&& o.stop is Some ==> o.stop == stop_for(
                    old(seq).eos_ids_spec(),
                    old(seq).stop_ids_spec(),
                    old(seq).max_len_spec(),
                    o.accepted@[n - 1],
                    (base.len() + n) as nat,
                    disable_eos_stop,
                    None,
                )
            },
    {
        seq.remove_tmp_tok(self.gamma);
        let rec = reconcile(&self.drafts, targets, vocab, rng, sampler);
        let r = match rec {
            Err(e) => Err(e),
            Ok(rec) => {
                let Reconciliation { tokens: toks, draws } = rec;
                let (n, stop) = commit_accepted(seq, &toks, disable_eos_stop);
                proof {
                    lemma_commit_count_positive(
                        old(seq).eos_ids_spec(),
                        old(seq).stop_ids_spec(),
                        old(seq).max_len_spec(),
                        old(seq).committed().len(),
                        toks@,
                        disable_eos_stop,
                        0,
                    );
                }
                Ok(StepOutcome { accepted: toks, draws, committed: n, stop })
            },
        };
        seq.reset_prefill_toks();
        r
    }
}

/// What a speculative step committed: the reconciled tokens and the draws
/// that decided them, how many of the tokens went onto the sequence, and
/// the stop that cut them short, if any.
#[derive(Debug, Clone)]
pub struct StepOutcome {
    pub accepted: Vec<u32>,
    pub draws: Vec<Option<u32>>,
    pub committed: usize,
    pub stop: Option<StopReason>,
}

proof fn lemma_commit_count_positive(
    eos: Seq<u32>,
    stop_ids: Seq<u32>,
    max_len: Option<usize>,
    base_len: nat,
    toks: Seq<u32>,
    disable_eos_stop: bool,
    i: int,
)
    requires
        0 <= i < toks.len(),
    ensures
        i + 1 <= commit_count(eos, stop_ids, max_len, base_len, toks, disable_eos_stop, i) <= toks.len(),
    decreases toks.len() - i,
{
    if i + 1 < toks.len() {
        lemma_commit_count_positive(eos, stop_ids, max_len, base_len, toks, disable_eos_stop, i + 1);
    } else {
        assert(commit_count(eos, stop_ids, max_len, base_len, toks, disable_eos_stop, i + 1) == toks.len());
    }
}


/// Whether draft and target share their vocabulary: the same text for
/// every token id (each list is indexed by id). Speculative decoding needs
/// this; a mismatch is fatal.
pub fn vocabularies_match(target: &Vec<String>, draft: &Vec<String>) -> (r: bool)
    ensures
        r == (texts(target@) == texts(draft@)),
{
    if target.len() != draft.len() {
        proof {
            assert(texts(target@).len() != texts(draft@).len());
        }
        return false;
    }
    let mut i: usize = 0;
    let mut same = true;
    while i < target.len() && same
        invariant
            i <= target.len(),
            target.len() == draft.len(),
            same ==> forall|k: int| 0 <= k < i ==> (#[trigger] target@[k])@ == draft@[k]@,
            !same ==> texts(target@) != texts(draft@),
        decreases target.len() - i + (if same { 1int } else { 0int }),
    {
        if target[i] == draft[i] {
            i = i + 1;
        } else {
            proof {
                assert(texts(target@)[i as int] != texts(draft@)[i as int]);
            }
            same = false;
        }
    }
    proof {
        if same {
            assert(texts(target@) =~= texts(draft@));
        }
    }
    same
}

} // verus!
