use mistralrs::sampler::{Sampler, SCALE};
use mistralrs::speculative::{reconcile, residual_distribution, vocabularies_match, DraftSample};
use rand::SeedableRng;
use rand_isaac::Isaac64Rng;

fn seeded_isaac(seed: u64) -> Isaac64Rng {
    Isaac64Rng::seed_from_u64(seed)
}

fn sampling(seed: u64) -> Sampler {
    Sampler::new(seed, Some(SCALE as u64), 0, None, None, None, 0, 0)
}

#[test]
fn residual_is_positive_part_of_difference() {
    let p = vec![200_000u32, 800_000];
    let q = vec![900_000u32, 100_000];
    assert_eq!(residual_distribution(&p, &q), vec![0, 700_000]);
}

#[test]
fn same_model_accepts_all_drafts_and_a_bonus() {
    let dist = vec![100_000u32, 600_000, 300_000];
    let drafts: Vec<DraftSample> = [1u32, 2, 0]
        .iter()
        .map(|t| DraftSample { token: *t, dist: dist.clone() })
        .collect();
    let targets = vec![dist.clone(); 4];
    let mut rng = seeded_isaac(5);
    let mut sampler = sampling(9);
    for _ in 0..50 {
        let toks = reconcile(&drafts, &targets, 3, &mut rng, &mut sampler).unwrap().tokens;
        assert_eq!(toks.len(), 4);
        assert_eq!(&toks[..3], &[1, 2, 0]);
        assert!(toks[3] < 3);
    }
}

#[test]
fn rejected_draft_is_replaced_from_residual() {
    let q = vec![900_000u32, 100_000];
    let p = vec![200_000u32, 800_000];
    let drafts = vec![DraftSample { token: 0, dist: q.clone() }];
    let targets = vec![p.clone(), p.clone()];
    let mut rng = seeded_isaac(11);
    let mut sampler = sampling(12);
    let trials = 9000;
    let mut kept = 0;
    for _ in 0..trials {
        let toks = reconcile(&drafts, &targets, 2, &mut rng, &mut sampler).unwrap().tokens;
        if toks[0] == 0 {
            kept += 1;
            assert_eq!(toks.len(), 2);
        } else {
            assert_eq!(toks, vec![1]);
        }
    }
    let rate = kept as f64 / trials as f64;
    assert!((rate - 2.0 / 9.0).abs() < 0.03, "acceptance rate {rate}");
}

#[test]
fn first_committed_token_follows_target() {
    let q = vec![900_000u32, 100_000];
    let p = vec![200_000u32, 800_000];
    let mut draft_sampler = sampling(21);
    let mut sampler = sampling(22);
    let mut rng = seeded_isaac(23);
    let trials = 20000;
    let mut ones = 0;
    for _ in 0..trials {
        let t = draft_sampler.sample(&q.iter().map(|x| *x as i64).collect(), None, false).unwrap().token;
        let drafts = vec![DraftSample { token: t, dist: q.clone() }];
        let targets = vec![p.clone(), p.clone()];
        let toks = reconcile(&drafts, &targets, 2, &mut rng, &mut sampler).unwrap().tokens;
        if toks[0] == 1 {
            ones += 1;
        }
    }
    let rate = ones as f64 / trials as f64;
    assert!((rate - 0.8).abs() < 0.02, "rate of token 1: {rate}");
}

use mistralrs::sequence::{Sequence, StopReason};
use mistralrs::speculative::{commit_accepted, verify_input, SpecAction, SpecStep, SpeculativeConfig};

#[test]
fn verify_input_feeds_last_token_and_drafts() {
    assert_eq!(verify_input(&vec![1, 2, 3], false, &vec![7, 8]), vec![3, 7, 8]);
    assert_eq!(verify_input(&vec![1, 2, 3], true, &vec![7, 8]), vec![1, 2, 3, 7, 8]);
}

#[test]
fn commit_stops_at_first_stop_token() {
    let mut s = Sequence::new(0, vec![1], None, vec![], vec![9]);
    let (n, stop) = commit_accepted(&mut s, &vec![4, 9, 5], false);
    assert_eq!((n, stop), (2, Some(StopReason::Eos)));
    assert_eq!(s.committed_tokens(), vec![1, 4, 9]);
    let mut s = Sequence::new(0, vec![1], Some(3), vec![], vec![]);
    let (n, stop) = commit_accepted(&mut s, &vec![4, 5, 6], false);
    assert_eq!((n, stop), (2, Some(StopReason::Length(3))));
}

#[test]
fn speculative_step_commits_four_with_same_model() {
    let dist = vec![100_000u32, 600_000, 300_000];
    let mut seq = Sequence::new(0, vec![2, 1], None, vec![], vec![]);
    let mut step = SpecStep::new(SpeculativeConfig { gamma: 3 }, false);
    let mut first = true;
    for tok in [1u32, 2, 0] {
        match step.next_action(&seq) {
            SpecAction::RunDraft { tokens, is_prompt } => {
                assert_eq!(is_prompt, first);
                assert_eq!(tokens.len(), seq.all_toks().len());
            }
            SpecAction::RunTarget { .. } => panic!("drafts are missing"),
        }
        first = false;
        step.on_draft(&mut seq, DraftSample { token: tok, dist: dist.clone() });
    }
    match step.next_action(&seq) {
        SpecAction::RunTarget { tokens } => assert_eq!(tokens, vec![1, 1, 2, 0]),
        SpecAction::RunDraft { .. } => panic!("drafts are complete"),
    }
    let targets = vec![dist.clone(); 4];
    let mut rng = seeded_isaac(1);
    let mut sampler = sampling(2);
    let outcome = step.finish(&mut seq, &targets, 3, &mut rng, &mut sampler, false).unwrap();
    assert_eq!((outcome.committed, outcome.stop), (4, None));
    assert_eq!(&outcome.accepted[..3], &[1, 2, 0]);
    let toks = seq.committed_tokens();
    assert_eq!(&toks[..5], &[2, 1, 1, 2, 0]);
    assert_eq!(toks.len(), 6);
    assert_eq!(seq.all_toks().len(), 6);
}

#[test]
fn argmax_mode_replacement_is_residual_argmax() {
    let q = vec![900_000u32, 50_000, 50_000];
    let p = vec![200_000u32, 300_000, 500_000];
    let drafts = vec![DraftSample { token: 0, dist: q.clone() }];
    let targets = vec![p.clone(), p.clone()];
    let mut rng = seeded_isaac(3);
    let mut sampler = Sampler::new(0, None, 0, None, None, None, 0, 0);
    for _ in 0..200 {
        let toks = reconcile(&drafts, &targets, 3, &mut rng, &mut sampler).unwrap().tokens;
        if toks[0] != 0 {
            assert_eq!(toks, vec![2]);
        } else {
            assert_eq!(toks, vec![0, 2]);
        }
    }
}

#[test]
fn finish_clears_prefill_and_stops_at_eos() {
    let dist = vec![0u32, 1_000_000];
    let mut seq = Sequence::new(0, vec![0], None, vec![], vec![1]);
    seq.set_prefill_toks(vec![0, 1]);
    let mut step = SpecStep::new(SpeculativeConfig { gamma: 2 }, false);
    step.on_draft(&mut seq, DraftSample { token: 1, dist: dist.clone() });
    step.on_draft(&mut seq, DraftSample { token: 1, dist: dist.clone() });
    let targets = vec![dist.clone(); 3];
    let mut rng = seeded_isaac(4);
    let mut sampler = Sampler::new(0, None, 0, None, None, None, 0, 0);
    let o = step.finish(&mut seq, &targets, 2, &mut rng, &mut sampler, false).unwrap();
    assert_eq!(o.accepted, vec![1, 1, 1]);
    assert_eq!((o.committed, o.stop), (1, Some(StopReason::Eos)));
    assert_eq!(seq.get_toks(), &vec![0, 1]);
    assert_eq!(seq.committed_tokens(), vec![0, 1]);
}

#[test]
fn undrawable_bonus_fails() {
    let zero = vec![0u32, 0];
    let mut seq = Sequence::new(0, vec![0], None, vec![], vec![]);
    let step = SpecStep::new(SpeculativeConfig { gamma: 1 }, false);
    let mut step = step;
    step.on_draft(&mut seq, DraftSample { token: 0, dist: zero.clone() });
    let mut rng = seeded_isaac(4);
    let mut sampler = sampling(5);
    let r = step.finish(&mut seq, &vec![zero.clone(), zero.clone()], 2, &mut rng, &mut sampler, false);
    assert_eq!(r.unwrap_err(), mistralrs::sampler::SamplerError::InvalidWeights);
    assert_eq!(seq.committed_tokens(), vec![0]);
}

#[test]
fn acceptance_follows_the_draw() {
    let q = vec![900_000u32, 100_000];
    let p = vec![200_000u32, 800_000];
    let drafts = vec![DraftSample { token: 0, dist: q.clone() }];
    let targets = vec![p.clone(), p.clone()];
    let mut rng = seeded_isaac(31);
    let mut sampler = sampling(32);
    for _ in 0..500 {
        let rec = reconcile(&drafts, &targets, 2, &mut rng, &mut sampler).unwrap();
        let u = rec.draws[0].unwrap();
        assert!(u < 900_000);
        assert_eq!(rec.tokens[0] == 0, u < 200_000);
    }
    let same = vec![DraftSample { token: 1, dist: p.clone() }];
    let rec = reconcile(&same, &targets, 2, &mut rng, &mut sampler).unwrap();
    assert_eq!(rec.draws, vec![None]);
}

#[test]
fn vocabularies_compare_by_id() {
    let a = vec!["<s>".to_string(), "a".to_string()];
    let b = vec!["<s>".to_string(), "b".to_string()];
    assert!(vocabularies_match(&a, &a.clone()));
    assert!(!vocabularies_match(&a, &b));
    assert!(!vocabularies_match(&a, &vec!["<s>".to_string()]));
}
