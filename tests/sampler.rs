use mistralrs::sampler::{
    apply_allowed_mask, apply_logit_bias, apply_repeat_presence_penalty, apply_top_k_top_p, argmax, desc_argsort, Sampler, SamplerError,
    SCALE,
};

fn fixed(xs: &[f64]) -> Vec<i64> {
    xs.iter().map(|x| (x * SCALE as f64).round() as i64).collect()
}

fn argmax_sampler() -> Sampler {
    Sampler::new(0, None, 0, None, None, None, 0, 0)
}

#[test]
fn argmax_picks_highest_logit() {
    let mut s = argmax_sampler();
    let logits = fixed(&[1.0, 5.0, 3.0, 2.0]);
    let r = s.sample(&logits, None, false).unwrap();
    assert_eq!(r.token, 1);
    assert_eq!(r.score, 5 * SCALE as i128);
    assert!(r.top.is_none());
}

#[test]
fn argmax_tie_takes_last() {
    let w: Vec<i128> = vec![3, 7, 7, 1];
    assert_eq!(argmax(&w), 2);
}

#[test]
fn zero_temperature_is_argmax() {
    let s = Sampler::new(1, Some(0), 0, None, None, None, 0, 0);
    assert!(s.config().temperature.is_none());
    let s = Sampler::new(1, Some(700_000), 0, None, None, None, 0, 0);
    assert_eq!(s.config().temperature, Some(700_000));
}

#[test]
fn presence_penalty_flips_choice() {
    let mut s = Sampler::new(0, None, 0, Some(0), Some(500_000), None, 0, 0);
    let logits = fixed(&[2.0, 2.0]);
    let ctx = vec![0u32];
    let r = s.sample(&logits, Some(&ctx), false).unwrap();
    assert_eq!(r.token, 1);
    let p = apply_repeat_presence_penalty(&logits, 500_000, 0, &ctx);
    assert_eq!(p, vec![1_500_000, 2_000_000]);
}

#[test]
fn repeat_penalty_counts_occurrences() {
    let logits = vec![10, 10, 10];
    let ctx = vec![2u32, 2, 0, 7];
    let p = apply_repeat_presence_penalty(&logits, 1, 3, &ctx);
    assert_eq!(p, vec![10 - 3 - 1, 10, 10 - 6 - 1]);
}

#[test]
fn penalty_without_context_is_refused() {
    let mut s = Sampler::new(0, None, 0, Some(1), None, None, 0, 0);
    assert_eq!(s.sample(&vec![1, 2], None, false).unwrap_err(), SamplerError::MissingContext);
}

#[test]
fn logit_bias_adds_and_checks_range() {
    let mut w: Vec<i128> = vec![0, 0, 0];
    assert_eq!(apply_logit_bias(&mut w, &vec![(2, 5), (0, -1)]), Ok(()));
    assert_eq!(w, vec![-1, 0, 5]);
    assert_eq!(apply_logit_bias(&mut w, &vec![(1, 5), (3, 1)]), Err(SamplerError::BiasIndexOutOfRange));
    assert_eq!(w, vec![-1, 0, 5]);
    let mut s = Sampler::new(0, None, 0, None, None, Some(vec![(0, 10)]), 0, 0);
    assert_eq!(s.sample(&vec![5, 9], None, false).unwrap().token, 0);
    let mut s = Sampler::new(0, None, 0, None, None, Some(vec![(4, 10)]), 0, 0);
    assert_eq!(s.sample(&vec![5, 9], None, false).unwrap_err(), SamplerError::BiasIndexOutOfRange);
}

#[test]
fn top_p_cutoff_keeps_mass_until_reached() {
    // Probabilities 0.5 / 0.3 / 0.2 with top-p 0.6: the walk keeps token 0
    // (mass 0 < 0.6), keeps token 1 (mass 0.5 < 0.6) and drops token 2
    // (mass 0.8 >= 0.6).
    let w: Vec<i128> = vec![500_000, 300_000, 200_000];
    let o = desc_argsort(&w);
    assert_eq!(o, vec![0, 1, 2]);
    assert_eq!(apply_top_k_top_p(&w, &o, 0, 600_000), vec![500_000, 300_000, 0]);
    let mut s = Sampler::new(42, Some(SCALE as u64), 0, None, None, None, 0, 600_000);
    for _ in 0..200 {
        let t = s.sample(&vec![500_000, 300_000, 200_000], None, false).unwrap().token;
        assert!(t == 0 || t == 1);
    }
}

#[test]
fn top_p_lower_never_widens_support() {
    let w: Vec<i128> = vec![100_000, 400_000, 250_000, 250_000];
    let o = desc_argsort(&w);
    assert_eq!(o, vec![1, 2, 3, 0]);
    let narrow = apply_top_k_top_p(&w, &o, 0, 300_000);
    let middle = apply_top_k_top_p(&w, &o, 0, 600_000);
    let wide = apply_top_k_top_p(&w, &o, 0, 900_000);
    assert_eq!(narrow, vec![0, 400_000, 0, 0]);
    assert_eq!(middle, vec![0, 400_000, 250_000, 0]);
    assert_eq!(wide, vec![0, 400_000, 250_000, 250_000]);
    for i in 0..4 {
        if narrow[i] != 0 {
            assert_eq!(middle[i], narrow[i]);
        }
        if middle[i] != 0 {
            assert_eq!(wide[i], middle[i]);
        }
    }
}

#[test]
fn top_k_zeroes_the_tail() {
    let w: Vec<i128> = vec![1, 5, 3, 4];
    let o = desc_argsort(&w);
    assert_eq!(apply_top_k_top_p(&w, &o, 2, 0), vec![0, 5, 0, 4]);
    assert_eq!(apply_top_k_top_p(&w, &o, 0, SCALE), vec![1, 5, 3, 4]);
}

#[test]
fn same_seed_same_tokens() {
    let probs = vec![100_000, 200_000, 300_000, 400_000];
    let mut a = Sampler::new(7, Some(SCALE as u64), 0, None, None, None, 0, 0);
    let mut b = Sampler::new(7, Some(SCALE as u64), 0, None, None, None, 0, 0);
    let ta: Vec<u32> = (0..50).map(|_| a.sample(&probs, None, false).unwrap().token).collect();
    let tb: Vec<u32> = (0..50).map(|_| b.sample(&probs, None, false).unwrap().token).collect();
    assert_eq!(ta, tb);
    assert!(ta.iter().any(|t| *t != ta[0]));
}

#[test]
fn draw_never_picks_zero_weight() {
    let mut s = Sampler::new(3, Some(SCALE as u64), 0, None, None, None, 0, 0);
    for _ in 0..200 {
        let t = s.sample(&vec![0, 300_000, 0, 700_000], None, false).unwrap().token;
        assert!(t == 1 || t == 3);
    }
}

#[test]
fn invalid_weights_are_refused() {
    let mut s = Sampler::new(3, Some(SCALE as u64), 0, None, None, None, 0, 0);
    assert_eq!(s.sample(&vec![0, 0], None, false).unwrap_err(), SamplerError::InvalidWeights);
    assert_eq!(s.sample(&vec![-5, 10], None, false).unwrap_err(), SamplerError::InvalidWeights);
}

#[test]
fn top_logprobs_lists_best_tokens() {
    let mut s = Sampler::new(0, None, 2, None, None, None, 0, 0);
    let r = s.sample(&vec![1, 9, 4, 9], None, true).unwrap();
    assert_eq!(r.token, 3);
    let top = r.top.unwrap();
    assert_eq!(top.len(), 2);
    assert_eq!((top[0].token, top[0].score), (1, 9));
    assert_eq!((top[1].token, top[1].score), (3, 9));
    let mut s = Sampler::new(0, None, 10, None, None, None, 0, 0);
    assert_eq!(s.sample(&vec![1, 2], None, true).unwrap().top.unwrap().len(), 2);
}

#[test]
fn desc_argsort_orders_ties_by_index() {
    let w: Vec<i128> = vec![2, 8, 2, 5, 8];
    assert_eq!(desc_argsort(&w), vec![1, 4, 3, 0, 2]);
}

#[test]
fn recognizer_mask_blocks_tokens() {
    let mut scores = vec![9, 3, 7, 1];
    apply_allowed_mask(&mut scores, &vec![false, true, true], i64::MIN);
    assert_eq!(scores, vec![i64::MIN, 3, 7, 1]);
    let mut s = argmax_sampler();
    assert_eq!(s.sample(&scores, None, false).unwrap().token, 2);
}

#[test]
fn prepare_logits_applies_penalty_and_bias() {
    let s = Sampler::new(0, Some(SCALE as u64), 0, Some(100), None, Some(vec![(1, 7)]), 0, 0);
    let ctx = vec![0u32, 0];
    assert_eq!(s.prepare_logits(&vec![1000, 1000], Some(&ctx)), Ok(vec![800, 1007]));
    assert_eq!(s.prepare_logits(&vec![1000, 1000], None), Err(SamplerError::MissingContext));
    assert_eq!(s.prepare_logits(&vec![1000], Some(&ctx)), Err(SamplerError::BiasIndexOutOfRange));
}

#[test]
fn sampling_mode_checks_context_and_bias() {
    let mut s = Sampler::new(0, Some(SCALE as u64), 0, Some(1), None, None, 0, 0);
    assert_eq!(s.sample(&vec![500_000, 500_000], None, false).unwrap_err(), SamplerError::MissingContext);
    let mut s = Sampler::new(0, Some(SCALE as u64), 0, None, None, Some(vec![(5, 1)]), 0, 0);
    assert_eq!(s.sample(&vec![1_000_000], None, false).unwrap_err(), SamplerError::BiasIndexOutOfRange);
}
