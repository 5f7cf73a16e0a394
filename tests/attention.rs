use mistralrs::attention::{attention_mask, kv_interleave, sliding_window_view};

#[test]
fn causal_mask_over_cache() {
    let m = attention_mask(2, 2, None);
    assert_eq!(m, vec![vec![true, true, true, false], vec![true, true, true, true]]);
}

#[test]
fn sliding_window_mask_limits_reach() {
    let m = attention_mask(0, 4, Some(2));
    assert_eq!(
        m,
        vec![
            vec![true, false, false, false],
            vec![true, true, false, false],
            vec![false, true, true, false],
            vec![false, false, true, true],
        ]
    );
}

#[test]
fn sliding_window_view_keeps_last_positions() {
    assert_eq!(sliding_window_view(10, Some(4)), (6, 4));
    assert_eq!(sliding_window_view(3, Some(4)), (0, 3));
    assert_eq!(sliding_window_view(3, None), (0, 3));
}

#[test]
fn interleave_constant() {
    assert_eq!(kv_interleave(2), 8);
    assert_eq!(kv_interleave(4), 4);
}
