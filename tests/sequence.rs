use mistralrs::sequence::{contains_stop, find_stop_string, SeqState, Sequence, StopReason};

fn seq(max_len: Option<usize>) -> Sequence {
    Sequence::new(3, vec![1, 2, 3], max_len, vec![50], vec![99])
}

#[test]
fn chunks_concatenate_to_generated_tokens() {
    let mut s = seq(None);
    s.set_state(SeqState::Running);
    let mut received = Vec::new();
    for (i, t) in [10u32, 11, 12, 13, 14].iter().enumerate() {
        assert_eq!(s.add_token(*t, false, None), None);
        if i % 2 == 1 {
            continue;
        }
        let chunk = s.pending_chunk();
        received.extend(chunk);
        s.on_chunk_sent(true);
    }
    assert_eq!(received, vec![10, 11, 12, 13, 14]);
    assert!(s.pending_chunk().is_empty());
    assert_eq!(s.get_toks(), &vec![1, 2, 3, 10, 11, 12, 13, 14]);
}

#[test]
fn closed_sink_cancels() {
    let mut s = seq(None);
    s.set_state(SeqState::Running);
    s.add_token(10, false, None);
    s.on_chunk_sent(false);
    assert_eq!(s.state(), SeqState::Finished(StopReason::Cancelled));
}

#[test]
fn stop_conditions_in_order() {
    let mut s = seq(Some(5));
    s.set_state(SeqState::Running);
    assert_eq!(s.add_token(99, true, None), None);
    assert_eq!(s.add_token(99, false, Some(0)), Some(StopReason::Eos));
    let mut s = seq(Some(5));
    assert_eq!(s.add_token(50, false, Some(1)), Some(StopReason::StopTok(50)));
    let mut s = seq(Some(5));
    assert_eq!(s.add_token(7, false, Some(1)), Some(StopReason::StopString(1)));
    let mut s = seq(Some(5));
    assert_eq!(s.add_token(7, false, None), None);
    assert_eq!(s.add_token(8, false, None), Some(StopReason::Length(5)));
    assert_eq!(s.state(), SeqState::Waiting);
    s.on_chunk_sent(true);
    assert_eq!(s.state(), SeqState::Finished(StopReason::Length(5)));
}

#[test]
fn tmp_tokens_do_not_commit() {
    let mut s = seq(None);
    s.add_tmp_tok(40);
    s.add_tmp_tok(41);
    assert_eq!(s.get_toks(), &vec![1, 2, 3, 40, 41]);
    assert!(s.pending_chunk().is_empty());
    s.remove_tmp_tok(5);
    assert_eq!(s.get_toks(), &vec![1, 2, 3]);
    s.set_prefill_toks(vec![3, 40]);
    assert_eq!(s.get_toks(), &vec![3, 40]);
    s.reset_prefill_toks();
    assert_eq!(s.get_toks(), &vec![1, 2, 3]);
    assert_eq!(s.id(), 3);
}

#[test]
fn stop_strings_match_bytes() {
    let text = b"hello</s> world".to_vec();
    assert!(contains_stop(&text, &b"</s>".to_vec()));
    assert!(!contains_stop(&text, &b"<|end|>".to_vec()));
    assert!(contains_stop(&text, &Vec::new()));
    assert!(!contains_stop(&b"ab".to_vec(), &b"abc".to_vec()));
    let stops = vec![b"xyz".to_vec(), b"world".to_vec(), b"hello".to_vec()];
    assert_eq!(find_stop_string(&text, &stops), Some(1));
    assert_eq!(find_stop_string(&b"none".to_vec(), &stops), None);
}
