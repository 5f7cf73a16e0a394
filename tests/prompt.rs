use mistralrs::chat_template::{
    calculate_bos_strings, calculate_eos_strings, escape_json_for_html, lookup_token_ids, supported_alternate_eos,
    BeginEndUnkTok, ChatTemplate, ConfigError, TokenIds,
};
use mistralrs::config::{default_max_position_embeddings, AddedTokensDecoder, HqqAxis, HqqBits};
use mistralrs::responder::{CompletionResponder, JsonError, JsonModelError};

fn template(eos: Option<BeginEndUnkTok>, bos: Option<BeginEndUnkTok>) -> ChatTemplate {
    ChatTemplate {
        add_bos_token: None,
        add_eos_token: None,
        added_tokens_decoder: None,
        additional_special_tokens: None,
        bos_token: bos,
        chat_template: Some("{{ messages }}".to_string()),
        clean_up_tokenization_spaces: None,
        device_map: None,
        eos_token: eos,
        legacy: None,
        pad_token: None,
        sp_model_kwargs: None,
        spaces_between_special_tokens: None,
        tokenizer_class: None,
        truncation_size: None,
        unk_token: None,
        use_default_system_prompt: None,
    }
}

fn added(content: &str) -> AddedTokensDecoder {
    AddedTokensDecoder {
        kind: None,
        content: content.to_string(),
        lstrip: false,
        normalized: false,
        rstrip: false,
        single_word: false,
        special: Some(true),
    }
}

#[test]
fn eos_strings_union() {
    let t = template(Some(BeginEndUnkTok::Literal("</s>".to_string())), None);
    let r = calculate_eos_strings(&t, &vec![false, true], &vec!["</s>".to_string(), "<eot>".to_string(), "<eot>".to_string()]);
    assert_eq!(r, vec!["</s>", "<end_of_turn>", "<eot>"]);
    let t = template(Some(BeginEndUnkTok::Added(added("<|end|>"))), None);
    assert_eq!(t.eos_tok(), Some("<|end|>".to_string()));
    assert!(t.has_chat_template());
    let r = calculate_eos_strings(&t, &vec![true, false], &vec![]);
    assert_eq!(r, vec!["<|end|>", "<|im_end|>"]);
    assert_eq!(supported_alternate_eos(), vec!["<|im_end|>", "<end_of_turn>"]);
}

#[test]
fn bos_strings_dedup() {
    let t = template(None, Some(BeginEndUnkTok::Literal("<s>".to_string())));
    assert_eq!(calculate_bos_strings(&t, &vec!["<s>".to_string(), "<bos>".to_string()]), vec!["<s>", "<bos>"]);
    assert_eq!(t.unk_tok(), None);
    assert_eq!(TokenIds::One(4).to_vec(), vec![4]);
    assert_eq!(TokenIds::Many(vec![1, 2]).to_vec(), vec![1, 2]);
}

#[test]
fn token_lookup_and_missing_token() {
    let vocab = vec![("<s>".to_string(), 1u32), ("</s>".to_string(), 2), ("<|im_end|>".to_string(), 7)];
    assert_eq!(lookup_token_ids(&vec!["</s>".to_string(), "<|im_end|>".to_string()], &vocab), Ok(vec![2, 7]));
    assert_eq!(
        lookup_token_ids(&vec!["</s>".to_string(), "<eot>".to_string()], &vocab),
        Err(ConfigError::MissingToken(1))
    );
}

#[test]
fn tojson_escapes_html_characters() {
    let json = br#"{"a":"<b>&'x'"}"#.to_vec();
    let out = escape_json_for_html(&json);
    assert_eq!(String::from_utf8(out).unwrap(), r#"{"a":"\u003cb\u003e\u0026\u0027x\u0027"}"#);
}

#[test]
fn small_config_items() {
    assert_eq!(default_max_position_embeddings(), 4096);
    assert_eq!(HqqBits::Three.bits(), 3);
    assert_eq!(HqqBits::Eight.bits(), 8);
    assert_eq!(HqqAxis::One.index(), 1);
}

#[test]
fn responder_status_codes() {
    assert_eq!(CompletionResponder::Json(()).status_code(), 200);
    assert_eq!(CompletionResponder::ModelError("m".to_string(), ()).status_code(), 500);
    assert_eq!(CompletionResponder::<()>::InternalError("e".to_string()).status_code(), 500);
    assert_eq!(CompletionResponder::<()>::ValidationError("v".to_string()).status_code(), 422);
    assert_eq!(JsonError::new("x".to_string()).message, "x");
    let m = JsonModelError::new("y".to_string(), 5u8);
    assert_eq!((m.message.as_str(), m.partial_response), ("y", 5));
}

#[test]
fn eos_alternate_equal_to_template_eos_listed_once() {
    let t = template(Some(BeginEndUnkTok::Literal("<|im_end|>".to_string())), None);
    let r = calculate_eos_strings(&t, &vec![true, true], &vec!["<|im_end|>".to_string()]);
    assert_eq!(r, vec!["<|im_end|>", "<end_of_turn>"]);
    let vocab = vec![("<|im_end|>".to_string(), 5u32), ("<end_of_turn>".to_string(), 6)];
    assert_eq!(lookup_token_ids(&r, &vocab), Ok(vec![5, 6]));
}
