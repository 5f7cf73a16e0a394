//! Prompt-building pieces that need no template engine: the tokenizer
//! configuration's special tokens, the resolution of end-of-stream tokens,
//! and the escaping the `tojson` filter applies to its JSON output.
use vstd::prelude::*;
use vstd::string::StringExecFns;

use crate::config::AddedTokensDecoder;

verus! {

/// A special token as a tokenizer configuration writes it: a literal, or an
/// added-token entry.
#[derive(Debug, Clone)]
pub enum BeginEndUnkTok {
    Literal(String),
    Added(AddedTokensDecoder),
}

impl BeginEndUnkTok {
    pub open spec fn content_spec(&self) -> Seq<char> {
        match self {
            BeginEndUnkTok::Literal(s) => s@,
            BeginEndUnkTok::Added(a) => a.content@,
        }
    }

    /// The token's text.
    pub fn content(&self) -> (r: String)
        ensures
            r@ == self.content_spec(),
    {
        match self {
            BeginEndUnkTok::Literal(s) => s.clone(),
            BeginEndUnkTok::Added(a) => a.content.clone(),
        }
    }
}

/// The template-related part of a tokenizer configuration.
#[derive(Debug, Clone)]
pub struct ChatTemplate {
    pub add_bos_token: Option<bool>,
    pub add_eos_token: Option<bool>,
    pub added_tokens_decoder: Option<Vec<(String, AddedTokensDecoder)>>,
    pub additional_special_tokens: Option<Vec<String>>,
    pub bos_token: Option<BeginEndUnkTok>,
    /// The Jinja chat template.
    pub chat_template: Option<String>,
    pub clean_up_tokenization_spaces: Option<bool>,
    pub device_map: Option<String>,
    pub eos_token: Option<BeginEndUnkTok>,
    pub legacy: Option<bool>,
    pub pad_token: Option<String>,
    pub sp_model_kwargs: Option<Vec<(String, String)>>,
    pub spaces_between_special_tokens: Option<bool>,
    pub tokenizer_class: Option<String>,
    pub truncation_size: Option<String>,
    pub unk_token: Option<BeginEndUnkTok>,
    pub use_default_system_prompt: Option<bool>,
}

/// The text of an optional special token.
pub open spec fn tok_text(t: Option<BeginEndUnkTok>) -> Option<Seq<char>> {
    match t {
        Some(x) => Some(x.content_spec()),
        None => None,
    }
}

fn text_of(t: &Option<BeginEndUnkTok>) -> (r: Option<String>)
    ensures
        r matches Some(s) ==> tok_text(*t) == Some(s@),
        r is None <==> t is None,
{
    match t {
        Some(x) => Some(x.content()),
        None => None,
    }
}

impl ChatTemplate {
    pub fn has_chat_template(&self) -> (r: bool)
        ensures
            r == self.chat_template is Some,
    {
        self.chat_template.is_some()
    }

    /// The end-of-stream token's text.
    pub fn eos_tok(&self) -> (r: Option<String>)
        ensures
            r matches Some(s) ==> tok_text(self.eos_token) == Some(s@),
            r is None <==> self.eos_token is None,
    {
        text_of(&self.eos_token)
    }

    /// The beginning-of-stream token's text.
    pub fn bos_tok(&self) -> (r: Option<String>)
        ensures
            r matches Some(s) ==> tok_text(self.bos_token) == Some(s@),
            r is None <==> self.bos_token is None,
    {
        text_of(&self.bos_token)
    }

    /// The unknown token's text.
    pub fn unk_tok(&self) -> (r: Option<String>)
        ensures
            r matches Some(s) ==> tok_text(self.unk_token) == Some(s@),
            r is None <==> self.unk_token is None,
    {
        text_of(&self.unk_token)
    }
}

/// One token id or several, as a generation configuration writes them.
#[derive(Debug, Clone)]
pub enum TokenIds {
    One(u32),
    Many(Vec<u32>),
}

impl TokenIds {
    pub open spec fn ids_spec(&self) -> Seq<u32> {
        match self {
            TokenIds::One(i) => seq![*i],
            TokenIds::Many(v) => v@,
        }
    }

    /// The ids as a list.
    pub fn to_vec(&self) -> (r: Vec<u32>)
        ensures
            r@ == self.ids_spec(),
    {
        match self {
            TokenIds::One(i) => {
                let mut v: Vec<u32> = Vec::new();
                v.push(*i);
                proof {
                    assert(v@ =~= seq![*i]);
                }
                v
            },
            TokenIds::Many(v) => {
                let mut r: Vec<u32> = Vec::new();
                let mut k: usize = 0;
                while k < v.len()
                    invariant
                        k <= v.len(),
                        r@ == v@.subrange(0, k as int),
                    decreases v.len() - k,
                {
                    r.push(v[k]);
                    k = k + 1;
                }
                proof {
                    assert(r@ =~= v@);
                }
                r
            },
        }
    }
}

/// The special-token ids a generation configuration declares.
#[derive(Debug, Clone)]
pub struct GenerationConfig {
    pub bos_token_id: TokenIds,
    pub eos_token_id: TokenIds,
}

/// Alternate end markers honoured when the vocabulary has them.
pub open spec fn alternate_eos_spec() -> Seq<Seq<char>> {
    seq!["<|im_end|>"@, "<end_of_turn>"@]
}

/// Alternate end markers honoured when the vocabulary has them: ChatML's
/// and Gemma's end of turn.
pub fn supported_alternate_eos() -> (r: Vec<String>)
    ensures
        r@.len() == 2,
        r@[0]@ == "<|im_end|>"@,
        r@[1]@ == "<end_of_turn>"@,
{
    let mut r: Vec<String> = Vec::new();
    r.push(String::from_str("<|im_end|>"));
    r.push(String::from_str("<end_of_turn>"));
    r
}

/// The texts of a list of strings.
pub open spec fn texts(v: Seq<String>) -> Seq<Seq<char>> {
    v.map_values(|s: String| s@)
}

/// `base` followed by each of `extra` that is not already present (earlier
/// in `base` or earlier among the added ones).
pub open spec fn append_new(base: Seq<Seq<char>>, extra: Seq<Seq<char>>) -> Seq<Seq<char>>
    decreases extra.len(),
{
    if extra.len() == 0 {
        base
    } else {
        let prev = append_new(base, extra.drop_last());
        if prev.contains(extra.last()) {
            prev
        } else {
            prev.push(extra.last())
        }
    }
}

fn contains_text(v: &Vec<String>, s: &String) -> (r: bool)
    ensures
        r == texts(v@).contains(s@),
{
    let mut i: usize = 0;
    while i < v.len()
        invariant
            i <= v.len(),
            forall|j: int| 0 <= j < i ==> v@[j]@ != s@,
        decreases v.len() - i,
    {
        if v[i] == *s {
            proof {
                assert(texts(v@)[i as int] == s@);
            }
            return true;
        }
        i = i + 1;
    }
    proof {
        assert forall|j: int| 0 <= j < texts(v@).len() implies texts(v@)[j] != s@ by {
            assert(texts(v@)[j] == v@[j]@);
        }
    }
    false
}

/// Appends each of `extra` that `list` does not hold yet.
fn push_new(list: &mut Vec<String>, extra: &Vec<String>)
    ensures
        texts(final(list)@) == append_new(texts(old(list)@), texts(extra@)),
{
    let mut i: usize = 0;
    while i < extra.len()
        invariant
            i <= extra.len(),
            texts(list@) == append_new(texts(old(list)@), texts(extra@.subrange(0, i as int))),
        decreases extra.len() - i,
    {
        let ghost before = list@;
        proof {
            assert(texts(extra@.subrange(0, i + 1)).drop_last() =~= texts(extra@.subrange(0, i as int)));
            assert(texts(extra@.subrange(0, i + 1)).last() == extra@[i as int]@);
        }
        if !contains_text(list, &extra[i]) {
            list.push(extra[i].clone());
            proof {
                assert(texts(list@) =~= texts(before).push(extra@[i as int]@));
            }
        }
        i = i + 1;
    }
    proof {
        assert(extra@.subrange(0, extra.len() as int) =~= extra@);
    }
}

/// The end-of-stream texts, each once: the template's own, then each
/// alternate marker the vocabulary has (`alternates_present[i]` for the
/// `i`-th of `supported_alternate_eos`), then each decoded generation-config
/// id, the last two only when not already listed.
pub open spec fn eos_texts(
    template_eos: Option<Seq<char>>,
    alternates_present: Seq<bool>,
    decoded_gen_eos: Seq<Seq<char>>,
) -> Seq<Seq<char>> {
    let head = match template_eos {
        Some(t) => seq![t],
        None => Seq::empty(),
    };
    let a0 = if alternates_present.len() > 0 && alternates_present[0] {
        seq![alternate_eos_spec()[0]]
    } else {
        Seq::empty()
    };
    let a1 = if alternates_present.len() > 1 && alternates_present[1] {
        seq![alternate_eos_spec()[1]]
    } else {
        Seq::empty()
    };
    append_new(append_new(head, a0 + a1), decoded_gen_eos)
}

/// The beginning-of-stream texts: the template's own, then each decoded
/// generation-config id not already listed.
pub open spec fn bos_texts(template_bos: Option<Seq<char>>, decoded_gen_bos: Seq<Seq<char>>) -> Seq<Seq<char>> {
    let head = match template_bos {
        Some(t) => seq![t],
        None => Seq::empty(),
    };
    append_new(head, decoded_gen_bos)
}

fn start_list(t: Option<String>) -> (r: Vec<String>)
    ensures
        texts(r@) == match t {
            Some(s) => seq![s@],
            None => Seq::<Seq<char>>::empty(),
        },
{
    let mut r: Vec<String> = Vec::new();
    match t {
        Some(s) => {
            r.push(s);
            proof {
                assert(texts(r@) =~= seq![r@[0]@]);
            }
        },
        None => {
            proof {
                assert(texts(r@) =~= Seq::<Seq<char>>::empty());
            }
        },
    }
    r
}

/// Collects the end-of-stream texts (see `eos_texts`). The caller looks up
/// which alternate markers the vocabulary has and decodes the generation
/// config's ids.
pub fn calculate_eos_strings(
    template: &ChatTemplate,
    alternates_present: &Vec<bool>,
    decoded_gen_eos: &Vec<String>,
) -> (r: Vec<String>)
    ensures
        texts(r@) == eos_texts(tok_text(template.eos_token), alternates_present@, texts(decoded_gen_eos@)),
        texts(r@).no_duplicates(),
{
    let mut list = start_list(template.eos_tok());
    let ghost head = texts(list@);
    let alts = supported_alternate_eos();
    let mut present: Vec<String> = Vec::new();
    if alternates_present.len() > 0 && alternates_present[0] {
        present.push(alts[0].clone());
    }
    let ghost with0 = texts(present@);
    if alternates_present.len() > 1 && alternates_present[1] {
        present.push(alts[1].clone());
    }
    proof {
        let a0 = if alternates_present@.len() > 0 && alternates_present@[0] {
            seq![alternate_eos_spec()[0]]
        } else {
            Seq::empty()
        };
        let a1 = if alternates_present@.len() > 1 && alternates_present@[1] {
            seq![alternate_eos_spec()[1]]
        } else {
            Seq::empty()
        };
        assert(with0 =~= a0);
        assert(texts(present@) =~= a0 + a1);
    }
    push_new(&mut list, &present);
    let ghost mid = texts(list@);
    push_new(&mut list, decoded_gen_eos);
    proof {
        lemma_append_new_no_dup(head, texts(present@));
        lemma_append_new_no_dup(mid, texts(decoded_gen_eos@));
    }
    list
}

/// Appending only what is new keeps a list free of duplicates.
pub proof fn lemma_append_new_no_dup(base: Seq<Seq<char>>, extra: Seq<Seq<char>>)
    requires
        base.no_duplicates(),
    ensures
        append_new(base, extra).no_duplicates(),
    decreases extra.len(),
{
    if extra.len() > 0 {
        lemma_append_new_no_dup(base, extra.drop_last());
        let prev = append_new(base, extra.drop_last());
        if !prev.contains(extra.last()) {
            let nx = prev.push(extra.last());
            assert forall|i: int, j: int| 0 <= i < j < nx.len() implies nx[i] != nx[j] by {
                if j == prev.len() {
                    assert(prev.contains(prev[i]));
                }
            }
        }
    }
}

/// Collects the beginning-of-stream texts (see `bos_texts`).
pub fn calculate_bos_strings(template: &ChatTemplate, decoded_gen_bos: &Vec<String>) -> (r: Vec<String>)
    ensures
        texts(r@) == bos_texts(tok_text(template.bos_token), texts(decoded_gen_bos@)),
        texts(r@).no_duplicates(),
{
    let mut list = start_list(template.bos_tok());
    let ghost head = texts(list@);
    push_new(&mut list, decoded_gen_bos);
    proof {
        lemma_append_new_no_dup(head, texts(decoded_gen_bos@));
    }
    list
}

/// The id a vocabulary gives a text: the first entry with that text.
pub open spec fn vocab_get(vocab: Seq<(String, u32)>, s: Seq<char>) -> Option<u32>
    decreases vocab.len(),
{
    if vocab.len() == 0 {
        None
    } else if vocab[0].0@ == s {
        Some(vocab[0].1)
    } else {
        vocab_get(vocab.drop_first(), s)
    }
}

/// A tokenizer configuration that cannot be used.
#[derive(Debug, Clone, Copy, PartialEq, Eq, Structural)]
pub enum ConfigError {
    /// The token text at this index of the request is not in the vocabulary.
    MissingToken(usize),
}

fn lookup(vocab: &Vec<(String, u32)>, s: &String) -> (r: Option<u32>)
    ensures
        r == vocab_get(vocab@, s@),
{
    let mut i: usize = 0;
    proof {
        assert(vocab@.subrange(0, vocab@.len() as int) =~= vocab@);
    }
    while i < vocab.len()
        invariant
            i <= vocab.len(),
            vocab_get(vocab@, s@) == vocab_get(vocab@.subrange(i as int, vocab@.len() as int), s@),
        decreases vocab.len() - i,
    {
        proof {
            assert(vocab@.subrange(i as int, vocab@.len() as int).drop_first() =~= vocab@.subrange(
                i + 1,
                vocab@.len() as int,
            ));
        }
        if vocab[i].0 == *s {
            return Some(vocab[i].1);
        }
        i = i + 1;
    }
    None
}

/// Looks every text up in the vocabulary; a text it lacks is an error.
pub fn lookup_token_ids(names: &Vec<String>, vocab: &Vec<(String, u32)>) -> (r: Result<Vec<u32>, ConfigError>)
    ensures
        r is Ok <==> forall|i: int| 0 <= i < names.len() ==> (#[trigger] vocab_get(vocab@, names@[i]@)) is Some,
        r matches Ok(ids) ==> ids@.len() == names.len() && forall|i: int|
            0 <= i < names.len() ==> vocab_get(vocab@, names@[i]@) == Some(#[trigger] ids@[i]),
        r matches Err(ConfigError::MissingToken(k)) ==> k < names.len() && vocab_get(vocab@, names@[k as int]@) is None
            && forall|i: int| 0 <= i < k ==> (#[trigger] vocab_get(vocab@, names@[i]@)) is Some,
{
    let mut ids: Vec<u32> = Vec::new();
    let mut i: usize = 0;
    while i < names.len()
        invariant
            i <= names.len(),
            ids@.len() == i,
            forall|k: int| 0 <= k < i ==> vocab_get(vocab@, names@[k]@) == Some(#[trigger] ids@[k]),
        decreases names.len() - i,
    {
        match lookup(vocab, &names[i]) {
            Some(id) => ids.push(id),
            None => {
                proof {
                    assert forall|k: int| 0 <= k < i implies (#[trigger] vocab_get(vocab@, names@[k]@)) is Some by {
                        assert(vocab_get(vocab@, names@[k]@) == Some(ids@[k]));
                    }
                }
                return Err(ConfigError::MissingToken(i));
            },
        }
        i = i + 1;
    }
    proof {
        assert forall|k: int| 0 <= k < names.len() implies (#[trigger] vocab_get(vocab@, names@[k]@)) is Some by {
            assert(vocab_get(vocab@, names@[k]@) == Some(ids@[k]));
        }
    }
    Ok(ids)
}

/// What the `tojson` filter writes for one byte of JSON: `<`, `>`, `&` and
/// `'` become the escapes `\u003c`, `\u003e`, `\u0026` and `\u0027`, so that
/// the output is safe inside HTML as well as JSON.
pub open spec fn escape_byte(b: u8) -> Seq<u8> {
    if b == 60 {
        seq![92u8, 117u8, 48u8, 48u8, 51u8, 99u8]
    } else if b == 62 {
        seq![92u8, 117u8, 48u8, 48u8, 51u8, 101u8]
    } else if b == 38 {
        seq![92u8, 117u8, 48u8, 48u8, 50u8, 54u8]
    } else if b == 39 {
        seq![92u8, 117u8, 48u8, 48u8, 50u8, 55u8]
    } else {
        seq![b]
    }
}

/// Every byte of `s` escaped (see `escape_byte`).
pub open spec fn escaped(s: Seq<u8>) -> Seq<u8>
    decreases s.len(),
{
    if s.len() == 0 {
        Seq::empty()
    } else {
        escaped(s.drop_last()) + escape_byte(s.last())
    }
}

/// Escapes serialized JSON for use inside HTML (see `escape_byte`).
pub fn escape_json_for_html(json: &Vec<u8>) -> (r: Vec<u8>)
    ensures
        r@ == escaped(json@),
{
    let mut r: Vec<u8> = Vec::new();
    let mut i: usize = 0;
    while i < json.len()
        invariant
            i <= json.len(),
            r@ == escaped(json@.subrange(0, i as int)),
        decreases json.len() - i,
    {
        let b = json[i];
        let ghost before = r@;
        if b == 60 || b == 62 || b == 38 || b == 39 {
            r.push(92);
            r.push(117);
            r.push(48);
            r.push(48);
            if b == 60 {
                r.push(51);
                r.push(99);
            } else if b == 62 {
                r.push(51);
                r.push(101);
            } else if b == 38 {
                r.push(50);
                r.push(54);
            } else {
                r.push(50);
                r.push(55);
            }
        } else {
            r.push(b);
        }
        proof {
            assert(json@.subrange(0, i + 1).drop_last() =~= json@.subrange(0, i as int));
            assert(r@ =~= before + escape_byte(b));
        }
        i = i + 1;
    }
    proof {
        assert(json@.subrange(0, json.len() as int) =~= json@);
    }
    r
}

} // verus!
