//! Per-request sequence state: the committed tokens, the temporary tail the
//! speculative driver proposes on, stop conditions, and what has been
//! delivered to the request's output sink.
use vstd::prelude::*;

verus! {

/// Why a sequence stopped generating.
#[derive(Debug, Clone, Copy, PartialEq, Eq, Structural)]
pub enum StopReason {
    /// An end-of-stream token was sampled.
    Eos,
    /// The sequence reached its maximum length.
    Length(usize),
    /// One of the request's stop tokens was sampled.
    StopTok(u32),
    /// The decoded output matched the stop string at this index.
    StopString(usize),
    /// The output sink was closed by the client.
    Cancelled,
}

/// Generation state of a sequence.
#[derive(Debug, Clone, Copy, PartialEq, Eq, Structural)]
pub enum SeqState {
    Waiting,
    Running,
    Paused,
    Finished(StopReason),
}

/// Concatenation of chunks.
pub open spec fn flatten(chunks: Seq<Seq<u32>>) -> Seq<u32>
    decreases chunks.len(),
{
    if chunks.len() == 0 {
        Seq::empty()
    } else {
        flatten(chunks.drop_last()) + chunks.last()
    }
}

/// Whether `needle` occurs in `hay` starting at `at`.
pub open spec fn occurs_at(hay: Seq<u8>, needle: Seq<u8>, at: int) -> bool {
    0 <= at && at + needle.len() <= hay.len() && hay.subrange(at, at + needle.len()) == needle
}

/// Whether `needle` occurs anywhere in `hay`.
pub open spec fn occurs_in(hay: Seq<u8>, needle: Seq<u8>) -> bool {
    exists|at: int| occurs_at(hay, needle, at)
}

/// Whether the decoded output `text` contains `stop`, byte for byte (the
/// UTF-8 encoding makes this the same as containing it as a string).
pub fn contains_stop(text: &Vec<u8>, stop: &Vec<u8>) -> (r: bool)
    ensures
        r == occurs_in(text@, stop@),
{
    let n = text.len();
    let m = stop.len();
    if m > n {
        proof {
            assert forall|at: int| !occurs_at(text@, stop@, at) by {}
        }
        return false;
    }
    let mut at: usize = 0;
    while at <= n - m
        invariant
            m <= n,
            n == text@.len(),
            m == stop@.len(),
            at <= n - m + 1,
            forall|a: int| 0 <= a < at ==> !occurs_at(text@, stop@, a),
        decreases n - m + 1 - at,
    {
        let mut k: usize = 0;
        while k < m && text[at + k] == stop[k]
            invariant
                k <= m,
                at + m <= n,
                n == text@.len(),
                m == stop@.len(),
                forall|j: int| 0 <= j < k ==> text@[at + j] == stop@[j],
            decreases m - k,
        {
            k = k + 1;
        }
        if k == m {
            proof {
                assert(text@.subrange(at as int, at + m) =~= stop@);
                assert(occurs_at(text@, stop@, at as int));
            }
            return true;
        }
        proof {
            assert(!occurs_at(text@, stop@, at as int)) by {
                if occurs_at(text@, stop@, at as int) {
                    assert(text@.subrange(at as int, at + m)[k as int] == stop@[k as int]);
                }
            }
        }
        at = at + 1;
    }
    proof {
        assert forall|a: int| !occurs_at(text@, stop@, a) by {
            if 0 <= a < at {
            }
        }
    }
    false
}

/// Index of the first stop string that `text` contains.
pub fn find_stop_string(text: &Vec<u8>, stops: &Vec<Vec<u8>>) -> (r: Option<usize>)
    ensures
        r matches Some(i) ==> i < stops.len() && occurs_in(text@, stops@[i as int]@) && forall|j: int|
            0 <= j < i ==> !occurs_in(text@, #[trigger] stops@[j]@),
        r is None ==> forall|j: int| 0 <= j < stops.len() ==> !occurs_in(text@, #[trigger] stops@[j]@),
{
    let mut i: usize = 0;
    while i < stops.len()
        invariant
            i <= stops.len(),
            forall|j: int| 0 <= j < i ==> !occurs_in(text@, #[trigger] stops@[j]@),
        decreases stops.len() - i,
    {
        if contains_stop(text, &stops[i]) {
            return Some(i);
        }
        i = i + 1;
    }
    None
}

/// Whether `x` is in `v`.
fn includes(v: &Vec<u32>, x: u32) -> (r: bool)
    ensures
        r == v@.contains(x),
{
    let mut i: usize = 0;
    while i < v.len()
        invariant
            i <= v.len(),
            forall|j: int| 0 <= j < i ==> v@[j] != x,
        decreases v.len() - i,
    {
        if v[i] == x {
            proof {
                assert(v@[i as int] == x);
            }
            return true;
        }
        i = i + 1;
    }
    false
}

/// The stop condition a committed token triggers, checked in this order:
/// end of stream (unless disabled), a stop token, a stop string, the length.
pub open spec fn stop_for(
    eos: Seq<u32>,
    stop_ids: Seq<u32>,
    max_len: Option<usize>,
    tok: u32,
    new_len: nat,
    disable_eos_stop: bool,
    stop_string_hit: Option<usize>,
) -> Option<StopReason> {
    if !disable_eos_stop && eos.contains(tok) {
        Some(StopReason::Eos)
    } else if stop_ids.contains(tok) {
        Some(StopReason::StopTok(tok))
    } else if stop_string_hit is Some {
        Some(StopReason::StopString(stop_string_hit->0))
    } else if max_len matches Some(m) && new_len >= m {
        Some(StopReason::Length(max_len->0))
    } else {
        None
    }
}

/// One request's sequence.
pub struct Sequence {
    id: usize,
    tokens: Vec<u32>,
    prompt_len: usize,
    tmp: usize,
    delivered: usize,
    prefill: Option<Vec<u32>>,
    state: SeqState,
    pending_stop: Option<StopReason>,
    max_len: Option<usize>,
    stop_ids: Vec<u32>,
    eos_ids: Vec<u32>,
    chunks: Ghost<Seq<Seq<u32>>>,
}

impl Sequence {
    pub closed spec fn id_spec(&self) -> usize {
        self.id
    }

    /// All tokens, the temporary tail included.
    pub closed spec fn all_tokens(&self) -> Seq<u32> {
        self.tokens@
    }

    /// The committed tokens: prompt and generated, without the temporary tail.
    pub closed spec fn committed(&self) -> Seq<u32> {
        self.tokens@.subrange(0, self.tokens@.len() - self.tmp)
    }

    pub closed spec fn prompt_len_spec(&self) -> nat {
        self.prompt_len as nat
    }

    /// The generated tokens committed so far.
    pub open spec fn generated(&self) -> Seq<u32> {
        self.committed().subrange(self.prompt_len_spec() as int, self.committed().len() as int)
    }

    /// Number of generated tokens the sink has received.
    pub closed spec fn delivered_spec(&self) -> nat {
        self.delivered as nat
    }

    /// The chunks the sink received, in order.
    pub closed spec fn chunks_spec(&self) -> Seq<Seq<u32>> {
        self.chunks@
    }

    pub closed spec fn state_spec(&self) -> SeqState {
        self.state
    }

    pub closed spec fn pending_stop_spec(&self) -> Option<StopReason> {
        self.pending_stop
    }

    pub closed spec fn prefill_spec(&self) -> Option<Seq<u32>> {
        match self.prefill {
            Some(p) => Some(p@),
            None => None,
        }
    }

    pub closed spec fn max_len_spec(&self) -> Option<usize> {
        self.max_len
    }

    pub closed spec fn stop_ids_spec(&self) -> Seq<u32> {
        self.stop_ids@
    }

    pub closed spec fn eos_ids_spec(&self) -> Seq<u32> {
        self.eos_ids@
    }

    /// Well-formedness: the delivered chunks are exactly the first
    /// `delivered` generated tokens, in order.
    pub closed spec fn wf(&self) -> bool {
        &&& self.tmp <= self.tokens@.len()
        &&& self.prompt_len + self.delivered <= self.tokens@.len() - self.tmp
        &&& flatten(self.chunks@) == self.tokens@.subrange(
            self.prompt_len as int,
            self.prompt_len + self.delivered,
        )
    }

    /// A waiting sequence holding `prompt`.
    pub fn new(id: usize, prompt: Vec<u32>, max_len: Option<usize>, stop_ids: Vec<u32>, eos_ids: Vec<u32>) -> (s: Self)
        ensures
            s.wf(),
            s.id_spec() == id,
            s.committed() == prompt@,
            s.all_tokens() == prompt@,
            s.prompt_len_spec() == prompt@.len(),
            s.delivered_spec() == 0,
            s.chunks_spec() == Seq::<Seq<u32>>::empty(),
            s.state_spec() == SeqState::Waiting,
            s.pending_stop_spec() is None,
            s.prefill_spec() is None,
            s.max_len_spec() == max_len,
            s.stop_ids_spec() == stop_ids@,
            s.eos_ids_spec() == eos_ids@,
    {
        let n = prompt.len();
        let s = Sequence {
            id,
            tokens: prompt,
            prompt_len: n,
            tmp: 0,
            delivered: 0,
            prefill: None,
            state: SeqState::Waiting,
            pending_stop: None,
            max_len,
            stop_ids,
            eos_ids,
            chunks: Ghost(Seq::empty()),
        };
        proof {
            assert(s.tokens@.subrange(n as int, n as int) =~= flatten(Seq::<Seq<u32>>::empty()));
            assert(s.tokens@.subrange(0, s.tokens@.len() as int) =~= s.tokens@);
        }
        s
    }

    pub fn id(&self) -> (r: usize)
        ensures
            r == self.id_spec(),
    {
        self.id
    }

    pub fn state(&self) -> (r: SeqState)
        ensures
            r == self.state_spec(),
    {
        self.state
    }

    /// Moves the sequence to `state`.
    pub fn set_state(&mut self, state: SeqState)
        requires
            old(self).wf(),
        ensures
            final(self).wf(),
            final(self).state_spec() == state,
            final(self).all_tokens() == old(self).all_tokens(),
            final(self).committed() == old(self).committed(),
            final(self).chunks_spec() == old(self).chunks_spec(),
            final(self).delivered_spec() == old(self).delivered_spec(),
            final(self).prompt_len_spec() == old(self).prompt_len_spec(),
            final(self).pending_stop_spec() == old(self).pending_stop_spec(),
    {
        self.state = state;
    }

    /// The tokens the model is fed: the prefill tokens when set, else all
    /// tokens.
    pub fn get_toks(&self) -> (r: &Vec<u32>)
        ensures
            r@ == match self.prefill_spec() {
                Some(p) => p,
                None => self.all_tokens(),
            },
    {
        match &self.prefill {
            Some(p) => p,
            None => &self.tokens,
        }
    }

    /// The committed tokens.
    pub fn committed_tokens(&self) -> (r: Vec<u32>)
        requires
            self.wf(),
        ensures
            r@ == self.committed(),
    {
        let end = self.tokens.len() - self.tmp;
        let mut r: Vec<u32> = Vec::new();
        let mut i: usize = 0;
        while i < end
            invariant
                i <= end,
                end <= self.tokens@.len(),
                end == self.tokens@.len() - self.tmp,
                r@ == self.tokens@.subrange(0, i as int),
            decreases end - i,
        {
            r.push(self.tokens[i]);
            proof {
                assert(r@ =~= self.tokens@.subrange(0, i + 1));
            }
            i = i + 1;
        }
        r
    }

    /// All tokens, the temporary tail included.
    pub fn all_toks(&self) -> (r: &Vec<u32>)
        ensures
            r@ == self.all_tokens(),
    {
        &self.tokens
    }

    /// Sets the tokens the next forward pass is fed.
    pub fn set_prefill_toks(&mut self, toks: Vec<u32>)
        requires
            old(self).wf(),
        ensures
            final(self).wf(),
            final(self).prefill_spec() == Some(toks@),
            final(self).all_tokens() == old(self).all_tokens(),
            final(self).committed() == old(self).committed(),
            final(self).chunks_spec() == old(self).chunks_spec(),
            final(self).delivered_spec() == old(self).delivered_spec(),
            final(self).state_spec() == old(self).state_spec(),
    {
        self.prefill = Some(toks);
    }

    /// Feeds the model all tokens again.
    pub fn reset_prefill_toks(&mut self)
        requires
            old(self).wf(),
        ensures
            final(self).wf(),
            final(self).prefill_spec() is None,
            final(self).all_tokens() == old(self).all_tokens(),
            final(self).committed() == old(self).committed(),
            final(self).chunks_spec() == old(self).chunks_spec(),
            final(self).delivered_spec() == old(self).delivered_spec(),
            final(self).state_spec() == old(self).state_spec(),
            final(self).pending_stop_spec() == old(self).pending_stop_spec(),
            final(self).eos_ids_spec() == old(self).eos_ids_spec(),
            final(self).stop_ids_spec() == old(self).stop_ids_spec(),
            final(self).max_len_spec() == old(self).max_len_spec(),
    {
        self.prefill = None;
    }

    /// Appends a proposed token to the temporary tail.
    pub fn add_tmp_tok(&mut self, tok: u32)
        requires
            old(self).wf(),
        ensures
            final(self).wf(),
            final(self).all_tokens() == old(self).all_tokens().push(tok),
            final(self).committed() == old(self).committed(),
            final(self).chunks_spec() == old(self).chunks_spec(),
            final(self).delivered_spec() == old(self).delivered_spec(),
            final(self).prompt_len_spec() == old(self).prompt_len_spec(),
            final(self).state_spec() == old(self).state_spec(),
            final(self).pending_stop_spec() == old(self).pending_stop_spec(),
            final(self).eos_ids_spec() == old(self).eos_ids_spec(),
            final(self).stop_ids_spec() == old(self).stop_ids_spec(),
            final(self).max_len_spec() == old(self).max_len_spec(),
    {
        self.tokens.push(tok);
        // The counter stays below the vector's length, which fits in usize.
        let len = self.tokens.len();
        assert(self.tmp < len);
        self.tmp = self.tmp + 1;
        proof {
            assert(self.tokens@.subrange(0, self.tokens@.len() - self.tmp) =~= old(self).tokens@.subrange(
                0,
                old(self).tokens@.len() - old(self).tmp,
            ));
            assert(self.tokens@.subrange(self.prompt_len as int, self.prompt_len + self.delivered)
                =~= old(self).tokens@.subrange(self.prompt_len as int, self.prompt_len + self.delivered));
        }
    }

    /// Drops up to `n` tokens of the temporary tail.
    pub fn remove_tmp_tok(&mut self, n: usize)
        requires
            old(self).wf(),
        ensures
            final(self).wf(),
            final(self).committed() == old(self).committed(),
            final(self).chunks_spec() == old(self).chunks_spec(),
            final(self).delivered_spec() == old(self).delivered_spec(),
            final(self).prompt_len_spec() == old(self).prompt_len_spec(),
            final(self).state_spec() == old(self).state_spec(),
            final(self).pending_stop_spec() == old(self).pending_stop_spec(),
            final(self).all_tokens() == old(self).all_tokens().subrange(
                0,
                old(self).all_tokens().len() - (if n <= old(self).all_tokens().len() - old(self).committed().len() {
                    n as int
                } else {
                    old(self).all_tokens().len() - old(self).committed().len()
                }),
            ),
            n >= old(self).all_tokens().len() - old(self).committed().len() ==> final(self).all_tokens()
                == final(self).committed(),
            final(self).eos_ids_spec() == old(self).eos_ids_spec(),
            final(self).stop_ids_spec() == old(self).stop_ids_spec(),
            final(self).max_len_spec() == old(self).max_len_spec(),
    {
        let k = if n <= self.tmp {
            n
        } else {
            self.tmp
        };
        let keep = self.tokens.len() - k;
        self.tokens.truncate(keep);
        self.tmp = self.tmp - k;
        proof {
            assert(self.tmp == 0 ==> self.tokens@.subrange(0, self.tokens@.len() as int) =~= self.tokens@);
            assert(self.tokens@.subrange(0, self.tokens@.len() - self.tmp) =~= old(self).tokens@.subrange(
                0,
                old(self).tokens@.len() - old(self).tmp,
            ));
            assert(self.tokens@.subrange(self.prompt_len as int, self.prompt_len + self.delivered)
                =~= old(self).tokens@.subrange(self.prompt_len as int, self.prompt_len + self.delivered));
        }
    }

    /// Commits a sampled token and records the stop condition it triggers
    /// (see `stop_for`); the sequence finishes once that is delivered.
    /// `stop_string_hit` is what `find_stop_string` found in the decoded
    /// output. The temporary tail must be empty.
    pub fn add_token(&mut self, tok: u32, disable_eos_stop: bool, stop_string_hit: Option<usize>) -> (r: Option<StopReason>)
        requires
            old(self).wf(),
            old(self).all_tokens().len() == old(self).committed().len(),
        ensures
            final(self).wf(),
            final(self).committed() == old(self).committed().push(tok),
            final(self).all_tokens() == final(self).committed(),
            r == stop_for(
                old(self).eos_ids_spec(),
                old(self).stop_ids_spec(),
                old(self).max_len_spec(),
                tok,
                final(self).committed().len(),
                disable_eos_stop,
                stop_string_hit,
            ),
            final(self).pending_stop_spec() == (if r is Some {
                r
            } else {
                old(self).pending_stop_spec()
            }),
            final(self).chunks_spec() == old(self).chunks_spec(),
            final(self).delivered_spec() == old(self).delivered_spec(),
            final(self).prompt_len_spec() == old(self).prompt_len_spec(),
            final(self).state_spec() == old(self).state_spec(),
            final(self).eos_ids_spec() == old(self).eos_ids_spec(),
            final(self).stop_ids_spec() == old(self).stop_ids_spec(),
            final(self).max_len_spec() == old(self).max_len_spec(),
    {
        self.tokens.push(tok);
        let len = self.tokens.len();
        let r = if !disable_eos_stop && includes(&self.eos_ids, tok) {
            Some(StopReason::Eos)
        } else if includes(&self.stop_ids, tok) {
            Some(StopReason::StopTok(tok))
        } else if stop_string_hit.is_some() {
            match stop_string_hit {
                Some(i) => Some(StopReason::StopString(i)),
                None => None,
            }
        } else {
            match self.max_len {
                Some(m) => if len >= m {
                    Some(StopReason::Length(m))
                } else {
                    None
                },
                None => None,
            }
        };
        if r.is_some() {
            self.pending_stop = r;
        }
        proof {
            assert(old(self).tmp == 0) by {
                assert(old(self).tokens@.subrange(0, old(self).tokens@.len() - old(self).tmp).len() == old(self).tokens@.len()
                    - old(self).tmp);
            }
            assert(self.tokens@.subrange(0, self.tokens@.len() as int) =~= self.tokens@);
            assert(old(self).tokens@.subrange(0, old(self).tokens@.len() as int) =~= old(self).tokens@);
            assert(self.tokens@.subrange(self.prompt_len as int, self.prompt_len + self.delivered)
                =~= old(self).tokens@.subrange(self.prompt_len as int, self.prompt_len + self.delivered));
        }
        r
    }

    /// The generated tokens the sink has not received yet.
    pub fn pending_chunk(&self) -> (r: Vec<u32>)
        requires
            self.wf(),
        ensures
            r@ == self.generated().subrange(self.delivered_spec() as int, self.generated().len() as int),
    {
        let end = self.tokens.len() - self.tmp;
        let mut r: Vec<u32> = Vec::new();
        let mut i = self.prompt_len + self.delivered;
        let start = i;
        while i < end
            invariant
                start <= i <= end,
                end <= self.tokens@.len(),
                r@ == self.tokens@.subrange(start as int, i as int),
            decreases end - i,
        {
            r.push(self.tokens[i]);
            proof {
                assert(r@ =~= self.tokens@.subrange(start as int, i + 1));
            }
            i = i + 1;
        }
        proof {
            assert(r@ =~= self.generated().subrange(self.delivered_spec() as int, self.generated().len() as int));
        }
        r
    }

    /// Records the outcome of sending the pending chunk. When it was
    /// delivered, the sink has now received every generated token, and a
    /// pending stop finishes the sequence; when the sink was closed, the
    /// sequence is cancelled.
    pub fn on_chunk_sent(&mut self, delivered: bool)
        requires
            old(self).wf(),
        ensures
            final(self).wf(),
            final(self).committed() == old(self).committed(),
            final(self).all_tokens() == old(self).all_tokens(),
            final(self).prompt_len_spec() == old(self).prompt_len_spec(),
            delivered ==> final(self).chunks_spec() == old(self).chunks_spec().push(
                old(self).generated().subrange(old(self).delivered_spec() as int, old(self).generated().len() as int),
            ),
            delivered ==> final(self).delivered_spec() == old(self).generated().len(),
            delivered && old(self).pending_stop_spec() is Some ==> final(self).state_spec() == SeqState::Finished(
                old(self).pending_stop_spec()->0,
            ),
            delivered && old(self).pending_stop_spec() is None ==> final(self).state_spec() == old(self).state_spec(),
            !delivered ==> final(self).state_spec() == SeqState::Finished(StopReason::Cancelled),
            !delivered ==> final(self).chunks_spec() == old(self).chunks_spec(),
    {
        if delivered {
            let end = self.tokens.len() - self.tmp;
            let ghost chunk = self.tokens@.subrange(self.prompt_len + self.delivered, end as int);
            let ghost old_chunks = self.chunks@;
            proof {
                assert(old_chunks.push(chunk).drop_last() =~= old_chunks);
                assert(self.tokens@.subrange(self.prompt_len as int, end as int) =~= self.tokens@.subrange(
                    self.prompt_len as int,
                    self.prompt_len + self.delivered,
                ) + chunk);
                assert(chunk =~= old(self).generated().subrange(
                    old(self).delivered_spec() as int,
                    old(self).generated().len() as int,
                ));
            }
            self.chunks = Ghost(old_chunks.push(chunk));
            self.delivered = end - self.prompt_len;
            match self.pending_stop {
                Some(reason) => {
                    self.state = SeqState::Finished(reason);
                },
                None => {},
            }
        } else {
            self.state = SeqState::Finished(StopReason::Cancelled);
        }
    }
}

/// What the sink has received is the generated text so far, in order: the
/// concatenation of the delivered chunks is the prefix of the generated
/// tokens that was delivered, and right after a delivery it is all of them.
pub proof fn lemma_chunks_concatenate(s: &Sequence)
    requires
        s.wf(),
    ensures
        flatten(s.chunks_spec()) == s.generated().subrange(0, s.delivered_spec() as int),
{
    assert(flatten(s.chunks_spec()) =~= s.generated().subrange(0, s.delivered_spec() as int));
}

} // verus!
