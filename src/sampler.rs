//! Token sampling: penalties, logit bias, argmax, top-k / top-p filtering and
//! a weighted draw.
//!
//! Scores are fixed-point numbers (see `SCALE`). In argmax mode they are
//! logits; in sampling mode they are the probabilities the caller obtained by
//! dividing the logits by the temperature and taking the softmax.
use rand::distributions::Distribution;
use rand::SeedableRng;
use vstd::prelude::*;

verus! {

#[verifier::external_type_specification]
#[verifier::external_body]
pub struct ExStdRng(rand::rngs::StdRng);

/// Relies on `rand::SeedableRng::seed_from_u64` for `StdRng`: a generator
/// whose stream depends on the seed alone.
#[verifier::external_body]
fn seeded_rng(seed: u64) -> rand::rngs::StdRng {
    rand::rngs::StdRng::seed_from_u64(seed)
}

/// Relies on `rand::distributions::WeightedIndex` over `u128` weights: `new`
/// keeps running totals (which the bound on the sum keeps from overflowing)
/// and fails only on no items or all-zero weights; `sample` draws a total
/// uniformly below the sum and returns the first index whose running total
/// exceeds it, an index of positive weight. Unsigned weights are never
/// negative, so with one positive weight `new` succeeds and `sample` returns.
#[verifier::external_body]
fn weighted_index_sample(rng: &mut rand::rngs::StdRng, weights: &Vec<u128>) -> (r: Option<usize>)
    requires
        weights.len() > 0,
        sum_u128(weights@) <= u128::MAX,
    ensures
        r matches Some(i) ==> i < weights.len() && weights@[i as int] > 0,
        (exists|i: int| 0 <= i < weights.len() && #[trigger] weights@[i] > 0) ==> r is Some,
{
    match rand::distributions::WeightedIndex::new(weights.iter()) {
        Ok(d) => Some(d.sample(rng)),
        Err(_) => None,
    }
}

/// Sum of unsigned weights.
pub open spec fn sum_u128(s: Seq<u128>) -> int
    decreases s.len(),
{
    if s.len() == 0 {
        0
    } else {
        sum_u128(s.drop_last()) + s.last() as int
    }
}

/// Sum of signed weights.
pub open spec fn sum_i128(s: Seq<i128>) -> int
    decreases s.len(),
{
    if s.len() == 0 {
        0
    } else {
        sum_i128(s.drop_last()) + s.last() as int
    }
}

/// Weights a draw can be made from: none negative, one positive, and a sum
/// that fits in `u128`.
pub open spec fn drawable(s: Seq<i128>) -> bool {
    &&& forall|i: int| 0 <= i < s.len() ==> #[trigger] s[i] >= 0
    &&& exists|i: int| 0 <= i < s.len() && #[trigger] s[i] > 0
    &&& sum_i128(s) <= u128::MAX
}

/// Fixed-point scale: a real number `x` is held as the integer `x * SCALE`.
pub const SCALE: i64 = 1_000_000;

/// Bound on the magnitude of a prepared score.
pub open spec fn score_bound() -> int {
    0x4_0000_0000_0000_0000
}

/// Number of times token `j` occurs in `ctx`.
pub open spec fn occurrences(ctx: Seq<u32>, j: int) -> nat
    decreases ctx.len(),
{
    if ctx.len() == 0 {
        0
    } else {
        occurrences(ctx.drop_last(), j) + if ctx.last() as int == j {
            1nat
        } else {
            0nat
        }
    }
}

proof fn lemma_occurrences_push(ctx: Seq<u32>, x: u32, j: int)
    ensures
        occurrences(ctx.push(x), j) == occurrences(ctx, j) + if x as int == j {
            1nat
        } else {
            0nat
        },
{
    assert(ctx.push(x).drop_last() =~= ctx);
}

proof fn lemma_occurrences_bound(ctx: Seq<u32>, j: int)
    ensures
        occurrences(ctx, j) <= ctx.len(),
    decreases ctx.len(),
{
    if ctx.len() > 0 {
        lemma_occurrences_bound(ctx.drop_last(), j);
    }
}

/// `logit - count * repeat - [count > 0] * presence`.
pub open spec fn penalized(logit: int, count: nat, presence: int, repeat: int) -> int {
    logit - count * repeat - if count > 0 {
        presence
    } else {
        0
    }
}

/// Sum of the biases that `bias` assigns to token `j`.
pub open spec fn bias_for(bias: Seq<(u32, i32)>, j: int) -> int
    decreases bias.len(),
{
    if bias.len() == 0 {
        0
    } else {
        bias_for(bias.drop_last(), j) + if bias.last().0 as int == j {
            bias.last().1 as int
        } else {
            0
        }
    }
}

/// Every biased token is a valid index into `n` scores.
pub open spec fn bias_in_range(bias: Seq<(u32, i32)>, n: nat) -> bool {
    forall|i: int| 0 <= i < bias.len() ==> (#[trigger] bias[i]).0 < n
}

/// Each token appears at most once in `bias`.
pub open spec fn bias_keys_unique(bias: Seq<(u32, i32)>) -> bool {
    forall|i: int, k: int| 0 <= i < k < bias.len() ==> (#[trigger] bias[i]).0 != (#[trigger] bias[k]).0
}

/// Multiplies without overflow: the factors are bounded.
proof fn lemma_penalty_bound(count: int, repeat: int)
    requires
        0 <= count <= u32::MAX,
        i32::MIN <= repeat <= i32::MAX,
    ensures
        -0x8000_0000_0000_0000 <= count * repeat <= 0x8000_0000_0000_0000,
{
    assert(-0x8000_0000_0000_0000 <= count * repeat <= 0x8000_0000_0000_0000) by (nonlinear_arith)
        requires
            0 <= count <= u32::MAX,
            i32::MIN <= repeat <= i32::MAX,
    ;
}

/// Applies the repetition and presence penalties: token `j` loses `repeat`
/// for each time it occurs in `ctx`, and `presence` once if it occurs at all.
pub fn apply_repeat_presence_penalty(scores: &Vec<i64>, presence: i32, repeat: i32, ctx: &Vec<u32>) -> (r: Vec<i128>)
    requires
        ctx.len() <= u32::MAX,
    ensures
        r.len() == scores.len(),
        forall|j: int|
            0 <= j < scores.len() ==> #[trigger] r[j] == penalized(
                scores[j] as int,
                occurrences(ctx@, j),
                presence as int,
                repeat as int,
            ),
        forall|j: int| 0 <= j < r.len() ==> -0x2_0000_0000_0000_0000 <= #[trigger] r[j] <= 0x2_0000_0000_0000_0000,
{
    let n = scores.len();
    let mut counts: Vec<u32> = Vec::new();
    let mut j: usize = 0;
    while j < n
        invariant
            j <= n,
            counts@.len() == j,
            forall|k: int| 0 <= k < j ==> counts@[k] == 0,
        decreases n - j,
    {
        counts.push(0);
        j = j + 1;
    }
    let mut i: usize = 0;
    while i < ctx.len()
        invariant
            i <= ctx.len(),
            ctx.len() <= u32::MAX,
            counts@.len() == n,
            forall|k: int| 0 <= k < n ==> #[trigger] counts@[k] == occurrences(ctx@.subrange(0, i as int), k),
        decreases ctx.len() - i,
    {
        let t = ctx[i] as usize;
        proof {
            assert(ctx@.subrange(0, i + 1) =~= ctx@.subrange(0, i as int).push(ctx@[i as int]));
            assert forall|k: int| 0 <= k < n implies occurrences(ctx@.subrange(0, i + 1), k) == occurrences(
                ctx@.subrange(0, i as int),
                k,
            ) + if ctx@[i as int] as int == k {
                1nat
            } else {
                0nat
            } by {
                lemma_occurrences_push(ctx@.subrange(0, i as int), ctx@[i as int], k);
            }
        }
        if t < n {
            proof {
                lemma_occurrences_bound(ctx@.subrange(0, i as int), t as int);
            }
            let c = counts[t];
            counts.set(t, c + 1);
        }
        i = i + 1;
    }
    proof {
        assert(ctx@.subrange(0, ctx.len() as int) =~= ctx@);
    }
    let mut out: Vec<i128> = Vec::new();
    let mut j: usize = 0;
    while j < n
        invariant
            j <= n,
            n == scores.len(),
            counts@.len() == n,
            ctx.len() <= u32::MAX,
            forall|k: int| 0 <= k < n ==> #[trigger] counts@[k] == occurrences(ctx@, k),
            out@.len() == j,
            forall|k: int|
                0 <= k < j ==> #[trigger] out@[k] == penalized(
                    scores[k] as int,
                    occurrences(ctx@, k),
                    presence as int,
                    repeat as int,
                ),
            forall|k: int| 0 <= k < j ==> -0x2_0000_0000_0000_0000 <= #[trigger] out@[k] <= 0x2_0000_0000_0000_0000,
        decreases n - j,
    {
        let c = counts[j];
        proof {
            lemma_occurrences_bound(ctx@, j as int);
            lemma_penalty_bound(c as int, repeat as int);
        }
        let pres: i128 = if c > 0 {
            presence as i128
        } else {
            0
        };
        let v: i128 = scores[j] as i128 - (c as i128) * (repeat as i128) - pres;
        out.push(v);
        j = j + 1;
    }
    out
}

/// Adds every bias to the score it names. An index past the end of `scores`
/// is an error, and then nothing is changed.
pub fn apply_logit_bias(scores: &mut Vec<i128>, bias: &Vec<(u32, i32)>) -> (r: Result<(), SamplerError>)
    requires
        bias.len() <= u32::MAX,
        forall|j: int| 0 <= j < old(scores).len() ==> -0x2_0000_0000_0000_0000 <= #[trigger] old(scores)[j] <= 0x2_0000_0000_0000_0000,
    ensures
        r is Ok <==> bias_in_range(bias@, old(scores).len() as nat),
        r is Err ==> r == Err::<(), SamplerError>(SamplerError::BiasIndexOutOfRange) && final(scores)@ == old(scores)@,
        r is Ok ==> final(scores).len() == old(scores).len() && forall|j: int|
            0 <= j < old(scores).len() ==> #[trigger] final(scores)[j] == old(scores)[j] + bias_for(bias@, j),
        forall|j: int| 0 <= j < final(scores).len() ==> -score_bound() <= #[trigger] final(scores)[j] <= score_bound(),
{
    let n = scores.len();
    let mut i: usize = 0;
    while i < bias.len()
        invariant
            i <= bias.len(),
            n == scores.len(),
            scores@ == old(scores)@,
            forall|j: int| 0 <= j < n ==> -0x2_0000_0000_0000_0000 <= #[trigger] old(scores)[j] <= 0x2_0000_0000_0000_0000,
            forall|k: int| 0 <= k < i ==> (#[trigger] bias@[k]).0 < n,
        decreases bias.len() - i,
    {
        if bias[i].0 as usize >= n {
            proof {
                assert(!bias_in_range(bias@, n as nat)) by {
                    assert(bias@[i as int].0 >= n);
                }
            }
            return Err(SamplerError::BiasIndexOutOfRange);
        }
        i = i + 1;
    }
    let ghost orig = scores@;
    let mut i: usize = 0;
    while i < bias.len()
        invariant
            i <= bias.len(),
            bias.len() <= u32::MAX,
            n == scores.len(),
            orig.len() == n,
            bias_in_range(bias@, n as nat),
            forall|j: int| 0 <= j < n ==> -0x2_0000_0000_0000_0000 <= #[trigger] orig[j] <= 0x2_0000_0000_0000_0000,
            forall|j: int| 0 <= j < n ==> #[trigger] scores@[j] == orig[j] + bias_for(bias@.subrange(0, i as int), j),
            forall|j: int| 0 <= j < n ==> -0x2_0000_0000_0000_0000 - i * 0x8000_0000 <= #[trigger] scores@[j] <= 0x2_0000_0000_0000_0000 + i * 0x8000_0000,
        decreases bias.len() - i,
    {
        let (t, b) = bias[i];
        let t = t as usize;
        proof {
            assert(bias@[i as int].0 < n);
            assert(bias@.subrange(0, i + 1).drop_last() =~= bias@.subrange(0, i as int));
        }
        let cur = scores[t];
        scores.set(t, cur + b as i128);
        i = i + 1;
    }
    proof {
        assert(bias@.subrange(0, bias.len() as int) =~= bias@);
    }
    Ok(())
}

/// Applies a recognizer's verdict before sampling: every token it does not
/// allow gets `masked`, the lowest logit (standing for minus infinity) in
/// argmax mode, a zero probability in sampling mode. Tokens past the end of
/// `allowed` are left alone.
pub fn apply_allowed_mask(scores: &mut Vec<i64>, allowed: &Vec<bool>, masked: i64)
    ensures
        final(scores)@.len() == old(scores)@.len(),
        forall|j: int|
            0 <= j < old(scores)@.len() ==> #[trigger] final(scores)@[j] == if j < allowed@.len() && !allowed@[j] {
                masked
            } else {
                old(scores)@[j]
            },
{
    let mut j: usize = 0;
    while j < scores.len()
        invariant
            j <= scores@.len(),
            scores@.len() == old(scores)@.len(),
            forall|k: int|
                0 <= k < scores@.len() ==> #[trigger] scores@[k] == if k < j && k < allowed@.len() && !allowed@[k] {
                    masked
                } else {
                    old(scores)@[k]
                },
        decreases scores@.len() - j,
    {
        if j < allowed.len() && !allowed[j] {
            scores.set(j, masked);
        }
        j = j + 1;
    }
}

/// `r` is the last index holding the largest score.
pub open spec fn is_last_argmax(w: Seq<i128>, r: int) -> bool {
    &&& 0 <= r < w.len()
    &&& forall|j: int| 0 <= j < w.len() ==> #[trigger] w[j] <= w[r]
    &&& forall|j: int| r < j < w.len() ==> #[trigger] w[j] < w[r]
}

/// The index of the largest score; among equal largest scores, the last.
pub fn argmax(w: &Vec<i128>) -> (r: usize)
    requires
        w.len() > 0,
    ensures
        is_last_argmax(w@, r as int),
{
    let mut best: usize = 0;
    let mut j: usize = 1;
    while j < w.len()
        invariant
            1 <= j <= w.len(),
            best < j,
            forall|k: int| 0 <= k < j ==> #[trigger] w@[k] <= w@[best as int],
            forall|k: int| best < k < j ==> #[trigger] w@[k] < w@[best as int],
        decreases w.len() - j,
    {
        if w[j] >= w[best] {
            best = j;
        }
        j = j + 1;
    }
    best
}

/// Token `a` comes before token `b` when sorted by descending score, equal
/// scores keeping index order.
pub open spec fn ahead(w: Seq<i128>, a: int, b: int) -> bool {
    w[a] > w[b] || (w[a] == w[b] && a < b)
}

/// `o` lists every index of `w` once, by descending score, equal scores in
/// index order.
pub open spec fn is_desc_order(w: Seq<i128>, o: Seq<usize>) -> bool {
    &&& o.len() == w.len()
    &&& forall|t: int| 0 <= t < o.len() ==> (#[trigger] o[t]) < w.len()
    &&& forall|t: int, u: int| 0 <= t < u < o.len() ==> ahead(w, #[trigger] o[t] as int, #[trigger] o[u] as int)
    &&& forall|x: usize| x < w.len() ==> #[trigger] o.contains(x)
}

/// The descending order of `w`; it exists and is unique (see `desc_argsort`
/// and `lemma_desc_order_unique`).
pub open spec fn desc_order(w: Seq<i128>) -> Seq<usize> {
    choose|o: Seq<usize>| is_desc_order(w, o)
}

proof fn lemma_prefix_agrees(w: Seq<i128>, o1: Seq<usize>, o2: Seq<usize>, t: int)
    requires
        is_desc_order(w, o1),
        is_desc_order(w, o2),
        0 <= t <= o1.len(),
    ensures
        forall|u: int| 0 <= u < t ==> o1[u] == o2[u],
    decreases t,
{
    if t > 0 {
        lemma_prefix_agrees(w, o1, o2, t - 1);
        let u = t - 1;
        let a = o1[u];
        let b = o2[u];
        if a != b {
            assert(o2.contains(a));
            let u2 = choose|v: int| 0 <= v < o2.len() && o2[v] == a;
            assert(o1.contains(b));
            let u1 = choose|v: int| 0 <= v < o1.len() && o1[v] == b;
            if u2 < u {
                assert(o1[u2] == a);
                assert(ahead(w, o1[u2] as int, o1[u] as int));
            }
            if u1 < u {
                assert(o2[u1] == b);
                assert(ahead(w, o2[u1] as int, o2[u] as int));
            }
            assert(ahead(w, o2[u] as int, o2[u2] as int));
            assert(ahead(w, o1[u] as int, o1[u1] as int));
        }
    }
}

/// There is only one descending order of a score vector.
pub proof fn lemma_desc_order_unique(w: Seq<i128>, o1: Seq<usize>, o2: Seq<usize>)
    requires
        is_desc_order(w, o1),
        is_desc_order(w, o2),
    ensures
        o1 == o2,
{
    lemma_prefix_agrees(w, o1, o2, o1.len() as int);
    assert(o1 =~= o2);
}

/// Sorts the indices of `w` by descending score, equal scores in index order.
pub fn desc_argsort(w: &Vec<i128>) -> (o: Vec<usize>)
    ensures
        is_desc_order(w@, o@),
        o@ == desc_order(w@),
{
    let n = w.len();
    let mut o: Vec<usize> = Vec::new();
    let mut i: usize = 0;
    while i < n
        invariant
            i <= n,
            n == w.len(),
            o@.len() == i,
            forall|t: int| 0 <= t < o@.len() ==> (#[trigger] o@[t]) < i,
            forall|t: int, u: int| 0 <= t < u < o@.len() ==> ahead(w@, #[trigger] o@[t] as int, #[trigger] o@[u] as int),
            forall|x: usize| x < i ==> #[trigger] o@.contains(x),
        decreases n - i,
    {
        let mut pos: usize = 0;
        while pos < o.len() && w[o[pos]] >= w[i]
            invariant
                pos <= o@.len(),
                o@.len() == i,
                i < n,
                n == w.len(),
                forall|t: int| 0 <= t < o@.len() ==> (#[trigger] o@[t]) < i,
                forall|t: int| 0 <= t < pos ==> ahead(w@, #[trigger] o@[t] as int, i as int),
            decreases o@.len() - pos,
        {
            pos = pos + 1;
        }
        let ghost old_o = o@;
        proof {
            assert forall|t: int| pos <= t < old_o.len() implies ahead(w@, i as int, #[trigger] old_o[t] as int) by {
                if t > pos {
                    assert(ahead(w@, old_o[pos as int] as int, old_o[t] as int));
                }
            }
        }
        o.insert(pos, i);
        proof {
            assert forall|t: int, u: int| 0 <= t < u < o@.len() implies ahead(w@, #[trigger] o@[t] as int, #[trigger] o@[u] as int) by {
                if u < pos {
                } else if u == pos {
                } else if t < pos {
                    assert(o@[u] == old_o[u - 1]);
                } else if t == pos {
                    assert(o@[u] == old_o[u - 1]);
                } else {
                    assert(o@[u] == old_o[u - 1]);
                    assert(o@[t] == old_o[t - 1]);
                }
            }
            assert forall|x: usize| x < i + 1 implies #[trigger] o@.contains(x) by {
                if x == i {
                    assert(o@[pos as int] == x);
                } else {
                    assert(old_o.contains(x));
                    let t = choose|t: int| 0 <= t < old_o.len() && old_o[t] == x;
                    if t < pos {
                        assert(o@[t] == x);
                    } else {
                        assert(o@[t + 1] == x);
                    }
                }
            }
            assert forall|t: int| 0 <= t < o@.len() implies (#[trigger] o@[t]) < i + 1 by {
                if t < pos {
                } else if t > pos {
                    assert(o@[t] == old_o[t - 1]);
                }
            }
        }
        i = i + 1;
    }
    proof {
        assert(is_desc_order(w@, o@));
        assert(is_desc_order(w@, desc_order(w@)));
        lemma_desc_order_unique(w@, o@, desc_order(w@));
    }
    o
}

/// Top-p filtering applies: `p` lies strictly between zero and one.
pub open spec fn top_p_active(p: i64) -> bool {
    0 < p < SCALE
}

/// Weight at sorted position `t` after top-k: positions from `k` on are zero.
pub open spec fn after_top_k(w: Seq<i128>, o: Seq<usize>, k: i64, t: int) -> int {
    if k > 0 && t >= k {
        0
    } else {
        w[o[t] as int] as int
    }
}

/// The mass the top-p walk has accumulated when it reaches sorted position
/// `t`: it stops adding once the mass reaches `p`.
pub open spec fn mass_before(w: Seq<i128>, o: Seq<usize>, k: i64, p: i64, t: int) -> int
    decreases t,
{
    if t <= 0 {
        0
    } else {
        let c = mass_before(w, o, k, p, t - 1);
        if c >= p {
            c
        } else {
            c + after_top_k(w, o, k, t - 1)
        }
    }
}

/// Weight left at sorted position `t` after top-k and top-p.
pub open spec fn kept_weight(w: Seq<i128>, o: Seq<usize>, k: i64, p: i64, t: int) -> int {
    if top_p_active(p) && mass_before(w, o, k, p, t) >= p {
        0
    } else {
        after_top_k(w, o, k, t)
    }
}

/// Zeroes every weight past sorted position `k` (when `k > 0`), then walks
/// the sorted weights accumulating mass and zeroes every weight met once the
/// mass has reached `p` (when `0 < p < SCALE`).
pub fn apply_top_k_top_p(w: &Vec<i128>, o: &Vec<usize>, k: i64, p: i64) -> (r: Vec<i128>)
    requires
        is_desc_order(w@, o@),
        w.len() <= u32::MAX,
        forall|j: int| 0 <= j < w.len() ==> -score_bound() <= #[trigger] w[j] <= score_bound(),
    ensures
        r.len() == w.len(),
        forall|t: int| 0 <= t < w.len() ==> #[trigger] r[o@[t] as int] == kept_weight(w@, o@, k, p, t),
{
    let n = w.len();
    let mut r: Vec<i128> = Vec::new();
    let mut j: usize = 0;
    while j < n
        invariant
            j <= n,
            n == w.len(),
            r@ == w@.subrange(0, j as int),
        decreases n - j,
    {
        r.push(w[j]);
        j = j + 1;
    }
    proof {
        assert(r@ =~= w@);
    }
    let active = 0 < p && p < SCALE;
    let mut cum: i128 = 0;
    let mut t: usize = 0;
    while t < n
        invariant
            t <= n,
            n == w.len(),
            n <= u32::MAX,
            is_desc_order(w@, o@),
            active == top_p_active(p),
            r@.len() == n,
            forall|j: int| 0 <= j < n ==> -score_bound() <= #[trigger] w[j] <= score_bound(),
            cum == mass_before(w@, o@, k, p, t as int),
            -t * score_bound() <= cum <= t * score_bound(),
            forall|u: int| 0 <= u < t ==> #[trigger] r@[o@[u] as int] == kept_weight(w@, o@, k, p, u),
            forall|u: int| t <= u < n ==> #[trigger] r@[o@[u] as int] == w@[o@[u] as int],
        decreases n - t,
    {
        let idx = o[t];
        let v: i128 = if k > 0 && t as i64 >= k {
            0
        } else {
            w[idx]
        };
        let ghost before = r@;
        if active && cum >= p as i128 {
            r.set(idx, 0);
        } else {
            r.set(idx, v);
            if cum < p as i128 {
                cum = cum + v;
            }
        }
        proof {
            assert forall|u: int| 0 <= u < n && u != t implies o@[u] != idx by {
                if u < t {
                    assert(ahead(w@, o@[u] as int, o@[t as int] as int));
                } else {
                    assert(ahead(w@, o@[t as int] as int, o@[u] as int));
                }
            }
            assert forall|u: int| 0 <= u < t + 1 implies #[trigger] r@[o@[u] as int] == kept_weight(w@, o@, k, p, u) by {
                if u < t {
                    assert(before[o@[u] as int] == r@[o@[u] as int]);
                }
            }
            assert forall|u: int| t + 1 <= u < n implies #[trigger] r@[o@[u] as int] == w@[o@[u] as int] by {
                assert(before[o@[u] as int] == r@[o@[u] as int]);
            }
        }
        t = t + 1;
    }
    r
}

/// A token with the score it was chosen by.
#[derive(Debug, Clone, Copy, PartialEq, Eq, Structural)]
pub struct ScoredToken {
    pub token: u32,
    pub score: i128,
}

/// The first `n` tokens of order `o` (all of them when there are fewer),
/// with their scores in `w`.
pub fn top_candidates(w: &Vec<i128>, o: &Vec<usize>, n: usize) -> (r: Vec<ScoredToken>)
    requires
        is_desc_order(w@, o@),
        w.len() <= u32::MAX,
    ensures
        r.len() == if n <= w.len() {
            n as int
        } else {
            w.len() as int
        },
        forall|i: int|
            0 <= i < r.len() ==> #[trigger] r[i] == (ScoredToken { token: o@[i] as u32, score: w@[o@[i] as int] }),
{
    let m = if n <= w.len() {
        n
    } else {
        w.len()
    };
    let mut r: Vec<ScoredToken> = Vec::new();
    let mut i: usize = 0;
    while i < m
        invariant
            i <= m,
            m <= w.len(),
            is_desc_order(w@, o@),
            r@.len() == i,
            forall|k: int|
                0 <= k < i ==> #[trigger] r@[k] == (ScoredToken { token: o@[k] as u32, score: w@[o@[k] as int] }),
        decreases m - i,
    {
        let idx = o[i];
        r.push(ScoredToken { token: idx as u32, score: w[idx] });
        i = i + 1;
    }
    r
}

/// Draws an index with probability proportional to its weight. Weights that
/// are negative, all zero, or sum past `u128::MAX` are refused.
pub fn draw_weighted(rng: &mut rand::rngs::StdRng, weights: &Vec<i128>) -> (r: Result<usize, SamplerError>)
    ensures
        !drawable(weights@) ==> r == Err::<usize, SamplerError>(SamplerError::InvalidWeights),
        drawable(weights@) ==> r is Ok,
        r matches Ok(i) ==> i < weights.len() && weights@[i as int] > 0,
        r is Err ==> r == Err::<usize, SamplerError>(SamplerError::InvalidWeights),
{
    let n = weights.len();
    let mut ws: Vec<u128> = Vec::new();
    let mut total: u128 = 0;
    let mut any_positive = false;
    let mut i: usize = 0;
    while i < n
        invariant
            i <= n,
            n == weights.len(),
            ws@.len() == i,
            forall|k: int| 0 <= k < i ==> #[trigger] ws@[k] as int == weights@[k] as int,
            forall|k: int| 0 <= k < i ==> #[trigger] weights@[k] >= 0,
            total as int == sum_u128(ws@),
            sum_u128(ws@) == sum_i128(weights@.subrange(0, i as int)),
            any_positive <==> exists|k: int| 0 <= k < i && #[trigger] weights@[k] > 0,
        decreases n - i,
    {
        let w = weights[i];
        if w < 0 {
            proof {
                assert(!drawable(weights@)) by {
                    assert(weights@[i as int] < 0);
                }
            }
            return Err(SamplerError::InvalidWeights);
        }
        let wu = w as u128;
        if total > u128::MAX - wu {
            proof {
                assert(!drawable(weights@)) by {
                    lemma_sum_i128_prefix_nonneg(weights@, i as int + 1);
                    assert(weights@.subrange(0, i + 1).drop_last() =~= weights@.subrange(0, i as int));
                }
            }
            return Err(SamplerError::InvalidWeights);
        }
        proof {
            assert(ws@.push(wu).drop_last() =~= ws@);
            assert(weights@.subrange(0, i + 1).drop_last() =~= weights@.subrange(0, i as int));
        }
        ws.push(wu);
        total = total + wu;
        if w > 0 {
            any_positive = true;
        }
        i = i + 1;
    }
    proof {
        assert(weights@.subrange(0, n as int) =~= weights@);
    }
    if !any_positive {
        return Err(SamplerError::InvalidWeights);
    }
    proof {
        let k = choose|k: int| 0 <= k < n && #[trigger] weights@[k] > 0;
        assert(ws@[k] > 0);
    }
    match weighted_index_sample(rng, &ws) {
        Some(idx) => Ok(idx),
        None => Err(SamplerError::InvalidWeights),
    }
}

/// With non-negative weights, the sum of a sequence is at least the sum of
/// any prefix.
proof fn lemma_sum_i128_prefix_nonneg(s: Seq<i128>, t: int)
    requires
        0 <= t <= s.len(),
        forall|k: int| 0 <= k < t ==> #[trigger] s[k] >= 0,
    ensures
        (forall|k: int| 0 <= k < s.len() ==> #[trigger] s[k] >= 0) ==> sum_i128(s) >= sum_i128(s.subrange(0, t)),
    decreases s.len(),
{
    if s.len() > t {
        lemma_sum_i128_prefix_nonneg(s.drop_last(), t);
        assert(s.drop_last().subrange(0, t) =~= s.subrange(0, t));
    } else {
        assert(s.subrange(0, t) =~= s);
    }
}

/// Settings of a sampler. Scores, penalties, biases, probabilities and the
/// temperature are fixed point (see `SCALE`).
#[derive(Debug, Clone)]
pub struct SamplerConfig {
    /// `None` selects argmax sampling.
    pub temperature: Option<u64>,
    pub top_n_logprobs: usize,
    pub repeat_penalty: Option<i32>,
    pub presence_penalty: Option<i32>,
    /// Token and bias pairs, each token at most once.
    pub logits_bias: Option<Vec<(u32, i32)>>,
    /// Keep the `topk` most likely tokens; zero or less keeps all.
    pub topk: i64,
    /// Nucleus mass; top-p applies only strictly between zero and `SCALE`.
    pub topp: i64,
}

impl SamplerConfig {
    pub open spec fn wf(&self) -> bool {
        self.logits_bias matches Some(b) ==> b.len() <= u32::MAX && bias_keys_unique(b@)
    }

    pub open spec fn needs_context(&self) -> bool {
        self.repeat_penalty is Some || self.presence_penalty is Some
    }

    pub open spec fn bias_seq(&self) -> Seq<(u32, i32)> {
        match self.logits_bias {
            Some(b) => b@,
            None => Seq::empty(),
        }
    }

    /// Scores after penalties and bias, the input of the sampling choice.
    pub open spec fn prepared(&self, scores: Seq<i64>, ctx: Seq<u32>) -> Seq<i128> {
        let presence = match self.presence_penalty {
            Some(v) => v as int,
            None => 0,
        };
        let repeat = match self.repeat_penalty {
            Some(v) => v as int,
            None => 0,
        };
        Seq::new(
            scores.len(),
            |j: int|
                ((if self.needs_context() {
                    penalized(scores[j] as int, occurrences(ctx, j), presence, repeat)
                } else {
                    scores[j] as int
                }) + bias_for(self.bias_seq(), j)) as i128,
        )
    }
}

/// The penalty context, empty when none is given.
pub open spec fn context_of(penalty_ctxt: Option<&Vec<u32>>) -> Seq<u32> {
    match penalty_ctxt {
        Some(c) => c@,
        None => Seq::empty(),
    }
}

/// Weights at each sorted position after top-k and top-p.
pub open spec fn kept_by_position(w: Seq<i128>, k: i64, p: i64) -> Seq<i128> {
    Seq::new(w.len(), |t: int| kept_weight(w, desc_order(w), k, p, t) as i128)
}

/// `top` lists the first `n` tokens of the descending order of `w` (all of
/// them when there are fewer) with their scores, when asked for.
pub open spec fn top_matches(top: Option<Vec<ScoredToken>>, w: Seq<i128>, n: usize, wanted: bool) -> bool {
    if wanted {
        top matches Some(v) && v@.len() == (if n <= w.len() {
            n as int
        } else {
            w.len() as int
        }) && forall|i: int|
            0 <= i < v@.len() ==> #[trigger] v@[i] == (ScoredToken {
                token: desc_order(w)[i] as u32,
                score: w[desc_order(w)[i] as int],
            })
    } else {
        top is None
    }
}

/// Whether every biased token is an index into `n` scores.
fn bias_fits(bias: &Option<Vec<(u32, i32)>>, n: usize) -> (r: bool)
    ensures
        r == bias_in_range(
            match bias {
                Some(b) => b@,
                None => Seq::empty(),
            },
            n as nat,
        ),
{
    match bias {
        None => true,
        Some(b) => {
            let mut i: usize = 0;
            let mut ok = true;
            while i < b.len() && ok
                invariant
                    i <= b.len(),
                    ok ==> forall|k: int| 0 <= k < i ==> (#[trigger] b@[k]).0 < n,
                    !ok ==> !bias_in_range(b@, n as nat),
                decreases b.len() - i + (if ok { 1int } else { 0int }),
            {
                if b[i].0 as usize >= n {
                    proof {
                        assert(b@[i as int].0 >= n);
                    }
                    ok = false;
                } else {
                    i = i + 1;
                }
            }
            ok
        },
    }
}

/// Scores widened to `i128`.
pub open spec fn as_scores(s: Seq<i64>) -> Seq<i128> {
    Seq::new(s.len(), |j: int| s[j] as i128)
}

fn widen_scores(scores: &Vec<i64>) -> (r: Vec<i128>)
    ensures
        r@ == as_scores(scores@),
        forall|k: int| 0 <= k < r.len() ==> -0x2_0000_0000_0000_0000 <= #[trigger] r@[k] <= 0x2_0000_0000_0000_0000,
{
    let mut v: Vec<i128> = Vec::new();
    let mut j: usize = 0;
    while j < scores.len()
        invariant
            j <= scores.len(),
            v@.len() == j,
            forall|k: int| 0 <= k < j ==> #[trigger] v@[k] == scores@[k] as i128,
        decreases scores.len() - j,
    {
        v.push(scores[j] as i128);
        j = j + 1;
    }
    proof {
        assert(v@ =~= as_scores(scores@));
    }
    v
}

/// What choosing from the scores `w` under `cfg` gives. Without a
/// temperature: the last highest score, surely. With one: a token whose
/// weight after top-k and top-p is positive, exactly when those weights can
/// be drawn from.
pub open spec fn chosen_from(
    cfg: SamplerConfig,
    w: Seq<i128>,
    return_logprobs: bool,
    r: Result<SampledToken, SamplerError>,
) -> bool {
    if cfg.temperature is None {
        r matches Ok(st) && is_last_argmax(w, st.token as int) && st.score == w[st.token as int] && top_matches(
            st.top,
            w,
            cfg.top_n_logprobs,
            return_logprobs,
        )
    } else {
        let kw = kept_by_position(w, cfg.topk, cfg.topp);
        &&& drawable(kw) <==> r is Ok
        &&& r is Err ==> r == Err::<SampledToken, SamplerError>(SamplerError::InvalidWeights)
        &&& r matches Ok(st) ==> exists|t: int|
            0 <= t < w.len() && desc_order(w)[t] == st.token && #[trigger] kw[t] > 0 && st.score == w[st.token as int]
                && top_matches(st.top, w, cfg.top_n_logprobs, return_logprobs)
    }
}

/// The sampled token, the score it had, and optionally the best candidates.
#[derive(Debug, Clone)]
pub struct SampledToken {
    pub token: u32,
    pub score: i128,
    pub top: Option<Vec<ScoredToken>>,
}

/// Sampler of one sequence: its settings and its own random source.
pub struct Sampler {
    rng: rand::rngs::StdRng,
    config: SamplerConfig,
}

impl Sampler {
    /// The settings of this sampler.
    pub closed spec fn cfg(&self) -> SamplerConfig {
        self.config
    }

    /// The settings of this sampler.
    pub fn config(&self) -> (r: &SamplerConfig)
        ensures
            *r == self.cfg(),
    {
        &self.config
    }

    /// A sampler seeded with `seed`. A temperature of zero selects argmax.
    pub fn new(
        seed: u64,
        temperature: Option<u64>,
        top_n_logprobs: usize,
        repeat_penalty: Option<i32>,
        presence_penalty: Option<i32>,
        logits_bias: Option<Vec<(u32, i32)>>,
        topk: i64,
        topp: i64,
    ) -> (s: Self)
        ensures
            s.cfg().temperature == (match temperature {
                Some(t) => if t == 0 {
                    None
                } else {
                    Some(t)
                },
                None => None,
            }),
            s.cfg().top_n_logprobs == top_n_logprobs,
            s.cfg().repeat_penalty == repeat_penalty,
            s.cfg().presence_penalty == presence_penalty,
            s.cfg().logits_bias == logits_bias,
            s.cfg().topk == topk,
            s.cfg().topp == topp,
    {
        let temperature = match temperature {
            Some(t) => if t == 0 {
                None
            } else {
                Some(t)
            },
            None => None,
        };
        Sampler {
            rng: seeded_rng(seed),
            config: SamplerConfig {
                temperature,
                top_n_logprobs,
                repeat_penalty,
                presence_penalty,
                logits_bias,
                topk,
                topp,
            },
        }
    }

    /// The inputs get past the checks: a context when penalties need one, and
    /// biases that name existing tokens.
    pub open spec fn accepted(cfg: SamplerConfig, scores: Seq<i64>, penalty_ctxt: Option<&Vec<u32>>) -> bool {
        &&& !(cfg.needs_context() && penalty_ctxt is None)
        &&& bias_in_range(cfg.bias_seq(), scores.len() as nat)
    }

    /// Applies the penalties and the logit bias to `logits`. Penalties need
    /// `penalty_ctxt`. In sampling mode the caller divides the result by the
    /// temperature and takes the softmax before calling `sample`.
    pub fn prepare_logits(&self, logits: &Vec<i64>, penalty_ctxt: Option<&Vec<u32>>) -> (r: Result<Vec<i128>, SamplerError>)
        requires
            self.cfg().wf(),
            logits.len() <= u32::MAX,
            penalty_ctxt matches Some(c) ==> c.len() <= u32::MAX,
        ensures
            self.cfg().needs_context() && penalty_ctxt is None ==> r == Err::<Vec<i128>, SamplerError>(
                SamplerError::MissingContext,
            ),
            !(self.cfg().needs_context() && penalty_ctxt is None) && !bias_in_range(
                self.cfg().bias_seq(),
                logits.len() as nat,
            ) ==> r == Err::<Vec<i128>, SamplerError>(SamplerError::BiasIndexOutOfRange),
            Self::accepted(self.cfg(), logits@, penalty_ctxt) ==> (r matches Ok(v) && v@ == self.cfg().prepared(
                logits@,
                context_of(penalty_ctxt),
            )),
            r matches Ok(v) ==> forall|j: int| 0 <= j < v.len() ==> -score_bound() <= #[trigger] v@[j] <= score_bound(),
    {
        let cfg = &self.config;
        let needs = cfg.repeat_penalty.is_some() || cfg.presence_penalty.is_some();
        let ghost ctx_s = context_of(penalty_ctxt);
        let mut work: Vec<i128> = if needs {
            match penalty_ctxt {
                None => {
                    return Err(SamplerError::MissingContext);
                },
                Some(ctx) => {
                    let presence = match cfg.presence_penalty {
                        Some(v) => v,
                        None => 0,
                    };
                    let repeat = match cfg.repeat_penalty {
                        Some(v) => v,
                        None => 0,
                    };
                    apply_repeat_presence_penalty(logits, presence, repeat, ctx)
                },
            }
        } else {
            widen_scores(logits)
        };
        let empty: Vec<(u32, i32)> = Vec::new();
        let bias = match &cfg.logits_bias {
            Some(b) => b,
            None => &empty,
        };
        let br = apply_logit_bias(&mut work, bias);
        if br.is_err() {
            return Err(SamplerError::BiasIndexOutOfRange);
        }
        proof {
            assert(work@ =~= cfg.prepared(logits@, ctx_s));
        }
        Ok(work)
    }

    /// Chooses from prepared scores: the last highest without a temperature,
    /// else a draw after top-k and top-p.
    fn pick(&mut self, work: &Vec<i128>, return_logprobs: bool) -> (r: Result<SampledToken, SamplerError>)
        requires
            0 < work.len() <= u32::MAX,
            forall|j: int| 0 <= j < work.len() ==> -score_bound() <= #[trigger] work@[j] <= score_bound(),
        ensures
            final(self).cfg() == old(self).cfg(),
            r matches Ok(st) ==> st.token < work.len(),
            chosen_from(old(self).cfg(), work@, return_logprobs, r),
    {
        let ghost w = work@;
        let order = desc_argsort(work);
        let n_top = self.config.top_n_logprobs;
        let top = if return_logprobs {
            Some(top_candidates(work, &order, n_top))
        } else {
            None
        };
        match self.config.temperature {
            None => {
                let t = argmax(work);
                proof {
                    assert(order@ == desc_order(w));
                }
                Ok(SampledToken { token: t as u32, score: work[t], top })
            },
            Some(_) => {
                let kept = apply_top_k_top_p(work, &order, self.config.topk, self.config.topp);
                let mut by_pos: Vec<i128> = Vec::new();
                let mut t: usize = 0;
                while t < order.len()
                    invariant
                        t <= order@.len(),
                        order@.len() == work@.len(),
                        kept@.len() == work@.len(),
                        is_desc_order(work@, order@),
                        by_pos@.len() == t,
                        forall|u: int| 0 <= u < t ==> #[trigger] by_pos@[u] == kept@[order@[u] as int],
                    decreases order@.len() - t,
                {
                    by_pos.push(kept[order[t]]);
                    t = t + 1;
                }
                proof {
                    assert(by_pos@ =~= kept_by_position(w, self.config.topk, self.config.topp));
                }
                let pos = self.draw(&by_pos);
                match pos {
                    Err(e) => Err(e),
                    Ok(p) => {
                        let tok = order[p];
                        Ok(SampledToken { token: tok as u32, score: work[tok], top })
                    },
                }
            },
        }
    }

    /// Chooses the next token. Whatever the mode, a penalty without
    /// `penalty_ctxt` and a bias naming a token past the end of `scores` are
    /// errors.
    ///
    /// Without a temperature, `scores` are logits: penalties (which need
    /// `penalty_ctxt`) and the bias are applied and the last highest wins.
    /// With one, `scores` are the probabilities the caller obtained from
    /// `prepare_logits`, the temperature and the softmax; they are filtered
    /// by top-k and top-p and drawn from. With `return_logprobs`, the best
    /// `top_n_logprobs` tokens by score come along.
    pub fn sample(&mut self, scores: &Vec<i64>, penalty_ctxt: Option<&Vec<u32>>, return_logprobs: bool) -> (r: Result<SampledToken, SamplerError>)
        requires
            old(self).cfg().wf(),
            0 < scores.len() <= u32::MAX,
            penalty_ctxt matches Some(c) ==> c.len() <= u32::MAX,
        ensures
            final(self).cfg() == old(self).cfg(),
            r matches Ok(st) ==> st.token < scores.len(),
            old(self).cfg().needs_context() && penalty_ctxt is None ==> r == Err::<SampledToken, SamplerError>(
                SamplerError::MissingContext,
            ),
            !(old(self).cfg().needs_context() && penalty_ctxt is None) && !bias_in_range(
                old(self).cfg().bias_seq(),
                scores.len() as nat,
            ) ==> r == Err::<SampledToken, SamplerError>(SamplerError::BiasIndexOutOfRange),
            old(self).cfg().temperature is None && Self::accepted(old(self).cfg(), scores@, penalty_ctxt) ==> chosen_from(
                old(self).cfg(),
                old(self).cfg().prepared(scores@, context_of(penalty_ctxt)),
                return_logprobs,
                r,
            ),
            old(self).cfg().temperature is Some && Self::accepted(old(self).cfg(), scores@, penalty_ctxt) ==> chosen_from(
                old(self).cfg(),
                as_scores(scores@),
                return_logprobs,
                r,
            ),
    {
        if self.config.temperature.is_none() {
            let work = self.prepare_logits(scores, penalty_ctxt);
            match work {
                Err(e) => Err(e),
                Ok(w) => self.pick(&w, return_logprobs),
            }
        } else {
            let needs = self.config.repeat_penalty.is_some() || self.config.presence_penalty.is_some();
            if needs && penalty_ctxt.is_none() {
                return Err(SamplerError::MissingContext);
            }
            if !bias_fits(&self.config.logits_bias, scores.len()) {
                return Err(SamplerError::BiasIndexOutOfRange);
            }
            self.sample_distribution(scores, return_logprobs)
        }
    }

    /// Chooses a token from a probability distribution, with no penalties
    /// or bias: the last most likely without a temperature, else a draw
    /// after top-k and top-p.
    pub fn sample_distribution(&mut self, probs: &Vec<i64>, return_logprobs: bool) -> (r: Result<SampledToken, SamplerError>)
        requires
            0 < probs.len() <= u32::MAX,
        ensures
            final(self).cfg() == old(self).cfg(),
            r matches Ok(st) ==> st.token < probs.len(),
            chosen_from(old(self).cfg(), as_scores(probs@), return_logprobs, r),
    {
        let work = widen_scores(probs);
        proof {
            assert(work@ =~= as_scores(probs@));
        }
        self.pick(&work, return_logprobs)
    }

    fn draw(&mut self, weights: &Vec<i128>) -> (r: Result<usize, SamplerError>)
        ensures
            final(self).cfg() == old(self).cfg(),
            !drawable(weights@) ==> r == Err::<usize, SamplerError>(SamplerError::InvalidWeights),
            drawable(weights@) ==> r is Ok,
            r matches Ok(i) ==> i < weights.len() && weights@[i as int] > 0,
            r is Err ==> r == Err::<usize, SamplerError>(SamplerError::InvalidWeights),
    {
        draw_weighted(&mut self.rng, weights)
    }
}

proof fn lemma_mass_agrees(w: Seq<i128>, o: Seq<usize>, k: i64, p1: i64, p2: i64, t: int)
    requires
        p1 <= p2,
        t >= 0,
        mass_before(w, o, k, p1, t) < p1,
    ensures
        mass_before(w, o, k, p2, t) == mass_before(w, o, k, p1, t),
    decreases t,
{
    if t > 0 {
        let c1 = mass_before(w, o, k, p1, t - 1);
        if c1 >= p1 {
            assert(mass_before(w, o, k, p1, t) == c1);
        }
        lemma_mass_agrees(w, o, k, p1, p2, t - 1);
    }
}

/// Lowering top-p never widens the support: with top-k off, a token that
/// keeps weight under `p1` keeps the same weight under any `p2 >= p1`.
pub proof fn lemma_top_p_monotone(w: Seq<i128>, p1: i64, p2: i64)
    requires
        0 < p1 <= p2,
    ensures
        forall|t: int|
            0 <= t < w.len() && #[trigger] kept_by_position(w, 0, p1)[t] != 0 ==> kept_by_position(w, 0, p2)[t]
                == kept_by_position(w, 0, p1)[t],
{
    let o = desc_order(w);
    assert forall|t: int|
        0 <= t < w.len() && #[trigger] kept_by_position(w, 0, p1)[t] != 0 implies kept_by_position(w, 0, p2)[t]
            == kept_by_position(w, 0, p1)[t] by {
        if top_p_active(p1) {
            lemma_mass_agrees(w, o, 0, p1, p2, t);
        }
    }
}

/// Without penalties or biases the prepared scores are the scores: argmax
/// sampling then picks the highest input score.
pub proof fn lemma_prepared_is_identity(cfg: SamplerConfig, scores: Seq<i64>, ctx: Seq<u32>)
    requires
        !cfg.needs_context(),
        cfg.bias_seq().len() == 0,
    ensures
        forall|j: int| 0 <= j < scores.len() ==> #[trigger] cfg.prepared(scores, ctx)[j] == scores[j] as i128,
{
}

/// The argmax choice is a function of the scores: there is one last index of
/// the largest score.
pub proof fn lemma_last_argmax_unique(w: Seq<i128>, a: int, b: int)
    requires
        is_last_argmax(w, a),
        is_last_argmax(w, b),
    ensures
        a == b,
{
    if a < b {
        assert(w[b] < w[a]);
        assert(w[a] <= w[b]);
    } else if b < a {
        assert(w[a] < w[b]);
        assert(w[b] <= w[a]);
    }
}

/// Everything the sampler decides before its random draw is a function of
/// its settings and inputs: two samplers with equal settings, given equal
/// scores and penalty context, prepare the same scores, keep the same
/// weights at each sorted position, and in argmax mode pick the same token.
pub proof fn lemma_sampler_purity(
    c1: SamplerConfig,
    c2: SamplerConfig,
    scores: Seq<i64>,
    ctx: Seq<u32>,
    t1: int,
    t2: int,
)
    requires
        c1 == c2,
        is_last_argmax(c1.prepared(scores, ctx), t1),
        is_last_argmax(c2.prepared(scores, ctx), t2),
    ensures
        c1.prepared(scores, ctx) == c2.prepared(scores, ctx),
        kept_by_position(c1.prepared(scores, ctx), c1.topk, c1.topp) == kept_by_position(
            c2.prepared(scores, ctx),
            c2.topk,
            c2.topp,
        ),
        t1 == t2,
{
    lemma_last_argmax_unique(c1.prepared(scores, ctx), t1, t2);
}

/// Why sampling failed.
#[derive(Debug, Clone, Copy, PartialEq, Eq, Structural)]
pub enum SamplerError {
    /// A penalty is configured but no penalty context was given.
    MissingContext,
    /// A logit bias names a token past the end of the scores.
    BiasIndexOutOfRange,
    /// The weights left for the draw are negative, all zero, or too large.
    InvalidWeights,
}

} // verus!
