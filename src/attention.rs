//! Which cached positions an attention step reads: causal masking, the
//! sliding window, and the key/value layout constant of the kernels.
use vstd::prelude::*;

verus! {

/// Query position `q` may attend key position `k`: not a later position,
/// and within the window when the layer has one.
pub open spec fn may_attend(q: int, k: int, window: Option<usize>) -> bool {
    &&& k <= q
    &&& match window {
        Some(w) => q - k < w,
        None => true,
    }
}

/// The mask of a forward pass over `q_len` new positions after `past_len`
/// cached ones: row `i` is query position `past_len + i`, column `j` is key
/// position `j`, and `true` lets the query read the key.
pub fn attention_mask(past_len: usize, q_len: usize, window: Option<usize>) -> (r: Vec<Vec<bool>>)
    requires
        past_len + q_len <= usize::MAX,
    ensures
        r@.len() == q_len,
        forall|i: int| 0 <= i < q_len ==> (#[trigger] r@[i])@.len() == past_len + q_len,
        forall|i: int, j: int|
            0 <= i < q_len && 0 <= j < past_len + q_len ==> (#[trigger] r@[i]@[j]) == may_attend(
                past_len + i,
                j,
                window,
            ),
{
    let total = past_len + q_len;
    let mut r: Vec<Vec<bool>> = Vec::new();
    let mut i: usize = 0;
    while i < q_len
        invariant
            i <= q_len,
            total == past_len + q_len,
            r@.len() == i,
            forall|a: int| 0 <= a < i ==> (#[trigger] r@[a])@.len() == total,
            forall|a: int, j: int|
                0 <= a < i && 0 <= j < total ==> (#[trigger] r@[a]@[j]) == may_attend(past_len + a, j, window),
        decreases q_len - i,
    {
        let q = past_len + i;
        let mut row: Vec<bool> = Vec::new();
        let mut k: usize = 0;
        while k < total
            invariant
                k <= total,
                q == past_len + i,
                row@.len() == k,
                forall|j: int| 0 <= j < k ==> #[trigger] row@[j] == may_attend(q as int, j, window),
            decreases total - k,
        {
            let allowed = k <= q && match window {
                Some(w) => q - k < w,
                None => true,
            };
            row.push(allowed);
            k = k + 1;
        }
        r.push(row);
        i = i + 1;
    }
    r
}

/// The part of a context of `context_len` positions a layer with `window`
/// reads: its last `window` positions, as `(start, len)`.
pub fn sliding_window_view(context_len: usize, window: Option<usize>) -> (r: (usize, usize))
    ensures
        r.0 + r.1 == context_len,
        window matches Some(w) ==> r.1 == if context_len < w {
            context_len
        } else {
            w
        },
        window is None ==> r.0 == 0,
{
    match window {
        Some(w) => if context_len < w {
            (0, context_len)
        } else {
            (context_len - w, w)
        },
        None => (0, context_len),
    }
}

/// Elements of a key vector the cache interleaves together: sixteen bytes'
/// worth, so 8 for 16-bit elements and 4 for 32-bit ones.
pub fn kv_interleave(element_bytes: usize) -> (r: usize)
    requires
        element_bytes == 2 || element_bytes == 4,
    ensures
        r * element_bytes == 16,
{
    16 / element_bytes
}

} // verus!
