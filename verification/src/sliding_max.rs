//! Linear-time sliding-window maximum via monotonic deques.
//!
//! Comparing every cell of a spectrogram against its full neighbourhood costs
//! the product of the window sizes; separable maximum filtering takes two
//! linear passes instead. A cell equals its centered sliding maximum exactly
//! when it is the maximum of its window. Edges use truncated windows.
//!
//! Values are integers that order as the magnitudes do.
use vstd::prelude::*;

use std::collections::VecDeque;

verus! {

/// `m` is the maximum of `s[lo..hi]`.
pub open spec fn is_max(s: Seq<i32>, lo: int, hi: int, m: i32) -> bool {
    &&& exists|j: int| lo <= j < hi && #[trigger] s[j] == m
    &&& forall|j: int| lo <= j < hi ==> #[trigger] s[j] <= m
}

/// `a - b`, at least zero.
pub open spec fn below(a: int, b: int) -> int {
    if a >= b {
        a - b
    } else {
        0
    }
}

/// The smaller number.
pub open spec fn lesser(a: int, b: int) -> int {
    if a <= b {
        a
    } else {
        b
    }
}

/// The width in effect: at least one.
pub open spec fn effective_width(w: usize) -> int {
    if w == 0 {
        1
    } else {
        w as int
    }
}

/// Every position holds the maximum of the window of `w` values that ends
/// there.
pub open spec fn is_causal_max(s: Seq<i32>, w: int, out: Seq<i32>) -> bool {
    &&& out.len() == s.len()
    &&& forall|i: int| 0 <= i < s.len() ==> is_max(s, below(i + 1, w), i + 1, #[trigger] out[i])
}

/// Every position holds the maximum of the values up to `radius` away.
pub open spec fn is_centered_max(s: Seq<i32>, radius: int, out: Seq<i32>) -> bool {
    &&& out.len() == s.len()
    &&& forall|i: int|
        0 <= i < s.len() ==> is_max(
            s,
            below(i, radius),
            lesser(i + radius + 1, s.len() as int),
            #[trigger] out[i],
        )
}

/// The deque of a left-to-right pass: positions of `s[..end]`, ascending, with
/// descending values.
spec fn is_monotone(s: Seq<i32>, d: Seq<usize>, end: int) -> bool {
    &&& forall|k: int| 0 <= k < d.len() ==> #[trigger] d[k] < end <= s.len()
    &&& forall|k: int, l: int|
        #![trigger d[k], d[l]]
        0 <= k < l < d.len() ==> d[k] < d[l] && s[d[k] as int] > s[d[l] as int]
}

/// The value at `j` is matched by a later one in the deque.
spec fn covered(s: Seq<i32>, d: Seq<usize>, j: int) -> bool {
    exists|k: int| 0 <= k < d.len() && j <= #[trigger] d[k] && s[j] <= s[d[k] as int]
}

/// Every value from `lo` up to `end` is matched by a later one in the deque.
spec fn covers(s: Seq<i32>, d: Seq<usize>, lo: int, end: int) -> bool {
    forall|j: int| lo <= j < end ==> #[trigger] covered(s, d, j)
}

/// The values in walking order: left to right, or right to left.
spec fn walked(s: Seq<i32>, backward: bool) -> Seq<i32> {
    if backward {
        s.reverse()
    } else {
        s
    }
}

/// The value at a walking position.
fn value_at(s: &[i32], backward: bool, x: usize) -> (v: i32)
    requires
        x < s.len(),
    ensures
        v == walked(s@, backward)[x as int],
{
    if backward {
        s[s.len() - 1 - x]
    } else {
        s[x]
    }
}

/// Position `i` enters: positions of values no larger leave from the back.
fn enter(input: &[i32], backward: bool, d: &mut VecDeque<usize>, i: usize, Ghost(lo): Ghost<int>)
    requires
        i < input.len(),
        is_monotone(walked(input@, backward), old(d)@, i as int),
        covers(walked(input@, backward), old(d)@, lo, i as int),
    ensures
        is_monotone(walked(input@, backward), final(d)@, i + 1),
        covers(walked(input@, backward), final(d)@, lo, i + 1),
        final(d)@.len() > 0,
        final(d)@[final(d)@.len() - 1] == i,
{
    let ghost s = walked(input@, backward);
    let ghost start = d@;
    while d.len() > 0 && value_at(input, backward, d[d.len() - 1]) <= value_at(input, backward, i)
        invariant
            i < input.len(),
            s == walked(input@, backward),
            s.len() == input.len(),
            is_monotone(s, start, i as int),
            d@.len() <= start.len(),
            d@ == start.take(d@.len() as int),
            forall|k: int|
                d@.len() <= k < start.len() ==> s[#[trigger] start[k] as int] <= s[i as int],
        decreases d.len(),
    {
        d.pop_back();
        assert(d@ =~= start.take(d@.len() as int));
    }
    let ghost kept = d@;
    assert(kept.len() > 0 ==> s[kept[kept.len() - 1] as int] > s[i as int]);
    d.push_back(i);
    proof {
        let full = d@;
        let last = kept.len() as int;
        assert(full[last] == i);
        assert forall|k: int| 0 <= k < full.len() implies #[trigger] full[k] < i + 1
            <= s.len() by {
            if k < last {
                assert(full[k] == start[k]);
            }
        }
        assert forall|k: int, l: int|
            #![trigger full[k], full[l]]
            0 <= k < l < full.len() implies full[k] < full[l] && s[full[k] as int]
            > s[full[l] as int] by {
            assert(full[k] == start[k]);
            if l == last {
                if k < last - 1 {
                    assert(start[k] < start[last - 1]);
                }
            } else {
                assert(full[l] == start[l]);
            }
        }
        assert forall|j: int| lo <= j < i + 1 implies #[trigger] covered(s, full, j) by {
            if j < i {
                assert(covered(s, start, j));
                let k = choose|k: int|
                    0 <= k < start.len() && j <= #[trigger] start[k] && s[j]
                        <= s[start[k] as int];
                if k < last {
                    assert(full[k] == start[k]);
                }
            }
        }
    }
}

/// Positions before `left` leave from the front.
fn leave(Ghost(s): Ghost<Seq<i32>>, d: &mut VecDeque<usize>, i: usize, left: usize)
    requires
        i < s.len(),
        left <= i,
        is_monotone(s, old(d)@, i + 1),
        covers(s, old(d)@, left as int, i + 1),
        old(d)@.len() > 0,
        old(d)@[old(d)@.len() - 1] == i,
    ensures
        is_monotone(s, final(d)@, i + 1),
        covers(s, final(d)@, left as int, i + 1),
        final(d)@.len() > 0,
        left <= final(d)@[0],
{
    let ghost full = d@;
    let ghost mut gone: int = 0;
    assert(full.skip(0) =~= full);
    while d[0] < left
        invariant
            0 <= gone < full.len(),
            d@ == full.skip(gone),
            left <= i,
            full[full.len() - 1] == i,
            forall|k: int| 0 <= k < gone ==> #[trigger] full[k] < left,
        decreases d.len(),
    {
        assert(d@[0] == full[gone]);
        d.pop_front();
        proof {
            gone = gone + 1;
            assert(d@ =~= full.skip(gone));
        }
    }
    proof {
        let rest = d@;
        assert forall|k: int| 0 <= k < rest.len() implies #[trigger] rest[k] < i + 1 <= s.len() by {
            assert(rest[k] == full[gone + k]);
        }
        assert forall|k: int, l: int|
            #![trigger rest[k], rest[l]]
            0 <= k < l < rest.len() implies rest[k] < rest[l] && s[rest[k] as int]
            > s[rest[l] as int] by {
            assert(rest[k] == full[gone + k] && rest[l] == full[gone + l]);
        }
        assert forall|j: int| left <= j < i + 1 implies #[trigger] covered(s, rest, j) by {
            assert(covered(s, full, j));
            let k = choose|k: int|
                0 <= k < full.len() && j <= #[trigger] full[k] && s[j] <= s[full[k] as int];
            assert(k >= gone);
            assert(rest[k - gone] == full[k]);
        }
    }
}

/// The front of the deque holds the maximum of the window.
proof fn lemma_front_is_max(s: Seq<i32>, d: Seq<usize>, left: int, end: int)
    requires
        d.len() > 0,
        is_monotone(s, d, end),
        covers(s, d, left, end),
        left <= d[0],
    ensures
        is_max(s, left, end, s[d[0] as int]),
{
    let m = s[d[0] as int];
    assert forall|j: int| left <= j < end implies #[trigger] s[j] <= m by {
        assert(covered(s, d, j));
        let k = choose|k: int| 0 <= k < d.len() && j <= #[trigger] d[k] && s[j] <= s[d[k] as int];
        if k > 0 {
            assert(d[0] < d[k]);
        }
    }
    assert(d[0] < end);
}

/// Causal sliding maximum: `out[i]` is the maximum of the `w` values up to
/// position `i`. A width of zero counts as one.
pub fn sliding_max(input: &[i32], w: usize) -> (out: Vec<i32>)
    ensures
        is_causal_max(input@, effective_width(w), out@),
{
    let mut out: Vec<i32> = Vec::new();
    sliding_max_into(input, w, &mut out);
    out
}

/// Allocation-reusing causal variant. `out` is cleared first.
pub fn sliding_max_into(input: &[i32], w: usize, out: &mut Vec<i32>)
    ensures
        is_causal_max(input@, effective_width(w), final(out)@),
{
    out.clear();
    let n: usize = input.len();
    let width: usize = if w == 0 {
        1
    } else {
        w
    };
    let mut deque: VecDeque<usize> = VecDeque::new();
    let mut i: usize = 0;
    let mut left: usize = 0;
    while i < n
        invariant
            i <= n,
            n == input.len(),
            width >= 1,
            left == below(i as int, width as int),
            is_monotone(input@, deque@, i as int),
            covers(input@, deque@, left as int, i as int),
            out.len() == i,
            forall|k: int|
                0 <= k < i ==> is_max(
                    input@,
                    below(k + 1, width as int),
                    k + 1,
                    #[trigger] out[k],
                ),
        decreases n - i,
    {
        enter(input, false, &mut deque, i, Ghost(left as int));
        left = i.saturating_sub(width - 1);
        assert(covers(input@, deque@, left as int, i + 1));
        leave(Ghost(input@), &mut deque, i, left);
        proof {
            lemma_front_is_max(input@, deque@, left as int, i + 1);
        }
        out.push(input[deque[0]]);
        i = i + 1;
    }
}

/// Reusable deque state for callers that filter every frame: the two index
/// deques are allocated once.
pub struct SlidingMaxScratch {
    fwd: VecDeque<usize>,
    bwd: VecDeque<usize>,
}

impl SlidingMaxScratch {
    /// Entries held between calls.
    pub closed spec fn held(&self) -> nat {
        self.fwd@.len() + self.bwd@.len()
    }

    pub fn new() -> (scratch: Self)
        ensures
            scratch.held() == 0,
    {
        SlidingMaxScratch { fwd: VecDeque::new(), bwd: VecDeque::new() }
    }

    /// [`sliding_max_centered_into`] with reused deques.
    pub fn centered_into(&mut self, input: &[i32], radius: usize, out: &mut Vec<i32>)
        ensures
            is_centered_max(input@, radius as int, final(out)@),
    {
        sliding_max_centered_scratch(input, radius, out, self);
    }
}

impl Default for SlidingMaxScratch {
    fn default() -> (scratch: Self) {
        SlidingMaxScratch::new()
    }
}

/// Centered sliding maximum: `out[i]` is the maximum of the values up to
/// `radius` away, with truncated windows at the edges.
pub fn sliding_max_centered(input: &[i32], radius: usize) -> (out: Vec<i32>)
    ensures
        is_centered_max(input@, radius as int, out@),
{
    let mut out: Vec<i32> = Vec::new();
    sliding_max_centered_into(input, radius, &mut out);
    out
}

/// Allocation-reusing centered variant. `out` is cleared first.
pub fn sliding_max_centered_into(input: &[i32], radius: usize, out: &mut Vec<i32>)
    ensures
        is_centered_max(input@, radius as int, final(out)@),
{
    let mut scratch = SlidingMaxScratch::new();
    sliding_max_centered_scratch(input, radius, out, &mut scratch);
}

/// A maximum over walking positions, seen from the other side.
proof fn lemma_max_reversed(s: Seq<i32>, lo: int, hi: int, m: i32)
    requires
        0 <= lo <= hi <= s.len(),
        is_max(s.reverse(), lo, hi, m),
    ensures
        is_max(s, s.len() - hi, s.len() - lo, m),
{
    let r = s.reverse();
    let n = s.len() as int;
    let j = choose|j: int| lo <= j < hi && #[trigger] r[j] == m;
    assert(s[n - 1 - j] == m);
    assert forall|k: int| n - hi <= k < n - lo implies #[trigger] s[k] <= m by {
        assert(r[n - 1 - k] == s[k]);
    }
}

/// Two overlapping windows together.
proof fn lemma_max_joined(s: Seq<i32>, lo: int, mid: int, hi: int, a: i32, b: i32)
    requires
        lo <= mid < hi,
        is_max(s, lo, mid + 1, a),
        is_max(s, mid, hi, b),
    ensures
        is_max(s, lo, hi, if a >= b { a } else { b }),
{
    let m = if a >= b { a } else { b };
    if a >= b {
        let j = choose|j: int| lo <= j < mid + 1 && #[trigger] s[j] == a;
        assert(s[j] == m);
    } else {
        let j = choose|j: int| mid <= j < hi && #[trigger] s[j] == b;
        assert(s[j] == m);
    }
    assert forall|j: int| lo <= j < hi implies #[trigger] s[j] <= m by {}
}

fn sliding_max_centered_scratch(
    input: &[i32],
    radius: usize,
    out: &mut Vec<i32>,
    scratch: &mut SlidingMaxScratch,
)
    ensures
        is_centered_max(input@, radius as int, final(out)@),
{
    let n: usize = input.len();
    out.clear();
    // Forward pass: maxima of the windows that end at each position.
    scratch.fwd.clear();
    let mut i: usize = 0;
    let mut left: usize = 0;
    while i < n
        invariant
            i <= n,
            n == input.len(),
            left == below(i - 1, radius as int) || i == 0,
            i == 0 ==> left == 0,
            is_monotone(input@, scratch.fwd@, i as int),
            covers(input@, scratch.fwd@, left as int, i as int),
            out.len() == i,
            forall|k: int|
                0 <= k < i ==> is_max(input@, below(k, radius as int), k + 1, #[trigger] out[k]),
        decreases n - i,
    {
        enter(input, false, &mut scratch.fwd, i, Ghost(left as int));
        left = i.saturating_sub(radius);
        leave(Ghost(input@), &mut scratch.fwd, i, left);
        proof {
            lemma_front_is_max(input@, scratch.fwd@, left as int, i + 1);
        }
        out.push(input[scratch.fwd[0]]);
        i = i + 1;
    }
    let ghost forward = out@;
    // Backward pass: maxima of the windows that start at each position,
    // folded into the result.
    scratch.bwd.clear();
    let ghost r = input@.reverse();
    let mut x: usize = 0;
    left = 0;
    while x < n
        invariant
            x <= n,
            n == input.len(),
            r == input@.reverse(),
            left == below(x - 1, radius as int) || x == 0,
            x == 0 ==> left == 0,
            is_monotone(r, scratch.bwd@, x as int),
            covers(r, scratch.bwd@, left as int, x as int),
            forward.len() == n,
            out.len() == n,
            forall|k: int|
                0 <= k < n ==> is_max(input@, below(k, radius as int), k + 1, #[trigger] forward[k]),
            forall|k: int| 0 <= k < n - x ==> #[trigger] out[k] == forward[k],
            forall|k: int|
                n - x <= k < n ==> is_max(
                    input@,
                    below(k, radius as int),
                    lesser(k + radius + 1, n as int),
                    #[trigger] out[k],
                ),
        decreases n - x,
    {
        enter(input, true, &mut scratch.bwd, x, Ghost(left as int));
        left = x.saturating_sub(radius);
        leave(Ghost(r), &mut scratch.bwd, x, left);
        let at: usize = n - 1 - x;
        let v: i32 = value_at(input, true, scratch.bwd[0]);
        let u: i32 = out[at];
        proof {
            lemma_front_is_max(r, scratch.bwd@, left as int, x + 1);
            lemma_max_reversed(input@, left as int, x + 1, v);
            assert(is_max(input@, below(at as int, radius as int), at + 1, forward[at as int]));
            lemma_max_joined(
                input@,
                below(at as int, radius as int),
                at as int,
                n - left,
                u,
                v,
            );
            assert(n - left == lesser(at + radius + 1, n as int));
        }
        if v > u {
            out.set(at, v);
        }
        x = x + 1;
    }
}

/// A value equals its centered maximum exactly when nothing around it is
/// larger.
pub proof fn law_local_maxima_are_fixed_points(s: Seq<i32>, radius: int, out: Seq<i32>, i: int)
    requires
        radius >= 0,
        is_centered_max(s, radius, out),
        0 <= i < s.len(),
    ensures
        out[i] == s[i] <==> forall|j: int|
            below(i, radius) <= j < lesser(i + radius + 1, s.len() as int) ==> #[trigger] s[j]
                <= s[i],
{
    let lo = below(i, radius);
    let hi = lesser(i + radius + 1, s.len() as int);
    assert(is_max(s, lo, hi, out[i]));
    let k = choose|k: int| lo <= k < hi && #[trigger] s[k] == out[i];
    assert(s[i] <= out[i]);
    if forall|j: int| lo <= j < hi ==> #[trigger] s[j] <= s[i] {
        assert(s[k] <= s[i]);
    }
}

/// The maximum filter is determined by the input.
pub proof fn law_centered_max_is_unique(s: Seq<i32>, radius: int, a: Seq<i32>, b: Seq<i32>)
    requires
        is_centered_max(s, radius, a),
        is_centered_max(s, radius, b),
    ensures
        a == b,
{
    assert forall|i: int| 0 <= i < s.len() implies a[i] == b[i] by {
        let lo = below(i, radius);
        let hi = lesser(i + radius + 1, s.len() as int);
        assert(is_max(s, lo, hi, a[i]) && is_max(s, lo, hi, b[i]));
        let j = choose|j: int| lo <= j < hi && #[trigger] s[j] == a[i];
        let k = choose|k: int| lo <= k < hi && #[trigger] s[k] == b[i];
        assert(s[j] <= b[i] && s[k] <= a[i]);
    }
    assert(a =~= b);
}

/// A window's maximum is one of its values and none of them is larger: those
/// up to the radius away on either side, or the last `w` of them.
pub proof fn law_windows_hold_their_maximum(
    s: Seq<i32>,
    radius: int,
    w: int,
    centered: Seq<i32>,
    causal: Seq<i32>,
    i: int,
    j: int,
)
    requires
        radius >= 0,
        w >= 1,
        is_centered_max(s, radius, centered),
        is_causal_max(s, w, causal),
        0 <= i < s.len(),
        0 <= j < s.len(),
    ensures
        centered.len() == s.len() && causal.len() == s.len(),
        i - radius <= j <= i + radius ==> s[j] <= centered[i],
        exists|k: int|
            0 <= k < s.len() && i - radius <= k <= i + radius && #[trigger] s[k] == centered[i],
        i - w < j <= i ==> s[j] <= causal[i],
        exists|k: int| 0 <= k < s.len() && i - w < k <= i && #[trigger] s[k] == causal[i],
        effective_width(0) == 1,
{
    assert(is_max(s, below(i, radius), lesser(i + radius + 1, s.len() as int), centered[i]));
    assert(is_max(s, below(i + 1, w), i + 1, causal[i]));
    let a = choose|k: int|
        below(i, radius) <= k < lesser(i + radius + 1, s.len() as int) && #[trigger] s[k]
            == centered[i];
    assert(s[a] == centered[i]);
    let b = choose|k: int| below(i + 1, w) <= k < i + 1 && #[trigger] s[k] == causal[i];
    assert(s[b] == causal[i]);
}

} // verus!
