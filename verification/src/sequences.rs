//! Integer sequence generators for algorithmic composition: rhythms,
//! number sequences, fractal patterns and scale mappings.
use vstd::prelude::*;
use vstd::arithmetic::div_mod::*;
use vstd::arithmetic::power::pow;
use vstd::std_specs::iter::IteratorSpec;
use vstd::string::*;
use std::collections::HashMap;
use crate::text::push_char;

verus! {

// ---------------------------------------------------------------------------
// Counting hits (1s) in a binary pattern
// ---------------------------------------------------------------------------

/// Number of entries equal to 1 in a pattern.
pub open spec fn count_hits(s: Seq<u32>) -> nat
    decreases s.len(),
{
    if s.len() == 0 {
        0
    } else {
        count_hits(s.drop_last()) + if s.last() == 1 { 1nat } else { 0nat }
    }
}

/// Counting hits is additive over concatenation.
pub proof fn lemma_count_hits_concat(a: Seq<u32>, b: Seq<u32>)
    ensures
        count_hits(a + b) == count_hits(a) + count_hits(b),
    decreases b.len(),
{
    if b.len() == 0 {
        assert(a + b =~= a);
    } else {
        lemma_count_hits_concat(a, b.drop_last());
        assert((a + b).drop_last() =~= a + b.drop_last());
    }
}

proof fn lemma_count_hits_push(s: Seq<u32>, x: u32)
    ensures
        count_hits(s.push(x)) == count_hits(s) + if x == 1 { 1nat } else { 0nat },
{
    assert(s.push(x).drop_last() =~= s);
}

// ---------------------------------------------------------------------------
// Euclidean rhythms
// ---------------------------------------------------------------------------

/// Number of pulses a Bresenham line from a half-step offset has placed
/// after `j` steps, when `pulses` are spread over `steps`.
pub open spec fn bresenham_count(pulses: int, steps: int, j: int) -> int {
    (steps / 2 + j * pulses) / steps
}

/// Unrotated Bresenham pattern: step `j` is a hit exactly when the line
/// crosses a new integer while advancing from step `j` to `j + 1`.
pub open spec fn bresenham_pattern(pulses: int, steps: int) -> Seq<u32> {
    Seq::new(
        steps as nat,
        |j: int|
            if bresenham_count(pulses, steps, j + 1) > bresenham_count(pulses, steps, j) {
                1u32
            } else {
                0u32
            },
    )
}

/// `k` is the position of the first hit in `s`.
pub open spec fn is_first_hit(s: Seq<u32>, k: int) -> bool {
    &&& 0 <= k < s.len()
    &&& s[k] == 1
    &&& forall|j: int| 0 <= j < k ==> s[j] != 1
}

/// Position of the first hit of `s` (meaningful when `s` has a hit).
pub open spec fn first_hit(s: Seq<u32>) -> int {
    choose|k: int| is_first_hit(s, k)
}

/// Whether `s` holds a hit.
pub open spec fn has_hit(s: Seq<u32>) -> bool {
    exists|k: int| 0 <= k < s.len() && s[k] == 1
}

/// `s` rotated left by `k` places.
pub open spec fn rotate_left(s: Seq<u32>, k: int) -> Seq<u32> {
    s.subrange(k, s.len() as int) + s.subrange(0, k)
}

/// The canonical Euclidean pattern: no pulses gives all rests, at least as
/// many pulses as steps gives all hits, otherwise the Bresenham pattern is
/// rotated so that it starts with its first hit.
pub open spec fn euclid_pattern(pulses: int, steps: int) -> Seq<u32> {
    if pulses == 0 {
        Seq::new(steps as nat, |i: int| 0u32)
    } else if pulses >= steps {
        Seq::new(steps as nat, |i: int| 1u32)
    } else {
        let raw = bresenham_pattern(pulses, steps);
        if has_hit(raw) {
            rotate_left(raw, first_hit(raw))
        } else {
            raw
        }
    }
}

/// `idx` lists, in increasing order, exactly the positions of the hits of `s`.
pub open spec fn hit_positions(s: Seq<u32>, idx: Seq<usize>) -> bool {
    &&& forall|a: int, b: int| 0 <= a < b < idx.len() ==> idx[a] < idx[b]
    &&& forall|a: int| 0 <= a < idx.len() ==> idx[a] < s.len() && s[idx[a] as int] == 1
    &&& forall|i: int| 0 <= i < s.len() && s[i] == 1 ==> exists|a: int| 0 <= a < idx.len() && idx[a] == i
}

proof fn lemma_bresenham_step(a: int, p: int, s: int)
    requires
        s > 0,
        0 <= p < s,
        a >= 0,
    ensures
        a % s + p >= s ==> (a + p) / s == a / s + 1 && (a + p) % s == a % s + p - s,
        a % s + p < s ==> (a + p) / s == a / s && (a + p) % s == a % s + p,
{
    lemma_fundamental_div_mod(a, s);
    let q = a / s;
    let r = a % s;
    assert(0 <= r < s) by {
        lemma_mod_bound(a, s);
    }
    if r + p >= s {
        assert(a + p == (q + 1) * s + (r + p - s)) by (nonlinear_arith)
            requires
                a == s * q + r,
        ;
        lemma_fundamental_div_mod_converse(a + p, s, q + 1, r + p - s);
    } else {
        assert(a + p == q * s + (r + p)) by (nonlinear_arith)
            requires
                a == s * q + r,
        ;
        lemma_fundamental_div_mod_converse(a + p, s, q, r + p);
    }
}

proof fn lemma_mod_bound(a: int, s: int)
    requires
        s > 0,
    ensures
        0 <= a % s < s,
{
}

/// Counting the hits of the first `j` Bresenham steps telescopes.
proof fn lemma_bresenham_prefix_count(pulses: int, steps: int, j: int)
    requires
        0 < pulses < steps,
        0 <= j <= steps,
    ensures
        count_hits(bresenham_pattern(pulses, steps).take(j)) == bresenham_count(pulses, steps, j),
    decreases j,
{
    let raw = bresenham_pattern(pulses, steps);
    if j == 0 {
        assert(raw.take(0) =~= Seq::<u32>::empty());
        lemma_fundamental_div_mod_converse(steps / 2, steps, 0, steps / 2);
    } else {
        lemma_bresenham_prefix_count(pulses, steps, j - 1);
        assert(raw.take(j) =~= raw.take(j - 1).push(raw[j - 1]));
        lemma_count_hits_push(raw.take(j - 1), raw[j - 1]);
        let a = steps / 2 + (j - 1) * pulses;
        assert(steps / 2 + j * pulses == a + pulses) by (nonlinear_arith)
            requires
                a == steps / 2 + (j - 1) * pulses,
        ;
        assert(a >= 0) by (nonlinear_arith)
            requires
                a == steps / 2 + (j - 1) * pulses,
                j >= 1,
                pulses > 0,
                steps > 0,
        ;
        lemma_bresenham_step(a, pulses, steps);
    }
}

/// The Bresenham pattern of `pulses` over `steps` holds exactly `pulses` hits.
proof fn lemma_bresenham_count_total(pulses: int, steps: int)
    requires
        0 < pulses < steps,
    ensures
        count_hits(bresenham_pattern(pulses, steps)) == pulses,
        has_hit(bresenham_pattern(pulses, steps)),
{
    let raw = bresenham_pattern(pulses, steps);
    lemma_bresenham_prefix_count(pulses, steps, steps);
    assert(raw.take(steps) =~= raw);
    assert(steps / 2 + steps * pulses == pulses * steps + steps / 2) by (nonlinear_arith);
    lemma_fundamental_div_mod_converse(steps / 2 + steps * pulses, steps, pulses, steps / 2);
    assert(bresenham_count(pulses, steps, steps) == pulses) by {
        assert(steps * pulses == steps * pulses);
        assert(steps / 2 + steps * pulses == steps / 2 + pulses * steps) by (nonlinear_arith);
    }
    if !has_hit(raw) {
        lemma_no_hits_count_zero(raw);
    }
}

proof fn lemma_no_hits_count_zero(s: Seq<u32>)
    requires
        forall|k: int| 0 <= k < s.len() ==> s[k] != 1,
    ensures
        count_hits(s) == 0,
    decreases s.len(),
{
    if s.len() > 0 {
        lemma_no_hits_count_zero(s.drop_last());
    }
}

/// The constant pattern of `n` copies of `x` has `n` hits when `x` is 1 and none otherwise.
proof fn lemma_count_hits_constant(n: nat, x: u32)
    ensures
        count_hits(Seq::new(n, |i: int| x)) == if x == 1 { n } else { 0 },
    decreases n,
{
    if n > 0 {
        lemma_count_hits_constant((n - 1) as nat, x);
        assert(Seq::new(n, |i: int| x).drop_last() =~= Seq::new((n - 1) as nat, |i: int| x));
    }
}

/// A rotation keeps the number of hits.
proof fn lemma_rotate_count(s: Seq<u32>, k: int)
    requires
        0 <= k <= s.len(),
    ensures
        count_hits(rotate_left(s, k)) == count_hits(s),
        rotate_left(s, k).len() == s.len(),
{
    lemma_count_hits_concat(s.subrange(k, s.len() as int), s.subrange(0, k));
    lemma_count_hits_concat(s.subrange(0, k), s.subrange(k, s.len() as int));
    assert(s.subrange(0, k) + s.subrange(k, s.len() as int) =~= s);
}

/// A pattern with a hit has a first hit.
pub proof fn lemma_first_hit_exists(s: Seq<u32>)
    requires
        has_hit(s),
    ensures
        is_first_hit(s, first_hit(s)),
{
    let w = choose|k: int| 0 <= k < s.len() && s[k] == 1;
    lemma_first_hit_below(s, w);
}

proof fn lemma_first_hit_below(s: Seq<u32>, w: int)
    requires
        0 <= w < s.len(),
        s[w] == 1,
    ensures
        exists|k: int| is_first_hit(s, k),
    decreases w,
{
    if exists|j: int| 0 <= j < w && s[j] == 1 {
        let j = choose|j: int| 0 <= j < w && s[j] == 1;
        lemma_first_hit_below(s, j);
    } else {
        assert(is_first_hit(s, w));
    }
}

/// A Euclidean pattern has `steps` entries and `min(pulses, steps)` hits,
/// and it starts with a hit whenever it has one.
pub proof fn lemma_euclid_pattern_shape(pulses: int, steps: int)
    requires
        0 <= pulses,
        0 <= steps,
    ensures
        euclid_pattern(pulses, steps).len() == steps,
        count_hits(euclid_pattern(pulses, steps)) == if pulses < steps { pulses } else { steps },
        pulses > 0 && steps > 0 ==> euclid_pattern(pulses, steps)[0] == 1,
{
    if pulses == 0 {
        lemma_count_hits_constant(steps as nat, 0);
    } else if pulses >= steps {
        lemma_count_hits_constant(steps as nat, 1);
    } else {
        let raw = bresenham_pattern(pulses, steps);
        lemma_bresenham_count_total(pulses, steps);
        lemma_first_hit_exists(raw);
        let k = first_hit(raw);
        assert(is_first_hit(raw, k));
        lemma_rotate_count(raw, k);
    }
}

/// The hits of the Bresenham steps from `x` up to `y` are the difference of
/// their counts.
proof fn lemma_bresenham_range_count(pulses: int, steps: int, x: int, y: int)
    requires
        0 < pulses < steps,
        0 <= x <= y <= steps,
    ensures
        count_hits(bresenham_pattern(pulses, steps).subrange(x, y)) == bresenham_count(pulses, steps, y)
            - bresenham_count(pulses, steps, x),
{
    let raw = bresenham_pattern(pulses, steps);
    lemma_bresenham_prefix_count(pulses, steps, x);
    lemma_bresenham_prefix_count(pulses, steps, y);
    assert(raw.take(y) =~= raw.take(x) + raw.subrange(x, y));
    lemma_count_hits_concat(raw.take(x), raw.subrange(x, y));
}

/// One whole turn of the Bresenham line adds `pulses` to its count.
proof fn lemma_bresenham_period(pulses: int, steps: int, j: int)
    requires
        0 < pulses < steps,
        j >= 0,
    ensures
        bresenham_count(pulses, steps, j + steps) == bresenham_count(pulses, steps, j) + pulses,
{
    let x = steps / 2 + j * pulses;
    assert(x >= 0) by (nonlinear_arith)
        requires
            x == steps / 2 + j * pulses,
            j >= 0,
            pulses > 0,
            steps > 0,
    ;
    assert(steps / 2 + (j + steps) * pulses == x + pulses * steps) by (nonlinear_arith)
        requires
            x == steps / 2 + j * pulses,
    ;
    lemma_fundamental_div_mod(x, steps);
    lemma_mod_bound(x, steps);
    assert(x + pulses * steps == (x / steps + pulses) * steps + x % steps) by (nonlinear_arith)
        requires
            x == steps * (x / steps) + x % steps,
    ;
    lemma_fundamental_div_mod_converse(x + pulses * steps, steps, x / steps + pulses, x % steps);
}

/// Adding `y` to `x` adds `y / s` or `y / s + 1` whole multiples of `s`.
proof fn lemma_div_sum_balance(x: int, y: int, s: int)
    requires
        x >= 0,
        y >= 0,
        s > 0,
    ensures
        (x + y) / s - x / s == y / s || (x + y) / s - x / s == y / s + 1,
        y % s == 0 ==> (x + y) / s - x / s == y / s,
{
    lemma_fundamental_div_mod(x, s);
    lemma_fundamental_div_mod(y, s);
    lemma_mod_bound(x, s);
    lemma_mod_bound(y, s);
    let q = x / s + y / s;
    let r = x % s + y % s;
    assert(x + y == q * s + r) by (nonlinear_arith)
        requires
            x == s * (x / s) + x % s,
            y == s * (y / s) + y % s,
            q == x / s + y / s,
            r == x % s + y % s,
    ;
    if r < s {
        lemma_fundamental_div_mod_converse(x + y, s, q, r);
    } else {
        assert(x + y == (q + 1) * s + (r - s)) by (nonlinear_arith)
            requires
                x + y == q * s + r,
        ;
        lemma_fundamental_div_mod_converse(x + y, s, q + 1, r - s);
    }
}

/// A Euclidean pattern spreads its hits as evenly as possible: any run of
/// `len` consecutive steps holds `len * pulses / steps` hits or one more.
pub proof fn lemma_euclid_windows_balanced(pulses: int, steps: int, a: int, len: int)
    requires
        0 < pulses < steps,
        0 <= a,
        0 <= len,
        a + len <= steps,
    ensures
        ({
            let c = count_hits(euclid_pattern(pulses, steps).subrange(a, a + len));
            &&& c == len * pulses / steps || c == len * pulses / steps + 1
            &&& (len * pulses) % steps == 0 ==> c == len * pulses / steps
        }),
{
    let raw = bresenham_pattern(pulses, steps);
    lemma_bresenham_count_total(pulses, steps);
    lemma_first_hit_exists(raw);
    let k = first_hit(raw);
    let e = euclid_pattern(pulses, steps);
    assert(e == rotate_left(raw, k));
    let w = e.subrange(a, a + len);
    let lo = k + a;
    let hi = k + a + len;
    if hi <= steps {
        assert(w =~= raw.subrange(lo, hi));
        lemma_bresenham_range_count(pulses, steps, lo, hi);
    } else if lo >= steps {
        assert(w =~= raw.subrange(lo - steps, hi - steps));
        lemma_bresenham_range_count(pulses, steps, lo - steps, hi - steps);
        lemma_bresenham_period(pulses, steps, lo - steps);
        lemma_bresenham_period(pulses, steps, hi - steps);
    } else {
        assert(w =~= raw.subrange(lo, steps) + raw.subrange(0, hi - steps));
        lemma_count_hits_concat(raw.subrange(lo, steps), raw.subrange(0, hi - steps));
        lemma_bresenham_range_count(pulses, steps, lo, steps);
        lemma_bresenham_range_count(pulses, steps, 0, hi - steps);
        lemma_bresenham_period(pulses, steps, hi - steps);
        lemma_bresenham_period(pulses, steps, 0);
        lemma_fundamental_div_mod_converse(steps / 2, steps, 0, steps / 2);
    }
    let x = steps / 2 + lo * pulses;
    assert(x >= 0) by (nonlinear_arith)
        requires
            x == steps / 2 + lo * pulses,
            lo >= 0,
            pulses > 0,
            steps > 0,
    ;
    assert(len * pulses >= 0) by (nonlinear_arith)
        requires
            len >= 0,
            pulses > 0,
    ;
    assert(steps / 2 + hi * pulses == x + len * pulses) by (nonlinear_arith)
        requires
            x == steps / 2 + lo * pulses,
            hi == lo + len,
    ;
    lemma_div_sum_balance(x, len * pulses, steps);
}

/// Two hits of a Euclidean pattern with no hit between them lie `steps /
/// pulses` steps apart, rounded down or up.
pub proof fn lemma_euclid_gaps(pulses: int, steps: int, u: int, v: int)
    requires
        0 < pulses < steps,
        0 <= u < v < steps,
        euclid_pattern(pulses, steps)[u] == 1,
        euclid_pattern(pulses, steps)[v] == 1,
        forall|j: int| u < j < v ==> euclid_pattern(pulses, steps)[j] != 1,
    ensures
        v - u == steps / pulses || v - u == (steps + pulses - 1) / pulses,
{
    let e = euclid_pattern(pulses, steps);
    lemma_euclid_pattern_shape(pulses, steps);
    let g = v - u;
    // No hit strictly between the two.
    let inner = e.subrange(u + 1, v);
    assert forall|k: int| 0 <= k < inner.len() implies inner[k] != 1 by {
        assert(inner[k] == e[u + 1 + k]);
    }
    lemma_no_hits_count_zero(inner);
    lemma_euclid_windows_balanced(pulses, steps, u + 1, g - 1);
    // Both of them in the window from one to the other.
    let outer = e.subrange(u, v + 1);
    assert(outer =~= seq![1u32] + inner + seq![1u32]);
    lemma_count_hits_concat(seq![1u32] + inner, seq![1u32]);
    lemma_count_hits_concat(seq![1u32], inner);
    lemma_count_hits_push(Seq::<u32>::empty(), 1u32);
    assert(seq![1u32] =~= Seq::<u32>::empty().push(1u32));
    assert(count_hits(outer) == 2);
    lemma_euclid_windows_balanced(pulses, steps, u, g + 1);
    assert((g - 1) * pulses < steps) by (nonlinear_arith)
        requires
            (g - 1) * pulses / steps == 0,
            g >= 1,
            pulses > 0,
            steps > 0,
    ;
    assert((g + 1) * pulses >= steps) by (nonlinear_arith)
        requires
            (g + 1) * pulses / steps >= 1,
            g >= 1,
            pulses > 0,
            steps > 0,
    ;
    let q = steps / pulses;
    let r = steps % pulses;
    lemma_fundamental_div_mod(steps, pulses);
    lemma_mod_bound(steps, pulses);
    let q2 = if r == 0 { q } else { q + 1 };
    let r2 = if r == 0 { pulses - 1 } else { r - 1 };
    assert(steps + pulses - 1 == q2 * pulses + r2) by (nonlinear_arith)
        requires
            steps == pulses * q + r,
            q2 == if r == 0 { q } else { q + 1 },
            r2 == if r == 0 { pulses - 1 } else { r - 1 },
    ;
    lemma_fundamental_div_mod_converse(steps + pulses - 1, pulses, q2, r2);
    if r != 0 {
        assert(g <= q + 1) by (nonlinear_arith)
            requires
                (g - 1) * pulses < steps,
                steps == pulses * q + r,
                0 < r < pulses,
                pulses > 0,
        ;
        assert(g >= q) by (nonlinear_arith)
            requires
                (g + 1) * pulses >= steps,
                steps == pulses * q + r,
                0 < r < pulses,
                pulses > 0,
        ;
    } else {
        assert(g <= q) by (nonlinear_arith)
            requires
                (g - 1) * pulses < steps,
                steps == pulses * q,
                pulses > 0,
        ;
        assert(q * pulses == steps) by (nonlinear_arith)
            requires
                steps == pulses * q,
        ;
        if g < q {
            // A window of `q` steps holds exactly one hit, yet one holding both fits.
            assert(q <= steps) by (nonlinear_arith)
                requires
                    steps == pulses * q,
                    pulses >= 1,
                    q >= 0,
            ;
            assert((q * pulses) % steps == 0) by {
                lemma_fundamental_div_mod_converse(q * pulses, steps, 1, 0);
            }
            lemma_fundamental_div_mod_converse(q * pulses, steps, 1, 0);
            let a = if u + q <= steps {
                u
            } else if v + 1 >= q {
                v + 1 - q
            } else {
                0
            };
            lemma_euclid_windows_balanced(pulses, steps, a, q);
            let w = e.subrange(a, a + q);
            let iu = u - a;
            let iv = v - a;
            assert(w[iu] == 1 && w[iv] == 1);
            assert(w =~= w.subrange(0, iv) + w.subrange(iv, q));
            lemma_count_hits_concat(w.subrange(0, iv), w.subrange(iv, q));
            assert(w.subrange(0, iv) =~= w.subrange(0, iu) + w.subrange(iu, iv));
            lemma_count_hits_concat(w.subrange(0, iu), w.subrange(iu, iv));
            lemma_count_hits_at_least_one(w.subrange(iu, iv), 0);
            lemma_count_hits_at_least_one(w.subrange(iv, q), 0);
            assert(false);
        }
    }
}

/// A pattern with a hit at `i` has at least one hit.
proof fn lemma_count_hits_at_least_one(s: Seq<u32>, i: int)
    requires
        0 <= i < s.len(),
        s[i] == 1,
    ensures
        count_hits(s) >= 1,
    decreases s.len(),
{
    if i < s.len() - 1 {
        lemma_count_hits_at_least_one(s.drop_last(), i);
    }
}

/// Binary Euclidean pattern (1 = hit, 0 = rest) spreading `pulses` as evenly
/// as possible over `steps`, rotated to start with a hit.
fn bjorklund(pulses: usize, steps: usize) -> (pattern: Vec<u32>)
    requires
        steps <= usize::MAX / 2,
    ensures
        pattern@ == euclid_pattern(pulses as int, steps as int),
{
    if pulses == 0 {
        let v = vec![0u32; steps];
        assert(v@ =~= euclid_pattern(pulses as int, steps as int));
        return v;
    }
    if pulses >= steps {
        let v = vec![1u32; steps];
        assert(v@ =~= euclid_pattern(pulses as int, steps as int));
        return v;
    }
    let ghost raw = bresenham_pattern(pulses as int, steps as int);
    let mut pattern: Vec<u32> = Vec::new();
    let mut error: usize = steps / 2;
    let mut j: usize = 0;
    proof {
        lemma_fundamental_div_mod_converse((steps / 2) as int, steps as int, 0, (steps / 2) as int);
        assert(0 * pulses == 0);
    }
    while j < steps
        invariant
            0 < pulses < steps <= usize::MAX / 2,
            j <= steps,
            raw == bresenham_pattern(pulses as int, steps as int),
            error == (steps / 2 + j * pulses) % (steps as int),
            pattern@ == raw.take(j as int),
        decreases steps - j,
    {
        let ghost a = steps / 2 + j * pulses;
        proof {
            assert(a >= 0) by (nonlinear_arith)
                requires
                    a == steps / 2 + j * pulses,
            ;
            lemma_bresenham_step(a, pulses as int, steps as int);
            lemma_mod_bound(a, steps as int);
            assert(steps / 2 + (j + 1) * pulses == a + pulses) by (nonlinear_arith)
                requires
                    a == steps / 2 + j * pulses,
            ;
        }
        error = error + pulses;
        if error >= steps {
            error = error - steps;
            pattern.push(1);
        } else {
            pattern.push(0);
        }
        assert(raw.take(j + 1) =~= raw.take(j as int).push(raw[j as int]));
        j = j + 1;
    }
    assert(raw.take(steps as int) =~= raw);
    // Find the first hit and rotate it to the front.
    let mut first: usize = 0;
    while first < steps && pattern[first] != 1
        invariant
            first <= steps,
            pattern@ == raw,
            raw.len() == steps,
            forall|i: int| 0 <= i < first ==> raw[i] != 1,
        decreases steps - first,
    {
        first = first + 1;
    }
    if first == steps {
        assert(!has_hit(raw));
        return pattern;
    }
    proof {
        assert(is_first_hit(raw, first as int));
        let k = first_hit(raw);
        assert(is_first_hit(raw, k));
        if k < first {
        } else if k > first {
            assert(raw[first as int] != 1);
        }
    }
    let mut rotated: Vec<u32> = Vec::new();
    let mut i: usize = first;
    while i < steps
        invariant
            first <= i <= steps,
            pattern@ == raw,
            raw.len() == steps,
            rotated@ == raw.subrange(first as int, i as int),
        decreases steps - i,
    {
        rotated.push(pattern[i]);
        assert(raw.subrange(first as int, i + 1) =~= raw.subrange(first as int, i as int).push(raw[i as int]));
        i = i + 1;
    }
    let mut i: usize = 0;
    while i < first
        invariant
            i <= first < steps,
            pattern@ == raw,
            raw.len() == steps,
            rotated@ == raw.subrange(first as int, steps as int) + raw.subrange(0, i as int),
        decreases first - i,
    {
        rotated.push(pattern[i]);
        assert(raw.subrange(0, i + 1) =~= raw.subrange(0, i as int).push(raw[i as int]));
        i = i + 1;
    }
    rotated
}

/// Step indices (from 0) of the hits of the Euclidean rhythm of `pulses`
/// over `steps`; empty when there are no pulses, no steps, or more pulses
/// than steps.
pub fn euclidean(pulses: usize, steps: usize) -> (hits: Vec<usize>)
    requires
        pulses == 0 || pulses > steps || steps <= usize::MAX / 2,
    ensures
        pulses == 0 || steps == 0 || pulses > steps ==> hits@.len() == 0,
        !(pulses == 0 || steps == 0 || pulses > steps) ==> hit_positions(
            euclid_pattern(pulses as int, steps as int),
            hits@,
        ),
        !(pulses == 0 || steps == 0 || pulses > steps) ==> hits@.len() == pulses && hits@[0] == 0,
{
    if pulses == 0 || steps == 0 || pulses > steps {
        return Vec::new();
    }
    let pattern = bjorklund(pulses, steps);
    let ghost p = pattern@;
    let mut hits: Vec<usize> = Vec::new();
    let mut i: usize = 0;
    while i < pattern.len()
        invariant
            i <= pattern.len(),
            p == pattern@,
            forall|a: int, b: int| 0 <= a < b < hits@.len() ==> hits@[a] < hits@[b],
            forall|a: int| 0 <= a < hits@.len() ==> hits@[a] < i && p[hits@[a] as int] == 1,
            forall|k: int| 0 <= k < i && p[k] == 1 ==> exists|a: int| 0 <= a < hits@.len() && hits@[a] == k,
            hits@.len() == count_hits(p.take(i as int)),
        decreases pattern.len() - i,
    {
        assert(p.take(i + 1) =~= p.take(i as int).push(p[i as int]));
        proof { lemma_count_hits_push(p.take(i as int), p[i as int]); }
        let ghost old_hits = hits@;
        if pattern[i] == 1 {
            hits.push(i);
        }
        proof {
            assert forall|k: int| 0 <= k < i + 1 && p[k] == 1 implies exists|a: int|
                0 <= a < hits@.len() && hits@[a] == k by {
                if k < i {
                    let a = choose|a: int| 0 <= a < old_hits.len() && old_hits[a] == k;
                    assert(hits@[a] == k);
                } else {
                    assert(hits@[hits@.len() - 1] == k);
                }
            }
        }
        i = i + 1;
    }
    proof {
        assert(p.take(p.len() as int) =~= p);
        lemma_euclid_pattern_shape(pulses as int, steps as int);
        assert(p[0] == 1);
        let a = choose|a: int| 0 <= a < hits@.len() && hits@[a] == 0;
        assert(hits@[0] <= hits@[a]);
    }
    hits
}

/// Full binary Euclidean pattern: 1 is a hit and 0 a rest.
pub fn euclidean_pattern(pulses: usize, steps: usize) -> (pattern: Vec<u32>)
    requires
        steps <= usize::MAX / 2,
    ensures
        pattern@ == euclid_pattern(pulses as int, steps as int),
        pattern@.len() == steps,
        count_hits(pattern@) == if pulses < steps { pulses as nat } else { steps as nat },
        pulses > 0 && steps > 0 ==> pattern@[0] == 1,
{
    proof { lemma_euclid_pattern_shape(pulses as int, steps as int); }
    bjorklund(pulses, steps)
}

// ---------------------------------------------------------------------------
// Thue-Morse sequence
// ---------------------------------------------------------------------------

/// `2^k`.
pub open spec fn two_pow(k: nat) -> nat
    decreases k,
{
    if k == 0 {
        1
    } else {
        2 * two_pow((k - 1) as nat)
    }
}

/// Term `i` of the Thue-Morse sequence: the parity of the number of 1 bits of `i`.
pub open spec fn thue_morse_bit(i: nat) -> u32
    decreases i,
{
    if i == 0 {
        0
    } else if i % 2 == 0 {
        thue_morse_bit(i / 2)
    } else {
        (1 - thue_morse_bit(i / 2)) as u32
    }
}

/// The first `n` Thue-Morse terms.
pub open spec fn thue_morse_seq(n: nat) -> Seq<u32> {
    Seq::new(n, |i: int| thue_morse_bit(i as nat))
}

/// Every Thue-Morse term is 0 or 1.
pub proof fn lemma_thue_morse_binary(i: nat)
    ensures
        thue_morse_bit(i) <= 1,
    decreases i,
{
    if i > 0 {
        lemma_thue_morse_binary(i / 2);
    }
}

proof fn lemma_two_pow_pos(k: nat)
    ensures
        two_pow(k) >= 1,
        k >= 1 ==> two_pow(k) % 2 == 0,
    decreases k,
{
    if k > 0 {
        lemma_two_pow_pos((k - 1) as nat);
    }
}

/// Each block of `2^k` terms that follows the first is the complement of the
/// first: term `2^k + i` is one minus term `i`.
pub proof fn lemma_thue_morse_doubling(k: nat, i: nat)
    requires
        i < two_pow(k),
    ensures
        thue_morse_bit(i + two_pow(k)) == 1 - thue_morse_bit(i),
    decreases k,
{
    lemma_thue_morse_binary(i);
    if k == 0 {
        assert(i == 0);
        assert(thue_morse_bit(1) == 1 - thue_morse_bit(0nat));
    } else {
        let h = two_pow((k - 1) as nat);
        lemma_two_pow_pos((k - 1) as nat);
        assert((i + two_pow(k)) / 2 == i / 2 + h);
        assert((i + two_pow(k)) % 2 == i % 2);
        lemma_thue_morse_doubling((k - 1) as nat, i / 2);
        lemma_thue_morse_binary(i / 2);
    }
}

/// Two consecutive terms starting at an even position differ.
pub proof fn lemma_thue_morse_pairs_differ(e: nat)
    requires
        e % 2 == 0,
    ensures
        thue_morse_bit(e + 1) != thue_morse_bit(e),
{
    lemma_thue_morse_binary(e / 2);
    if e == 0 {
    } else {
        assert((e + 1) / 2 == e / 2);
    }
}

/// The Thue-Morse sequence never holds three equal terms in a row.
pub proof fn lemma_thue_morse_no_triple(i: nat)
    ensures
        !(thue_morse_bit(i) == thue_morse_bit(i + 1) && thue_morse_bit(i + 1) == thue_morse_bit(i + 2)),
{
    if i % 2 == 0 {
        lemma_thue_morse_pairs_differ(i);
    } else {
        lemma_thue_morse_pairs_differ(i + 1);
    }
}

/// The first `2^(k+1)` Thue-Morse terms hold as many 1s as 0s.
pub proof fn lemma_thue_morse_balanced(k: nat)
    ensures
        count_hits(thue_morse_seq(two_pow(k + 1))) == two_pow(k),
    decreases k,
{
    let n = two_pow(k);
    lemma_two_pow_pos(k);
    let first = thue_morse_seq(n);
    let second = Seq::new(n, |i: int| thue_morse_bit((i + n) as nat));
    assert(thue_morse_seq(two_pow(k + 1)) =~= first + second);
    lemma_count_hits_concat(first, second);
    assert forall|i: int| 0 <= i < n implies second[i] == 1 - first[i] by {
        lemma_thue_morse_doubling(k, i as nat);
    }
    assert forall|i: int| 0 <= i < n implies first[i] <= 1 by {
        lemma_thue_morse_binary(i as nat);
    }
    lemma_count_hits_complement(first, second);
    if k == 0 {
        assert(first =~= seq![0u32]);
        assert(first.drop_last() =~= Seq::<u32>::empty());
    } else {
        lemma_thue_morse_balanced((k - 1) as nat);
    }
}

/// Complementing a binary pattern turns its hits into rests and back.
pub proof fn lemma_count_hits_complement(a: Seq<u32>, b: Seq<u32>)
    requires
        a.len() == b.len(),
        forall|i: int| 0 <= i < a.len() ==> a[i] <= 1 && b[i] == 1 - a[i],
    ensures
        count_hits(b) == a.len() - count_hits(a),
    decreases a.len(),
{
    if a.len() > 0 {
        let ad = a.drop_last();
        let bd = b.drop_last();
        assert forall|i: int| 0 <= i < ad.len() implies #[trigger] ad[i] <= 1 && bd[i] == 1 - ad[i] by {
            assert(ad[i] == a[i]);
            assert(bd[i] == b[i]);
            assert(a[i] <= 1 && b[i] == 1 - a[i]);
        }
        lemma_count_hits_complement(a.drop_last(), b.drop_last());
        lemma_count_hits_bound(a.drop_last());
    }
}

proof fn lemma_count_hits_bound(s: Seq<u32>)
    ensures
        count_hits(s) <= s.len(),
    decreases s.len(),
{
    if s.len() > 0 {
        lemma_count_hits_bound(s.drop_last());
    }
}

/// First `n` terms of the Thue-Morse sequence 0, 1, 1, 0, 1, 0, 0, 1, ...
pub fn thue_morse(n: usize) -> (seq: Vec<u32>)
    requires
        n <= usize::MAX / 4,
    ensures
        seq@ == thue_morse_seq(n as nat),
{
    let mut seq: Vec<u32> = Vec::new();
    seq.push(0);
    let ghost mut k: nat = 0;
    assert(seq@ =~= thue_morse_seq(1));
    while seq.len() < n
        invariant
            n <= usize::MAX / 4,
            seq.len() == two_pow(k),
            seq.len() < 2 * n || seq.len() == 1,
            seq@ == thue_morse_seq(two_pow(k)),
        decreases 2 * n - seq.len(),
    {
        let len = seq.len();
        proof { lemma_two_pow_pos(k); }
        let mut j: usize = 0;
        while j < len
            invariant
                len == two_pow(k),
                seq.len() == len + j,
                len < n,
                n <= usize::MAX / 4,
                j <= len,
                forall|i: int| 0 <= i < len + j ==> seq@[i] == thue_morse_bit(i as nat),
            decreases len - j,
        {
            proof {
                lemma_thue_morse_binary(j as nat);
                lemma_thue_morse_doubling(k, j as nat);
            }
            let x = seq[j];
            seq.push(1 - x);
            j = j + 1;
        }
        proof {
            k = k + 1;
            assert(seq@ =~= thue_morse_seq(two_pow(k)));
        }
    }
    seq.truncate(n);
    assert(seq@ =~= thue_morse_seq(n as nat));
    seq
}

// ---------------------------------------------------------------------------
// Recaman's sequence
// ---------------------------------------------------------------------------

/// Step size taken at position `i`: the position as a 32-bit counter.
pub open spec fn step_size(i: int) -> int {
    (i as u32) as int
}

/// The first `n` terms of Recaman's sequence: start at 0; at position `i`
/// step back by `i` when that stays above zero and lands on a value not seen
/// yet, otherwise step forward by `i`.
pub open spec fn recaman_terms(n: nat) -> Seq<int>
    decreases n,
{
    if n == 0 {
        Seq::empty()
    } else if n == 1 {
        seq![0int]
    } else {
        let prev_terms = recaman_terms((n - 1) as nat);
        let prev = prev_terms.last();
        let step = step_size(n - 1);
        if prev > step && !prev_terms.contains(prev - step) {
            prev_terms.push(prev - step)
        } else {
            prev_terms.push(prev + step)
        }
    }
}

/// Every term of the first `n` fits in 32 bits.
pub open spec fn recaman_fits(n: nat) -> bool {
    forall|k: int| 0 <= k < n ==> #[trigger] recaman_terms(n)[k] <= u32::MAX
}

proof fn lemma_recaman_len(n: nat)
    ensures
        recaman_terms(n).len() == n,
    decreases n,
{
    if n > 1 {
        lemma_recaman_len((n - 1) as nat);
    }
}

/// Shorter runs of Recaman's sequence are prefixes of longer ones.
pub proof fn lemma_recaman_prefix(m: nat, n: nat)
    requires
        m <= n,
    ensures
        recaman_terms(n).len() == n,
        forall|k: int| 0 <= k < m ==> recaman_terms(m)[k] == recaman_terms(n)[k],
    decreases n,
{
    lemma_recaman_len(n);
    if m < n {
        lemma_recaman_prefix(m, (n - 1) as nat);
        lemma_recaman_len((n - 1) as nat);
        assert forall|k: int| 0 <= k < m implies recaman_terms(m)[k] == recaman_terms(n)[k] by {
            if n > 1 {
                assert(recaman_terms(n)[k] == recaman_terms((n - 1) as nat)[k]);
            }
        }
    }
}

/// Recaman's sequence never goes below zero, and each term is the one before
/// it moved by its position, back or forward; a step back lands on a positive
/// value not taken before.
pub proof fn lemma_recaman_steps(n: nat)
    ensures
        forall|k: int| 0 <= k < n ==> #[trigger] recaman_terms(n)[k] >= 0,
        forall|k: int| 1 <= k < n && k <= u32::MAX ==> {
            ||| #[trigger] recaman_terms(n)[k] == recaman_terms(n)[k - 1] + k
            ||| (recaman_terms(n)[k] == recaman_terms(n)[k - 1] - k && recaman_terms(n)[k] > 0
                && !recaman_terms(n).take(k).contains(recaman_terms(n)[k]))
        },
    decreases n,
{
    lemma_recaman_len(n);
    if n > 1 {
        let prev = recaman_terms((n - 1) as nat);
        lemma_recaman_steps((n - 1) as nat);
        lemma_recaman_len((n - 1) as nat);
        let t = recaman_terms(n);
        assert(t.take(n - 1) =~= prev);
        assert forall|k: int| 0 <= k < n implies #[trigger] recaman_terms(n)[k] >= 0 by {
            if k < n - 1 {
                assert(t[k] == prev[k]);
            }
        }
        assert forall|k: int| 1 <= k < n && k <= u32::MAX implies {
            ||| #[trigger] recaman_terms(n)[k] == recaman_terms(n)[k - 1] + k
            ||| (recaman_terms(n)[k] == recaman_terms(n)[k - 1] - k && recaman_terms(n)[k] > 0
                && !recaman_terms(n).take(k).contains(recaman_terms(n)[k]))
        } by {
            if k < n - 1 {
                assert(t[k] == prev[k] && t[k - 1] == prev[k - 1]);
                assert(t.take(k) =~= prev.take(k));
            } else {
                assert(step_size(k) == k);
                assert(t[k - 1] == prev.last());
            }
        }
    }
}

/// Term `k` of Recaman's sequence is at most `k * k`: each step adds at most
/// its position.
proof fn lemma_recaman_term_bound(n: nat, k: int)
    requires
        0 <= k < n,
        n <= u32::MAX,
    ensures
        recaman_terms(n)[k] <= k * k,
    decreases k,
{
    lemma_recaman_steps(n);
    lemma_recaman_len(n);
    if k == 0 {
        lemma_recaman_prefix(1, n);
        assert(recaman_terms(1)[0] == 0);
    } else {
        lemma_recaman_term_bound(n, k - 1);
        assert(recaman_terms(n)[k] <= recaman_terms(n)[k - 1] + k);
        assert((k - 1) * (k - 1) + k <= k * k) by (nonlinear_arith)
            requires
                k >= 1,
        ;
    }
}

/// With at most 65536 terms every term of Recaman's sequence fits in 32 bits.
pub proof fn lemma_recaman_small_fits(n: nat)
    requires
        n <= 65536,
    ensures
        recaman_fits(n),
{
    lemma_recaman_len(n);
    assert forall|k: int| 0 <= k < n implies #[trigger] recaman_terms(n)[k] <= u32::MAX by {
        lemma_recaman_term_bound(n, k);
        assert(k * k <= 65535 * 65535) by (nonlinear_arith)
            requires
                0 <= k <= 65535,
        ;
    }
}

/// First `n` terms of Recaman's sequence 0, 1, 3, 6, 2, 7, 13, 20, 12, ...
pub fn recaman(n: usize) -> (seq: Vec<u32>)
    requires
        recaman_fits(n as nat),
    ensures
        seq@.len() == n,
        forall|k: int| 0 <= k < n ==> seq@[k] as int == recaman_terms(n as nat)[k],
{
    match checked_recaman(n) {
        Some(seq) => seq,
        None => {
            proof {
                assert(false);
            }
            Vec::new()
        },
    }
}

/// The first `n` terms of Recaman's sequence where they all fit in 32 bits,
/// `None` where one of them does not.
pub fn checked_recaman(n: usize) -> (r: Option<Vec<u32>>)
    ensures
        r is Some <==> recaman_fits(n as nat),
        r matches Some(seq) ==> seq@.len() == n && forall|k: int| 0 <= k < n ==> seq@[k] as int == recaman_terms(
            n as nat,
        )[k],
{
    broadcast use vstd::std_specs::hash::group_hash_axioms;
    if n == 0 {
        return Some(Vec::new());
    }
    let mut seq: Vec<u32> = Vec::new();
    seq.push(0);
    let mut seen: std::collections::HashSet<u32> = std::collections::HashSet::new();
    seen.insert(0);
    let mut i: usize = 1;
    proof {
        lemma_recaman_prefix(1, n as nat);
        assert(recaman_terms(1) =~= seq![0int]);
        assert forall|v: u32| seen@.contains(v) <==> recaman_terms(1).contains(v as int) by {
            if v == 0 {
                assert(recaman_terms(1)[0] == 0);
            }
        }
    }
    while i < n
        invariant
            1 <= i <= n,
            seq@.len() == i,
            recaman_terms(i as nat).len() == i,
            forall|k: int| 0 <= k < i ==> seq@[k] as int == recaman_terms(i as nat)[k],
            forall|v: u32| seen@.contains(v) <==> recaman_terms(i as nat).contains(v as int),
        decreases n - i,
    {
        proof {
            lemma_recaman_prefix((i + 1) as nat, n as nat);
            lemma_recaman_prefix(i as nat, (i + 1) as nat);
        }
        let ghost prev_terms = recaman_terms(i as nat);
        let ghost next_terms = recaman_terms((i + 1) as nat);
        let prev = seq[i - 1];
        let step = i as u32;
        let backward = prev.saturating_sub(step);
        let next: u32;
        if backward > 0 && !seen.contains(&backward) {
            next = backward;
        } else {
            match prev.checked_add(step) {
                Some(forward) => {
                    next = forward;
                },
                None => {
                    proof {
                        assert(next_terms[i as int] == prev + step);
                        assert(recaman_terms(n as nat)[i as int] > u32::MAX);
                    }
                    return None;
                },
            }
        }
        assert(next as int == next_terms[i as int]);
        seq.push(next);
        seen.insert(next);
        proof {
            assert(next_terms =~= prev_terms.push(next as int));
            assert forall|k: int| 0 <= k < i + 1 implies seq@[k] as int == next_terms[k] by {}
            assert forall|v: u32| seen@.contains(v) <==> next_terms.contains(v as int) by {
                if next_terms.contains(v as int) {
                    let k = choose|k: int| 0 <= k < next_terms.len() && next_terms[k] == v as int;
                    if k < i {
                        assert(prev_terms[k] == v as int);
                    }
                }
                if prev_terms.contains(v as int) {
                    let k = choose|k: int| 0 <= k < prev_terms.len() && prev_terms[k] == v as int;
                    assert(next_terms[k] == v as int);
                }
            }
        }
        i = i + 1;
    }
    Some(seq)
}

// ---------------------------------------------------------------------------
// Elementary cellular automata
// ---------------------------------------------------------------------------

/// Neighbourhood code of a cell: left, centre and right bits packed as `lcr`.
pub open spec fn neighborhood(left: u32, center: u32, right: u32) -> u32 {
    (left << 2u32) | (center << 1u32) | right
}

/// Cell `i` of a row, reading outside the row as 0.
pub open spec fn cell(row: Seq<u32>, i: int) -> u32 {
    if 0 <= i < row.len() {
        row[i]
    } else {
        0
    }
}

/// Neighbourhood code of cell `i` of a row of `width` cells.
pub open spec fn neighborhood_at(row: Seq<u32>, width: int, i: int) -> u32 {
    neighborhood(
        if i > 0 { cell(row, i - 1) } else { 0 },
        cell(row, i),
        if i < width - 1 { cell(row, i + 1) } else { 0 },
    )
}

/// What `rule` makes of a neighbourhood code: its bit of that position.
pub open spec fn rule_output(rule: u8, code: u32) -> u32 {
    if (rule >> code) & 1u8 == 1u8 {
        1
    } else {
        0
    }
}

/// The generation after `row` under `rule`.
pub open spec fn next_generation(rule: u8, row: Seq<u32>, width: nat) -> Seq<u32> {
    Seq::new(width, |i: int| rule_output(rule, neighborhood_at(row, width as int, i)))
}

/// First generation: the given state cut to `width` cells, or a single live
/// centre cell.
pub open spec fn first_generation(width: nat, initial: Option<Seq<u32>>) -> Seq<u32> {
    match initial {
        Some(state) => if state.len() <= width {
            state
        } else {
            state.take(width as int)
        },
        None => Seq::new(width, |i: int| if i == width / 2 { 1u32 } else { 0u32 }),
    }
}

/// Generation `k`, counting the first as 0.
pub open spec fn generation(rule: u8, first: Seq<u32>, width: nat, k: nat) -> Seq<u32>
    decreases k,
{
    if k == 0 {
        first
    } else {
        next_generation(rule, generation(rule, first, width, (k - 1) as nat), width)
    }
}

/// The optional starting state, seen as a sequence.
pub open spec fn state_view(initial: Option<Vec<u32>>) -> Option<Seq<u32>> {
    match initial {
        Some(v) => Some(v@),
        None => None,
    }
}

/// Whether evolving `first` is possible: every cell of a full-width row has
/// a neighbourhood code below 8.
pub open spec fn evolvable(first: Seq<u32>, width: nat) -> bool {
    &&& first.len() == width
    &&& forall|i: int| 0 <= i < width ==> #[trigger] neighborhood_at(first, width as int, i) < 8
}

proof fn lemma_binary_neighborhood(l: u32, c: u32, r: u32)
    requires
        l <= 1,
        c <= 1,
        r <= 1,
    ensures
        neighborhood(l, c, r) < 8,
{
    assert(l <= 1 && c <= 1 && r <= 1 ==> (l << 2u32) | (c << 1u32) | r < 8) by (bit_vector);
}

/// Every generation after the first holds only 0s and 1s, and has `width` cells.
pub proof fn lemma_generations_binary(rule: u8, first: Seq<u32>, width: nat, k: nat)
    requires
        k >= 1,
    ensures
        generation(rule, first, width, k).len() == width,
        forall|i: int| 0 <= i < width ==> #[trigger] generation(rule, first, width, k)[i] <= 1,
{
}

/// For cells of 0s and 1s the neighbourhood code is `4 * left + 2 * centre +
/// right`, so a cell's next state is bit `4L + 2C + R` of the rule.
pub proof fn lemma_neighborhood_code(l: u32, c: u32, r: u32)
    requires
        l <= 1,
        c <= 1,
        r <= 1,
    ensures
        neighborhood(l, c, r) == 4 * l + 2 * c + r,
{
    assert(l <= 1 && c <= 1 && r <= 1 ==> (l << 2u32) | (c << 1u32) | r == 4 * l + 2 * c + r) by (bit_vector);
}

/// A start of 0s and 1s at least `width` cells long (or the default single
/// centre cell) is a row of 0s and 1s of `width` cells whose every
/// neighbourhood code is below 8: `cellular_automaton` accepts it.
pub proof fn lemma_binary_start_evolvable(width: nat, initial: Option<Seq<u32>>)
    requires
        match initial {
            Some(state) => state.len() >= width && binary_row(state),
            None => true,
        },
    ensures
        binary_row(first_generation(width, initial)),
        evolvable(first_generation(width, initial), width),
{
    let first = first_generation(width, initial);
    assert(first.len() == width);
    assert forall|i: int| 0 <= i < first.len() implies #[trigger] first[i] <= 1 by {
        match initial {
            Some(state) => {
                if state.len() > width {
                    assert(first[i] == state[i]);
                }
            },
            None => {},
        }
    }
    assert forall|i: int| 0 <= i < width implies #[trigger] neighborhood_at(first, width as int, i) < 8 by {
        let l = if i > 0 { cell(first, i - 1) } else { 0 };
        let c = cell(first, i);
        let r = if i < width - 1 { cell(first, i + 1) } else { 0 };
        lemma_binary_neighborhood(l, c, r);
    }
}

/// A row that reads the same from either end.
pub open spec fn mirrored(row: Seq<u32>) -> bool {
    forall|i: int| 0 <= i < row.len() ==> #[trigger] row[i] == row[row.len() - 1 - i]
}

/// A rule that treats the left and right neighbours alike.
pub open spec fn symmetric_rule(rule: u8) -> bool {
    forall|l: u32, c: u32, r: u32|
        l <= 1 && c <= 1 && r <= 1 ==> #[trigger] rule_output(rule, neighborhood(l, c, r)) == rule_output(
            rule,
            neighborhood(r, c, l),
        )
}

/// A row of 0s and 1s.
pub open spec fn binary_row(row: Seq<u32>) -> bool {
    forall|i: int| 0 <= i < row.len() ==> #[trigger] row[i] <= 1
}

/// A rule that treats both neighbours alike keeps a mirrored row mirrored.
pub proof fn lemma_symmetric_rule_keeps_mirror(rule: u8, row: Seq<u32>, width: nat)
    requires
        symmetric_rule(rule),
        row.len() == width,
        binary_row(row),
        mirrored(row),
    ensures
        mirrored(next_generation(rule, row, width)),
        binary_row(next_generation(rule, row, width)),
{
    let next = next_generation(rule, row, width);
    let w = width as int;
    assert forall|i: int| 0 <= i < next.len() implies #[trigger] next[i] == next[next.len() - 1 - i] by {
        let j = w - 1 - i;
        let li = if i > 0 { cell(row, i - 1) } else { 0 };
        let ri = if i < w - 1 { cell(row, i + 1) } else { 0 };
        let ci = cell(row, i);
        let lj = if j > 0 { cell(row, j - 1) } else { 0 };
        let rj = if j < w - 1 { cell(row, j + 1) } else { 0 };
        let cj = cell(row, j);
        assert(ci == cj) by {
            assert(row[i] == row[w - 1 - i]);
        }
        if i < w - 1 {
            assert(row[i + 1] == row[w - 1 - (i + 1)]);
        }
        if i > 0 {
            assert(row[i - 1] == row[w - 1 - (i - 1)]);
        }
        assert(lj == ri && rj == li);
        if i > 0 {
            assert(row[i - 1] <= 1);
        }
        if i < w - 1 {
            assert(row[i + 1] <= 1);
        }
        assert(row[i] <= 1);
        assert(rule_output(rule, neighborhood(li, ci, ri)) == rule_output(rule, neighborhood(ri, ci, li)));
    }
}

/// Rule 90, each cell the exclusive or of its neighbours, treats both
/// neighbours alike.
pub proof fn lemma_rule_90_symmetric()
    ensures
        symmetric_rule(90),
{
    assert forall|l: u32, c: u32, r: u32| l <= 1 && c <= 1 && r <= 1 implies #[trigger] rule_output(
        90,
        neighborhood(l, c, r),
    ) == rule_output(90, neighborhood(r, c, l)) by {
        assert(l <= 1 && c <= 1 && r <= 1 ==> ((90u8 >> ((l << 2u32) | (c << 1u32) | r)) & 1u8) == ((90u8 >> ((r
            << 2u32) | (c << 1u32) | l)) & 1u8)) by (bit_vector);
    }
}

/// From the single centre cell of an odd-width row, a rule that treats both
/// neighbours alike draws a mirrored picture: every generation is mirrored.
pub proof fn lemma_centered_start_stays_mirrored(rule: u8, width: nat, k: nat)
    requires
        symmetric_rule(rule),
        width % 2 == 1,
    ensures
        mirrored(generation(rule, first_generation(width, None), width, k)),
        binary_row(generation(rule, first_generation(width, None), width, k)),
        generation(rule, first_generation(width, None), width, k).len() == width,
    decreases k,
{
    let first = first_generation(width, None);
    if k == 0 {
        assert forall|i: int| 0 <= i < first.len() implies #[trigger] first[i] == first[first.len() - 1 - i] by {
            assert(i == width / 2 <==> first.len() - 1 - i == width / 2);
        }
    } else {
        lemma_centered_start_stays_mirrored(rule, width, (k - 1) as nat);
        lemma_symmetric_rule_keeps_mirror(rule, generation(rule, first, width, (k - 1) as nat), width);
    }
}

/// Rows of a one-dimensional cellular automaton: `steps` generations (at
/// least one) of `width` cells evolved under the rule number `rule`.
pub fn cellular_automaton(rule: u8, steps: usize, width: usize, initial_state: Option<Vec<u32>>) -> (history: Vec<Vec<u32>>)
    requires
        steps >= 2 && width > 0 ==> evolvable(
            first_generation(width as nat, state_view(initial_state)),
            width as nat,
        ),
    ensures
        width == 0 ==> history@.len() == 0,
        width > 0 ==> history@.len() == if steps == 0 { 1 } else { steps as int },
        forall|k: int| 0 <= k < history@.len() ==> #[trigger] history@[k]@ == generation(
            rule,
            first_generation(width as nat, state_view(initial_state)),
            width as nat,
            k as nat,
        ),
{
    if width == 0 {
        return Vec::new();
    }
    let ghost initial_view = state_view(initial_state);
    let ghost first = first_generation(width as nat, initial_view);
    let mut current: Vec<u32> = Vec::new();
    match initial_state {
        Some(state) => {
            let mut i: usize = 0;
            while i < width && i < state.len()
                invariant
                    i <= width,
                    i <= state.len(),
                    current@ == state@.take(i as int),
                decreases width - i,
            {
                current.push(state[i]);
                assert(state@.take(i + 1) =~= state@.take(i as int).push(state@[i as int]));
                i = i + 1;
            }
            assert(current@ =~= first);
        },
        None => {
            let mut i: usize = 0;
            while i < width
                invariant
                    i <= width,
                    current@ =~= Seq::new(i as nat, |j: int| if j == width / 2 { 1u32 } else { 0u32 }),
                decreases width - i,
            {
                if i == width / 2 {
                    current.push(1);
                } else {
                    current.push(0);
                }
                i = i + 1;
            }
            assert(current@ =~= first);
        },
    }
    let mut history: Vec<Vec<u32>> = Vec::new();
    history.push(current);
    let total: usize = if steps == 0 { 1 } else { steps };
    while history.len() < total
        invariant
            width > 0,
            1 <= history@.len() <= total,
            total == if steps == 0 { 1 } else { steps },
            first == first_generation(width as nat, initial_view),
            steps >= 2 ==> evolvable(first, width as nat),
            forall|k: int| 0 <= k < history@.len() ==> #[trigger] history@[k]@ == generation(rule, first, width as nat, k as nat),
        decreases total - history@.len(),
    {
        let last = history.len() - 1;
        let ghost prev_gen = generation(rule, first, width as nat, last as nat);
        proof {
            if last >= 1 {
                lemma_generations_binary(rule, first, width as nat, last as nat);
                assert forall|j: int| 0 <= j < width implies #[trigger] neighborhood_at(prev_gen, width as int, j) < 8 by {
                    lemma_binary_neighborhood(
                        if j > 0 { cell(prev_gen, j - 1) } else { 0 },
                        cell(prev_gen, j),
                        if j < width - 1 { cell(prev_gen, j + 1) } else { 0 },
                    );
                }
            }
        }
        let mut next: Vec<u32> = Vec::new();
        let mut i: usize = 0;
        while i < width
            invariant
                width > 0,
                i <= width,
                last < history@.len(),
                history@[last as int]@ == prev_gen,
                prev_gen.len() == width,
                forall|j: int| 0 <= j < width ==> #[trigger] neighborhood_at(prev_gen, width as int, j) < 8,
                next@ =~= Seq::new(i as nat, |j: int| rule_output(rule, neighborhood_at(prev_gen, width as int, j))),
            decreases width - i,
        {
            let row = &history[last];
            let left = if i > 0 { row[i - 1] } else { 0 };
            let center = row[i];
            let right = if i < width - 1 { row[i + 1] } else { 0 };
            let code = (left << 2u32) | (center << 1u32) | right;
            assert(code == neighborhood_at(prev_gen, width as int, i as int));
            let bit = if (rule >> code) & 1u8 == 1u8 { 1u32 } else { 0u32 };
            next.push(bit);
            i = i + 1;
        }
        history.push(next);
    }
    history
}

// ---------------------------------------------------------------------------
// Cantor set
// ---------------------------------------------------------------------------

/// Whether point `x` of the segment `[start, end)` survives `depth` rounds of
/// removing middle thirds; segments shorter than 3 points are not divided.
pub open spec fn cantor_keeps(start: int, end: int, depth: nat, x: int) -> bool
    decreases depth,
{
    if depth == 0 || end - start < 3 {
        true
    } else {
        let third = (end - start) / 3;
        if x < start + third {
            cantor_keeps(start, start + third, (depth - 1) as nat, x)
        } else if x < start + 2 * third {
            false
        } else {
            cantor_keeps(start + 2 * third, end, (depth - 1) as nat, x)
        }
    }
}

/// The Cantor pattern: point `x` of `resolution` points is 1 when it
/// survives `iterations` rounds.
pub open spec fn cantor_pattern(iterations: nat, resolution: nat) -> Seq<u32> {
    Seq::new(resolution, |x: int| if cantor_keeps(0, resolution as int, iterations, x) { 1u32 } else { 0u32 })
}

/// A point that survives one more round also survives the current one.
pub proof fn lemma_cantor_monotone(start: int, end: int, depth: nat, x: int)
    requires
        cantor_keeps(start, end, depth + 1, x),
    ensures
        cantor_keeps(start, end, depth, x),
    decreases depth,
{
    if depth > 0 && end - start >= 3 {
        let third = (end - start) / 3;
        if x < start + third {
            lemma_cantor_monotone(start, start + third, (depth - 1) as nat, x);
        } else if x >= start + 2 * third {
            lemma_cantor_monotone(start + 2 * third, end, (depth - 1) as nat, x);
        }
    }
}

/// A pattern whose hits all stand where another pattern has hits holds no more hits.
pub proof fn lemma_count_hits_pointwise(a: Seq<u32>, b: Seq<u32>)
    requires
        a.len() == b.len(),
        forall|i: int| 0 <= i < a.len() && a[i] == 1 ==> b[i] == 1,
    ensures
        count_hits(a) <= count_hits(b),
    decreases a.len(),
{
    if a.len() > 0 {
        let ad = a.drop_last();
        let bd = b.drop_last();
        assert forall|i: int| 0 <= i < ad.len() && #[trigger] ad[i] == 1 implies bd[i] == 1 by {
            assert(ad[i] == a[i]);
            assert(bd[i] == b[i]);
        }
        lemma_count_hits_pointwise(ad, bd);
    }
}

/// Each further round of the Cantor construction keeps at most as many points.
pub proof fn lemma_cantor_shrinks(iterations: nat, resolution: nat)
    ensures
        count_hits(cantor_pattern(iterations + 1, resolution)) <= count_hits(cantor_pattern(iterations, resolution)),
{
    let a = cantor_pattern(iterations + 1, resolution);
    let b = cantor_pattern(iterations, resolution);
    assert forall|i: int| 0 <= i < a.len() && a[i] == 1 implies b[i] == 1 by {
        lemma_cantor_monotone(0, resolution as int, iterations, i);
    }
    lemma_count_hits_pointwise(a, b);
}

/// The two ends of an interval survive every round.
proof fn lemma_cantor_keeps_ends(start: int, end: int, depth: nat)
    requires
        start < end,
    ensures
        cantor_keeps(start, end, depth, start),
        cantor_keeps(start, end, depth, end - 1),
    decreases depth,
{
    if depth > 0 && end - start >= 3 {
        let third = (end - start) / 3;
        lemma_cantor_keeps_ends(start, start + third, (depth - 1) as nat);
        lemma_cantor_keeps_ends(start + 2 * third, end, (depth - 1) as nat);
    }
}

/// The first and the last point of the Cantor pattern are always kept.
pub proof fn lemma_cantor_ends_kept(iterations: nat, resolution: nat)
    requires
        resolution >= 1,
    ensures
        cantor_pattern(iterations, resolution)[0] == 1,
        cantor_pattern(iterations, resolution)[resolution - 1] == 1,
{
    lemma_cantor_keeps_ends(0, resolution as int, iterations);
}

/// Whether each point of `[start, end)` survives `depth` rounds, as 1 or 0.
pub open spec fn cantor_interval(start: int, end: int, depth: nat) -> Seq<u32> {
    Seq::new((end - start) as nat, |i: int| if cantor_keeps(start, end, depth, start + i) { 1u32 } else { 0u32 })
}

/// An interval of `3^m` points keeps `2^d * 3^(m - d)` of them after `d <= m`
/// rounds.
proof fn lemma_cantor_interval_count(start: int, m: nat, d: nat)
    requires
        d <= m,
    ensures
        count_hits(cantor_interval(start, start + pow(3, m), d)) == pow(2, d) * pow(3, (m - d) as nat),
    decreases d,
{
    reveal(pow);
    let end = start + pow(3, m);
    let whole = cantor_interval(start, end, d);
    if d == 0 {
        assert(whole =~= Seq::new(pow(3, m) as nat, |i: int| 1u32));
        lemma_pow_positive_three(m);
        lemma_count_hits_constant(pow(3, m) as nat, 1);
        assert(count_hits(whole) == pow(3, m));
        assert(pow(2, 0) == 1);
        assert((m - d) as nat == m);
    } else {
        let t = pow(3, (m - 1) as nat);
        lemma_pow_positive_three((m - 1) as nat);
        assert(pow(3, m) == 3 * t);
        assert((end - start) / 3 == t);
        lemma_cantor_interval_count(start, (m - 1) as nat, (d - 1) as nat);
        lemma_cantor_interval_count(start + 2 * t, (m - 1) as nat, (d - 1) as nat);
        let left = cantor_interval(start, start + t, (d - 1) as nat);
        let right = cantor_interval(start + 2 * t, start + 3 * t, (d - 1) as nat);
        let middle = Seq::new(t as nat, |i: int| 0u32);
        assert(whole =~= left + middle + right) by {
            assert forall|i: int| 0 <= i < whole.len() implies whole[i] == (left + middle + right)[i] by {
                if i < t {
                    assert(whole[i] == left[i]);
                } else if i < 2 * t {
                } else {
                    assert(whole[i] == right[i - 2 * t]);
                }
            }
        }
        lemma_count_hits_concat(left + middle, right);
        lemma_count_hits_concat(left, middle);
        lemma_count_hits_constant(t as nat, 0);
        assert(count_hits(left) == pow(2, (d - 1) as nat) * pow(3, (m - d) as nat));
        assert(count_hits(right) == pow(2, (d - 1) as nat) * pow(3, (m - d) as nat));
        assert(count_hits(whole) == count_hits(left) + count_hits(right));
        assert(pow(2, d) == 2 * pow(2, (d - 1) as nat));
        assert(((m - 1) - (d - 1)) as nat == (m - d) as nat);
        assert(pow(2, (d - 1) as nat) * pow(3, (m - d) as nat) + pow(2, (d - 1) as nat) * pow(3, (m - d) as nat)
            == pow(2, d) * pow(3, (m - d) as nat)) by (nonlinear_arith)
            requires
                pow(2, d) == 2 * pow(2, (d - 1) as nat),
        ;
    }
}

proof fn lemma_pow_positive_three(m: nat)
    ensures
        pow(3, m) >= 1,
    decreases m,
{
    reveal(pow);
    if m > 0 {
        lemma_pow_positive_three((m - 1) as nat);
    }
}

/// Over `3^k` points, `d <= k` rounds keep `2^d * 3^(k - d)` points: each round
/// keeps two thirds of every remaining interval.
pub proof fn lemma_cantor_count(iterations: nat, k: nat)
    requires
        iterations <= k,
    ensures
        count_hits(cantor_pattern(iterations, pow(3, k) as nat)) == pow(2, iterations) * pow(3, (k - iterations) as nat),
{
    lemma_pow_positive_three(k);
    lemma_cantor_interval_count(0, k, iterations);
    assert(cantor_pattern(iterations, pow(3, k) as nat) =~= cantor_interval(0, 0 + pow(3, k), iterations));
}

/// Zeroes the points of `[start, end)` that do not survive `depth` rounds.
fn remove_middle_thirds(set: &mut Vec<u32>, start: usize, end: usize, depth: usize)
    requires
        start <= end <= old(set)@.len(),
    ensures
        final(set)@.len() == old(set)@.len(),
        forall|x: int| 0 <= x < old(set)@.len() ==> final(set)@[x] == if start <= x < end && !cantor_keeps(
            start as int,
            end as int,
            depth as nat,
            x,
        ) {
            0u32
        } else {
            old(set)@[x]
        },
    decreases depth,
{
    if depth == 0 || end - start < 3 {
        return;
    }
    let third = (end - start) / 3;
    let mut i: usize = start + third;
    while i < start + third * 2
        invariant
            start + third <= i <= start + third * 2,
            third == (end - start) / 3,
            start + third * 2 <= end <= set@.len(),
            set@.len() == old(set)@.len(),
            forall|x: int| 0 <= x < set@.len() ==> set@[x] == if start + third <= x < i { 0u32 } else { old(set)@[x] },
        decreases start + third * 2 - i,
    {
        set.set(i, 0);
        i = i + 1;
    }
    let ghost mid = set@;
    remove_middle_thirds(set, start, start + third, depth - 1);
    let ghost left_done = set@;
    remove_middle_thirds(set, start + third * 2, end, depth - 1);
}

/// Cantor-set pattern over `resolution` points after `iterations` rounds of
/// removing middle thirds: 1 marks a point still in the set.
pub fn cantor_set(iterations: usize, resolution: usize) -> (set: Vec<u32>)
    ensures
        set@ == cantor_pattern(iterations as nat, resolution as nat),
{
    if resolution == 0 {
        let v: Vec<u32> = Vec::new();
        assert(v@ =~= cantor_pattern(iterations as nat, resolution as nat));
        return v;
    }
    let mut set = vec![1u32; resolution];
    if iterations == 0 {
        assert(set@ =~= cantor_pattern(iterations as nat, resolution as nat));
        return set;
    }
    remove_middle_thirds(&mut set, 0, resolution, iterations);
    assert(set@ =~= cantor_pattern(iterations as nat, resolution as nat));
    set
}

// ---------------------------------------------------------------------------
// Number sequences
// ---------------------------------------------------------------------------

/// Term `i` (from 0) of the Fibonacci sequence 1, 1, 2, 3, 5, 8, ...
pub open spec fn fib_term(i: nat) -> nat
    decreases i,
{
    if i <= 1 {
        1
    } else {
        fib_term((i - 1) as nat) + fib_term((i - 2) as nat)
    }
}

/// The Fibonacci terms never decrease.
pub proof fn lemma_fib_monotone(i: nat, j: nat)
    requires
        i <= j,
    ensures
        fib_term(i) <= fib_term(j),
    decreases j,
{
    if i < j {
        lemma_fib_monotone(i, (j - 1) as nat);
        if j >= 2 {
            assert(fib_term(j) >= fib_term((j - 1) as nat));
        }
    }
}

/// First `n` Fibonacci numbers: 1, 1, 2, 3, 5, 8, 13, 21, ...
pub fn fibonacci(n: usize) -> (fib: Vec<u32>)
    requires
        n == 0 || fib_term((n - 1) as nat) <= u32::MAX,
    ensures
        fib@.len() == n,
        forall|i: int| 0 <= i < n ==> fib@[i] == fib_term(i as nat),
{
    match checked_fibonacci(n) {
        Some(fib) => fib,
        None => {
            proof {
                assert(false);
            }
            Vec::new()
        },
    }
}

/// The first `n` Fibonacci numbers where they all fit in 32 bits, `None`
/// where the last of them does not.
pub fn checked_fibonacci(n: usize) -> (r: Option<Vec<u32>>)
    ensures
        r is Some <==> (n == 0 || fib_term((n - 1) as nat) <= u32::MAX),
        r matches Some(fib) ==> fib@.len() == n && forall|i: int| 0 <= i < n ==> fib@[i] == fib_term(i as nat),
{
    let mut fib: Vec<u32> = Vec::new();
    fib.push(1);
    fib.push(1);
    let mut i: usize = 2;
    while i < n
        invariant
            2 <= i,
            i <= n || n < 2,
            fib@.len() == i,
            forall|k: int| 0 <= k < i ==> fib@[k] == fib_term(k as nat),
        decreases n - i,
    {
        match fib[i - 1].checked_add(fib[i - 2]) {
            Some(next) => {
                fib.push(next);
            },
            None => {
                proof {
                    lemma_fib_monotone(i as nat, (n - 1) as nat);
                }
                return None;
            },
        }
        i = i + 1;
    }
    fib.truncate(n);
    assert(n > 0 ==> fib@[n - 1] == fib_term((n - 1) as nat));
    Some(fib)
}

/// `base` raised to `exp`, through the standard library's `u32::pow`: the
/// power itself, for powers that fit in 32 bits (a larger one overflows).
#[verifier::external_body]
fn u32_pow(base: u32, exp: u32) -> (r: u32)
    requires
        pow(base as int, exp as nat) <= u32::MAX,
    ensures
        r == pow(base as int, exp as nat),
{
    base.pow(exp)
}

/// Powers of two 1, 2, 4, 8, ... (`n` terms).
pub fn powers_of_two(n: usize) -> (powers: Vec<u32>)
    requires
        n <= 32,
    ensures
        powers@.len() == n,
        forall|i: int| 0 <= i < n ==> powers@[i] == pow(2, i as nat),
{
    let mut powers: Vec<u32> = Vec::new();
    let mut i: usize = 0;
    while i < n
        invariant
            i <= n <= 32,
            powers@.len() == i,
            forall|k: int| 0 <= k < i ==> powers@[k] == pow(2, k as nat),
        decreases n - i,
    {
        proof { lemma_pow2_u32(i as nat); }
        powers.push(u32_pow(2, i as u32));
        i = i + 1;
    }
    powers
}

proof fn lemma_pow2_u32(e: nat)
    requires
        e < 32,
    ensures
        pow(2, e) <= u32::MAX,
        pow(2, e) >= 1,
{
    vstd::arithmetic::power2::lemma2_to64();
    vstd::arithmetic::power::lemma_pow_increases(2, e, 31);
    vstd::arithmetic::power::lemma_pow_positive(2, e);
    assert(vstd::arithmetic::power2::pow2(31) == pow(2, 31) as nat);
}

/// Term `i` of the arithmetic sequence, with the position taken as a 32-bit counter.
pub open spec fn arithmetic_term(start: int, step: int, i: int) -> int {
    start + step * ((i as u32) as int)
}

/// Arithmetic progression start, start + step, start + 2·step, ... (`n` terms).
pub fn arithmetic(start: u32, step: u32, n: usize) -> (seq: Vec<u32>)
    requires
        forall|i: int| 0 <= i < n ==> #[trigger] arithmetic_term(start as int, step as int, i) <= u32::MAX,
    ensures
        seq@.len() == n,
        forall|i: int| 0 <= i < n ==> seq@[i] == arithmetic_term(start as int, step as int, i),
{
    let mut seq: Vec<u32> = Vec::new();
    let mut i: usize = 0;
    while i < n
        invariant
            i <= n,
            seq@.len() == i,
            forall|k: int| 0 <= k < n ==> #[trigger] arithmetic_term(start as int, step as int, k) <= u32::MAX,
            forall|k: int| 0 <= k < i ==> seq@[k] == arithmetic_term(start as int, step as int, k),
        decreases n - i,
    {
        assert(arithmetic_term(start as int, step as int, i as int) <= u32::MAX);
        let k = i as u32;
        assert(step * k <= u32::MAX) by (nonlinear_arith)
            requires
                start + step * k <= u32::MAX,
                start >= 0,
        ;
        seq.push(start + step * k);
        i = i + 1;
    }
    seq
}

/// Term `i` of the geometric sequence, with the exponent taken as a 32-bit counter.
pub open spec fn geometric_term(start: int, ratio: int, i: int) -> int {
    start * pow(ratio, ((i as u32) as int) as nat)
}

/// Whether every power reached while listing `n` geometric terms, and every
/// term, fits in 32 bits.
pub open spec fn geometric_fits(start: int, ratio: int, n: int) -> bool {
    forall|i: int|
        0 <= i < n ==> pow(ratio, ((i as u32) as int) as nat) <= u32::MAX && #[trigger] geometric_term(start, ratio, i)
            <= u32::MAX
}

/// Geometric progression start, start·ratio, start·ratio², ... (`n` terms).
pub fn geometric(start: u32, ratio: u32, n: usize) -> (seq: Vec<u32>)
    requires
        geometric_fits(start as int, ratio as int, n as int),
    ensures
        seq@.len() == n,
        forall|i: int| 0 <= i < n ==> seq@[i] == geometric_term(start as int, ratio as int, i),
{
    let mut seq: Vec<u32> = Vec::new();
    let mut i: usize = 0;
    while i < n
        invariant
            i <= n,
            seq@.len() == i,
            geometric_fits(start as int, ratio as int, n as int),
            forall|k: int| 0 <= k < i ==> seq@[k] == geometric_term(start as int, ratio as int, k),
        decreases n - i,
    {
        assert(geometric_term(start as int, ratio as int, i as int) <= u32::MAX);
        let p = u32_pow(ratio, i as u32);
        seq.push(start * p);
        i = i + 1;
    }
    seq
}

/// Powers of 0 and 1 are 0 or 1.
proof fn lemma_pow_of_unit(b: int, e: nat)
    requires
        0 <= b <= 1,
    ensures
        0 <= pow(b, e) <= 1,
    decreases e,
{
    reveal(pow);
    if e > 0 {
        lemma_pow_of_unit(b, (e - 1) as nat);
        assert(0 <= b * pow(b, (e - 1) as nat) <= 1) by (nonlinear_arith)
            requires
                0 <= b <= 1,
                0 <= pow(b, (e - 1) as nat) <= 1,
        ;
    }
}

/// A power of a ratio of at least 2 exceeds its exponent.
proof fn lemma_pow_exceeds_exponent(b: int, e: nat)
    requires
        b >= 2,
    ensures
        pow(b, e) >= e + 1,
    decreases e,
{
    reveal(pow);
    if e > 0 {
        lemma_pow_exceeds_exponent(b, (e - 1) as nat);
        assert(b * pow(b, (e - 1) as nat) >= 2 * pow(b, (e - 1) as nat)) by (nonlinear_arith)
            requires
                b >= 2,
                pow(b, (e - 1) as nat) >= 0,
        ;
    }
}

/// With a ratio of 0 or 1 every power and every term fits in 32 bits.
proof fn lemma_geometric_unit_fits(start: u32, ratio: u32, n: int)
    requires
        ratio <= 1,
    ensures
        geometric_fits(start as int, ratio as int, n),
{
    assert forall|i: int| 0 <= i < n implies #[trigger] geometric_term(start as int, ratio as int, i) <= u32::MAX by {
        let e = ((i as u32) as int) as nat;
        lemma_pow_of_unit(ratio as int, e);
        assert(start * pow(ratio as int, e) <= start) by (nonlinear_arith)
            requires
                0 <= pow(ratio as int, e) <= 1,
                start >= 0,
        ;
    }
    assert forall|i: int| 0 <= i < n implies pow(ratio as int, #[trigger] ((i as u32) as int) as nat) <= u32::MAX by {
        lemma_pow_of_unit(ratio as int, ((i as u32) as int) as nat);
    }
}

/// One more power and term that fit extend the terms that fit.
proof fn lemma_geometric_fits_extend(start: u32, ratio: u32, i: int)
    requires
        0 <= i,
        geometric_fits(start as int, ratio as int, i),
        (i as u32) as int == i,
        pow(ratio as int, i as nat) <= u32::MAX,
        start * pow(ratio as int, i as nat) <= u32::MAX,
    ensures
        geometric_fits(start as int, ratio as int, i + 1),
{
    assert forall|k: int| 0 <= k < i + 1 implies #[trigger] geometric_term(start as int, ratio as int, k) <= u32::MAX by {
        if k < i {
            assert(geometric_term(start as int, ratio as int, k) <= u32::MAX);
        }
    }
    assert forall|k: int| 0 <= k < i + 1 implies pow(ratio as int, #[trigger] ((k as u32) as int) as nat) <= u32::MAX by {
        if k < i {
            assert(geometric_term(start as int, ratio as int, k) <= u32::MAX);
        }
    }
}

/// The geometric progression of `geometric` where every power and term fits
/// in 32 bits, `None` where one does not.
pub fn checked_geometric(start: u32, ratio: u32, n: usize) -> (r: Option<Vec<u32>>)
    ensures
        r is Some <==> geometric_fits(start as int, ratio as int, n as int),
        r matches Some(seq) ==> seq@.len() == n && forall|i: int|
            0 <= i < n ==> seq@[i] == geometric_term(start as int, ratio as int, i),
{
    if ratio <= 1 {
        proof {
            lemma_geometric_unit_fits(start, ratio, n as int);
        }
        return Some(geometric(start, ratio, n));
    }
    let mut p: u32 = 1;
    let mut i: usize = 0;
    proof {
        reveal(pow);
    }
    while i < n
        invariant
            ratio >= 2,
            i <= n,
            i < n ==> p as int == pow(ratio as int, i as nat),
            geometric_fits(start as int, ratio as int, i as int),
        decreases n - i,
    {
        proof {
            lemma_pow_exceeds_exponent(ratio as int, i as nat);
            assert((i as u32) as int == i);
        }
        if start.checked_mul(p).is_none() {
            proof {
                assert(geometric_term(start as int, ratio as int, i as int) > u32::MAX);
            }
            return None;
        }
        proof {
            lemma_geometric_fits_extend(start, ratio, i as int);
        }
        if i + 1 < n {
            proof {
                reveal(pow);
                assert(pow(ratio as int, (i + 1) as nat) == ratio * pow(ratio as int, i as nat));
                assert(((i + 1) as u32) as int == i + 1);
            }
            match p.checked_mul(ratio) {
                Some(q) => {
                    p = q;
                },
                None => {
                    proof {
                        assert(pow(ratio as int, (((i + 1) as u32) as int) as nat) > u32::MAX);
                        if geometric_fits(start as int, ratio as int, n as int) {
                            assert(geometric_term(start as int, ratio as int, (i + 1) as int) <= u32::MAX);
                        }
                    }
                    return None;
                },
            }
        }
        i = i + 1;
    }
    Some(geometric(start, ratio, n))
}

/// Term `i` (from 0) of the triangular numbers 1, 3, 6, 10, ...
pub open spec fn triangular_term(i: int) -> int {
    (i + 1) * (i + 2) / 2
}

/// First `n` triangular numbers 1, 3, 6, 10, 15, 21, ...
pub fn triangular(n: usize) -> (seq: Vec<u32>)
    requires
        n < 65536,
    ensures
        seq@.len() == n,
        forall|i: int| 0 <= i < n ==> seq@[i] == triangular_term(i),
{
    let mut seq: Vec<u32> = Vec::new();
    let mut i: usize = 1;
    while i <= n
        invariant
            1 <= i <= n + 1,
            n < 65536,
            seq@.len() == i - 1,
            forall|k: int| 0 <= k < i - 1 ==> seq@[k] == triangular_term(k),
        decreases n + 1 - i,
    {
        let x = i as u32;
        assert(x * (x + 1) <= u32::MAX) by (nonlinear_arith)
            requires
                x <= 65535,
        ;
        seq.push((x * (x + 1)) / 2);
        i = i + 1;
    }
    seq
}

/// One Collatz step: halve an even number, map an odd `x` to `3x + 1`.
pub open spec fn collatz_next(x: int) -> int {
    if x % 2 == 0 {
        x / 2
    } else {
        3 * x + 1
    }
}

/// Collatz trajectory from `x`, stopping at 1 or after `max_terms` terms (at
/// least one term).
pub open spec fn collatz_run(x: int, max_terms: nat) -> Seq<int>
    decreases max_terms,
{
    if x == 1 || max_terms <= 1 {
        seq![x]
    } else {
        seq![x] + collatz_run(collatz_next(x), (max_terms - 1) as nat)
    }
}

/// A Collatz run starts at its start, takes each term from the one before
/// (halving even terms, tripling and adding one to odd ones), has at most
/// `max_terms` terms (at least one), and stops early only on reaching 1; 1
/// appears only as the last term.
pub proof fn lemma_collatz_run_shape(x: int, max_terms: nat)
    ensures
        ({
            let r = collatz_run(x, max_terms);
            &&& r[0] == x
            &&& 1 <= r.len() <= if max_terms == 0 { 1 } else { max_terms }
            &&& forall|k: int| 1 <= k < r.len() ==> #[trigger] r[k] == collatz_next(r[k - 1])
            &&& r.len() < max_terms ==> r.last() == 1
            &&& forall|k: int| 0 <= k < r.len() - 1 ==> #[trigger] r[k] != 1
        }),
    decreases max_terms,
{
    if !(x == 1 || max_terms <= 1) {
        let rest = collatz_run(collatz_next(x), (max_terms - 1) as nat);
        lemma_collatz_run_shape(collatz_next(x), (max_terms - 1) as nat);
        let r = collatz_run(x, max_terms);
        assert(r == seq![x] + rest);
        assert forall|k: int| 1 <= k < r.len() implies #[trigger] r[k] == collatz_next(r[k - 1]) by {
            assert(r[k] == rest[k - 1]);
            if k > 1 {
                assert(r[k - 1] == rest[k - 2]);
            }
        }
        assert forall|k: int| 0 <= k < r.len() - 1 implies #[trigger] r[k] != 1 by {
            if k > 0 {
                assert(r[k] == rest[k - 1]);
            }
        }
    }
}

/// Collatz sequence from `start`, ending at 1 or after `max_terms` terms.
pub fn collatz(start: u32, max_terms: usize) -> (seq: Vec<u32>)
    requires
        collatz_fits(start as int, max_terms as nat),
    ensures
        seq@.len() == collatz_run(start as int, max_terms as nat).len(),
        forall|k: int| 0 <= k < seq@.len() ==> seq@[k] == collatz_run(start as int, max_terms as nat)[k],
{
    match checked_collatz(start, max_terms) {
        Some(seq) => seq,
        None => {
            proof {
                assert(false);
            }
            Vec::new()
        },
    }
}

/// Every term of the Collatz run fits in 32 bits.
pub open spec fn collatz_fits(start: int, max_terms: nat) -> bool {
    forall|k: int| 0 <= k < collatz_run(start, max_terms).len() ==> #[trigger] collatz_run(start, max_terms)[k] <= u32::MAX
}

/// The Collatz sequence from `start`, ending at 1 or after `max_terms` terms,
/// where every term fits in 32 bits; `None` where one does not.
pub fn checked_collatz(start: u32, max_terms: usize) -> (r: Option<Vec<u32>>)
    ensures
        r is Some <==> collatz_fits(start as int, max_terms as nat),
        r matches Some(seq) ==> seq@.len() == collatz_run(start as int, max_terms as nat).len() && forall|k: int|
            0 <= k < seq@.len() ==> seq@[k] == collatz_run(start as int, max_terms as nat)[k],
{

    let ghost full = collatz_run(start as int, max_terms as nat);
    let mut seq: Vec<u32> = Vec::new();
    seq.push(start);
    let mut current = start;
    proof { lemma_collatz_suffix(start as int, max_terms as nat, 0); }
    while current != 1 && seq.len() < max_terms
        invariant
            1 <= seq@.len() <= full.len(),
            seq@.len() <= max_terms || seq@.len() == 1,
            forall|k: int| 0 <= k < seq@.len() ==> seq@[k] == full[k],
            current == seq@.last(),
            full == collatz_run(start as int, max_terms as nat),
            collatz_run(current as int, (max_terms - seq@.len() + 1) as nat) == full.subrange(seq@.len() - 1, full.len() as int),
        decreases max_terms - seq@.len(),
    {
        let ghost len = seq@.len();
        let ghost m = (max_terms - len + 1) as nat;
        let ghost rest = collatz_run(current as int, m);
        proof {
            lemma_collatz_suffix(collatz_next(current as int), (m - 1) as nat, 0);
            assert(rest == seq![current as int] + collatz_run(collatz_next(current as int), (m - 1) as nat));
            assert(rest.len() >= 2);
            assert(rest[1] == collatz_next(current as int));
            assert(rest[1] == full[len as int]);
        }
        if current % 2 == 0 {
            current = current / 2;
        } else {
            match current.checked_mul(3) {
                Some(tripled) => match tripled.checked_add(1) {
                    Some(next) => {
                        current = next;
                    },
                    None => {
                        return None;
                    },
                },
                None => {
                    return None;
                },
            }
        }
        seq.push(current);
        proof {
            assert(collatz_run(current as int, (m - 1) as nat) =~= rest.subrange(1, rest.len() as int));
            assert(full.subrange(len as int, full.len() as int) =~= rest.subrange(1, rest.len() as int));
        }
    }
    proof {
        let len = seq@.len();
        let rest = collatz_run(current as int, (max_terms - len + 1) as nat);
        assert(rest.len() == 1);
        assert(seq@.len() == full.len());
        assert forall|k: int| 0 <= k < full.len() implies #[trigger] full[k] <= u32::MAX by {
            assert(seq@[k] == full[k]);
        }
    }
    Some(seq)
}

proof fn lemma_collatz_suffix(x: int, m: nat, k: nat)
    ensures
        collatz_run(x, m).len() >= 1,
        collatz_run(x, m)[0] == x,
{
}

// ---------------------------------------------------------------------------
// Prime numbers
// ---------------------------------------------------------------------------

/// `n` is prime: at least 2 and without a divisor strictly between 1 and `n`.
pub open spec fn is_prime_number(n: int) -> bool {
    n >= 2 && forall|d: int| 2 <= d < n ==> #[trigger] (n % d) != 0
}

/// The primes below `bound`, in increasing order.
pub open spec fn primes_below(bound: nat) -> Seq<int>
    decreases bound,
{
    if bound == 0 {
        Seq::empty()
    } else if is_prime_number(bound - 1) {
        primes_below((bound - 1) as nat).push(bound - 1)
    } else {
        primes_below((bound - 1) as nat)
    }
}

/// Whether `n` is prime.
fn is_prime(n: u32) -> (b: bool)
    ensures
        b == is_prime_number(n as int),
{
    if n < 2 {
        return false;
    }
    let mut i: u64 = 2;
    loop
        invariant
            2 <= i,
            i <= 65536,
            i <= n as int + 1,
            n >= 2,
            forall|d: int| 2 <= d < i ==> #[trigger] (n as int % d) != 0,
        ensures
            i * i > n,
        decreases n as u64 + 1 - i,
    {
        assert(i * i <= 65536 * 65536) by (nonlinear_arith)
            requires
                i <= 65536,
                i >= 2,
        ;
        if i * i > n as u64 {
            break;
        }
        if n as u64 % i == 0 {
            assert(i < n) by (nonlinear_arith)
                requires
                    i * i <= n,
                    i >= 2,
            ;
            return false;
        }
        i = i + 1;
        assert(i <= n as int + 1) by (nonlinear_arith)
            requires
                (i - 1) * (i - 1) <= n,
                i >= 3,
        ;
        assert(i <= 65536) by (nonlinear_arith)
            requires
                (i - 1) * (i - 1) <= n,
                n <= u32::MAX,
        ;
    }
    proof {
        assert forall|d: int| 2 <= d < n implies #[trigger] (n as int % d) != 0 by {
            if d >= i && n as int % d == 0 {
                let e = n as int / d;
                lemma_fundamental_div_mod(n as int, d);
                assert(n as int == d * e);
                assert(e >= 2 && e < i) by (nonlinear_arith)
                    requires
                        n == d * e,
                        d >= i,
                        i * i > n,
                        d < n,
                        i >= 2,
                ;
                assert(n as int % e == 0) by {
                    lemma_fundamental_div_mod_converse(n as int, e, d, 0);
                }
            }
        }
    }
    true
}

/// The first `n` prime numbers 2, 3, 5, 7, 11, ...
pub fn primes(n: usize) -> (primes: Vec<u32>)
    requires
        n <= primes_below(u32::MAX as nat).len(),
    ensures
        primes@.len() == n,
        forall|k: int| 0 <= k < n ==> primes@[k] == primes_below(u32::MAX as nat)[k],
{
    match checked_primes(n) {
        Some(primes) => primes,
        None => {
            proof {
                assert(false);
            }
            Vec::new()
        },
    }
}

/// The first `n` prime numbers where there are that many below `u32::MAX`,
/// `None` where there are fewer.
pub fn checked_primes(n: usize) -> (r: Option<Vec<u32>>)
    ensures
        r is Some <==> n <= primes_below(u32::MAX as nat).len(),
        r matches Some(primes) ==> primes@.len() == n && forall|k: int|
            0 <= k < n ==> primes@[k] == primes_below(u32::MAX as nat)[k],
{

    let mut primes: Vec<u32> = Vec::new();
    let mut candidate: u32 = 2;
    proof {
        reveal_with_fuel(primes_below, 3);
        assert(primes_below(2) =~= Seq::<int>::empty());
    }
    while primes.len() < n
        invariant
            2 <= candidate,
            primes@.len() == primes_below(candidate as nat).len(),
            primes@.len() <= n,
            forall|k: int| 0 <= k < primes@.len() ==> primes@[k] == primes_below(candidate as nat)[k],
        decreases u32::MAX - candidate,
    {
        if candidate == u32::MAX {
            return None;
        }
        if is_prime(candidate) {
            primes.push(candidate);
        }
        candidate = candidate + 1;
        proof {
            assert forall|k: int| 0 <= k < primes@.len() implies primes@[k] == primes_below(candidate as nat)[k] by {}
        }
    }
    proof {
        lemma_primes_below_prefix(candidate as nat, u32::MAX as nat);
    }
    Some(primes)
}

/// Listing the primes below a smaller bound gives a prefix of the list below a larger one.
pub proof fn lemma_primes_below_prefix(a: nat, b: nat)
    requires
        a <= b,
    ensures
        primes_below(a).len() <= primes_below(b).len(),
        forall|k: int| 0 <= k < primes_below(a).len() ==> primes_below(a)[k] == primes_below(b)[k],
    decreases b,
{
    if a < b {
        lemma_primes_below_prefix(a, (b - 1) as nat);
    }
}

/// The primes below a bound are listed in increasing order, each of them is
/// prime and below the bound, and every prime below the bound is listed: so
/// `primes` gives exactly the first primes, with none skipped.
pub proof fn lemma_primes_below_facts(bound: nat)
    ensures
        forall|i: int, j: int|
            0 <= i < j < primes_below(bound).len() ==> #[trigger] primes_below(bound)[i] < #[trigger] primes_below(
                bound,
            )[j],
        forall|k: int|
            0 <= k < primes_below(bound).len() ==> is_prime_number(#[trigger] primes_below(bound)[k])
                && primes_below(bound)[k] < bound,
        forall|p: int| 0 <= p < bound && is_prime_number(p) ==> #[trigger] primes_below(bound).contains(p),
    decreases bound,
{
    if bound > 0 {
        let b1 = (bound - 1) as nat;
        lemma_primes_below_facts(b1);
        let prev = primes_below(b1);
        let cur = primes_below(bound);
        if is_prime_number(bound - 1) {
            assert(cur == prev.push(bound - 1));
            assert forall|i: int, j: int| 0 <= i < j < cur.len() implies #[trigger] cur[i] < #[trigger] cur[j] by {
                assert(cur[i] == prev[i]);
                if j < prev.len() {
                    assert(cur[j] == prev[j]);
                }
            }
            assert forall|p: int| 0 <= p < bound && is_prime_number(p) implies #[trigger] cur.contains(p) by {
                if p < bound - 1 {
                    assert(prev.contains(p));
                    let k = choose|k: int| 0 <= k < prev.len() && prev[k] == p;
                    assert(cur[k] == p);
                } else {
                    assert(cur[prev.len() as int] == p);
                }
            }
        } else {
            assert forall|p: int| 0 <= p < bound && is_prime_number(p) implies #[trigger] cur.contains(p) by {
                assert(p != bound - 1);
                assert(prev.contains(p));
            }
        }
    }
}

// ---------------------------------------------------------------------------
// L-systems
// ---------------------------------------------------------------------------

/// Distinct characters of `s` in order of first appearance.
pub open spec fn first_appearances(s: Seq<char>) -> Seq<char>
    decreases s.len(),
{
    if s.len() == 0 {
        Seq::empty()
    } else {
        let earlier = first_appearances(s.drop_last());
        if earlier.contains(s.last()) {
            earlier
        } else {
            earlier.push(s.last())
        }
    }
}

proof fn lemma_char_bound(c: char)
    ensures
        0 <= c as int <= 0x10FFFF,
{
}

proof fn lemma_distinct_chars_bound(s: Seq<char>)
    requires
        s.no_duplicates(),
    ensures
        s.len() <= 0x110000,
{
    let t = s.map_values(|c: char| c as int);
    assert(t.no_duplicates()) by {
        assert forall|a: int, b: int| 0 <= a < t.len() && 0 <= b < t.len() && a != b implies t[a] != t[b] by {
            assert(s[a] != s[b]);
        }
    }
    t.unique_seq_to_set();
    vstd::set_lib::lemma_int_range(0, 0x110000);
    assert(t.to_set().subset_of(vstd::set_lib::set_int_range(0, 0x110000))) by {
        assert forall|v: int| t.to_set().contains(v) implies vstd::set_lib::set_int_range(0, 0x110000).contains(v) by {
            assert(t.contains(v));
            let k = choose|k: int| 0 <= k < t.len() && t[k] == v;
            assert(t[k] == s[k] as int);
            lemma_char_bound(s[k]);
        }
    }
    vstd::set_lib::lemma_len_subset(t.to_set(), vstd::set_lib::set_int_range(0, 0x110000));
}

proof fn lemma_first_appearances_facts(s: Seq<char>)
    ensures
        first_appearances(s).no_duplicates(),
        forall|i: int| 0 <= i < s.len() ==> first_appearances(s).contains(s[i]),
    decreases s.len(),
{
    if s.len() > 0 {
        lemma_first_appearances_facts(s.drop_last());
        let d = first_appearances(s.drop_last());
        assert forall|i: int| 0 <= i < s.len() implies first_appearances(s).contains(s[i]) by {
            if i < s.len() - 1 {
                assert(s.drop_last()[i] == s[i]);
                let k = choose|k: int| 0 <= k < d.len() && d[k] == s[i];
                assert(first_appearances(s)[k] == s[i]);
            } else if d.contains(s.last()) {
            } else {
                assert(first_appearances(s)[d.len() as int] == s[i]);
            }
        }
    }
}

/// A character is among the first appearances exactly where it occurs.
proof fn lemma_first_appearances_contains(s: Seq<char>, c: char)
    ensures
        first_appearances(s).contains(c) <==> s.contains(c),
    decreases s.len(),
{
    if s.len() > 0 {
        let d = s.drop_last();
        lemma_first_appearances_contains(d, c);
        lemma_first_appearances_facts(s);
        if s.contains(c) {
            let i = choose|i: int| 0 <= i < s.len() && s[i] == c;
            assert(first_appearances(s).contains(s[i]));
        }
        if first_appearances(s).contains(c) {
            if c != s.last() {
                let fa = first_appearances(s);
                let j = choose|j: int| 0 <= j < fa.len() && fa[j] == c;
                let e = first_appearances(d);
                if !e.contains(s.last()) {
                    assert(j < e.len());
                }
                assert(e[j] == c);
                assert(d.contains(c));
                let i = choose|i: int| 0 <= i < d.len() && d[i] == c;
                assert(s[i] == c);
            } else {
                assert(s[s.len() - 1] == c);
            }
        }
    }
}

/// The first appearances of a prefix begin the first appearances of the
/// whole string.
proof fn lemma_first_appearances_prefix(s: Seq<char>, k: int)
    requires
        0 <= k <= s.len(),
    ensures
        first_appearances(s.take(k)).len() <= first_appearances(s).len(),
        forall|j: int|
            0 <= j < first_appearances(s.take(k)).len() ==> #[trigger] first_appearances(s.take(k))[j]
                == first_appearances(s)[j],
    decreases s.len(),
{
    if k == s.len() {
        assert(s.take(k) =~= s);
    } else {
        let d = s.drop_last();
        lemma_first_appearances_prefix(d, k);
        assert(d.take(k) =~= s.take(k));
    }
}

/// A character met for the first time at position `i` is the next new one:
/// it comes right after the distinct characters met before `i`.
pub proof fn lemma_first_appearance_numbering(s: Seq<char>, i: int)
    requires
        0 <= i < s.len(),
        !s.take(i).contains(s[i]),
    ensures
        first_appearances(s.take(i)).len() < first_appearances(s).len(),
        first_appearances(s)[first_appearances(s.take(i)).len() as int] == s[i],
{
    let t = s.take(i + 1);
    assert(t.drop_last() =~= s.take(i));
    assert(t.last() == s[i]);
    lemma_first_appearances_contains(s.take(i), s[i]);
    assert(first_appearances(t) == first_appearances(s.take(i)).push(s[i]));
    lemma_first_appearances_prefix(s, i + 1);
    assert(first_appearances(t)[first_appearances(s.take(i)).len() as int] == s[i]);
}

/// Numbers each symbol of an L-system string by the order in which its
/// character first appears: the first character gets 0, the next new one 1, ...
/// Every number names the symbol's position in `first_appearances`, a list
/// without repeats, so the numbering is determined.
pub fn lsystem_to_sequence(pattern: &str) -> (ids: Vec<u32>)
    ensures
        ids@.len() == pattern@.len(),
        first_appearances(pattern@).no_duplicates(),
        forall|i: int|
            #![trigger ids@[i]]
            0 <= i < ids@.len() ==> ids@[i] < first_appearances(pattern@).len()
                && first_appearances(pattern@)[ids@[i] as int] == pattern@[i],
        forall|i: int|
            0 <= i < ids@.len() && !pattern@.take(i).contains(pattern@[i]) ==> #[trigger] ids@[i]
                == first_appearances(pattern@.take(i)).len(),
{
    broadcast use vstd::string::group_string_axioms;
    let mut seen: Vec<char> = Vec::new();
    let mut ids: Vec<u32> = Vec::new();
    let mut it = pattern.chars();
    let ghost total = pattern@;
    let ghost mut done: Seq<char> = Seq::empty();
    assert(it.remaining() == total);
    loop
        invariant
            done + it.remaining() == total,
            it.obeys_prophetic_iter_laws(),
            it.decrease() is Some,
            seen@ == first_appearances(done),
            ids@.len() == done.len(),
            forall|i: int| #![trigger ids@[i]] 0 <= i < done.len() ==> ids@[i] < seen@.len() && seen@[ids@[i] as int] == done[i],
        ensures
            done == total,
            seen@ == first_appearances(done),
            ids@.len() == done.len(),
            forall|i: int| #![trigger ids@[i]] 0 <= i < done.len() ==> ids@[i] < seen@.len() && seen@[ids@[i] as int] == done[i],
        decreases it.decrease()->0,
    {
        let ghost before = it.remaining();
        match it.next() {
            None => {
                assert(done =~= total);
                break;
            },
            Some(c) => {
                proof {
                    lemma_first_appearances_facts(done);
                }
                let ghost old_done = done;
                let ghost old_seen = seen@;
                proof {
                    done = done.push(c);
                    assert(old_done + before =~= done + it.remaining());
                    assert(done.drop_last() =~= old_done);
                }
                let mut k: usize = 0;
                while k < seen.len() && seen[k] != c
                    invariant
                        k <= seen@.len(),
                        forall|j: int| 0 <= j < k ==> seen@[j] != c,
                    decreases seen@.len() - k,
                {
                    k = k + 1;
                }
                if k == seen.len() {
                    assert(!seen@.contains(c));
                    seen.push(c);
                    assert(seen@ == first_appearances(done));
                } else {
                    assert(seen@.contains(c));
                    assert(seen@ == first_appearances(done));
                }
                proof {
                    lemma_first_appearances_facts(done);
                    lemma_distinct_chars_bound(seen@);
                }
                let ghost old_ids = ids@;
                ids.push(k as u32);
                proof {
                    assert(seen@[k as int] == c);
                    assert((k as u32) as int == k as int);
                    assert forall|i: int| #![trigger ids@[i]] 0 <= i < done.len() implies ids@[i] < seen@.len() && seen@[ids@[i] as int] == done[i] by {
                        if i < old_done.len() {
                            assert(done[i] == old_done[i]);
                            assert(ids@[i] == old_ids[i]);
                            assert(old_ids[i] < old_seen.len());
                            assert(seen@[old_ids[i] as int] == old_seen[old_ids[i] as int]);
                        } else {
                            assert(ids@[i] == k as u32);
                            assert(done[i] == c);
                        }
                    }
                }
            },
        }
    }
    proof {
        lemma_first_appearances_facts(done);
        assert forall|i: int|
            0 <= i < ids@.len() && !total.take(i).contains(total[i]) implies #[trigger] ids@[i]
                == first_appearances(total.take(i)).len() by {
            lemma_first_appearance_numbering(total, i);
            let m = first_appearances(total.take(i)).len() as int;
            let fa = first_appearances(total);
            assert(fa[ids@[i] as int] == fa[m]);
        }
    }
    ids
}

/// What one symbol becomes in a rewriting step: its rule's replacement, or
/// itself when it has no rule.
pub open spec fn rewrite_symbol(rules: Map<char, String>, c: char) -> Seq<char> {
    if rules.contains_key(c) {
        rules[c]@
    } else {
        seq![c]
    }
}

/// One parallel rewriting step applied to every symbol of `s`.
pub open spec fn rewrite_once(rules: Map<char, String>, s: Seq<char>) -> Seq<char>
    decreases s.len(),
{
    if s.len() == 0 {
        Seq::empty()
    } else {
        rewrite_once(rules, s.drop_last()) + rewrite_symbol(rules, s.last())
    }
}

/// `iterations` rewriting steps starting from `start_word`.
pub open spec fn lsystem_expand(rules: Map<char, String>, start_word: Seq<char>, iterations: nat) -> Seq<char>
    decreases iterations,
{
    if iterations == 0 {
        start_word
    } else {
        rewrite_once(rules, lsystem_expand(rules, start_word, (iterations - 1) as nat))
    }
}

/// The rule for `symbol`, through the standard library's `HashMap::get`: the
/// value stored under the key when there is one, else `None`. (vstd's own
/// contract for `get` holds only for key types it models, and `char` is not
/// among them.)
#[verifier::external_body]
fn rule_for<'a>(rules: &'a HashMap<char, String>, symbol: char) -> (r: Option<&'a String>)
    ensures
        match r {
            Some(v) => rules@.contains_key(symbol) && *v == rules@[symbol],
            None => !rules@.contains_key(symbol),
        },
{
    rules.get(&symbol)
}

/// Rewrites `start_word` `iterations` times, replacing every symbol in parallel
/// by its rule (symbols without a rule stay as they are).
pub fn lsystem(start_word: &str, rules: &HashMap<char, String>, iterations: usize) -> (result: String)
    ensures
        result@ == lsystem_expand(rules@, start_word@, iterations as nat),
{
    broadcast use vstd::string::group_string_axioms;
    let mut current = String::from_str(start_word);
    let mut round: usize = 0;
    while round < iterations
        invariant
            round <= iterations,
            current@ == lsystem_expand(rules@, start_word@, round as nat),
        decreases iterations - round,
    {
        let mut next = String::new();
        let mut it = current.as_str().chars();
        let ghost total = current@;
        let ghost mut done: Seq<char> = Seq::empty();
        assert(it.remaining() == total);
        assert(next@ =~= rewrite_once(rules@, done));
        loop
            invariant
                done + it.remaining() == total,
                it.obeys_prophetic_iter_laws(),
                it.decrease() is Some,
                next@ == rewrite_once(rules@, done),
            ensures
                done == total,
                next@ == rewrite_once(rules@, done),
            decreases it.decrease()->0,
        {
            let ghost before = it.remaining();
            match it.next() {
                None => {
                    assert(done =~= total);
                    break;
                },
                Some(ch) => {
                    let ghost old_done = done;
                    proof {
                        done = done.push(ch);
                        assert(old_done + before =~= done + it.remaining());
                        assert(done.drop_last() =~= old_done);
                    }
                    match rule_for(rules, ch) {
                        Some(replacement) => {
                            next.append(replacement.as_str());
                        },
                        None => {
                            push_char(&mut next, ch);
                        },
                    }
                    assert(next@ =~= rewrite_once(rules@, done));
                },
            }
        }
        current = next;
        round = round + 1;
    }
    current
}

/// One rewriting step of two words one after the other is the two steps one
/// after the other.
proof fn lemma_rewrite_once_concat(rules: Map<char, String>, a: Seq<char>, b: Seq<char>)
    ensures
        rewrite_once(rules, a + b) == rewrite_once(rules, a) + rewrite_once(rules, b),
    decreases b.len(),
{
    if b.len() == 0 {
        assert(a + b =~= a);
        assert(rewrite_once(rules, a) + rewrite_once(rules, b) =~= rewrite_once(rules, a));
    } else {
        lemma_rewrite_once_concat(rules, a, b.drop_last());
        assert((a + b).drop_last() =~= a + b.drop_last());
        assert((a + b).last() == b.last());
        assert(rewrite_once(rules, a + b) =~= rewrite_once(rules, a) + rewrite_once(rules, b));
    }
}

/// Expanding two start words one after the other gives their expansions one
/// after the other: every symbol is rewritten on its own.
pub proof fn lemma_lsystem_concat(rules: Map<char, String>, a: Seq<char>, b: Seq<char>, iterations: nat)
    ensures
        lsystem_expand(rules, a + b, iterations) == lsystem_expand(rules, a, iterations) + lsystem_expand(
            rules,
            b,
            iterations,
        ),
    decreases iterations,
{
    if iterations > 0 {
        let k = (iterations - 1) as nat;
        lemma_lsystem_concat(rules, a, b, k);
        lemma_rewrite_once_concat(rules, lsystem_expand(rules, a, k), lsystem_expand(rules, b, k));
    }
}

/// A word none of whose symbols has a rule is left as it is by a step.
proof fn lemma_rewrite_once_no_rules(rules: Map<char, String>, word: Seq<char>)
    requires
        forall|i: int| 0 <= i < word.len() ==> !rules.contains_key(#[trigger] word[i]),
    ensures
        rewrite_once(rules, word) == word,
    decreases word.len(),
{
    if word.len() > 0 {
        let d = word.drop_last();
        assert forall|i: int| 0 <= i < d.len() implies !rules.contains_key(#[trigger] d[i]) by {
            assert(d[i] == word[i]);
        }
        lemma_rewrite_once_no_rules(rules, d);
        assert(!rules.contains_key(word[word.len() - 1]));
        assert(d + seq![word.last()] =~= word);
    }
}

/// A rewriting step keeps a symbol without a rule as it is and replaces a
/// symbol with a rule by the rule's string; so a start word none of whose
/// symbols has a rule never changes, however many steps are taken.
pub proof fn lemma_lsystem_symbols(rules: Map<char, String>, c: char, word: Seq<char>, iterations: nat)
    ensures
        !rules.contains_key(c) ==> lsystem_expand(rules, seq![c], 1) == seq![c],
        rules.contains_key(c) ==> lsystem_expand(rules, seq![c], 1) == rules[c]@,
        (forall|i: int| 0 <= i < word.len() ==> !rules.contains_key(#[trigger] word[i])) ==> lsystem_expand(
            rules,
            word,
            iterations,
        ) == word,
    decreases iterations,
{
    let one = seq![c];
    assert(one.drop_last() =~= Seq::<char>::empty());
    assert(one.last() == c);
    assert(lsystem_expand(rules, one, 0) == one);
    assert(rewrite_once(rules, Seq::<char>::empty()) == Seq::<char>::empty());
    assert(rewrite_once(rules, one) == rewrite_once(rules, Seq::<char>::empty()) + rewrite_symbol(rules, c));
    assert(Seq::<char>::empty() + rewrite_symbol(rules, c) =~= rewrite_symbol(rules, c));
    if forall|i: int| 0 <= i < word.len() ==> !rules.contains_key(#[trigger] word[i]) {
        if iterations > 0 {
            lemma_lsystem_symbols(rules, c, word, (iterations - 1) as nat);
            lemma_rewrite_once_no_rules(rules, word);
        }
    }
}

/// Expanding `m` times and then `n` more times is expanding `m + n` times.
pub proof fn lemma_lsystem_iterations_compose(rules: Map<char, String>, start_word: Seq<char>, m: nat, n: nat)
    ensures
        lsystem_expand(rules, lsystem_expand(rules, start_word, m), n) == lsystem_expand(rules, start_word, m + n),
    decreases n,
{
    if n > 0 {
        lemma_lsystem_iterations_compose(rules, start_word, m, (n - 1) as nat);
        assert((m + n - 1) as nat == m + (n - 1) as nat);
    }
}

// ---------------------------------------------------------------------------
// Scales and pitch mappings
// ---------------------------------------------------------------------------

/// Note that `value` maps to: its index is taken modulo the notes of
/// `octave_range` octaves of the scale, then split into an octave and a
/// scale degree above `root`.
pub open spec fn scale_note(value: int, scale: Seq<u32>, root: int, octave_range: int) -> int {
    let total = scale.len() * octave_range;
    let idx = value % total;
    root + (idx / scale.len() as int) * 12 + scale[idx % scale.len() as int]
}

/// Whether every value maps to a note that fits in 32 bits.
pub open spec fn scale_notes_fit(values: Seq<u32>, scale: Seq<u32>, root: int, octave_range: int) -> bool {
    forall|i: int| 0 <= i < values.len() ==> #[trigger] scale_note(values[i] as int, scale, root, octave_range) <= u32::MAX
}

/// The mapping repeats with the period of all the notes of the octaves:
/// `value` and `value + scale.len() * octave_range` give the same note. Below
/// one period the values walk up the scale: a value below the scale's length
/// gives the root plus that degree, and one scale length further gives the
/// same degree an octave (12 semitones) higher; so the period itself maps
/// back to the root plus the first degree.
pub proof fn lemma_scale_note_periodic(value: int, scale: Seq<u32>, root: int, octave_range: int)
    requires
        value >= 0,
        scale.len() > 0,
        octave_range > 0,
    ensures
        scale_note(value + scale.len() * octave_range, scale, root, octave_range) == scale_note(
            value,
            scale,
            root,
            octave_range,
        ),
        scale_note(scale.len() * octave_range, scale, root, octave_range) == root + scale[0],
        value < scale.len() ==> scale_note(value, scale, root, octave_range) == root + scale[value],
        value + scale.len() < scale.len() * octave_range ==> scale_note(value + scale.len(), scale, root, octave_range)
            == scale_note(value, scale, root, octave_range) + 12,
{
    let n = scale.len() as int;
    let t = n * octave_range;
    assert(t >= n) by (nonlinear_arith)
        requires
            t == n * octave_range,
            n > 0,
            octave_range > 0,
    ;
    let q = value / t;
    let r = value % t;
    lemma_fundamental_div_mod(value, t);
    lemma_mod_bound(value, t);
    assert(value + t == (q + 1) * t + r) by (nonlinear_arith)
        requires
            value == t * q + r,
    ;
    lemma_fundamental_div_mod_converse(value + t, t, q + 1, r);
    lemma_fundamental_div_mod_converse(t, t, 1, 0);
    lemma_fundamental_div_mod_converse(0, n, 0, 0);
    if value < n {
        lemma_fundamental_div_mod_converse(value, t, 0, value);
        lemma_fundamental_div_mod_converse(value, n, 0, value);
    }
    if value + n < t {
        lemma_fundamental_div_mod_converse(value, t, 0, value);
        lemma_fundamental_div_mod_converse(value + n, t, 0, value + n);
        let q2 = value / n;
        let r2 = value % n;
        lemma_fundamental_div_mod(value, n);
        lemma_mod_bound(value, n);
        assert(value + n == (q2 + 1) * n + r2) by (nonlinear_arith)
            requires
                value == n * q2 + r2,
        ;
        lemma_fundamental_div_mod_converse(value + n, n, q2 + 1, r2);
        assert((q2 + 1) * 12 == q2 * 12 + 12) by (nonlinear_arith);
    }
}

/// Quantizes `values` to MIDI notes of `scale` (semitone offsets) above
/// `root`, spread over `octave_range` octaves; empty when either input is empty.
pub fn map_to_scale(values: &[u32], scale: &[u32], root: u32, octave_range: u32) -> (notes: Vec<u32>)
    requires
        scale_mapping_fits(values@, scale@, root as int, octave_range as int),
    ensures
        values@.len() == 0 || scale@.len() == 0 ==> notes@.len() == 0,
        !(values@.len() == 0 || scale@.len() == 0) ==> notes@.len() == values@.len(),
        !(values@.len() == 0 || scale@.len() == 0) ==> forall|i: int|
            0 <= i < values@.len() ==> notes@[i] == scale_note(values@[i] as int, scale@, root as int, octave_range as int),
{
    match checked_map_to_scale(values, scale, root, octave_range) {
        Some(notes) => notes,
        None => {
            proof {
                assert(false);
            }
            Vec::new()
        },
    }
}

/// Whether `map_to_scale` can map the values: either input is empty, or
/// there is at least one octave, the notes of all octaves can be counted,
/// and every value maps to a note that fits in 32 bits.
pub open spec fn scale_mapping_fits(values: Seq<u32>, scale: Seq<u32>, root: int, octave_range: int) -> bool {
    values.len() == 0 || scale.len() == 0 || (octave_range > 0 && scale.len() * octave_range <= usize::MAX
        && scale_notes_fit(values, scale, root, octave_range))
}

/// The notes of `map_to_scale` where it can map the values, `None` where
/// there is no octave, the notes of all octaves cannot be counted, or a note
/// does not fit in 32 bits.
pub fn checked_map_to_scale(values: &[u32], scale: &[u32], root: u32, octave_range: u32) -> (r: Option<Vec<u32>>)
    ensures
        r is Some <==> scale_mapping_fits(values@, scale@, root as int, octave_range as int),
        r matches Some(notes) ==> {
            &&& values@.len() == 0 || scale@.len() == 0 ==> notes@.len() == 0
            &&& !(values@.len() == 0 || scale@.len() == 0) ==> notes@.len() == values@.len()
            &&& !(values@.len() == 0 || scale@.len() == 0) ==> forall|i: int|
                0 <= i < values@.len() ==> notes@[i] == scale_note(
                    values@[i] as int,
                    scale@,
                    root as int,
                    octave_range as int,
                )
        },
{
    if values.len() == 0 || scale.len() == 0 {
        return Some(Vec::new());
    }
    if octave_range == 0 {
        return None;
    }
    let scale_len = scale.len();
    let total_notes = match scale_len.checked_mul(octave_range as usize) {
        Some(t) => t,
        None => {
            return None;
        },
    };
    assert(total_notes > 0) by (nonlinear_arith)
        requires
            total_notes == scale_len * octave_range,
            scale_len > 0,
            octave_range > 0,
    ;
    let mut notes: Vec<u32> = Vec::new();
    let mut i: usize = 0;
    while i < values.len()
        invariant
            i <= values@.len(),
            scale_len == scale@.len() > 0,
            octave_range > 0,
            total_notes == scale_len * octave_range,
            total_notes > 0,
            notes@.len() == i,
            forall|k: int| 0 <= k < i ==> notes@[k] == scale_note(values@[k] as int, scale@, root as int, octave_range as int),
        decreases values@.len() - i,
    {
        let val = values[i];
        let idx = (val as usize) % total_notes;
        let octave = idx / scale_len;
        let scale_degree = idx % scale_len;
        proof {
            assert(octave < octave_range) by (nonlinear_arith)
                requires
                    idx < total_notes,
                    total_notes == scale_len * octave_range,
                    octave == idx / scale_len,
                    scale_len > 0,
            ;
        }
        let octave32 = octave as u32;
        let ghost exact = scale_note(values@[i as int] as int, scale@, root as int, octave_range as int);
        assert(exact == root + octave32 * 12 + scale@[scale_degree as int]);
        let note = match octave32.checked_mul(12) {
            Some(shift) => match root.checked_add(shift) {
                Some(base) => base.checked_add(scale[scale_degree]),
                None => None,
            },
            None => None,
        };
        match note {
            Some(note) => {
                notes.push(note);
            },
            None => {
                proof {
                    assert(exact > u32::MAX);
                    if scale_notes_fit(values@, scale@, root as int, octave_range as int) {
                        assert(scale_note(values@[i as int] as int, scale@, root as int, octave_range as int) <= u32::MAX);
                    }
                }
                return None;
            },
        }
        i = i + 1;
    }
    proof {
        assert forall|k: int| 0 <= k < values@.len() implies #[trigger] scale_note(
            values@[k] as int,
            scale@,
            root as int,
            octave_range as int,
        ) <= u32::MAX by {
            assert(notes@[k] <= u32::MAX);
        }
    }
    Some(notes)
}

/// Semitone offsets of the scales offered by [`Scale`].
pub struct Scale;

impl Scale {
    /// Major pentatonic scale: C D E G A.
    pub fn major_pentatonic() -> (s: Vec<u32>)
        ensures
            s@ == seq![0u32, 2, 4, 7, 9],
    {
        vec![0, 2, 4, 7, 9]
    }

    /// Minor pentatonic scale: C Eb F G Bb.
    pub fn minor_pentatonic() -> (s: Vec<u32>)
        ensures
            s@ == seq![0u32, 3, 5, 7, 10],
    {
        vec![0, 3, 5, 7, 10]
    }

    /// Major (Ionian) scale: C D E F G A B.
    pub fn major() -> (s: Vec<u32>)
        ensures
            s@ == seq![0u32, 2, 4, 5, 7, 9, 11],
    {
        vec![0, 2, 4, 5, 7, 9, 11]
    }

    /// Natural minor (Aeolian) scale: C D Eb F G Ab Bb.
    pub fn minor() -> (s: Vec<u32>)
        ensures
            s@ == seq![0u32, 2, 3, 5, 7, 8, 10],
    {
        vec![0, 2, 3, 5, 7, 8, 10]
    }

    /// Harmonic minor scale: C D Eb F G Ab B.
    pub fn harmonic_minor() -> (s: Vec<u32>)
        ensures
            s@ == seq![0u32, 2, 3, 5, 7, 8, 11],
    {
        vec![0, 2, 3, 5, 7, 8, 11]
    }

    /// Blues scale: C Eb F F# G Bb.
    pub fn blues() -> (s: Vec<u32>)
        ensures
            s@ == seq![0u32, 3, 5, 6, 7, 10],
    {
        vec![0, 3, 5, 6, 7, 10]
    }

    /// Chromatic scale: all twelve semitones.
    pub fn chromatic() -> (s: Vec<u32>)
        ensures
            s@ == seq![0u32, 1, 2, 3, 4, 5, 6, 7, 8, 9, 10, 11],
    {
        vec![0, 1, 2, 3, 4, 5, 6, 7, 8, 9, 10, 11]
    }

    /// Whole tone scale: C D E F# G# A#.
    pub fn whole_tone() -> (s: Vec<u32>)
        ensures
            s@ == seq![0u32, 2, 4, 6, 8, 10],
    {
        vec![0, 2, 4, 6, 8, 10]
    }

    /// Dorian mode: C D Eb F G A Bb.
    pub fn dorian() -> (s: Vec<u32>)
        ensures
            s@ == seq![0u32, 2, 3, 5, 7, 9, 10],
    {
        vec![0, 2, 3, 5, 7, 9, 10]
    }

    /// Phrygian mode: C Db Eb F G Ab Bb.
    pub fn phrygian() -> (s: Vec<u32>)
        ensures
            s@ == seq![0u32, 1, 3, 5, 7, 8, 10],
    {
        vec![0, 1, 3, 5, 7, 8, 10]
    }

    /// Lydian mode: C D E F# G A B.
    pub fn lydian() -> (s: Vec<u32>)
        ensures
            s@ == seq![0u32, 2, 4, 6, 7, 9, 11],
    {
        vec![0, 2, 4, 6, 7, 9, 11]
    }

    /// Mixolydian mode: C D E F G A Bb.
    pub fn mixolydian() -> (s: Vec<u32>)
        ensures
            s@ == seq![0u32, 2, 4, 5, 7, 9, 10],
    {
        vec![0, 2, 4, 5, 7, 9, 10]
    }
}

/// Pitch class of step `i` of a Shepard sequence: counting up through
/// `steps_per_octave` classes, or down from 0 through the top class.
pub open spec fn shepard_step(i: int, steps_per_octave: int, ascending: bool) -> int {
    let offset = ((i as u32) as int) % steps_per_octave;
    if ascending || offset == 0 {
        offset
    } else {
        steps_per_octave - offset
    }
}

/// A Shepard sequence moves one pitch class at a time around the octave: up
/// by one (wrapping from the top class to 0) when ascending, down by one
/// (wrapping from 0 to the top class) when descending.
pub proof fn lemma_shepard_moves_by_one(i: int, steps_per_octave: int, ascending: bool)
    requires
        0 <= i,
        i + 1 <= u32::MAX,
        steps_per_octave > 0,
    ensures
        ascending ==> shepard_step(i + 1, steps_per_octave, true) == (shepard_step(i, steps_per_octave, true) + 1)
            % steps_per_octave,
        !ascending ==> (shepard_step(i + 1, steps_per_octave, false) + 1) % steps_per_octave == shepard_step(
            i,
            steps_per_octave,
            false,
        ) % steps_per_octave,
{
    assert((i as u32) as int == i);
    assert(((i + 1) as u32) as int == i + 1);
    let sp = steps_per_octave;
    let o = i % sp;
    let q = i / sp;
    vstd::arithmetic::div_mod::lemma_fundamental_div_mod(i, sp);
    assert(0 <= o < sp);
    vstd::arithmetic::div_mod::lemma_mod_self_0(sp);
    vstd::arithmetic::div_mod::lemma_small_mod(0, sp as nat);
    assert(shepard_step(i, sp, false) == if o == 0 { 0 } else { sp - o });
    if o + 1 < sp {
        vstd::arithmetic::div_mod::lemma_fundamental_div_mod_converse(i + 1, sp, q, o + 1);
        assert((i + 1) % sp == o + 1);
        vstd::arithmetic::div_mod::lemma_small_mod((o + 1) as nat, sp as nat);
        vstd::arithmetic::div_mod::lemma_small_mod((sp - o - 1) as nat, sp as nat);
        if o > 0 {
            vstd::arithmetic::div_mod::lemma_small_mod((sp - o) as nat, sp as nat);
        }
        assert(shepard_step(i + 1, sp, false) == sp - o - 1);
    } else {
        assert(i + 1 == (q + 1) * sp) by (nonlinear_arith)
            requires
                i == q * sp + o,
                o + 1 == sp,
        ;
        vstd::arithmetic::div_mod::lemma_fundamental_div_mod_converse(i + 1, sp, q + 1, 0);
        assert((i + 1) % sp == 0);
        assert(shepard_step(i + 1, sp, false) == 0);
        if sp > 1 {
            vstd::arithmetic::div_mod::lemma_small_mod(1, sp as nat);
        } else {
            assert(1int % sp == 0);
        }
    }
}

/// Pitch classes (0 to `steps_per_octave - 1`) of a Shepard-tone sequence of
/// `length` steps, ascending when `direction` holds; empty when either count is 0.
pub fn shepard_tone(length: usize, steps_per_octave: u32, direction: bool) -> (tone: Vec<u32>)
    ensures
        length == 0 || steps_per_octave == 0 ==> tone@.len() == 0,
        !(length == 0 || steps_per_octave == 0) ==> tone@.len() == length,
        !(length == 0 || steps_per_octave == 0) ==> forall|i: int|
            0 <= i < length ==> tone@[i] == shepard_step(i, steps_per_octave as int, direction),
        forall|i: int| 0 <= i < tone@.len() ==> tone@[i] < steps_per_octave,
{
    if length == 0 || steps_per_octave == 0 {
        return Vec::new();
    }
    let mut tone: Vec<u32> = Vec::new();
    let mut i: usize = 0;
    while i < length
        invariant
            i <= length,
            steps_per_octave > 0,
            tone@.len() == i,
            forall|k: int| 0 <= k < i ==> tone@[k] == shepard_step(k, steps_per_octave as int, direction),
            forall|k: int| 0 <= k < i ==> tone@[k] < steps_per_octave,
        decreases length - i,
    {
        let offset = (i as u32) % steps_per_octave;
        if direction || offset == 0 {
            tone.push(offset);
        } else {
            tone.push(steps_per_octave - offset);
        }
        i = i + 1;
    }
    tone
}

/// Positions `i` (below `counts.len() - 1`) where the running count of
/// beats changes between `i` and `i + 1`.
pub open spec fn onset_positions(counts: Seq<usize>) -> Seq<usize>
    decreases counts.len(),
{
    if counts.len() < 2 {
        Seq::empty()
    } else {
        let i = counts.len() - 2;
        let earlier = onset_positions(counts.drop_last());
        if counts[i + 1] != counts[i] {
            earlier.push(i as usize)
        } else {
            earlier
        }
    }
}

/// Hit positions of a rhythm given, for each step boundary `i`, how many
/// beats have been placed before step `i`: step `i` is a hit exactly when
/// the count changes from `counts[i]` to `counts[i + 1]`. The golden-ratio
/// rhythm feeds it the lower Wythoff counts `floor(i / phi)`.
pub fn beat_onsets(counts: &[usize]) -> (hits: Vec<usize>)
    ensures
        hits@ == onset_positions(counts@),
{
    let mut hits: Vec<usize> = Vec::new();
    let mut i: usize = 0;
    if counts.len() < 2 {
        return hits;
    }
    while i < counts.len() - 1
        invariant
            counts@.len() >= 2,
            i + 1 <= counts@.len(),
            hits@ == onset_positions(counts@.take(i + 1)),
        decreases counts@.len() - i,
    {
        proof {
            let t = counts@.take(i + 2);
            assert(t.drop_last() =~= counts@.take(i + 1));
            assert(t[i as int + 1] == counts@[i as int + 1]);
            assert(t[i as int] == counts@[i as int]);
        }
        if counts[i + 1] != counts[i] {
            hits.push(i);
        }
        i = i + 1;
    }
    assert(counts@.take(i + 1) =~= counts@);
    hits
}


/// `k` beats of golden-ratio length fit within `n` steps: `k * phi <= n`,
/// written without the irrational `phi = (1 + sqrt 5) / 2` as
/// `k * sqrt 5 <= 2n - k`.
pub open spec fn golden_fits(k: int, n: int) -> bool {
    2 * n - k >= 0 && 5 * k * k <= (2 * n - k) * (2 * n - k)
}

/// `floor(n / phi)`: the number of whole golden-ratio lengths in `n` steps,
/// the lower Wythoff count.
pub open spec fn golden_floor(n: int) -> int {
    choose|k: int| k >= 0 && #[trigger] golden_fits(k, n) && !golden_fits(k + 1, n)
}

/// Fewer golden lengths fit wherever more do.
proof fn lemma_golden_fits_fewer(j: int, m: int, n: int)
    requires
        0 <= m <= j,
        golden_fits(j, n),
    ensures
        golden_fits(m, n),
{
    assert(5 * m * m <= 5 * j * j) by (nonlinear_arith)
        requires
            0 <= m <= j,
    ;
    assert((2 * n - j) * (2 * n - j) <= (2 * n - m) * (2 * n - m)) by (nonlinear_arith)
        requires
            0 <= 2 * n - j <= 2 * n - m,
    ;
}

/// The golden count is the one `k` that fits while `k + 1` does not.
proof fn lemma_golden_floor_is(k: int, n: int)
    requires
        k >= 0,
        golden_fits(k, n),
        !golden_fits(k + 1, n),
    ensures
        golden_floor(n) == k,
{
    let g = golden_floor(n);
    assert(g >= 0 && golden_fits(g, n) && !golden_fits(g + 1, n));
    if g < k {
        lemma_golden_fits_fewer(k, g + 1, n);
    } else if k < g {
        lemma_golden_fits_fewer(g, k + 1, n);
    }
}

/// One more step adds at most one golden length: the count at `n + 1` is the
/// count at `n` or one more.
proof fn lemma_golden_step(k: int, n: int)
    requires
        k >= 0,
        n >= 0,
        golden_fits(k, n),
        !golden_fits(k + 1, n),
    ensures
        golden_fits(k, n + 1),
        !golden_fits(k + 2, n + 1),
{
    assert((2 * n - k) * (2 * n - k) <= (2 * n + 2 - k) * (2 * n + 2 - k)) by (nonlinear_arith)
        requires
            0 <= 2 * n - k,
    ;
    let a = 2 * n - k - 1;
    assert(2 * (n + 1) - (k + 2) == a + 1);
    assert((2 * (n + 1) - (k + 2)) * (2 * (n + 1) - (k + 2)) == (a + 1) * (a + 1));
    assert(2 * n - (k + 1) == a);
    assert((2 * n - (k + 1)) * (2 * n - (k + 1)) == a * a);
    if a >= 0 {
        assert(a < 5 * (k + 1)) by (nonlinear_arith)
            requires
                5 * (k + 1) * (k + 1) > a * a,
                a >= 0,
                k >= 0,
        ;
        assert(5 * (k + 2) * (k + 2) > (a + 1) * (a + 1)) by (nonlinear_arith)
            requires
                5 * (k + 1) * (k + 1) > a * a,
                0 <= a < 5 * (k + 1),
                k >= 0,
        ;
        assert(!golden_fits(k + 2, n + 1));
    } else {
        assert(a + 1 == 0);
        assert((a + 1) * (a + 1) == 0) by (nonlinear_arith)
            requires
                a + 1 == 0,
        ;
        assert(5 * (k + 2) * (k + 2) > 0) by (nonlinear_arith)
            requires
                k >= 0,
        ;
        assert(!golden_fits(k + 2, n + 1));
    }
}

/// The golden counts `floor(i / phi)` for `i` from 0 to `steps`.
pub open spec fn golden_counts(steps: int) -> Seq<usize> {
    Seq::new((steps + 1) as nat, |i: int| golden_floor(i) as usize)
}

/// Golden-ratio rhythm: over `steps` steps, the positions where the lower
/// Wythoff count `floor(i / phi)` goes up, so that hits are spread as evenly
/// as the golden ratio allows, about `steps / phi` of them.
pub fn golden_ratio_rhythm(steps: usize) -> (hits: Vec<usize>)
    requires
        steps < 0x4000_0000_0000_0000,
    ensures
        hits@ == onset_positions(golden_counts(steps as int)),
        hits@.len() == golden_floor(steps as int),
        forall|j: int| 0 <= j < hits@.len() ==> hits@[j] < steps,
        forall|a: int, b: int| 0 <= a < b < hits@.len() ==> hits@[a] < hits@[b],
{
    let mut counts: Vec<usize> = Vec::new();
    let mut k: u128 = 0;
    let mut n: u128 = 0;
    counts.push(0);
    proof {
        assert(golden_fits(0, 0));
        assert(!golden_fits(1, 0));
        lemma_golden_floor_is(0, 0);
    }
    while n < steps as u128
        invariant
            steps < 0x4000_0000_0000_0000,
            n <= steps,
            k <= n,
            golden_fits(k as int, n as int),
            !golden_fits(k + 1, n as int),
            counts@.len() == n + 1,
            forall|i: int| 0 <= i <= n ==> counts@[i] == golden_floor(i) as usize,
            forall|i: int| 0 <= i <= n ==> 0 <= #[trigger] golden_floor(i) <= i,
            forall|i: int| 1 <= i <= n ==> #[trigger] rises_by_at_most_one(counts@, i),
        decreases steps - n,
    {
        proof {
            lemma_golden_step(k as int, n as int);
            lemma_golden_floor_is(k as int, n as int);
        }
        let ghost old_counts = counts@;
        let ghost old_k = k;
        let m = n + 1;
        let j = k + 1;
        let lhs = 2 * m - j;
        proof {
            assert(5 * j * j <= 5 * 0x4000_0000_0000_0000u128 * 0x4000_0000_0000_0000u128) by (nonlinear_arith)
                requires
                    j <= 0x4000_0000_0000_0000u128,
            ;
            assert(lhs * lhs <= 0x8000_0000_0000_0000u128 * 0x8000_0000_0000_0000u128) by (nonlinear_arith)
                requires
                    lhs <= 0x8000_0000_0000_0000u128,
            ;
        }
        let fits = 5 * j * j <= lhs * lhs;
        if fits {
            k = j;
            proof {
                assert(golden_fits(k as int, m as int));
                assert(!golden_fits(k + 1, m as int));
            }
        }
        proof {
            lemma_golden_floor_is(k as int, m as int);
        }
        counts.push(k as usize);
        proof {
            assert(counts@[n as int] == old_k);
            assert(k == old_k || k == old_k + 1);
            assert forall|i: int| 1 <= i <= m implies #[trigger] rises_by_at_most_one(counts@, i) by {
                if i < m {
                    assert(rises_by_at_most_one(old_counts, i));
                    assert(counts@[i] == old_counts[i] && counts@[i - 1] == old_counts[i - 1]);
                }
            }
        }
        n = m;
    }
    let hits = beat_onsets(counts.as_slice());
    proof {
        assert(counts@ =~= golden_counts(steps as int));
        lemma_onset_positions_facts(counts@);
    }
    hits
}

/// The count at boundary `i` is the one before it or one more.
pub open spec fn rises_by_at_most_one(counts: Seq<usize>, i: int) -> bool {
    counts[i] == counts[i - 1] || counts[i] == counts[i - 1] + 1
}

/// Where the count rises by at most one per step from zero: there is one
/// onset for each unit the count rises, every onset lies before the last
/// boundary, and onsets come in increasing order.
pub proof fn lemma_onset_positions_facts(counts: Seq<usize>)
    requires
        1 <= counts.len() <= usize::MAX,
        counts[0] == 0,
        forall|i: int| 1 <= i < counts.len() ==> #[trigger] rises_by_at_most_one(counts, i),
    ensures
        onset_positions(counts).len() == counts.last(),
        forall|j: int| 0 <= j < onset_positions(counts).len() ==> onset_positions(counts)[j] < counts.len() - 1,
        forall|a: int, b: int| 0 <= a < b < onset_positions(counts).len() ==> onset_positions(counts)[a]
            < onset_positions(counts)[b],
    decreases counts.len(),
{
    if counts.len() >= 2 {
        let prev = counts.drop_last();
        assert forall|i: int| 1 <= i < prev.len() implies #[trigger] rises_by_at_most_one(prev, i) by {
            assert(rises_by_at_most_one(counts, i));
        }
        lemma_onset_positions_facts(prev);
        assert(rises_by_at_most_one(counts, counts.len() - 1));
        let o = onset_positions(counts);
        let po = onset_positions(prev);
        let last = counts.len() - 2;
        assert(last as usize == last);
        if counts[last + 1] != counts[last] {
            assert(o == po.push(last as usize));
        } else {
            assert(o == po);
        }
        assert forall|a: int, b: int| 0 <= a < b < o.len() implies o[a] < o[b] by {
            if b >= po.len() {
                assert(o[a] == po[a]);
            } else {
                assert(o[a] == po[a] && o[b] == po[b]);
            }
        }
    }
}

/// Where `next` stands among the successors recorded so far, if it does.
pub open spec fn successor_index(list: Seq<(u32, u32)>, next: u32) -> int
    decreases list.len(),
{
    if list.len() == 0 {
        -1
    } else if list.last().0 == next {
        list.len() - 1
    } else {
        successor_index(list.drop_last(), next)
    }
}

/// The successors with one more transition to `next`: its count goes up by
/// one, or it is added with count 1 after the others.
pub open spec fn count_successor(list: Seq<(u32, u32)>, next: u32) -> Seq<(u32, u32)> {
    let j = successor_index(list, next);
    if j >= 0 {
        list.update(j, (next, (list[j].1 + 1) as u32))
    } else {
        list.push((next, 1u32))
    }
}

/// The successors of `state` among the first `n` transitions of `data` (the
/// transition `i` goes from `data[i]` to `data[i + 1]`), each with how often
/// it follows, in the order they first follow.
pub open spec fn successor_counts(data: Seq<u32>, state: u32, n: int) -> Seq<(u32, u32)>
    decreases n,
{
    if n <= 0 {
        Seq::empty()
    } else {
        let prev = successor_counts(data, state, n - 1);
        if data[n - 1] == state {
            count_successor(prev, data[n])
        } else {
            prev
        }
    }
}

/// How many of the first `n` transitions of `data` go from `state` to `next`.
pub open spec fn transition_count(data: Seq<u32>, state: u32, next: u32, n: int) -> nat
    decreases n,
{
    if n <= 0 {
        0
    } else {
        transition_count(data, state, next, n - 1) + if data[n - 1] == state && data[n] == next {
            1nat
        } else {
            0nat
        }
    }
}

/// How many of the first `n` transitions of `data` start from `state`.
pub open spec fn departures(data: Seq<u32>, state: u32, n: int) -> nat
    decreases n,
{
    if n <= 0 {
        0
    } else {
        departures(data, state, n - 1) + if data[n - 1] == state {
            1nat
        } else {
            0nat
        }
    }
}

/// The sum of the counts of a successor list.
pub open spec fn count_total(list: Seq<(u32, u32)>) -> nat
    decreases list.len(),
{
    if list.len() == 0 {
        0
    } else {
        count_total(list.drop_last()) + list.last().1 as nat
    }
}

/// A state some transition starts from among the first `n`.
pub open spec fn departs_within(data: Seq<u32>, state: u32, n: int) -> bool {
    exists|i: int| 0 <= i < n && data[i] == state
}

proof fn lemma_successor_index(list: Seq<(u32, u32)>, next: u32)
    ensures
        -1 <= successor_index(list, next) < list.len(),
        successor_index(list, next) >= 0 ==> list[successor_index(list, next)].0 == next,
        successor_index(list, next) < 0 ==> forall|k: int| 0 <= k < list.len() ==> list[k].0 != next,
    decreases list.len(),
{
    if list.len() > 0 && list.last().0 != next {
        lemma_successor_index(list.drop_last(), next);
        assert forall|k: int| 0 <= k < list.len() && successor_index(list, next) < 0 implies list[k].0 != next by {
            if k < list.len() - 1 {
                assert(list[k] == list.drop_last()[k]);
            }
        }
    }
}

proof fn lemma_count_total_update(list: Seq<(u32, u32)>, j: int, v: (u32, u32))
    requires
        0 <= j < list.len(),
    ensures
        count_total(list.update(j, v)) + list[j].1 == count_total(list) + v.1,
    decreases list.len(),
{
    if j < list.len() - 1 {
        lemma_count_total_update(list.drop_last(), j, v);
        assert(list.update(j, v).drop_last() =~= list.drop_last().update(j, v));
    } else {
        assert(list.update(j, v).drop_last() =~= list.drop_last());
    }
}

/// What the recorded successors of a state say, after `n` transitions: each
/// successor appears once, with the number of times it follows the state, a
/// successor is recorded exactly when it follows the state at least once, and
/// the counts add up to the number of times the state is left.
pub proof fn lemma_successor_counts(data: Seq<u32>, state: u32, n: int)
    requires
        0 <= n < data.len(),
        forall|next: u32| #[trigger] transition_count(data, state, next, n) <= u32::MAX,
    ensures
        ({
            let list = successor_counts(data, state, n);
            &&& forall|a: int, b: int| 0 <= a < b < list.len() ==> list[a].0 != list[b].0
            &&& forall|k: int| 0 <= k < list.len() ==> list[k].1 == transition_count(data, state, list[k].0, n)
            &&& forall|next: u32| transition_count(data, state, next, n) > 0 <==> exists|k: int|
                0 <= k < list.len() && list[k].0 == next
            &&& count_total(list) == departures(data, state, n)
            &&& list.len() == 0 <==> !departs_within(data, state, n)
        }),
    decreases n,
{
    let list = successor_counts(data, state, n);
    if n > 0 {
        assert forall|next: u32| #[trigger] transition_count(data, state, next, n - 1) <= u32::MAX by {
            lemma_transition_count_monotone(data, state, next, n - 1, n);
        }
        lemma_successor_counts(data, state, n - 1);
        let prev = successor_counts(data, state, n - 1);
        if data[n - 1] == state {
            let next = data[n];
            lemma_successor_index(prev, next);
            let j = successor_index(prev, next);
            assert(transition_count(data, state, next, n) <= u32::MAX);
            if j >= 0 {
                assert(prev[j].1 == transition_count(data, state, next, n - 1));
                lemma_count_total_update(prev, j, (next, (prev[j].1 + 1) as u32));
            } else {
                assert(transition_count(data, state, next, n - 1) == 0);
                assert(list.drop_last() =~= prev);
            }
            assert forall|nx: u32| transition_count(data, state, nx, n) > 0 implies exists|k: int|
                0 <= k < list.len() && list[k].0 == nx by {
                if nx == next {
                    if j >= 0 {
                        assert(list[j].0 == nx);
                    } else {
                        assert(list[prev.len() as int].0 == nx);
                    }
                } else {
                    assert(transition_count(data, state, nx, n - 1) > 0);
                    let k = choose|k: int| 0 <= k < prev.len() && prev[k].0 == nx;
                    assert(list[k].0 == nx);
                }
            }
            assert(departs_within(data, state, n)) by {
                assert(data[n - 1] == state);
            }
        } else {
            assert forall|nx: u32| transition_count(data, state, nx, n) > 0 implies exists|k: int|
                0 <= k < list.len() && list[k].0 == nx by {
                assert(transition_count(data, state, nx, n - 1) > 0);
                let k = choose|k: int| 0 <= k < prev.len() && prev[k].0 == nx;
                assert(list[k].0 == nx);
            }
            if departs_within(data, state, n) {
                let i = choose|i: int| 0 <= i < n && data[i] == state;
                assert(departs_within(data, state, n - 1));
            }
        }
    } else {
        assert(list.len() == 0);
    }
}

/// Counting over more transitions never gives less.
proof fn lemma_transition_count_monotone(data: Seq<u32>, state: u32, next: u32, m: int, n: int)
    requires
        0 <= m <= n,
    ensures
        transition_count(data, state, next, m) <= transition_count(data, state, next, n),
    decreases n - m,
{
    if m < n {
        lemma_transition_count_monotone(data, state, next, m, n - 1);
    }
}

/// The transitions of a training sequence: for each state that some element
/// other than the last holds, its successors with how often each follows it,
/// in the order they first follow. Dividing each count by the state's total
/// gives the transition probabilities of a first-order Markov chain.
pub fn markov_transition_counts(data: &Vec<u32>) -> (table: HashMap<u32, Vec<(u32, u32)>>)
    requires
        forall|state: u32, next: u32| #[trigger] transition_count(data@, state, next, data@.len() - 1) <= u32::MAX,
    ensures
        forall|state: u32| #[trigger] table@.contains_key(state) <==> departs_within(
            data@,
            state,
            data@.len() - 1,
        ),
        forall|state: u32| #[trigger] table@.contains_key(state) ==> table@[state]@ == successor_counts(
            data@,
            state,
            data@.len() - 1,
        ),
{
    broadcast use vstd::std_specs::hash::group_hash_axioms;
    let mut table: HashMap<u32, Vec<(u32, u32)>> = HashMap::new();
    if data.len() == 0 {
        return table;
    }
    let n = data.len() - 1;
    let mut i: usize = 0;
    while i < n
        invariant
            n == data@.len() - 1,
            i <= n,
            forall|state: u32, next: u32| #[trigger] transition_count(data@, state, next, n as int) <= u32::MAX,
            forall|state: u32| #[trigger] table@.contains_key(state) <==> departs_within(data@, state, i as int),
            forall|state: u32| #[trigger] table@.contains_key(state) ==> table@[state]@ == successor_counts(
                data@,
                state,
                i as int,
            ),
        decreases n - i,
    {
        let current = data[i];
        let next = data[i + 1];
        proof {
            assert forall|nx: u32| #[trigger] transition_count(data@, current, nx, i as int) <= u32::MAX by {
                lemma_transition_count_monotone(data@, current, nx, i as int, n as int);
            }
            lemma_successor_counts(data@, current, i as int);
            lemma_transition_count_monotone(data@, current, next, i + 1, n as int);
            assert(transition_count(data@, current, next, n as int) <= u32::MAX);
        }
        let mut list: Vec<(u32, u32)> = match table.remove(&current) {
            Some(v) => v,
            None => Vec::new(),
        };
        proof {
            if !departs_within(data@, current, i as int) {
                assert(list@ =~= successor_counts(data@, current, i as int));
            }
        }
        let ghost prev = list@;
        let mut j: usize = list.len();
        let mut k: usize = 0;
        while k < list.len()
            invariant_except_break
                k <= list.len(),
                j == list.len(),
                forall|m: int| 0 <= m < k ==> list@[m].0 != next,
            invariant
                list@ == prev,
            ensures
                list@ == prev,
                (j == list.len() && forall|m: int| 0 <= m < list.len() ==> list@[m].0 != next) || (j < list.len()
                    && list@[j as int].0 == next && forall|m: int| 0 <= m < j ==> list@[m].0 != next),
            decreases list.len() - k,
        {
            if list[k].0 == next {
                j = k;
                break;
            }
            k = k + 1;
        }
        proof {
            lemma_successor_index(prev, next);
        }
        if j < list.len() {
            let count = list[j].1;
            proof {
                assert(successor_index(prev, next) == j as int) by {
                    lemma_successor_index_unique(prev, next, j as int);
                }
                assert(count == transition_count(data@, current, next, i as int));
            }
            list.set(j, (next, count + 1));
        } else {
            proof {
                assert(successor_index(prev, next) < 0) by {
                    if successor_index(prev, next) >= 0 {
                        assert(prev[successor_index(prev, next)].0 == next);
                    }
                }
            }
            list.push((next, 1));
        }
        table.insert(current, list);
        proof {
            assert(departs_within(data@, current, i + 1)) by {
                assert(data@[i as int] == current);
            }
            assert forall|state: u32| #[trigger] table@.contains_key(state) <==> departs_within(
                data@,
                state,
                i + 1,
            ) by {
                if state != current && departs_within(data@, state, i + 1) {
                    let w = choose|w: int| 0 <= w < i + 1 && data@[w] == state;
                    assert(departs_within(data@, state, i as int));
                }
            }
        }
        i = i + 1;
    }
    table
}

proof fn lemma_successor_index_unique(list: Seq<(u32, u32)>, next: u32, j: int)
    requires
        0 <= j < list.len(),
        list[j].0 == next,
        forall|m: int| 0 <= m < j ==> list[m].0 != next,
        forall|a: int, b: int| 0 <= a < b < list.len() ==> list[a].0 != list[b].0,
    ensures
        successor_index(list, next) == j,
    decreases list.len(),
{
    if list.len() - 1 != j {
        assert(list.last().0 != next);
        lemma_successor_index_unique(list.drop_last(), next, j);
    }
}

} // verus!
