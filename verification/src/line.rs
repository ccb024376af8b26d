//! Rasterizing a straight line into grid cells.
//!
//! A line is given by its deltas `(dx, dy)` and comes out as offsets from its
//! start. It takes one unit step per cell along the axis with the larger
//! absolute delta; the other axis follows at the fixed ratio of the two
//! deltas, rounded to the nearest cell (a half rounds away from zero).
use vstd::arithmetic::div_mod::{lemma_fundamental_div_mod, lemma_remainder_lower, lemma_remainder_upper};
use vstd::prelude::*;

verus! {

pub open spec fn abs(a: int) -> int {
    if a < 0 {
        -a
    } else {
        a
    }
}

/// The number of cells on the line with deltas `(dx, dy)`, not counting its
/// start.
pub open spec fn line_len(dx: int, dy: int) -> nat {
    if abs(dx) > abs(dy) {
        abs(dx) as nat
    } else {
        abs(dy) as nat
    }
}

/// `k * d / n`, rounded to the nearest integer, a half away from zero.
pub open spec fn round_ratio(k: int, d: int, n: int) -> int {
    if d >= 0 {
        (k * d + n / 2) / n
    } else {
        -((k * (-d) + n / 2) / n)
    }
}

/// The offset of the `k`-th cell of the line from its start; `k` counts from
/// 1 for the nearest cell to `line_len(dx, dy)` for the farthest.
pub open spec fn line_offset(dx: int, dy: int, k: int) -> (int, int) {
    let n = line_len(dx, dy) as int;
    (round_ratio(k, dx, n), round_ratio(k, dy, n))
}

/// All cells of the line, nearest first, as offsets from its start.
pub open spec fn line_offsets(dx: int, dy: int) -> Seq<(int, int)> {
    Seq::new(line_len(dx, dy), |i: int| line_offset(dx, dy, i + 1))
}

/// The offsets that a vector of machine integers stands for.
pub open spec fn offsets_view(offsets: Seq<(i32, i32)>) -> Seq<(int, int)> {
    Seq::new(offsets.len(), |i: int| (offsets[i].0 as int, offsets[i].1 as int))
}

/// What the quotient in [`round_ratio`] is, for a delta of magnitude `m`.
proof fn lemma_quotient(k: int, m: int, n: int)
    requires
        0 <= k,
        0 <= m,
        0 < n,
    ensures
        ({
            let a = k * m + n / 2;
            &&& 0 <= k * m
            &&& a == n * (a / n) + a % n
            &&& 0 <= a % n < n
            &&& 0 <= n / 2 < n
        }),
{
    let a = k * m + n / 2;
    lemma_fundamental_div_mod(a, n);
    lemma_remainder_lower(a, n);
    lemma_remainder_upper(a, n);
    assert(0 <= k * m) by (nonlinear_arith)
        requires
            0 <= k,
            0 <= m,
    ;
}

/// Rounding keeps the sign of the delta and never overshoots it, nor the
/// step count.
pub proof fn lemma_round_ratio_bounds(k: int, d: int, n: int)
    requires
        0 <= k <= n,
        0 < n,
        abs(d) <= n,
    ensures
        abs(round_ratio(k, d, n)) <= abs(d),
        abs(round_ratio(k, d, n)) <= k,
        d >= 0 ==> round_ratio(k, d, n) >= 0,
        d <= 0 ==> round_ratio(k, d, n) <= 0,
{
    let m = abs(d);
    let half = n / 2;
    let a = k * m + half;
    let q = a / n;
    lemma_quotient(k, m, n);
    assert(q <= m && q <= k && q >= 0) by (nonlinear_arith)
        requires
            a == k * m + half,
            a == n * q + a % n,
            0 <= a % n < n,
            0 <= half < n,
            0 <= k <= n,
            0 <= m <= n,
            0 < n,
    ;
}

/// Along the axis with the larger delta the line advances one cell per step.
pub proof fn lemma_round_ratio_major(k: int, d: int, n: int)
    requires
        0 <= k,
        0 < n,
        abs(d) == n,
    ensures
        round_ratio(k, d, n) == (if d >= 0 {
            k
        } else {
            -k
        }),
{
    let half = n / 2;
    let a = k * n + half;
    let q = a / n;
    lemma_quotient(k, n, n);
    assert(q == k) by (nonlinear_arith)
        requires
            a == k * n + half,
            a == n * q + a % n,
            0 <= a % n < n,
            0 <= half < n,
            0 <= k,
            0 < n,
    ;
}

/// From one step to the next the rounded value changes by one at most, and
/// never against the sign of the delta.
pub proof fn lemma_round_ratio_step(k: int, d: int, n: int)
    requires
        0 <= k,
        0 < n,
        abs(d) <= n,
    ensures
        d >= 0 ==> 0 <= round_ratio(k + 1, d, n) - round_ratio(k, d, n) <= 1,
        d <= 0 ==> 0 <= round_ratio(k, d, n) - round_ratio(k + 1, d, n) <= 1,
{
    let m = abs(d);
    let half = n / 2;
    let a = k * m + half;
    let b = (k + 1) * m + half;
    let p = a / n;
    let q = b / n;
    lemma_quotient(k, m, n);
    lemma_quotient(k + 1, m, n);
    assert(b == a + m) by (nonlinear_arith)
        requires
            a == k * m + half,
            b == (k + 1) * m + half,
    ;
    assert(0 <= q - p <= 1) by (nonlinear_arith)
        requires
            b == a + m,
            0 <= m <= n,
            0 < n,
            a == n * p + a % n,
            0 <= a % n < n,
            b == n * q + b % n,
            0 <= b % n < n,
    ;
}

/// The line has no gap: each of its cells touches the one before it, the
/// first one touches the start, and no two of its cells are the same.
pub proof fn lemma_line_is_connected(dx: int, dy: int, k: int)
    requires
        0 <= k < line_len(dx, dy),
    ensures
        line_offset(dx, dy, 0) == (0int, 0int),
        abs(line_offset(dx, dy, k + 1).0 - line_offset(dx, dy, k).0) <= 1,
        abs(line_offset(dx, dy, k + 1).1 - line_offset(dx, dy, k).1) <= 1,
        line_offset(dx, dy, k + 1) != line_offset(dx, dy, k),
{
    let n = line_len(dx, dy) as int;
    lemma_round_ratio_step(k, dx, n);
    lemma_round_ratio_step(k, dy, n);
    lemma_round_ratio_bounds(0, dx, n);
    lemma_round_ratio_bounds(0, dy, n);
    if abs(dx) > abs(dy) {
        lemma_round_ratio_major(k, dx, n);
        lemma_round_ratio_major(k + 1, dx, n);
    } else {
        lemma_round_ratio_major(k, dy, n);
        lemma_round_ratio_major(k + 1, dy, n);
    }
}

/// The last cell of the line is the one it was drawn towards.
pub proof fn lemma_line_ends_at_target(dx: int, dy: int)
    requires
        line_len(dx, dy) > 0,
    ensures
        line_offset(dx, dy, line_len(dx, dy) as int) == (dx, dy),
{
    let n = line_len(dx, dy) as int;
    lemma_round_ratio_full(dx, n);
    lemma_round_ratio_full(dy, n);
}

/// After all `n` steps the rounding is exact.
proof fn lemma_round_ratio_full(d: int, n: int)
    requires
        0 < n,
        abs(d) <= n,
    ensures
        round_ratio(n, d, n) == d,
{
    let m = abs(d);
    let half = n / 2;
    let a = n * m + half;
    let q = a / n;
    lemma_quotient(n, m, n);
    assert(q == m) by (nonlinear_arith)
        requires
            a == n * m + half,
            a == n * q + a % n,
            0 <= a % n < n,
            0 <= half < n,
            0 <= m,
            0 < n,
    ;
}

/// The magnitude of a delta, which may not fit the signed type.
fn magnitude(d: i32) -> (m: u32)
    ensures
        m == abs(d as int),
{
    if d < 0 {
        (-(d as i64)) as u32
    } else {
        d as u32
    }
}

/// Computes [`round_ratio`] for step `k` of a line of `n` cells.
fn round_ratio_exec(k: u32, d: i32, n: u32) -> (r: i32)
    requires
        1 <= k <= n <= 0x8000_0000,
        abs(d as int) <= n,
    ensures
        r == round_ratio(k as int, d as int, n as int),
{
    let m: u64 = magnitude(d) as u64;
    proof {
        lemma_round_ratio_bounds(k as int, d as int, n as int);
        assert(0 <= k * m <= 0x4000_0000_0000_0000) by (nonlinear_arith)
            requires
                0 <= k <= n,
                0 <= m <= n,
                n <= 0x8000_0000,
        ;
    }
    let q: u64 = ((k as u64) * m + (n as u64) / 2) / (n as u64);
    if d >= 0 {
        q as i32
    } else {
        (-(q as i64)) as i32
    }
}

/// The cells of the straight line from a start cell towards the cell
/// `(dx, dy)` away from it, nearest first, each as its offset from the start.
/// Both deltas zero give no cell at all.
pub fn get_positions(dx: i32, dy: i32) -> (offsets: Vec<(i32, i32)>)
    ensures
        offsets@.len() == line_len(dx as int, dy as int),
        forall|i: int|
            0 <= i < offsets@.len() ==> ((#[trigger] offsets@[i]).0 as int, offsets@[i].1 as int)
                == line_offset(dx as int, dy as int, i + 1),
        offsets_view(offsets@) == line_offsets(dx as int, dy as int),
{
    let x_len = magnitude(dx);
    let y_len = magnitude(dy);
    let n: u32 = if x_len > y_len {
        x_len
    } else {
        y_len
    };
    let mut offsets: Vec<(i32, i32)> = Vec::new();
    let mut k: u32 = 0;
    while k < n
        invariant
            k <= n,
            n == line_len(dx as int, dy as int),
            offsets@.len() == k,
            forall|i: int|
                0 <= i < k ==> ((#[trigger] offsets@[i]).0 as int, offsets@[i].1 as int)
                    == line_offset(dx as int, dy as int, i + 1),
        decreases n - k,
    {
        k += 1;
        let x_offset = round_ratio_exec(k, dx, n);
        let y_offset = round_ratio_exec(k, dy, n);
        offsets.push((x_offset, y_offset));
    }
    assert(offsets_view(offsets@) =~= line_offsets(dx as int, dy as int));
    offsets
}

} // verus!
