use vstd::prelude::*;
use crate::img::{Img, ImgView};

verus! {

use crate::mask::isqrt_s;

/// The fixed-point unit for similarity components: components live in
/// [0, 65536], 65536 meaning identical.
pub open spec fn fp() -> int {
    65536
}

/// The sum of the first k samples.
pub open spec fn sum1(s: Seq<int>, k: int) -> int
    decreases k,
{
    if k <= 0 {
        0
    } else {
        sum1(s, k - 1) + s[k - 1]
    }
}

/// The sum of the squares of the first k samples.
pub open spec fn sum_sq(s: Seq<int>, k: int) -> int
    decreases k,
{
    if k <= 0 {
        0
    } else {
        sum_sq(s, k - 1) + s[k - 1] * s[k - 1]
    }
}

/// The sum of the products of the first k sample pairs.
pub open spec fn sum_prod(s: Seq<int>, t: Seq<int>, k: int) -> int
    decreases k,
{
    if k <= 0 {
        0
    } else {
        sum_prod(s, t, k - 1) + s[k - 1] * t[k - 1]
    }
}

/// Prefix sums of samples in [-b, b] lie in [-k*b, k*b]; squares and products
/// lie in [-k*b*b, k*b*b].
proof fn lemma_sum_bounds(s: Seq<int>, t: Seq<int>, k: int, b: int)
    requires
        0 <= b,
        0 <= k <= s.len(),
        k <= t.len(),
        forall|i: int| 0 <= i < k ==> -b <= #[trigger] s[i] <= b,
        forall|i: int| 0 <= i < k ==> -b <= #[trigger] t[i] <= b,
    ensures
        -(k * b) <= sum1(s, k) <= k * b,
        0 <= sum_sq(s, k) <= k * (b * b),
        -(k * (b * b)) <= sum_prod(s, t, k) <= k * (b * b),
    decreases k,
{
    if k > 0 {
        lemma_sum_bounds(s, t, k - 1, b);
        assert((k - 1) * b + b == k * b) by (nonlinear_arith);
        assert((k - 1) * (b * b) + b * b == k * (b * b)) by (nonlinear_arith);
        assert(0 <= s[k - 1] * s[k - 1] <= b * b) by (nonlinear_arith)
            requires -b <= s[k - 1] <= b;
        assert(-(b * b) <= s[k - 1] * t[k - 1] <= b * b) by (nonlinear_arith)
            requires -b <= s[k - 1] <= b, -b <= t[k - 1] <= b;
    }
}

/// The square of a prefix sum is at most the count times the sum of squares.
proof fn lemma_sq_of_sum(s: Seq<int>, k: int)
    requires
        0 <= k <= s.len(),
    ensures
        sum1(s, k) * sum1(s, k) <= k * sum_sq(s, k),
    decreases k,
{
    if k > 0 {
        lemma_sq_of_sum(s, k - 1);
        let a = sum1(s, k - 1);
        let p = sum_sq(s, k - 1);
        let x = s[k - 1];
        let m = k - 1;
        assert((a - m * x) * (a - m * x) >= 0) by (nonlinear_arith);
        assert(2 * a * x * m <= a * a + (m * x) * (m * x)) by (nonlinear_arith)
            requires (a - m * x) * (a - m * x) >= 0;
        if m == 0 {
            assert(a == 0 && p == 0);
            assert(sum1(s, k) == x && sum_sq(s, k) == x * x);
            assert(x * x <= 1 * (x * x)) by (nonlinear_arith);
        } else {
            assert(2 * a * x * m <= m * p + (m * m) * (x * x)) by (nonlinear_arith)
                requires 2 * a * x * m <= a * a + (m * x) * (m * x), a * a <= m * p;
            assert(2 * a * x <= p + m * (x * x)) by (nonlinear_arith)
                requires 2 * a * x * m <= m * p + (m * m) * (x * x), m >= 1;
            assert((a + x) * (a + x) <= (m + 1) * (p + x * x)) by (nonlinear_arith)
                requires a * a <= m * p, 2 * a * x <= p + m * (x * x);
        }
    }
}

/// The product sum of a sequence with itself is its square sum.
proof fn lemma_prod_self(s: Seq<int>, k: int)
    requires
        0 <= k <= s.len(),
    ensures
        sum_prod(s, s, k) == sum_sq(s, k),
    decreases k,
{
    if k > 0 {
        lemma_prod_self(s, k - 1);
    }
}

/// The sample-wise difference of two sequences.
spec fn diff_seq(s: Seq<int>, t: Seq<int>) -> Seq<int> {
    Seq::new(s.len(), |i: int| s[i] - t[i])
}

/// Sums of a difference decompose into the sums of the parts.
proof fn lemma_diff_sums(s: Seq<int>, t: Seq<int>, k: int)
    requires
        0 <= k <= s.len(),
        k <= t.len(),
    ensures
        sum1(diff_seq(s, t), k) == sum1(s, k) - sum1(t, k),
        sum_sq(diff_seq(s, t), k) == sum_sq(s, k) + sum_sq(t, k) - 2 * sum_prod(s, t, k),
    decreases k,
{
    if k > 0 {
        lemma_diff_sums(s, t, k - 1);
        let x = s[k - 1];
        let y = t[k - 1];
        assert((x - y) * (x - y) == x * x + y * y - 2 * (x * y)) by (nonlinear_arith);
    }
}

/// The statistics that the similarity components are built from, for a pair
/// of equally long sample sequences.
pub open spec fn stat_vx(s: Seq<int>) -> int {
    s.len() * sum_sq(s, s.len() as int) - sum1(s, s.len() as int) * sum1(s, s.len() as int)
}

/// The covariance numerator of a pair of sequences.
pub open spec fn stat_cov(s: Seq<int>, t: Seq<int>) -> int {
    s.len() * sum_prod(s, t, s.len() as int) - sum1(s, s.len() as int) * sum1(t, t.len() as int)
}

/// Spreads are never negative.
pub proof fn lemma_vx_nonneg(s: Seq<int>)
    ensures
        stat_vx(s) >= 0,
{
    lemma_sq_of_sum(s, s.len() as int);
}

/// Twice the covariance is at most the sum of the spreads.
pub proof fn lemma_cov_am(s: Seq<int>, t: Seq<int>)
    requires
        s.len() == t.len(),
    ensures
        2 * stat_cov(s, t) <= stat_vx(s) + stat_vx(t),
{
    let k = s.len() as int;
    let d = diff_seq(s, t);
    lemma_diff_sums(s, t, k);
    lemma_sq_of_sum(d, k);
    let s1 = sum1(s, k);
    let s2 = sum1(t, k);
    assert((s1 - s2) * (s1 - s2) == s1 * s1 + s2 * s2 - 2 * (s1 * s2)) by (nonlinear_arith);
    assert(k * (sum_sq(s, k) + sum_sq(t, k) - 2 * sum_prod(s, t, k))
        == k * sum_sq(s, k) + k * sum_sq(t, k) - 2 * (k * sum_prod(s, t, k))) by (nonlinear_arith);
}

/// A similarity component: 65536 times the ratio of a numerator to a positive
/// denominator it never exceeds, clamped below at zero.
pub open spec fn component(num: int, den: int) -> int {
    if num <= 0 {
        0
    } else {
        fp() * num / den
    }
}

/// The luminance comparison of two sample sequences: how close their sums
/// (means) are, stabilized by a small constant.
pub open spec fn ssim_lum(a: Seq<int>, b: Seq<int>) -> int {
    let n = a.len() as int;
    let s1 = sum1(a, n);
    let s2 = sum1(b, n);
    component(2 * (s1 * s2) + 7 * (n * n), s1 * s1 + s2 * s2 + 7 * (n * n))
}

/// The contrast comparison of two sample sequences: how close their spreads
/// are, as the ratio of twice the smaller spread to their sum.
pub open spec fn ssim_con(a: Seq<int>, b: Seq<int>) -> int {
    let vx = stat_vx(a);
    let vy = stat_vx(b);
    let mn = if vx <= vy { vx } else { vy };
    component(2 * mn + 58 * (a.len() * a.len()), vx + vy + 58 * (a.len() * a.len()))
}

/// The structure comparison of two sample sequences: their covariance against
/// the mean of their spreads. Anti-correlated structure counts as none.
pub open spec fn ssim_str(a: Seq<int>, b: Seq<int>) -> int {
    let vx = stat_vx(a);
    let vy = stat_vx(b);
    component(2 * stat_cov(a, b) + 29 * (a.len() * a.len()), vx + vy + 29 * (a.len() * a.len()))
}

/// Each component of a pair of equal sequences is exactly the unit, and no
/// pair exceeds the unit.
pub proof fn lemma_component_bounds(num: int, den: int)
    requires
        num <= den,
        den >= 1,
    ensures
        0 <= component(num, den) <= fp(),
        num == den ==> component(num, den) == fp(),
{
    if num > 0 {
        assert(fp() * num <= fp() * den) by (nonlinear_arith)
            requires num <= den;
        assert(fp() * num / den <= fp() * den / den) by (nonlinear_arith)
            requires fp() * num <= fp() * den, den >= 1;
        assert(fp() * den / den == fp()) by (nonlinear_arith)
            requires den >= 1;
        assert(fp() * num / den >= 0) by (nonlinear_arith)
            requires num >= 0, den >= 1;
    }
}

/// The three components of any admissible pair lie in [0, 65536]; the
/// components of a sequence against itself are exactly 65536.
pub proof fn lemma_ssim_bounds(a: Seq<int>, b: Seq<int>)
    requires
        a.len() == b.len(),
        a.len() >= 1,
    ensures
        0 <= ssim_lum(a, b) <= fp(),
        0 <= ssim_con(a, b) <= fp(),
        0 <= ssim_str(a, b) <= fp(),
        a == b ==> ssim_lum(a, b) == fp(),
        a == b ==> ssim_con(a, b) == fp(),
        a == b ==> ssim_str(a, b) == fp(),
{
    let n = a.len() as int;
    let s1 = sum1(a, n);
    let s2 = sum1(b, n);
    assert(2 * (s1 * s2) <= s1 * s1 + s2 * s2) by (nonlinear_arith);
    assert(n * n >= 1) by (nonlinear_arith)
        requires n >= 1;
    assert(s1 * s1 >= 0 && s2 * s2 >= 0) by (nonlinear_arith);
    lemma_component_bounds(2 * (s1 * s2) + 7 * (n * n), s1 * s1 + s2 * s2 + 7 * (n * n));
    lemma_vx_nonneg(a);
    lemma_vx_nonneg(b);
    let vx = stat_vx(a);
    let vy = stat_vx(b);
    let mn = if vx <= vy { vx } else { vy };
    lemma_component_bounds(2 * mn + 58 * (n * n), vx + vy + 58 * (n * n));
    lemma_cov_am(a, b);
    lemma_component_bounds(2 * stat_cov(a, b) + 29 * (n * n), vx + vy + 29 * (n * n));
    if a == b {
        lemma_prod_self(a, a.len() as int);
        assert(stat_cov(a, b) == stat_vx(a));
    }
}

/// The raw statistics of a pair of images, summed over every sample.
struct Stats {
    s1: i128,
    s2: i128,
    p: i128,
    q: i128,
    r: i128,
}

/// Gather the five sums the components need, in one pass.
fn gather_stats(a: &Img, b: &Img) -> (st: Stats)
    requires
        a.wf(),
        b.wf(),
        a.width == b.width,
        a.height == b.height,
        1 <= a@.data.len() <= 0x10_0000,
        a@.bounded(0x40_0000),
        b@.bounded(0x40_0000),
    ensures
        st.s1 == sum1(a@.data, a@.data.len() as int),
        st.s2 == sum1(b@.data, b@.data.len() as int),
        st.p == sum_sq(a@.data, a@.data.len() as int),
        st.q == sum_sq(b@.data, b@.data.len() as int),
        st.r == sum_prod(a@.data, b@.data, a@.data.len() as int),
{
    let n: usize = a.data.len();
    proof {
        crate::img::lemma_flat_bounded(a@, 0x40_0000);
        crate::img::lemma_flat_bounded(b@, 0x40_0000);
    }
    let mut s1: i128 = 0;
    let mut s2: i128 = 0;
    let mut p: i128 = 0;
    let mut q: i128 = 0;
    let mut r: i128 = 0;
    let mut k: usize = 0;
    while k < n
        invariant
            k <= n,
            n == a@.data.len(),
            n == b@.data.len(),
            n <= 0x10_0000,
            forall|i: int| 0 <= i < n ==> -0x40_0000 <= #[trigger] a@.data[i] <= 0x40_0000,
            forall|i: int| 0 <= i < n ==> -0x40_0000 <= #[trigger] b@.data[i] <= 0x40_0000,
            s1 == sum1(a@.data, k as int),
            s2 == sum1(b@.data, k as int),
            p == sum_sq(a@.data, k as int),
            q == sum_sq(b@.data, k as int),
            r == sum_prod(a@.data, b@.data, k as int),
            -(k as int) * 0x40_0000 <= s1 <= (k as int) * 0x40_0000,
            -(k as int) * 0x40_0000 <= s2 <= (k as int) * 0x40_0000,
            0 <= p <= (k as int) * 0x10_0000_0000_0000,
            0 <= q <= (k as int) * 0x10_0000_0000_0000,
            -(k as int) * 0x10_0000_0000_0000 <= r <= (k as int) * 0x10_0000_0000_0000,
        decreases n - k,
    {
        let x: i128 = a.data[k] as i128;
        let y: i128 = b.data[k] as i128;
        proof {
            assert(a@.data[k as int] == a.data@[k as int] as int);
            assert(b@.data[k as int] == b.data@[k as int] as int);
            assert(-0x40_0000 <= x <= 0x40_0000 && -0x40_0000 <= y <= 0x40_0000);
            assert(0 <= x * x <= 0x10_0000_0000_0000) by (nonlinear_arith)
                requires -0x40_0000 <= x <= 0x40_0000;
            assert(0 <= y * y <= 0x10_0000_0000_0000) by (nonlinear_arith)
                requires -0x40_0000 <= y <= 0x40_0000;
            assert(-0x10_0000_0000_0000 <= x * y <= 0x10_0000_0000_0000) by (nonlinear_arith)
                requires -0x40_0000 <= x <= 0x40_0000, -0x40_0000 <= y <= 0x40_0000;
            assert((k as int) * 0x40_0000 + 0x40_0000 == (k as int + 1) * 0x40_0000) by (nonlinear_arith);
            assert((k as int) * 0x10_0000_0000_0000 + 0x10_0000_0000_0000 == (k as int + 1) * 0x10_0000_0000_0000)
                by (nonlinear_arith);
            assert((k as int + 1) * 0x40_0000 <= 0x10_0000 * 0x40_0000) by (nonlinear_arith)
                requires k as int + 1 <= 0x10_0000;
            assert((k as int + 1) * 0x10_0000_0000_0000 <= 0x10_0000 * 0x10_0000_0000_0000) by (nonlinear_arith)
                requires k as int + 1 <= 0x10_0000;
        }
        s1 = s1 + x;
        s2 = s2 + y;
        p = p + x * x;
        q = q + y * y;
        r = r + x * y;
        k = k + 1;
    }
    Stats { s1, s2, p, q, r }
}

/// Divide a clamped component numerator: 65536 * num / den for a numerator
/// that is positive and at most the denominator.
fn component_div(num: i128, den: i128) -> (r: i64)
    requires
        0 < num <= den,
        den <= 0x1_0000_0000_0000_0000_0000_0000,
    ensures
        r == component(num as int, den as int),
        0 <= r <= fp(),
{
    proof {
        assert(num * 0x1_0000 <= 0x1_0000_0000_0000_0000_0000_0000 * 0x1_0000) by (nonlinear_arith)
            requires num <= 0x1_0000_0000_0000_0000_0000_0000;
        lemma_component_bounds(num as int, den as int);
        assert(fp() * num == num * 0x1_0000) by (nonlinear_arith);
    }
    let u: u128 = (num as u128) * 0x1_0000;
    let d: u128 = den as u128;
    let q: u128 = u / d;
    proof {
        assert(q == fp() * (num as int) / (den as int));
    }
    q as i64
}

/// The three similarity components of a pair of images: (structure, contrast,
/// luminance), each in [0, 65536], each exactly 65536 when the images carry
/// the same samples.
pub fn ssim_parts(a: &Img, b: &Img) -> (r: (i64, i64, i64))
    requires
        a.wf(),
        b.wf(),
        a.width == b.width,
        a.height == b.height,
        1 <= a@.data.len() <= 0x10_0000,
        a@.bounded(0x40_0000),
        b@.bounded(0x40_0000),
    ensures
        r.0 == ssim_str(a@.data, b@.data),
        r.1 == ssim_con(a@.data, b@.data),
        r.2 == ssim_lum(a@.data, b@.data),
        0 <= r.0 <= fp(),
        0 <= r.1 <= fp(),
        0 <= r.2 <= fp(),
{
    let st = gather_stats(a, b);
    let n: usize = a.data.len();
    let ni: i128 = n as i128;
    proof {
        crate::img::lemma_flat_bounded(a@, 0x40_0000);
        crate::img::lemma_flat_bounded(b@, 0x40_0000);
        lemma_sum_bounds(a@.data, b@.data, n as int, 0x40_0000);
        lemma_sum_bounds(b@.data, a@.data, n as int, 0x40_0000);
        assert((n as int) * 0x40_0000 <= 0x400_0000_0000) by (nonlinear_arith)
            requires n <= 0x10_0000;
        assert((n as int) * (0x40_0000 * 0x40_0000) <= 0x1_0000_0000_0000_0000) by (nonlinear_arith)
            requires n <= 0x10_0000;
        lemma_ssim_bounds(a@.data, b@.data);
        lemma_vx_nonneg(a@.data);
        lemma_vx_nonneg(b@.data);
        lemma_cov_am(a@.data, b@.data);
        // magnitude room for every product that follows
        assert(st.s1 * st.s2 <= 0x10_0000_0000_0000_0000_0000 && st.s1 * st.s2 >= -0x10_0000_0000_0000_0000_0000)
            by (nonlinear_arith)
            requires -0x400_0000_0000 <= st.s1 <= 0x400_0000_0000, -0x400_0000_0000 <= st.s2 <= 0x400_0000_0000;
        assert(st.s1 * st.s1 <= 0x10_0000_0000_0000_0000_0000 && st.s1 * st.s1 >= 0) by (nonlinear_arith)
            requires -0x400_0000_0000 <= st.s1 <= 0x400_0000_0000;
        assert(st.s2 * st.s2 <= 0x10_0000_0000_0000_0000_0000 && st.s2 * st.s2 >= 0) by (nonlinear_arith)
            requires -0x400_0000_0000 <= st.s2 <= 0x400_0000_0000;
        assert(ni * st.p <= 0x100_0000_0000_0000_0000_0000 && ni * st.p >= 0) by (nonlinear_arith)
            requires 0 <= ni <= 0x10_0000, 0 <= st.p <= 0x1_0000_0000_0000_0000;
        assert(ni * st.q <= 0x100_0000_0000_0000_0000_0000 && ni * st.q >= 0) by (nonlinear_arith)
            requires 0 <= ni <= 0x10_0000, 0 <= st.q <= 0x1_0000_0000_0000_0000;
        assert(ni * st.r <= 0x100_0000_0000_0000_0000_0000 && ni * st.r >= -0x100_0000_0000_0000_0000_0000)
            by (nonlinear_arith)
            requires 0 <= ni <= 0x10_0000, -0x1_0000_0000_0000_0000 <= st.r <= 0x1_0000_0000_0000_0000;
        assert(ni * ni <= 0x100_0000_0000 && ni * ni >= 1) by (nonlinear_arith)
            requires 1 <= ni <= 0x10_0000;
        assert(2 * (st.s1 * st.s2) <= st.s1 * st.s1 + st.s2 * st.s2) by (nonlinear_arith);
    }
    let n2: i128 = ni * ni;
    let vx: i128 = ni * st.p - st.s1 * st.s1;
    let vy: i128 = ni * st.q - st.s2 * st.s2;
    let cv: i128 = ni * st.r - st.s1 * st.s2;
    let mn: i128 = if vx <= vy { vx } else { vy };

    let lum_num: i128 = 2 * (st.s1 * st.s2) + 7 * n2;
    let lum_den: i128 = st.s1 * st.s1 + st.s2 * st.s2 + 7 * n2;
    let lum: i64 = if lum_num <= 0 { 0 } else { component_div(lum_num, lum_den) };

    let con_num: i128 = 2 * mn + 58 * n2;
    let con_den: i128 = vx + vy + 58 * n2;
    let con: i64 = if con_num <= 0 { 0 } else { component_div(con_num, con_den) };

    let str_num: i128 = 2 * cv + 29 * n2;
    let str_den: i128 = vx + vy + 29 * n2;
    let strv: i64 = if str_num <= 0 { 0 } else { component_div(str_num, str_den) };

    (strv, con, lum)
}


/// Two to the power e.
pub open spec fn pow2_s(e: int) -> int
    decreases e,
{
    if e <= 0 {
        1
    } else {
        2 * pow2_s(e - 1)
    }
}

/// The floor base-2 logarithm.
pub open spec fn ilog2_s(x: int) -> int
    decreases x,
{
    if x < 2 {
        0
    } else {
        1 + ilog2_s(x / 2)
    }
}

/// Powers of two are positive and grow.
proof fn lemma_pow2_pos(e: int)
    ensures
        pow2_s(e) >= 1,
    decreases e,
{
    if e > 0 {
        lemma_pow2_pos(e - 1);
    }
}

/// Powers of two are monotone in the exponent.
proof fn lemma_pow2_monotone(e1: int, e2: int)
    requires
        e1 <= e2,
    ensures
        pow2_s(e1) <= pow2_s(e2),
    decreases e2 - e1,
{
    lemma_pow2_pos(e1);
    if e1 < e2 {
        lemma_pow2_monotone(e1, e2 - 1);
        lemma_pow2_pos(e2 - 1);
    }
}

/// The floor logarithm brackets its argument between consecutive powers.
proof fn lemma_ilog2_brackets(x: int)
    requires
        x >= 1,
    ensures
        ilog2_s(x) >= 0,
        pow2_s(ilog2_s(x)) <= x,
        x < pow2_s(ilog2_s(x) + 1),
    decreases x,
{
    if x >= 2 {
        lemma_ilog2_brackets(x / 2);
        let i = ilog2_s(x / 2);
        assert(2 * (x / 2) <= x && x <= 2 * (x / 2) + 1);
        assert(pow2_s(i + 1) == 2 * pow2_s(i));
        assert(pow2_s(i + 2) == 2 * pow2_s(i + 1));
    }
}

/// Any exponent that brackets the argument is the floor logarithm.
proof fn lemma_ilog2_unique(x: int, e: int)
    requires
        x >= 1,
        e >= 0,
        pow2_s(e) <= x,
        x < pow2_s(e + 1),
    ensures
        ilog2_s(x) == e,
{
    lemma_ilog2_brackets(x);
    let i = ilog2_s(x);
    if i < e {
        lemma_pow2_monotone(i + 1, e);
    }
    if e < i {
        lemma_pow2_monotone(e + 1, i);
    }
}

/// The piecewise-linear base-2 logarithm, in 65536ths: the floor exponent
/// plus a linearly interpolated mantissa. Exact on powers of two, monotone,
/// and zero at one.
pub open spec fn logfp_s(x: int) -> int {
    let e = ilog2_s(x);
    e * 65536 + x * 65536 / pow2_s(e) - 65536
}

/// The interpolated mantissa stays inside its octave.
proof fn lemma_mantissa_range(x: int, e: int)
    requires
        x >= 1,
        e >= 0,
        pow2_s(e) <= x,
        x < pow2_s(e + 1),
    ensures
        65536 <= x * 65536 / pow2_s(e) <= 131071,
{
    lemma_pow2_pos(e);
    let p = pow2_s(e);
    assert(x * 65536 >= p * 65536) by (nonlinear_arith)
        requires x >= p, p >= 1;
    assert(x * 65536 / p >= 65536) by (nonlinear_arith)
        requires x * 65536 >= p * 65536, p >= 1;
    assert(x * 65536 < p * 131072) by (nonlinear_arith)
        requires x < 2 * p, p >= 1;
    assert(x * 65536 / p < 131072) by (nonlinear_arith)
        requires x * 65536 < p * 131072, p >= 1;
}

/// The interpolated logarithm is monotone and lies in [0, (e+1) * 65536].
pub proof fn lemma_logfp_monotone(x1: int, x2: int)
    requires
        1 <= x1 <= x2,
    ensures
        0 <= logfp_s(x1) <= logfp_s(x2),
{
    lemma_ilog2_brackets(x1);
    lemma_ilog2_brackets(x2);
    let e1 = ilog2_s(x1);
    let e2 = ilog2_s(x2);
    lemma_mantissa_range(x1, e1);
    lemma_mantissa_range(x2, e2);
    if e1 == e2 {
        let p = pow2_s(e1);
        lemma_pow2_pos(e1);
        assert(x1 * 65536 <= x2 * 65536) by (nonlinear_arith)
            requires x1 <= x2;
        assert(x1 * 65536 / p <= x2 * 65536 / p) by (nonlinear_arith)
            requires x1 * 65536 <= x2 * 65536, p >= 1;
    } else {
        if e2 < e1 {
            lemma_pow2_monotone(e2 + 1, e1);
            assert(false);
        }
        assert(e1 + 1 <= e2);
        assert(logfp_s(x1) <= e1 * 65536 + 65535);
        assert(logfp_s(x2) >= e2 * 65536);
        assert((e1 + 1) * 65536 <= e2 * 65536) by (nonlinear_arith)
            requires e1 + 1 <= e2;
    }
}

/// The interpolated base-2 logarithm of an integer in [1, 131072].
pub fn logfp(x: i64) -> (r: i64)
    requires
        1 <= x <= 0x2_0000,
    ensures
        r == logfp_s(x as int),
        0 <= r <= 0x12_0000,
{
    let mut e: i64 = 0;
    let mut p: i64 = 1;
    while 2 * p <= x
        invariant
            1 <= x <= 0x2_0000,
            1 <= p <= x,
            0 <= e <= 17,
            p == pow2_s(e as int),
        decreases x - p,
    {
        proof {
            if e >= 17 {
                lemma_pow2_monotone(17, e as int);
                reveal_with_fuel(pow2_s, 19);
                assert(pow2_s(17) == 131072);
            }
        }
        p = 2 * p;
        e = e + 1;
    }
    proof {
        lemma_ilog2_unique(x as int, e as int);
        lemma_mantissa_range(x as int, e as int);
    }
    let m: i64 = x * 65536 / p;
    e * 65536 + m - 65536
}

/// The geometric mean of two nonnegative fixed-point values, truncated.
pub open spec fn geo_s(u: int, v: int) -> int {
    if u * v <= 0 {
        0
    } else {
        isqrt_s((u * v) as nat) as int
    }
}

/// The floor of the key scale: any pair whose local or global term vanishes
/// orders below every pair where both are positive.
pub open spec fn key_floor() -> int {
    -0x1_0000_0000_0000_0000_0000
}

/// The order key of a window and tile, from the three masked comparisons and
/// the raw structure penalty. `num / den` is the scale that balances the
/// local-structure term against the global-color term: in the log domain,
/// num * num times the log of the local term plus den * den times the log of
/// the global term orders pairs exactly as the weighted geometric mean
/// local^(num/den) * global^(den/num) does, wherever the interpolated
/// logarithm is exact. A tile whose raw structure deviates from the window's
/// is further penalized by that deviation.
pub open spec fn combine_key(
    mo_s: int, mo_c: int, mo_l: int,
    mm_s: int, mm_c: int, mm_l: int,
    ss_s: int, ss_c: int, ss_l: int,
    pen_str: int, num: int, den: int,
) -> int {
    let t1 = (mo_s * mm_s + ss_s * ss_s) / 65536;
    let gc = geo_s(mm_c, mo_c);
    let gl = geo_s(mm_l, mo_l);
    let x = t1 * gc / 65536 * gl / 65536;
    let y = ss_s * ss_c / 65536 * ss_l / 65536;
    let base = if x <= 0 || y <= 0 {
        key_floor()
    } else {
        num * num * logfp_s(x) + den * den * logfp_s(y)
    };
    base - (65536 - pen_str)
}

/// Evaluate the order key from the nine components and the penalty.
pub fn combine_key_exec(
    mo: (i64, i64, i64),
    mm: (i64, i64, i64),
    ss: (i64, i64, i64),
    pen_str: i64,
    num: u32,
    den: u32,
) -> (r: i128)
    requires
        0 <= mo.0 <= 65536, 0 <= mo.1 <= 65536, 0 <= mo.2 <= 65536,
        0 <= mm.0 <= 65536, 0 <= mm.1 <= 65536, 0 <= mm.2 <= 65536,
        0 <= ss.0 <= 65536, 0 <= ss.1 <= 65536, 0 <= ss.2 <= 65536,
        0 <= pen_str <= 65536,
        num >= 1,
        den >= 1,
    ensures
        r == combine_key(
            mo.0 as int, mo.1 as int, mo.2 as int,
            mm.0 as int, mm.1 as int, mm.2 as int,
            ss.0 as int, ss.1 as int, ss.2 as int,
            pen_str as int, num as int, den as int,
        ),
{
    proof {
        assert(0 <= mo.0 * mm.0 <= 0x1_0000_0000) by (nonlinear_arith)
            requires 0 <= mo.0 <= 65536, 0 <= mm.0 <= 65536;
        assert(0 <= ss.0 * ss.0 <= 0x1_0000_0000) by (nonlinear_arith)
            requires 0 <= ss.0 <= 65536;
        assert(0 <= mm.1 * mo.1 <= 0x1_0000_0000) by (nonlinear_arith)
            requires 0 <= mm.1 <= 65536, 0 <= mo.1 <= 65536;
        assert(0 <= mm.2 * mo.2 <= 0x1_0000_0000) by (nonlinear_arith)
            requires 0 <= mm.2 <= 65536, 0 <= mo.2 <= 65536;
        assert(0 <= ss.0 * ss.1 <= 0x1_0000_0000) by (nonlinear_arith)
            requires 0 <= ss.0 <= 65536, 0 <= ss.1 <= 65536;
    }
    let t1: i64 = (mo.0 * mm.0 + ss.0 * ss.0) / 65536;
    let gc: i64 = geo_exec(mm.1, mo.1);
    let gl: i64 = geo_exec(mm.2, mo.2);
    proof {
        assert(t1 * gc >= 0 && t1 * gc <= 0x2_0000 * 65536) by (nonlinear_arith)
            requires 0 <= t1 <= 0x2_0000, 0 <= gc <= 65536;
    }
    let x1: i64 = t1 * gc / 65536;
    proof {
        assert(x1 * gl >= 0 && x1 * gl <= 0x2_0000 * 65536) by (nonlinear_arith)
            requires 0 <= x1 <= 0x2_0000, 0 <= gl <= 65536;
    }
    let x: i64 = x1 * gl / 65536;
    let y1: i64 = ss.0 * ss.1 / 65536;
    proof {
        assert(y1 * ss.2 >= 0 && y1 * ss.2 <= 0x1_0000 * 65536) by (nonlinear_arith)
            requires 0 <= y1 <= 0x1_0000, 0 <= ss.2 <= 65536;
    }
    let y: i64 = y1 * ss.2 / 65536;
    let base: i128 = if x <= 0 || y <= 0 {
        -0x1_0000_0000_0000_0000_0000
    } else {
        let lx: i128 = logfp(x) as i128;
        let ly: i128 = logfp(y) as i128;
        proof {
            assert(0 <= (num as i128) * (num as i128) <= 0x1_0000_0000_0000_0000) by (nonlinear_arith)
                requires 0 <= num <= 0x1_0000_0000;
            assert(0 <= (den as i128) * (den as i128) <= 0x1_0000_0000_0000_0000) by (nonlinear_arith)
                requires 0 <= den <= 0x1_0000_0000;
        }
        let n2: i128 = (num as i128) * (num as i128);
        let d2: i128 = (den as i128) * (den as i128);
        proof {
            assert(0 <= n2 * lx <= 0x1_0000_0000_0000_0000 * 0x12_0000) by (nonlinear_arith)
                requires 0 <= n2 <= 0x1_0000_0000_0000_0000, 0 <= lx <= 0x12_0000;
            assert(0 <= d2 * ly <= 0x1_0000_0000_0000_0000 * 0x12_0000) by (nonlinear_arith)
                requires 0 <= d2 <= 0x1_0000_0000_0000_0000, 0 <= ly <= 0x12_0000;
        }
        n2 * lx + d2 * ly
    };
    base - (65536 - pen_str as i128)
}

/// The truncated geometric mean of two components.
fn geo_exec(u: i64, v: i64) -> (r: i64)
    requires
        0 <= u <= 65536,
        0 <= v <= 65536,
    ensures
        r == geo_s(u as int, v as int),
        0 <= r <= 65536,
{
    proof {
        assert(0 <= u * v <= 0x1_0000_0000) by (nonlinear_arith)
            requires 0 <= u <= 65536, 0 <= v <= 65536;
    }
    if u * v <= 0 {
        0
    } else {
        let g: u64 = crate::mask::isqrt((u * v) as u64);
        proof {
            crate::mask::lemma_isqrt_monotone((u * v) as nat, 0x1_0000_0000 as nat);
            crate::mask::lemma_isqrt_square(65536nat);
        }
        g as i64
    }
}


/// The descriptors of a window, computed once per matching step: the window
/// itself, its orientation and edge maps weighted by the inner mask, the
/// window weighted by the outer mask, and its mean color.
pub struct WindowDesc {
    pub img: Img,
    pub o_in: Img,
    pub m_in: Img,
    pub outer: Img,
    pub mean: crate::descriptor::MeanColor,
}

impl WindowDesc {
    /// The stored maps are exactly the masked descriptors of the stored
    /// window, and everything is sized and bounded for scoring.
    pub open spec fn wf(self) -> bool {
        &&& self.img.wf()
        &&& self.img@.raw8()
        &&& 1 <= self.img.width <= 0x100
        &&& 1 <= self.img.height <= 0x100
        &&& self.o_in@ == crate::mask::mask_view(crate::descriptor::orient_view(self.img@), true)
        &&& self.m_in@ == crate::mask::mask_view(crate::descriptor::edge_view(self.img@), true)
        &&& self.outer@ == crate::mask::mask_view(self.img@, false)
        &&& self.o_in.wf() && self.o_in.width == self.img.width && self.o_in.height == self.img.height
        &&& self.m_in.wf() && self.m_in.width == self.img.width && self.m_in.height == self.img.height
        &&& self.outer.wf() && self.outer.width == self.img.width && self.outer.height == self.img.height
        &&& self.mean.wf()
        &&& forall|c: int| 0 <= c < 4 ==> 0 <= #[trigger] self.mean.channel(c) < 256
        &&& forall|c: int| 0 <= c < 4 ==>
            #[trigger] self.mean.channel(c) == crate::descriptor::channel_sum(self.img@, c, self.img.width * self.img.height)
                / (self.img.width * self.img.height)
    }
}

/// Compute the descriptors of one window.
pub fn window_desc(win: Img) -> (r: WindowDesc)
    requires
        win.wf(),
        win@.raw8(),
        1 <= win.width <= 0x100,
        1 <= win.height <= 0x100,
    ensures
        r.wf(),
        r.img == win,
{
    proof {
        crate::img::lemma_raw8_bounded(win@);
        assert(win.width * win.height <= 0x1000_0000) by (nonlinear_arith)
            requires win.width <= 0x100, win.height <= 0x100;
    }
    let mean = crate::descriptor::mean_color(&win);
    let o = crate::descriptor::orientation_map(&win);
    let m = crate::descriptor::edge_map(&win);
    let o_in = crate::mask::apply_mask(&o, true);
    let m_in = crate::mask::apply_mask(&m, true);
    let outer = crate::mask::apply_mask(&win, false);
    WindowDesc { img: win, o_in, m_in, outer, mean }
}

/// The order key of a window against one tile: the three masked similarity
/// comparisons (orientation against orientation, edges against edges, outer
/// window against outer tile image) combined under the scale num/den, less
/// the raw structure deviation of the pair.
pub open spec fn tile_key_s(win: ImgView, timg: ImgView, to: ImgView, tm: ImgView, num: int, den: int) -> int {
    let wo = crate::mask::mask_view(crate::descriptor::orient_view(win), true);
    let wm = crate::mask::mask_view(crate::descriptor::edge_view(win), true);
    let wout = crate::mask::mask_view(win, false);
    let tin_o = crate::mask::mask_view(to, true);
    let tin_m = crate::mask::mask_view(tm, true);
    let tout = crate::mask::mask_view(timg, false);
    combine_key(
        ssim_str(wo.data, tin_o.data), ssim_con(wo.data, tin_o.data), ssim_lum(wo.data, tin_o.data),
        ssim_str(wm.data, tin_m.data), ssim_con(wm.data, tin_m.data), ssim_lum(wm.data, tin_m.data),
        ssim_str(wout.data, tout.data), ssim_con(wout.data, tout.data), ssim_lum(wout.data, tout.data),
        ssim_str(win.data, timg.data),
        num, den,
    )
}

/// Score one tile against a window's descriptors.
pub fn score_tile(wd: &WindowDesc, timg: &Img, to: &Img, tm: &Img, num: u32, den: u32) -> (r: i128)
    requires
        wd.wf(),
        timg.wf(),
        timg@.raw8(),
        timg.width == wd.img.width,
        timg.height == wd.img.height,
        to.wf(),
        to@.bounded(1024),
        to.width == wd.img.width,
        to.height == wd.img.height,
        tm.wf(),
        tm@.bounded(2048),
        tm.width == wd.img.width,
        tm.height == wd.img.height,
        num >= 1,
        den >= 1,
    ensures
        r == tile_key_s(wd.img@, timg@, to@, tm@, num as int, den as int),
{
    let w = wd.img.width;
    let h = wd.img.height;
    proof {
        crate::img::lemma_raw8_bounded(wd.img@);
        crate::img::lemma_raw8_bounded(timg@);
        assert(1 <= w * h * 4 <= 0x10_0000) by (nonlinear_arith)
            requires 1 <= w <= 0x100, 1 <= h <= 0x100;
        // every masked image stays within the scoring bound
        crate::descriptor::lemma_orient_view_bounded(wd.img@);
        crate::descriptor::lemma_edge_view_bounded(wd.img@, 256);
        crate::mask::lemma_mask_view_bounded(crate::descriptor::orient_view(wd.img@), true, 1024, 0x100);
        crate::mask::lemma_mask_view_bounded(crate::descriptor::edge_view(wd.img@), true, 2048, 0x100);
        crate::mask::lemma_mask_view_bounded(wd.img@, false, 256, 0x100);
        crate::mask::lemma_mask_view_bounded(to@, true, 1024, 0x100);
        crate::mask::lemma_mask_view_bounded(tm@, true, 2048, 0x100);
        crate::mask::lemma_mask_view_bounded(timg@, false, 256, 0x100);
        assert(crate::descriptor::orient_view(wd.img@).wf());
        assert(crate::descriptor::edge_view(wd.img@).wf());
    }
    let tin_o = crate::mask::apply_mask(to, true);
    let tin_m = crate::mask::apply_mask(tm, true);
    let tout = crate::mask::apply_mask(timg, false);
    let mo = ssim_parts(&wd.o_in, &tin_o);
    let mm = ssim_parts(&wd.m_in, &tin_m);
    let ss = ssim_parts(&wd.outer, &tout);
    let pen = ssim_parts(&wd.img, timg);
    combine_key_exec(mo, mm, ss, pen.0, num, den)
}


/// The truncated geometric mean of two unit-range components stays in range
/// and is exactly the unit on the unit pair.
proof fn lemma_geo_bounds(u: int, v: int)
    requires
        0 <= u <= fp(),
        0 <= v <= fp(),
    ensures
        0 <= geo_s(u, v) <= fp(),
        u == fp() && v == fp() ==> geo_s(u, v) == fp(),
{
    if u * v > 0 {
        assert(u * v <= fp() * fp()) by (nonlinear_arith)
            requires 0 <= u <= fp(), 0 <= v <= fp();
        crate::mask::lemma_isqrt_monotone((u * v) as nat, (fp() * fp()) as nat);
        crate::mask::lemma_isqrt_square(fp() as nat);
    }
    if u == fp() && v == fp() {
        assert(u * v == fp() * fp()) by (nonlinear_arith)
            requires u == fp(), v == fp();
        assert(u * v > 0) by (nonlinear_arith)
            requires u == fp(), v == fp();
        crate::mask::lemma_isqrt_square(fp() as nat);
    }
}

/// The local term of the key, from the structure components and the two
/// geometric means.
spec fn key_x(mo_s: int, mo_c: int, mo_l: int, mm_s: int, mm_c: int, mm_l: int, ss_s: int) -> int {
    (mo_s * mm_s + ss_s * ss_s) / 65536 * geo_s(mm_c, mo_c) / 65536 * geo_s(mm_l, mo_l) / 65536
}

/// The global term of the key.
spec fn key_y(ss_s: int, ss_c: int, ss_l: int) -> int {
    ss_s * ss_c / 65536 * ss_l / 65536
}

/// The key's two terms stay within twice the unit and the unit respectively,
/// and reach exactly those caps on all-unit components.
proof fn lemma_key_terms(mo_s: int, mo_c: int, mo_l: int, mm_s: int, mm_c: int, mm_l: int, ss_s: int, ss_c: int, ss_l: int)
    requires
        0 <= mo_s <= fp(), 0 <= mo_c <= fp(), 0 <= mo_l <= fp(),
        0 <= mm_s <= fp(), 0 <= mm_c <= fp(), 0 <= mm_l <= fp(),
        0 <= ss_s <= fp(), 0 <= ss_c <= fp(), 0 <= ss_l <= fp(),
    ensures
        0 <= key_x(mo_s, mo_c, mo_l, mm_s, mm_c, mm_l, ss_s) <= 2 * fp(),
        0 <= key_y(ss_s, ss_c, ss_l) <= fp(),
        mo_s == fp() && mo_c == fp() && mo_l == fp() && mm_s == fp() && mm_c == fp() && mm_l == fp() && ss_s == fp()
            ==> key_x(mo_s, mo_c, mo_l, mm_s, mm_c, mm_l, ss_s) == 2 * fp(),
        ss_s == fp() && ss_c == fp() && ss_l == fp() ==> key_y(ss_s, ss_c, ss_l) == fp(),
{
    lemma_geo_bounds(mm_c, mo_c);
    lemma_geo_bounds(mm_l, mo_l);
    let gc = geo_s(mm_c, mo_c);
    let gl = geo_s(mm_l, mo_l);
    let s = mo_s * mm_s + ss_s * ss_s;
    assert(0 <= s <= 2 * (fp() * fp())) by (nonlinear_arith)
        requires 0 <= mo_s <= fp(), 0 <= mm_s <= fp(), 0 <= ss_s <= fp(), s == mo_s * mm_s + ss_s * ss_s;
    let t1 = s / 65536;
    assert(0 <= t1 <= 2 * fp()) by (nonlinear_arith)
        requires 0 <= s <= 2 * (fp() * fp()), t1 == s / 65536;
    let x1 = t1 * gc / 65536;
    assert(0 <= t1 * gc <= (2 * fp()) * fp()) by (nonlinear_arith)
        requires 0 <= t1 <= 2 * fp(), 0 <= gc <= fp();
    assert(0 <= x1 <= 2 * fp()) by (nonlinear_arith)
        requires 0 <= t1 * gc <= (2 * fp()) * fp(), x1 == t1 * gc / 65536;
    assert(0 <= x1 * gl <= (2 * fp()) * fp()) by (nonlinear_arith)
        requires 0 <= x1 <= 2 * fp(), 0 <= gl <= fp();
    assert(0 <= x1 * gl / 65536 <= 2 * fp()) by (nonlinear_arith)
        requires 0 <= x1 * gl <= (2 * fp()) * fp();
    let y1 = ss_s * ss_c / 65536;
    assert(0 <= ss_s * ss_c <= fp() * fp()) by (nonlinear_arith)
        requires 0 <= ss_s <= fp(), 0 <= ss_c <= fp();
    assert(0 <= y1 <= fp()) by (nonlinear_arith)
        requires 0 <= ss_s * ss_c <= fp() * fp(), y1 == ss_s * ss_c / 65536;
    assert(0 <= y1 * ss_l <= fp() * fp()) by (nonlinear_arith)
        requires 0 <= y1 <= fp(), 0 <= ss_l <= fp();
    assert(0 <= y1 * ss_l / 65536 <= fp()) by (nonlinear_arith)
        requires 0 <= y1 * ss_l <= fp() * fp();
    if mo_s == fp() && mo_c == fp() && mo_l == fp() && mm_s == fp() && mm_c == fp() && mm_l == fp() && ss_s == fp() {
        assert(s == 2 * (fp() * fp())) by (nonlinear_arith)
            requires mo_s == fp(), mm_s == fp(), ss_s == fp(), s == mo_s * mm_s + ss_s * ss_s;
        assert(2 * (fp() * fp()) / 65536 == 2 * fp()) by (nonlinear_arith);
        assert((2 * fp()) * fp() / 65536 == 2 * fp()) by (nonlinear_arith);
    }
    if ss_s == fp() && ss_c == fp() && ss_l == fp() {
        assert(ss_s * ss_c == fp() * fp()) by (nonlinear_arith)
            requires ss_s == fp(), ss_c == fp();
        assert(fp() * fp() / 65536 == fp()) by (nonlinear_arith);
    }
}

/// No combination of unit-range components with any penalty orders above the
/// all-unit, zero-penalty combination.
proof fn lemma_combine_key_self_max(
    mo_s: int, mo_c: int, mo_l: int,
    mm_s: int, mm_c: int, mm_l: int,
    ss_s: int, ss_c: int, ss_l: int,
    pen_str: int, num: int, den: int,
)
    requires
        0 <= mo_s <= fp(), 0 <= mo_c <= fp(), 0 <= mo_l <= fp(),
        0 <= mm_s <= fp(), 0 <= mm_c <= fp(), 0 <= mm_l <= fp(),
        0 <= ss_s <= fp(), 0 <= ss_c <= fp(), 0 <= ss_l <= fp(),
        0 <= pen_str <= fp(),
        num >= 1,
        den >= 1,
    ensures
        combine_key(mo_s, mo_c, mo_l, mm_s, mm_c, mm_l, ss_s, ss_c, ss_l, pen_str, num, den)
            <= combine_key(fp(), fp(), fp(), fp(), fp(), fp(), fp(), fp(), fp(), fp(), num, den),
{
    lemma_key_terms(mo_s, mo_c, mo_l, mm_s, mm_c, mm_l, ss_s, ss_c, ss_l);
    lemma_key_terms(fp(), fp(), fp(), fp(), fp(), fp(), fp(), fp(), fp());
    let x = key_x(mo_s, mo_c, mo_l, mm_s, mm_c, mm_l, ss_s);
    let y = key_y(ss_s, ss_c, ss_l);
    let xs = key_x(fp(), fp(), fp(), fp(), fp(), fp(), fp());
    let ys = key_y(fp(), fp(), fp());
    assert(xs == 2 * fp() && ys == fp());
    lemma_logfp_monotone(1, 2 * fp());
    lemma_logfp_monotone(1, fp());
    let base_self = num * num * logfp_s(2 * fp()) + den * den * logfp_s(fp());
    assert(num * num >= 1 && den * den >= 1) by (nonlinear_arith)
        requires num >= 1, den >= 1;
    assert(num * num * logfp_s(2 * fp()) >= 0) by (nonlinear_arith)
        requires num * num >= 1, logfp_s(2 * fp()) >= 0;
    assert(den * den * logfp_s(fp()) >= 0) by (nonlinear_arith)
        requires den * den >= 1, logfp_s(fp()) >= 0;
    if x <= 0 || y <= 0 {
        assert(key_floor() - (65536 - pen_str) <= base_self);
    } else {
        lemma_logfp_monotone(x, 2 * fp());
        lemma_logfp_monotone(y, fp());
        assert(num * num * logfp_s(x) <= num * num * logfp_s(2 * fp())) by (nonlinear_arith)
            requires num * num >= 1, 0 <= logfp_s(x) <= logfp_s(2 * fp());
        assert(den * den * logfp_s(y) <= den * den * logfp_s(fp())) by (nonlinear_arith)
            requires den * den >= 1, 0 <= logfp_s(y) <= logfp_s(fp());
    }
}

/// Self-match at the key level: against any window, the key of a tile whose
/// image and descriptor maps are the window's own is at least the key of any
/// other tile of the same size.
pub proof fn lemma_tile_key_self_max(win: ImgView, timg: ImgView, to: ImgView, tm: ImgView, num: int, den: int)
    requires
        win.wf(),
        1 <= win.width,
        1 <= win.height,
        timg.wf(),
        timg.width == win.width,
        timg.height == win.height,
        to.wf(),
        to.width == win.width,
        to.height == win.height,
        tm.wf(),
        tm.width == win.width,
        tm.height == win.height,
        num >= 1,
        den >= 1,
    ensures
        tile_key_s(win, timg, to, tm, num, den)
            <= tile_key_s(win, win, crate::descriptor::orient_view(win), crate::descriptor::edge_view(win), num, den),
{
    let wo = crate::mask::mask_view(crate::descriptor::orient_view(win), true);
    let wm = crate::mask::mask_view(crate::descriptor::edge_view(win), true);
    let wout = crate::mask::mask_view(win, false);
    let tin_o = crate::mask::mask_view(to, true);
    let tin_m = crate::mask::mask_view(tm, true);
    let tout = crate::mask::mask_view(timg, false);
    assert(win.data.len() >= 1 && win.data.len() == timg.data.len() && win.data.len() == to.data.len()
        && win.data.len() == tm.data.len()) by (nonlinear_arith)
        requires
            win.wf(), timg.wf(), to.wf(), tm.wf(),
            win.width >= 1, win.height >= 1,
            timg.width == win.width, timg.height == win.height,
            to.width == win.width, to.height == win.height,
            tm.width == win.width, tm.height == win.height;
    lemma_ssim_bounds(wo.data, tin_o.data);
    lemma_ssim_bounds(wm.data, tin_m.data);
    lemma_ssim_bounds(wout.data, tout.data);
    lemma_ssim_bounds(win.data, timg.data);
    lemma_ssim_bounds(wo.data, wo.data);
    lemma_ssim_bounds(wm.data, wm.data);
    lemma_ssim_bounds(wout.data, wout.data);
    lemma_ssim_bounds(win.data, win.data);
    lemma_combine_key_self_max(
        ssim_str(wo.data, tin_o.data), ssim_con(wo.data, tin_o.data), ssim_lum(wo.data, tin_o.data),
        ssim_str(wm.data, tin_m.data), ssim_con(wm.data, tin_m.data), ssim_lum(wm.data, tin_m.data),
        ssim_str(wout.data, tout.data), ssim_con(wout.data, tout.data), ssim_lum(wout.data, tout.data),
        ssim_str(win.data, timg.data), num, den,
    );
}

} // verus!
