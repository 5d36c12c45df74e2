//! Preprocessing of captured frames before text recognition: luminance,
//! contrast stretch, and Otsu's threshold.
use vstd::prelude::*;

verus! {

/// Number of pixels of `s` whose value is at most `t`.
pub open spec fn count_le(s: Seq<u8>, t: int) -> nat
    decreases s.len(),
{
    if s.len() == 0 {
        0
    } else {
        count_le(s.drop_last(), t) + if s.last() as int <= t {
            1nat
        } else {
            0nat
        }
    }
}

/// Sum of the values of the pixels of `s` whose value is at most `t`.
pub open spec fn sum_le(s: Seq<u8>, t: int) -> nat
    decreases s.len(),
{
    if s.len() == 0 {
        0
    } else {
        sum_le(s.drop_last(), t) + if s.last() as int <= t {
            s.last() as nat
        } else {
            0nat
        }
    }
}

/// Number of pixels of `s` whose value is `v`.
pub open spec fn count_eq(s: Seq<u8>, v: int) -> nat
    decreases s.len(),
{
    if s.len() == 0 {
        0
    } else {
        count_eq(s.drop_last(), v) + if s.last() as int == v {
            1nat
        } else {
            0nat
        }
    }
}

/// Splitting at `t` (background `<= t`, foreground `> t`) leaves both classes non-empty.
pub open spec fn valid_split(s: Seq<u8>, t: int) -> bool {
    0 <= t < 256 && 0 < count_le(s, t) < s.len()
}

/// Background weight times foreground weight.
pub open spec fn class_weight(s: Seq<u8>, t: int) -> int {
    count_le(s, t) * (s.len() - count_le(s, t))
}

/// Background weight times foreground weight times the difference of the
/// class means.
pub open spec fn class_gap(s: Seq<u8>, t: int) -> int {
    sum_le(s, t) * s.len() - sum_le(s, 255) * count_le(s, t)
}

/// The between-class variance at `t1` exceeds that at `t2`. The variance at
/// `t` is `class_gap(t)^2 / class_weight(t)`.
pub open spec fn variance_gt(s: Seq<u8>, t1: int, t2: int) -> bool {
    class_gap(s, t1) * class_gap(s, t1) * class_weight(s, t2) > class_gap(s, t2) * class_gap(
        s,
        t2,
    ) * class_weight(s, t1)
}

/// `r` is Otsu's threshold for the pixels `s`: the lowest split of maximal
/// between-class variance, or zero when no split leaves both classes non-empty.
pub open spec fn is_otsu_threshold(s: Seq<u8>, r: int) -> bool {
    if exists|t: int| valid_split(s, t) {
        &&& valid_split(s, r)
        &&& forall|t: int| valid_split(s, t) ==> !variance_gt(s, t, r)
        &&& forall|t: int| valid_split(s, t) && t < r ==> variance_gt(s, r, t)
    } else {
        r == 0
    }
}

/// Whether `d1^2 / w1 > d2^2 / w2`, computed without overflow.
fn ratio_greater(d1: u128, w1: u128, d2: u128, w2: u128) -> (r: bool)
    requires
        0 < w1 < 0x4000_0000_0000_0000,
        0 < w2 < 0x4000_0000_0000_0000,
        d1 <= 255 * w1,
        d2 <= 255 * w2,
    ensures
        r == (d1 * d1 * w2 > d2 * d2 * w1),
{
    let q1 = d1 / w1;
    let r1 = d1 % w1;
    let q2 = d2 / w2;
    let r2 = d2 % w2;
    assert(q1 <= 255) by (nonlinear_arith)
        requires q1 == d1 / w1, d1 <= 255 * w1, w1 > 0;
    assert(q2 <= 255) by (nonlinear_arith)
        requires q2 == d2 / w2, d2 <= 255 * w2, w2 > 0;
    assert(r1 * r1 < 0x1000_0000_0000_0000_0000_0000_0000_0000) by (nonlinear_arith)
        requires r1 < w1, w1 < 0x4000_0000_0000_0000;
    assert(r2 * r2 < 0x1000_0000_0000_0000_0000_0000_0000_0000) by (nonlinear_arith)
        requires r2 < w2, w2 < 0x4000_0000_0000_0000;
    assert(q1 * d1 <= 255 * 255 * 0x4000_0000_0000_0000) by (nonlinear_arith)
        requires q1 <= 255, d1 <= 255 * w1, w1 < 0x4000_0000_0000_0000;
    assert(q2 * d2 <= 255 * 255 * 0x4000_0000_0000_0000) by (nonlinear_arith)
        requires q2 <= 255, d2 <= 255 * w2, w2 < 0x4000_0000_0000_0000;
    assert(r1 * q1 <= 255 * 0x4000_0000_0000_0000) by (nonlinear_arith)
        requires q1 <= 255, r1 < w1, w1 < 0x4000_0000_0000_0000;
    assert(r2 * q2 <= 255 * 0x4000_0000_0000_0000) by (nonlinear_arith)
        requires q2 <= 255, r2 < w2, w2 < 0x4000_0000_0000_0000;
    let sq1 = r1 * r1;
    let sq2 = r2 * r2;
    let a1 = q1 * d1 + r1 * q1 + sq1 / w1;
    let a2 = q2 * d2 + r2 * q2 + sq2 / w2;
    let m1 = sq1 % w1;
    let m2 = sq2 % w2;
    proof {
        lemma_square_split(d1 as int, w1 as int, q1 as int, r1 as int, a1 as int, m1 as int);
        lemma_square_split(d2 as int, w2 as int, q2 as int, r2 as int, a2 as int, m2 as int);
    }
    if a1 != a2 {
        proof {
            let (x1, x2) = (d1 * d1, d2 * d2);
            assert(d1 * d1 * w2 == x1 * w2 && d2 * d2 * w1 == x2 * w1);
            if a1 > a2 {
                lemma_compare_parts(a1 as int, m1 as int, w1 as int, a2 as int, m2 as int, w2 as int);
            } else {
                lemma_compare_parts(a2 as int, m2 as int, w2 as int, a1 as int, m1 as int, w1 as int);
            }
        }
        a1 > a2
    } else {
        assert(m1 * w2 < 0x1000_0000_0000_0000_0000_0000_0000_0000) by (nonlinear_arith)
            requires m1 < w1, w1 < 0x4000_0000_0000_0000, w2 < 0x4000_0000_0000_0000;
        assert(m2 * w1 < 0x1000_0000_0000_0000_0000_0000_0000_0000) by (nonlinear_arith)
            requires m2 < w2, w1 < 0x4000_0000_0000_0000, w2 < 0x4000_0000_0000_0000;
        proof {
            assert(d1 * d1 * w2 - d2 * d2 * w1 == m1 * w2 - m2 * w1) by (nonlinear_arith)
                requires
                    d1 * d1 == a1 * w1 + m1,
                    d2 * d2 == a2 * w2 + m2,
                    a1 == a2,
            ;
        }
        m1 * w2 > m2 * w1
    }
}

/// `d^2 = a * w + m` with `m < w`, where `d = q * w + r`.
proof fn lemma_square_split(d: int, w: int, q: int, r: int, a: int, m: int)
    requires
        w > 0,
        0 <= r,
        q == d / w,
        r == d % w,
        a == q * d + r * q + (r * r) / w,
        m == (r * r) % w,
    ensures
        d * d == a * w + m,
        0 <= m < w,
{
    vstd::arithmetic::div_mod::lemma_fundamental_div_mod(d, w);
    vstd::arithmetic::div_mod::lemma_fundamental_div_mod(r * r, w);
    vstd::arithmetic::div_mod::lemma_mod_bound(r * r, w);
    assert(d * d == (q * d + r * q) * w + r * r) by (nonlinear_arith)
        requires d == w * q + r;
    assert(d * d == a * w + m) by (nonlinear_arith)
        requires
            d * d == (q * d + r * q) * w + r * r,
            r * r == w * ((r * r) / w) + m,
            a == q * d + r * q + (r * r) / w,
    ;
}

/// With `m1 < w1` and `m2 < w2`, a larger whole part decides the comparison.
proof fn lemma_compare_parts(a1: int, m1: int, w1: int, a2: int, m2: int, w2: int)
    requires
        w1 > 0,
        w2 > 0,
        0 <= m1 < w1,
        0 <= m2 < w2,
        a1 > a2,
    ensures
        (a1 * w1 + m1) * w2 > (a2 * w2 + m2) * w1,
{
    assert((a1 * w1 + m1) * w2 - (a2 * w2 + m2) * w1 == (a1 - a2) * w1 * w2 + m1 * w2 - m2 * w1)
        by (nonlinear_arith);
    assert((a1 - a2) * w1 * w2 >= w1 * w2) by (nonlinear_arith)
        requires a1 - a2 >= 1, w1 > 0, w2 > 0;
    assert(m2 * w1 < w2 * w1) by (nonlinear_arith)
        requires m2 < w2, w1 > 0;
    assert(m1 * w2 >= 0) by (nonlinear_arith)
        requires m1 >= 0, w2 > 0;
}

proof fn lemma_counts_step(s: Seq<u8>, t: int)
    ensures
        count_le(s, t) == count_le(s, t - 1) + count_eq(s, t),
        sum_le(s, t) == sum_le(s, t - 1) + t * count_eq(s, t),
        count_le(s, -1) == 0,
        sum_le(s, -1) == 0,
        count_le(s, 255) == s.len(),
        count_eq(s, t) <= s.len(),
        sum_le(s, t) <= 255 * count_le(s, t),
        sum_le(s, 255) - sum_le(s, t) <= 255 * (s.len() - count_le(s, t)),
        count_le(s, t) <= s.len(),
        sum_le(s, t) <= sum_le(s, 255),
    decreases s.len(),
{
    if s.len() > 0 {
        lemma_counts_step(s.drop_last(), t);
        let e: int = if s.last() as int == t { 1 } else { 0 };
        assert(t * count_eq(s, t) == t * count_eq(s.drop_last(), t) + t * e) by (nonlinear_arith)
            requires count_eq(s, t) == count_eq(s.drop_last(), t) + e;
    }
}

proof fn lemma_count_eq_take(s: Seq<u8>, i: int, v: int)
    requires
        0 <= i < s.len(),
    ensures
        count_eq(s.take(i + 1), v) == count_eq(s.take(i), v) + if s[i] as int == v {
            1nat
        } else {
            0nat
        },
{
    assert(s.take(i + 1).drop_last() =~= s.take(i));
}

/// The gap is bounded by 255 times the weight, and the weight by `n^2 / 4`.
proof fn lemma_gap_bounds(bw: int, bs: int, n: int, total: int)
    requires
        0 < bw < n,
        n <= u32::MAX,
        0 <= bs <= 255 * bw,
        0 <= total - bs <= 255 * (n - bw),
    ensures
        bs * n - total * bw <= 255 * (bw * (n - bw)),
        total * bw - bs * n <= 255 * (bw * (n - bw)),
        0 < bw * (n - bw) < 0x4000_0000_0000_0000,
{
    let fw = n - bw;
    let fs = total - bs;
    assert(bs * n - total * bw == bs * fw - fs * bw) by (nonlinear_arith)
        requires fw == n - bw, fs == total - bs;
    assert(bs * fw <= 255 * (bw * fw)) by (nonlinear_arith)
        requires bs <= 255 * bw, fw > 0;
    assert(fs * bw <= 255 * (bw * fw)) by (nonlinear_arith)
        requires fs <= 255 * fw, bw > 0;
    assert(bs * fw >= 0) by (nonlinear_arith)
        requires bs >= 0, fw > 0;
    assert(fs * bw >= 0) by (nonlinear_arith)
        requires fs >= 0, bw > 0;
    assert(4 * (bw * fw) <= n * n) by (nonlinear_arith)
        requires fw == n - bw;
    assert(n * n <= 0xFFFF_FFFE_0000_0001) by (nonlinear_arith)
        requires 0 <= n <= 0xFFFF_FFFF;
    assert(bw * fw > 0) by (nonlinear_arith)
        requires bw > 0, fw > 0;
}

/// Otsu's threshold of the pixel values `pixels`.
pub fn otsu_threshold_of(pixels: &Vec<u8>) -> (r: u8)
    requires
        pixels@.len() <= u32::MAX,
    ensures
        is_otsu_threshold(pixels@, r as int),
{
    let ghost s = pixels@;
    let n = pixels.len() as u64;
    let mut histogram: Vec<u64> = Vec::new();
    let mut v: usize = 0;
    while v < 256
        invariant
            v <= 256,
            histogram@.len() == v,
            forall|k: int| 0 <= k < v ==> histogram@[k] == 0,
        decreases 256 - v,
    {
        histogram.push(0);
        v = v + 1;
    }
    assert forall|k: int| 0 <= k < 256 implies histogram@[k] == count_eq(s.take(0), k) by {}
    let mut i: usize = 0;
    while i < pixels.len()
        invariant
            i <= pixels.len(),
            s == pixels@,
            s.len() <= u32::MAX,
            histogram@.len() == 256,
            forall|k: int| 0 <= k < 256 ==> #[trigger] histogram@[k] == count_eq(s.take(i as int), k),
        decreases pixels.len() - i,
    {
        let p = pixels[i] as usize;
        proof {
            lemma_counts_step(s.take(i as int), p as int);
            assert forall|k: int| 0 <= k < 256 implies count_eq(s.take(i + 1), k) == count_eq(
                s.take(i as int),
                k,
            ) + if s[i as int] as int == k {
                1nat
            } else {
                0nat
            } by {
                lemma_count_eq_take(s, i as int, k);
            }
        }
        let c = histogram[p];
        histogram.set(p, c + 1);
        i = i + 1;
    }
    assert(s.take(i as int) =~= s);
    proof {
        lemma_counts_step(s, 0);
    }
    let mut total: u64 = 0;
    let mut t: usize = 0;
    while t < 256
        invariant
            t <= 256,
            s == pixels@,
            s.len() <= u32::MAX,
            histogram@.len() == 256,
            forall|k: int| 0 <= k < 256 ==> #[trigger] histogram@[k] == count_eq(s, k),
            total as nat == sum_le(s, t - 1),
        decreases 256 - t,
    {
        proof {
            lemma_counts_step(s, t as int);
            lemma_counts_step(s, 255);
            assert(t * count_eq(s, t as int) <= 255 * s.len()) by (nonlinear_arith)
                requires t <= 255, count_eq(s, t as int) <= s.len();
        }
        total = total + (t as u64) * histogram[t];
        t = t + 1;
    }
    let mut bw: u64 = 0;
    let mut bs: u64 = 0;
    let mut best: u8 = 0;
    let mut have_best = false;
    let mut best_d: u128 = 0;
    let mut best_w: u128 = 1;
    let mut t: usize = 0;
    while t < 256
        invariant
            t <= 256,
            s == pixels@,
            n == s.len(),
            s.len() <= u32::MAX,
            histogram@.len() == 256,
            forall|k: int| 0 <= k < 256 ==> #[trigger] histogram@[k] == count_eq(s, k),
            total as nat == sum_le(s, 255),
            bw as nat == count_le(s, t - 1),
            bs as nat == sum_le(s, t - 1),
            have_best ==> {
                &&& valid_split(s, best as int)
                &&& best_d * best_d == class_gap(s, best as int) * class_gap(s, best as int)
                &&& best_w == class_weight(s, best as int)
                &&& best_d <= 255 * best_w
                &&& 0 < best_w < 0x4000_0000_0000_0000
                &&& forall|u: int| 0 <= u < t && valid_split(s, u) ==> !variance_gt(s, u, best as int)
                &&& forall|u: int| 0 <= u < best && valid_split(s, u) ==> variance_gt(s, best as int, u)
            },
            !have_best ==> best == 0 && forall|u: int| 0 <= u < t ==> !valid_split(s, u),
        decreases 256 - t,
    {
        proof {
            lemma_counts_step(s, t as int);
            lemma_counts_step(s, 255);
            assert(t * count_eq(s, t as int) <= 255 * s.len()) by (nonlinear_arith)
                requires t <= 255, count_eq(s, t as int) <= s.len();
        }
        bw = bw + histogram[t];
        bs = bs + (t as u64) * histogram[t];
        if bw > 0 && bw < n {
            proof {
                lemma_gap_bounds(bw as int, bs as int, n as int, total as int);
                assert(bs * n <= 255 * 0xFFFF_FFFF * 0xFFFF_FFFF) by (nonlinear_arith)
                    requires bs <= total, total <= 255 * n, n <= 0xFFFF_FFFF;
                assert(total * bw <= 255 * 0xFFFF_FFFF * 0xFFFF_FFFF) by (nonlinear_arith)
                    requires bw <= n, total <= 255 * n, n <= 0xFFFF_FFFF;
            }
            let x = (bs as u128) * (n as u128);
            let y = (total as u128) * (bw as u128);
            let d: u128 = if x >= y { x - y } else { y - x };
            let w: u128 = (bw as u128) * ((n - bw) as u128);
            proof {
                assert(d * d == class_gap(s, t as int) * class_gap(s, t as int)) by (nonlinear_arith)
                    requires
                        d == x - y || d == y - x,
                        x == bs * n,
                        y == total * bw,
                        class_gap(s, t as int) == bs * s.len() - sum_le(s, 255) * bw,
                        total == sum_le(s, 255),
                        n == s.len(),
                ;
            }
            if !have_best || ratio_greater(d, w, best_d, best_w) {
                proof {
                    if have_best {
                        assert(variance_gt(s, t as int, best as int)) by (nonlinear_arith)
                            requires
                                d * d * best_w > best_d * best_d * w,
                                d * d == class_gap(s, t as int) * class_gap(s, t as int),
                                best_d * best_d == class_gap(s, best as int) * class_gap(s, best as int),
                                w == class_weight(s, t as int),
                                best_w == class_weight(s, best as int),
                        ;
                        assert forall|u: int| 0 <= u <= t && valid_split(s, u) implies !variance_gt(s, u, t as int) by {
                            if u < t {
                                lemma_variance_order(s, u, best as int, t as int);
                            }
                        }
                        assert forall|u: int| 0 <= u < t && valid_split(s, u) implies variance_gt(s, t as int, u) by {
                            lemma_variance_strict(s, u, best as int, t as int);
                        }
                    }
                }
                best = t as u8;
                best_d = d;
                best_w = w;
                have_best = true;
            } else {
                proof {
                    assert(!variance_gt(s, t as int, best as int)) by (nonlinear_arith)
                        requires
                            !(d * d * best_w > best_d * best_d * w),
                            d * d == class_gap(s, t as int) * class_gap(s, t as int),
                            best_d * best_d == class_gap(s, best as int) * class_gap(s, best as int),
                            w == class_weight(s, t as int),
                            best_w == class_weight(s, best as int),
                    ;
                }
            }
        }
        t = t + 1;
    }
    best
}

/// If `v(u) <= v(b)` and `v(t) > v(b)` then `v(u) <= v(t)`.
proof fn lemma_variance_order(s: Seq<u8>, u: int, b: int, t: int)
    requires
        valid_split(s, u),
        valid_split(s, b),
        valid_split(s, t),
        !variance_gt(s, u, b),
        variance_gt(s, t, b),
    ensures
        !variance_gt(s, u, t),
{
    lemma_weight_positive(s, u);
    lemma_weight_positive(s, b);
    lemma_weight_positive(s, t);
    let (gu, gb, gt) = (class_gap(s, u), class_gap(s, b), class_gap(s, t));
    let (wu, wb, wt) = (class_weight(s, u), class_weight(s, b), class_weight(s, t));
    assert(!(gu * gu * wt > gt * gt * wu)) by (nonlinear_arith)
        requires
            wu > 0,
            wb > 0,
            wt > 0,
            gu * gu * wb <= gb * gb * wu,
            gt * gt * wb > gb * gb * wt,
    {
        assert(gu * gu * wb * wt <= gb * gb * wu * wt) by (nonlinear_arith)
            requires gu * gu * wb <= gb * gb * wu, wt > 0;
        assert(gt * gt * wb * wu > gb * gb * wt * wu) by (nonlinear_arith)
            requires gt * gt * wb > gb * gb * wt, wu > 0;
        assert(gu * gu * wt * wb <= gt * gt * wu * wb);
    }
}

/// If `v(b) > v(u)` and `v(t) > v(b)` then `v(t) > v(u)`.
proof fn lemma_variance_strict(s: Seq<u8>, u: int, b: int, t: int)
    requires
        valid_split(s, u),
        valid_split(s, b),
        valid_split(s, t),
        u < b ==> variance_gt(s, b, u),
        u >= b ==> !variance_gt(s, u, b),
        variance_gt(s, t, b),
    ensures
        variance_gt(s, t, u),
{
    lemma_weight_positive(s, u);
    lemma_weight_positive(s, b);
    lemma_weight_positive(s, t);
    let (gu, gb, gt) = (class_gap(s, u), class_gap(s, b), class_gap(s, t));
    let (wu, wb, wt) = (class_weight(s, u), class_weight(s, b), class_weight(s, t));
    assert(gu * gu * wb <= gb * gb * wu);
    assert(gt * gt * wu > gu * gu * wt) by (nonlinear_arith)
        requires
            wu > 0,
            wb > 0,
            wt > 0,
            gu * gu * wb <= gb * gb * wu,
            gt * gt * wb > gb * gb * wt,
    {
        assert(gu * gu * wb * wt <= gb * gb * wu * wt) by (nonlinear_arith)
            requires gu * gu * wb <= gb * gb * wu, wt > 0;
        assert(gt * gt * wb * wu > gb * gb * wt * wu) by (nonlinear_arith)
            requires gt * gt * wb > gb * gb * wt, wu > 0;
        assert(gu * gu * wt * wb < gt * gt * wu * wb);
        assert(gu * gu * wt < gt * gt * wu) by (nonlinear_arith)
            requires gu * gu * wt * wb < gt * gt * wu * wb, wb > 0;
    }
}

proof fn lemma_weight_positive(s: Seq<u8>, t: int)
    requires
        valid_split(s, t),
    ensures
        class_weight(s, t) > 0,
{
    let a = count_le(s, t) as int;
    let b = s.len() - count_le(s, t);
    assert(a * b > 0) by (nonlinear_arith)
        requires a > 0, b > 0;
}

/// Otsu's threshold of `s` (unique: see [`lemma_otsu_unique`]).
pub open spec fn otsu_threshold(s: Seq<u8>) -> int {
    choose|t: int| is_otsu_threshold(s, t)
}

/// At most one value is Otsu's threshold.
pub proof fn lemma_otsu_unique(s: Seq<u8>, r1: int, r2: int)
    requires
        is_otsu_threshold(s, r1),
        is_otsu_threshold(s, r2),
    ensures
        r1 == r2,
{
    if exists|t: int| valid_split(s, t) {
        if r1 < r2 {
            assert(variance_gt(s, r2, r1));
            assert(!variance_gt(s, r2, r1));
        } else if r2 < r1 {
            assert(variance_gt(s, r1, r2));
            assert(!variance_gt(s, r1, r2));
        }
    }
}

/// The smallest value of `s` (255 when empty).
pub open spec fn seq_min(s: Seq<u8>) -> int
    decreases s.len(),
{
    if s.len() == 0 {
        255
    } else if (s.last() as int) < seq_min(s.drop_last()) {
        s.last() as int
    } else {
        seq_min(s.drop_last())
    }
}

/// The largest value of `s` (0 when empty).
pub open spec fn seq_max(s: Seq<u8>) -> int
    decreases s.len(),
{
    if s.len() == 0 {
        0
    } else if (s.last() as int) > seq_max(s.drop_last()) {
        s.last() as int
    } else {
        seq_max(s.drop_last())
    }
}

/// `v` mapped from `lo..=hi` onto `0..=255`, rounded to nearest (halves up).
pub open spec fn stretch_value(v: int, lo: int, hi: int) -> int {
    if hi > lo {
        (2 * (v - lo) * 255 + (hi - lo)) / (2 * (hi - lo))
    } else {
        v
    }
}

/// The pixels with their range stretched to `0..=255`; unchanged when all are equal.
pub open spec fn stretched(s: Seq<u8>) -> Seq<u8> {
    s.map_values(|v: u8| stretch_value(v as int, seq_min(s), seq_max(s)) as u8)
}

/// White (255) for pixels above `t`, black (0) for the rest.
pub open spec fn thresholded(s: Seq<u8>, t: int) -> Seq<u8> {
    s.map_values(|v: u8| if v as int > t { 255u8 } else { 0u8 })
}

/// Stretch, then threshold at Otsu's value for the stretched pixels.
pub open spec fn binarized(s: Seq<u8>) -> Seq<u8> {
    thresholded(stretched(s), otsu_threshold(stretched(s)))
}

proof fn lemma_min_max(s: Seq<u8>)
    ensures
        forall|i: int| 0 <= i < s.len() ==> seq_min(s) <= #[trigger] s[i] <= seq_max(s),
        0 <= seq_min(s) <= 255,
        0 <= seq_max(s) <= 255,
    decreases s.len(),
{
    if s.len() > 0 {
        lemma_min_max(s.drop_last());
        assert forall|i: int| 0 <= i < s.len() implies seq_min(s) <= #[trigger] s[i] <= seq_max(s) by {
            if i < s.len() - 1 {
                assert(s[i] == s.drop_last()[i]);
            }
        }
    }
}

/// Stretches the pixel values so that they span `0..=255`.
pub fn stretch_contrast(pixels: &Vec<u8>) -> (r: Vec<u8>)
    ensures
        r@ == stretched(pixels@),
{
    let ghost s = pixels@;
    let mut lo: u8 = 255;
    let mut hi: u8 = 0;
    let mut i: usize = 0;
    while i < pixels.len()
        invariant
            i <= pixels.len(),
            s == pixels@,
            lo as int == seq_min(s.take(i as int)),
            hi as int == seq_max(s.take(i as int)),
        decreases pixels.len() - i,
    {
        proof {
            assert(s.take(i + 1).drop_last() =~= s.take(i as int));
        }
        let v = pixels[i];
        if v < lo {
            lo = v;
        }
        if v > hi {
            hi = v;
        }
        i = i + 1;
    }
    assert(s.take(i as int) =~= s);
    proof {
        lemma_min_max(s);
    }
    let mut out: Vec<u8> = Vec::new();
    let mut k: usize = 0;
    while k < pixels.len()
        invariant
            k <= pixels.len(),
            s == pixels@,
            lo as int == seq_min(s),
            hi as int == seq_max(s),
            forall|i: int| 0 <= i < s.len() ==> lo <= #[trigger] s[i] <= hi,
            out@ =~= stretched(s).take(k as int),
        decreases pixels.len() - k,
    {
        let v = pixels[k];
        let nv: u8;
        if hi > lo {
            let num: u32 = 2 * ((v - lo) as u32) * 255 + ((hi - lo) as u32);
            let den: u32 = 2 * ((hi - lo) as u32);
            assert(num / den <= 255) by (nonlinear_arith)
                requires
                    num == 2 * (v - lo) * 255 + (hi - lo),
                    den == 2 * (hi - lo),
                    v <= hi,
                    hi > lo,
            {
                assert(num < 256 * den);
            }
            nv = (num / den) as u8;
        } else {
            nv = v;
        }
        out.push(nv);
        k = k + 1;
    }
    out
}

/// Each pixel above `t` becomes 255, every other pixel 0.
pub fn apply_threshold(pixels: &Vec<u8>, t: u8) -> (r: Vec<u8>)
    ensures
        r@ == thresholded(pixels@, t as int),
{
    let mut out: Vec<u8> = Vec::new();
    let mut k: usize = 0;
    while k < pixels.len()
        invariant
            k <= pixels.len(),
            out@ =~= thresholded(pixels@, t as int).take(k as int),
        decreases pixels.len() - k,
    {
        if pixels[k] > t {
            out.push(255);
        } else {
            out.push(0);
        }
        k = k + 1;
    }
    out
}

/// Otsu's threshold computed here agrees with the one specified.
proof fn lemma_is_the_threshold(s: Seq<u8>, r: int)
    requires
        is_otsu_threshold(s, r),
    ensures
        r == otsu_threshold(s),
{
    lemma_otsu_unique(s, r, otsu_threshold(s));
}

/// A single-channel image: one byte of luminance per pixel, row by row.
pub struct GrayFrame {
    width: u32,
    height: u32,
    pixels: Vec<u8>,
}

/// A four-channel (red, green, blue, alpha) image, row by row.
pub struct RgbaFrame {
    width: u32,
    height: u32,
    data: Vec<u8>,
}

impl View for GrayFrame {
    type V = Seq<u8>;

    closed spec fn view(&self) -> Seq<u8> {
        self.pixels@
    }
}

impl View for RgbaFrame {
    type V = Seq<u8>;

    closed spec fn view(&self) -> Seq<u8> {
        self.data@
    }
}

impl GrayFrame {
    #[verifier::type_invariant]
    closed spec fn inv(&self) -> bool {
        &&& self.pixels@.len() == self.width * self.height
        &&& self.width * self.height <= u32::MAX
    }

    pub closed spec fn spec_width(&self) -> nat {
        self.width as nat
    }

    pub closed spec fn spec_height(&self) -> nat {
        self.height as nat
    }

    /// A frame of `width` by `height` pixels; `None` unless `pixels` holds
    /// one byte per pixel and the pixel count fits in `u32`.
    pub fn new(width: u32, height: u32, pixels: Vec<u8>) -> (r: Option<Self>)
        ensures
            r is Some <==> pixels@.len() == width * height && width * height <= u32::MAX,
            r matches Some(f) ==> f@ == pixels@ && f.spec_width() == width && f.spec_height()
                == height,
    {
        assert((width as int) * (height as int) <= 0xFFFF_FFFE_0000_0001) by (nonlinear_arith)
            requires width <= 0xFFFF_FFFFu32, height <= 0xFFFF_FFFFu32;
        let count = (width as u64) * (height as u64);
        assert(4 * width * height == 4 * (width * height)) by (nonlinear_arith);
        if count <= u32::MAX as u64 && pixels.len() as u64 == count {
            Some(GrayFrame { width, height, pixels })
        } else {
            None
        }
    }

    pub fn width(&self) -> (r: u32)
        ensures
            r == self.spec_width(),
    {
        self.width
    }

    pub fn height(&self) -> (r: u32)
        ensures
            r == self.spec_height(),
    {
        self.height
    }

    pub fn pixels(&self) -> (r: &Vec<u8>)
        ensures
            r@ == self@,
            r@.len() == self.spec_width() * self.spec_height(),
            r@.len() <= u32::MAX,
    {
        proof {
            use_type_invariant(self);
        }
        &self.pixels
    }
}

impl RgbaFrame {
    #[verifier::type_invariant]
    closed spec fn inv(&self) -> bool {
        &&& self.data@.len() == 4 * self.width * self.height
        &&& self.width * self.height <= u32::MAX
    }

    pub closed spec fn spec_width(&self) -> nat {
        self.width as nat
    }

    pub closed spec fn spec_height(&self) -> nat {
        self.height as nat
    }

    /// A frame of `width` by `height` pixels; `None` unless `data` holds four
    /// bytes per pixel and the pixel count fits in `u32`.
    pub fn new(width: u32, height: u32, data: Vec<u8>) -> (r: Option<Self>)
        ensures
            r is Some <==> data@.len() == 4 * width * height && width * height <= u32::MAX,
            r matches Some(f) ==> f@ == data@ && f.spec_width() == width && f.spec_height()
                == height,
    {
        assert((width as int) * (height as int) <= 0xFFFF_FFFE_0000_0001) by (nonlinear_arith)
            requires width <= 0xFFFF_FFFFu32, height <= 0xFFFF_FFFFu32;
        let count = (width as u64) * (height as u64);
        assert(4 * width * height == 4 * (width * height)) by (nonlinear_arith);
        if count <= u32::MAX as u64 && data.len() as u64 == 4 * count {
            Some(RgbaFrame { width, height, data })
        } else {
            None
        }
    }

    pub fn width(&self) -> (r: u32)
        ensures
            r == self.spec_width(),
    {
        self.width
    }

    pub fn height(&self) -> (r: u32)
        ensures
            r == self.spec_height(),
    {
        self.height
    }

    pub fn data(&self) -> (r: &Vec<u8>)
        ensures
            r@ == self@,
    {
        &self.data
    }
}

/// What `image` computes as the 8-bit luminance of each RGBA pixel of `rgba`.
pub uninterp spec fn luma_of(rgba: Seq<u8>) -> Seq<u8>;

/// Relies on image's `DynamicImage::to_luma8`: one luminance byte per pixel,
/// depending on the pixel bytes alone. `RgbaImage::from_raw` accepts the
/// buffer, whose length is four bytes per pixel.
#[verifier::external_body]
fn luma_pixels(width: u32, height: u32, rgba: &Vec<u8>) -> (r: Vec<u8>)
    requires
        rgba@.len() == 4 * width * height,
    ensures
        r@ == luma_of(rgba@),
        r@.len() == width * height,
{
    let buffer = image::RgbaImage::from_raw(width, height, rgba.clone()).unwrap();
    image::DynamicImage::ImageRgba8(buffer).to_luma8().into_raw()
}

/// The luminance image of `frame`.
pub fn to_grayscale(frame: &RgbaFrame) -> (r: GrayFrame)
    ensures
        r@ == luma_of(frame@),
        r.spec_width() == frame.spec_width(),
        r.spec_height() == frame.spec_height(),
{
    proof {
        use_type_invariant(frame);
    }
    let pixels = luma_pixels(frame.width, frame.height, &frame.data);
    GrayFrame { width: frame.width, height: frame.height, pixels }
}

/// Otsu's threshold of a grayscale frame.
pub fn calculate_otsu_threshold(grayscale: &GrayFrame) -> (r: u8)
    ensures
        r as int == otsu_threshold(grayscale@),
{
    let r = otsu_threshold_of(grayscale.pixels());
    proof {
        lemma_is_the_threshold(grayscale@, r as int);
    }
    r
}

/// Stretches the contrast of a grayscale frame and turns it black and white
/// at Otsu's threshold.
pub fn binarize_gray(gray: &GrayFrame) -> (r: GrayFrame)
    ensures
        r@ == binarized(gray@),
        r.spec_width() == gray.spec_width(),
        r.spec_height() == gray.spec_height(),
{
    let pixels = gray.pixels();
    let stretched_pixels = stretch_contrast(pixels);
    let t = otsu_threshold_of(&stretched_pixels);
    proof {
        lemma_is_the_threshold(stretched_pixels@, t as int);
    }
    let out = apply_threshold(&stretched_pixels, t);
    GrayFrame { width: gray.width(), height: gray.height(), pixels: out }
}

/// The black-and-white image handed to text recognition: luminance,
/// contrast stretch, then Otsu's threshold. Same dimensions as `image`.
pub fn preprocess_image(image: &RgbaFrame) -> (r: GrayFrame)
    ensures
        r@ == binarized(luma_of(image@)),
        r.spec_width() == image.spec_width(),
        r.spec_height() == image.spec_height(),
{
    let gray = to_grayscale(image);
    binarize_gray(&gray)
}

proof fn lemma_uniform_counts(s: Seq<u8>, c: u8, t: int)
    requires
        forall|i: int| 0 <= i < s.len() ==> s[i] == c,
    ensures
        count_le(s, t) == if c as int <= t { s.len() } else { 0 },
        s.len() > 0 ==> seq_min(s) == c && seq_max(s) == c,
    decreases s.len(),
{
    if s.len() > 0 {
        assert forall|i: int| 0 <= i < s.len() - 1 implies s.drop_last()[i] == c by {
            assert(s.drop_last()[i] == s[i]);
        }
        lemma_uniform_counts(s.drop_last(), c, t);
        assert(s.last() == s[s.len() - 1]);
        if s.len() == 1 {
            assert(seq_min(s.drop_last()) == 255);
            assert(seq_max(s.drop_last()) == 0);
        }
    }
}

/// On a frame of one value, stretching changes nothing, no split leaves
/// both classes non-empty so the threshold is zero, and the result is all
/// white (or all black when the value is zero).
pub proof fn lemma_uniform_frame(s: Seq<u8>, c: u8)
    requires
        forall|i: int| 0 <= i < s.len() ==> s[i] == c,
    ensures
        stretched(s) == s,
        otsu_threshold(s) == 0,
        binarized(s) == Seq::new(s.len(), |i: int| if c > 0 { 255u8 } else { 0u8 }),
{
    lemma_uniform_counts(s, c, 0);
    assert(stretched(s) =~= s);
    assert forall|t: int| !valid_split(s, t) by {
        lemma_uniform_counts(s, c, t);
    }
    assert(is_otsu_threshold(s, 0));
    lemma_is_the_threshold(s, 0);
    assert(binarized(s) =~= Seq::new(s.len(), |i: int| if c > 0 { 255u8 } else { 0u8 }));
}

proof fn lemma_two_value_counts(s: Seq<u8>, a: u8, b: u8, t: int)
    requires
        a < b,
        forall|i: int| 0 <= i < s.len() ==> s[i] == a || s[i] == b,
    ensures
        t < a ==> count_le(s, t) == 0,
        a <= t < b ==> count_le(s, t) == count_eq(s, a as int),
        b <= t ==> count_le(s, t) == s.len(),
        count_eq(s, a as int) <= s.len(),
        (exists|i: int| 0 <= i < s.len() && s[i] == a) ==> count_eq(s, a as int) > 0,
        (exists|i: int| 0 <= i < s.len() && s[i] == b) ==> count_eq(s, a as int) < s.len(),
    decreases s.len(),
{
    if s.len() > 0 {
        let d = s.drop_last();
        assert forall|i: int| 0 <= i < d.len() implies d[i] == a || d[i] == b by {
            assert(d[i] == s[i]);
        }
        lemma_two_value_counts(d, a, b, t);
        assert(s.last() == s[s.len() - 1]);
        if exists|i: int| 0 <= i < s.len() && s[i] == a {
            let i = choose|i: int| 0 <= i < s.len() && s[i] == a;
            if i < d.len() {
                assert(d[i] == s[i]);
            }
        }
        if exists|i: int| 0 <= i < s.len() && s[i] == b {
            let i = choose|i: int| 0 <= i < s.len() && s[i] == b;
            if i < d.len() {
                assert(d[i] == s[i]);
            }
        }
    }
}

/// On pixels of exactly two values `a < b`, both present, Otsu's threshold
/// separates them: `a <= t < b`, so `a` goes black and `b` white.
pub proof fn lemma_two_value_threshold(s: Seq<u8>, a: u8, b: u8)
    requires
        a < b,
        forall|i: int| 0 <= i < s.len() ==> s[i] == a || s[i] == b,
        exists|i: int| 0 <= i < s.len() && s[i] == a,
        exists|i: int| 0 <= i < s.len() && s[i] == b,
    ensures
        a <= otsu_threshold(s) < b,
{
    lemma_two_value_counts(s, a, b, a as int);
    assert(valid_split(s, a as int));
    let r = otsu_threshold(s);
    lemma_otsu_exists(s);
    lemma_two_value_counts(s, a, b, r);
}

/// The lowest split below `t` of maximal variance among those below `t`, or -1.
spec fn best_below(s: Seq<u8>, t: int) -> int
    decreases t,
{
    if t <= 0 {
        -1
    } else {
        let b = best_below(s, t - 1);
        if valid_split(s, t - 1) && (b < 0 || variance_gt(s, t - 1, b)) {
            t - 1
        } else {
            b
        }
    }
}

proof fn lemma_best_below(s: Seq<u8>, t: int)
    requires
        0 <= t <= 256,
    ensures
        best_below(s, t) == -1 ==> forall|u: int| 0 <= u < t ==> !valid_split(s, u),
        best_below(s, t) != -1 ==> {
            let b = best_below(s, t);
            &&& 0 <= b < t
            &&& valid_split(s, b)
            &&& forall|u: int| 0 <= u < t && valid_split(s, u) ==> !variance_gt(s, u, b)
            &&& forall|u: int| 0 <= u < b && valid_split(s, u) ==> variance_gt(s, b, u)
        },
    decreases t,
{
    if t > 0 {
        lemma_best_below(s, t - 1);
        let b = best_below(s, t - 1);
        let c = t - 1;
        if valid_split(s, c) && b >= 0 && variance_gt(s, c, b) {
            assert forall|u: int| 0 <= u < t && valid_split(s, u) implies !variance_gt(s, u, c) by {
                if u < c {
                    lemma_variance_order(s, u, b, c);
                } else {
                    lemma_weight_positive(s, c);
                    assert(!(class_gap(s, c) * class_gap(s, c) * class_weight(s, c) > class_gap(s, c)
                        * class_gap(s, c) * class_weight(s, c)));
                }
            }
            assert forall|u: int| 0 <= u < c && valid_split(s, u) implies variance_gt(s, c, u) by {
                lemma_variance_strict(s, u, b, c);
            }
        } else if valid_split(s, c) && b < 0 {
            assert forall|u: int| 0 <= u < t && valid_split(s, u) implies !variance_gt(s, u, c) by {
                assert(u == c);
                assert(!(class_gap(s, c) * class_gap(s, c) * class_weight(s, c) > class_gap(s, c)
                    * class_gap(s, c) * class_weight(s, c)));
            }
        }
    }
}

/// Every pixel sequence has an Otsu threshold.
pub proof fn lemma_otsu_exists(s: Seq<u8>)
    ensures
        is_otsu_threshold(s, otsu_threshold(s)),
{
    lemma_best_below(s, 256);
    let b = best_below(s, 256);
    if b >= 0 {
        assert(is_otsu_threshold(s, b));
    } else {
        assert(is_otsu_threshold(s, 0));
    }
}

} // verus!
