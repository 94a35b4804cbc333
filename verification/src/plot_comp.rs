//! Statistics over several composition tables at one position: the
//! per-base mean, and the per-base sample standard deviation used for
//! error bars when libraries are compared.

use vstd::prelude::*;

verus! {

use crate::{BaseCompCol, BaseCompColBases};

/// Componentwise sums of the five base values at position `pos`
/// across all tables.
pub open spec fn mean_sums(libs: Seq<Vec<BaseCompCol>>, pos: int) -> (int, int, int, int, int)
    decreases libs.len(),
{
    if libs.len() == 0 {
        (0, 0, 0, 0, 0)
    } else {
        let t = mean_sums(libs.drop_last(), pos);
        let h = libs.last()@[pos].bases;
        (t.0 + h.A, t.1 + h.T, t.2 + h.G, t.3 + h.C, t.4 + h.N)
    }
}

pub open spec fn abs_diff(a: int, b: int) -> int {
    if a >= b {
        a - b
    } else {
        b - a
    }
}

/// Componentwise sums of the squared deviations from `mean` of the
/// five base values at position `pos` across all tables.
pub open spec fn sq_dev_sums(libs: Seq<Vec<BaseCompCol>>, mean: BaseCompColBases, pos: int) -> (
    int,
    int,
    int,
    int,
    int,
)
    decreases libs.len(),
{
    if libs.len() == 0 {
        (0, 0, 0, 0, 0)
    } else {
        let t = sq_dev_sums(libs.drop_last(), mean, pos);
        let h = libs.last()@[pos].bases;
        (
            t.0 + abs_diff(h.A as int, mean.A as int) * abs_diff(h.A as int, mean.A as int),
            t.1 + abs_diff(h.T as int, mean.T as int) * abs_diff(h.T as int, mean.T as int),
            t.2 + abs_diff(h.G as int, mean.G as int) * abs_diff(h.G as int, mean.G as int),
            t.3 + abs_diff(h.C as int, mean.C as int) * abs_diff(h.C as int, mean.C as int),
            t.4 + abs_diff(h.N as int, mean.N as int) * abs_diff(h.N as int, mean.N as int),
        )
    }
}

/// `r` is the integer nearest to the square root of `x`: the interval
/// `[r - 1/2, r + 1/2)` contains `sqrt(x)`, stated multiplied out.
/// Exactly one `r` satisfies this for each `x >= 0`.
pub open spec fn is_round_sqrt(x: int, r: int) -> bool {
    &&& 0 <= r
    &&& (r == 0 || (2 * r - 1) * (2 * r - 1) <= 4 * x)
    &&& 4 * x < (2 * r + 1) * (2 * r + 1)
}

/// No two integers both round-approximate the square root of `x`.
pub proof fn lemma_round_sqrt_unique(x: int, r1: int, r2: int)
    requires
        is_round_sqrt(x, r1),
        is_round_sqrt(x, r2),
    ensures
        r1 == r2,
{
    assert(r1 == r2) by (nonlinear_arith)
        requires
            0 <= r1 && (r1 == 0 || (2 * r1 - 1) * (2 * r1 - 1) <= 4 * x) && 4 * x < (2 * r1 + 1)
                * (2 * r1 + 1) && 0 <= r2 && (r2 == 0 || (2 * r2 - 1) * (2 * r2 - 1) <= 4 * x)
                && 4 * x < (2 * r2 + 1) * (2 * r2 + 1);
}

proof fn lemma_mean_sums_mono(libs: Seq<Vec<BaseCompCol>>, pos: int, i: int)
    requires
        0 <= i <= libs.len(),
    ensures
        0 <= mean_sums(libs.take(i), pos).0 <= mean_sums(libs, pos).0,
        0 <= mean_sums(libs.take(i), pos).1 <= mean_sums(libs, pos).1,
        0 <= mean_sums(libs.take(i), pos).2 <= mean_sums(libs, pos).2,
        0 <= mean_sums(libs.take(i), pos).3 <= mean_sums(libs, pos).3,
        0 <= mean_sums(libs.take(i), pos).4 <= mean_sums(libs, pos).4,
    decreases libs.len() - i,
{
    if i == libs.len() {
        assert(libs.take(i) =~= libs);
        lemma_mean_sums_nonneg(libs, pos);
    } else {
        lemma_mean_sums_mono(libs, pos, i + 1);
        lemma_mean_sums_nonneg(libs.take(i), pos);
        assert(libs.take(i + 1).drop_last() =~= libs.take(i));
        assert(libs.take(i + 1).last() == libs[i]);
    }
}

proof fn lemma_mean_sums_nonneg(libs: Seq<Vec<BaseCompCol>>, pos: int)
    ensures
        0 <= mean_sums(libs, pos).0,
        0 <= mean_sums(libs, pos).1,
        0 <= mean_sums(libs, pos).2,
        0 <= mean_sums(libs, pos).3,
        0 <= mean_sums(libs, pos).4,
    decreases libs.len(),
{
    if libs.len() > 0 {
        lemma_mean_sums_nonneg(libs.drop_last(), pos);
    }
}

proof fn lemma_sq_sums_mono(libs: Seq<Vec<BaseCompCol>>, mean: BaseCompColBases, pos: int, i: int)
    requires
        0 <= i <= libs.len(),
    ensures
        0 <= sq_dev_sums(libs.take(i), mean, pos).0 <= sq_dev_sums(libs, mean, pos).0,
        0 <= sq_dev_sums(libs.take(i), mean, pos).1 <= sq_dev_sums(libs, mean, pos).1,
        0 <= sq_dev_sums(libs.take(i), mean, pos).2 <= sq_dev_sums(libs, mean, pos).2,
        0 <= sq_dev_sums(libs.take(i), mean, pos).3 <= sq_dev_sums(libs, mean, pos).3,
        0 <= sq_dev_sums(libs.take(i), mean, pos).4 <= sq_dev_sums(libs, mean, pos).4,
    decreases libs.len() - i,
{
    if i == libs.len() {
        assert(libs.take(i) =~= libs);
        lemma_sq_sums_nonneg(libs, mean, pos);
    } else {
        lemma_sq_sums_mono(libs, mean, pos, i + 1);
        lemma_sq_sums_nonneg(libs.take(i), mean, pos);
        assert(libs.take(i + 1).drop_last() =~= libs.take(i));
        assert(libs.take(i + 1).last() == libs[i]);
        let h = libs[i]@[pos].bases;
        assert(abs_diff(h.A as int, mean.A as int) * abs_diff(h.A as int, mean.A as int) >= 0)
            by (nonlinear_arith);
        assert(abs_diff(h.T as int, mean.T as int) * abs_diff(h.T as int, mean.T as int) >= 0)
            by (nonlinear_arith);
        assert(abs_diff(h.G as int, mean.G as int) * abs_diff(h.G as int, mean.G as int) >= 0)
            by (nonlinear_arith);
        assert(abs_diff(h.C as int, mean.C as int) * abs_diff(h.C as int, mean.C as int) >= 0)
            by (nonlinear_arith);
        assert(abs_diff(h.N as int, mean.N as int) * abs_diff(h.N as int, mean.N as int) >= 0)
            by (nonlinear_arith);
    }
}

proof fn lemma_sq_sums_nonneg(libs: Seq<Vec<BaseCompCol>>, mean: BaseCompColBases, pos: int)
    ensures
        0 <= sq_dev_sums(libs, mean, pos).0,
        0 <= sq_dev_sums(libs, mean, pos).1,
        0 <= sq_dev_sums(libs, mean, pos).2,
        0 <= sq_dev_sums(libs, mean, pos).3,
        0 <= sq_dev_sums(libs, mean, pos).4,
    decreases libs.len(),
{
    if libs.len() > 0 {
        lemma_sq_sums_nonneg(libs.drop_last(), mean, pos);
        let h = libs.last()@[pos].bases;
        assert(abs_diff(h.A as int, mean.A as int) * abs_diff(h.A as int, mean.A as int) >= 0)
            by (nonlinear_arith);
        assert(abs_diff(h.T as int, mean.T as int) * abs_diff(h.T as int, mean.T as int) >= 0)
            by (nonlinear_arith);
        assert(abs_diff(h.G as int, mean.G as int) * abs_diff(h.G as int, mean.G as int) >= 0)
            by (nonlinear_arith);
        assert(abs_diff(h.C as int, mean.C as int) * abs_diff(h.C as int, mean.C as int) >= 0)
            by (nonlinear_arith);
        assert(abs_diff(h.N as int, mean.N as int) * abs_diff(h.N as int, mean.N as int) >= 0)
            by (nonlinear_arith);
    }
}

/// Whether `a * a <= b`, computed wide of any overflow.
fn sq_le(a: u128, b: u128) -> (r: bool)
    requires
        a <= 0x400000000u128,
    ensures
        r == (a * a <= b),
{
    proof {
        assert(a * a <= 0x10000000000000000u128 * 16) by (nonlinear_arith)
            requires a <= 0x400000000u128;
    }
    a * a <= b
}

/// The integer nearest to the square root of `x`.
fn sqrt_round(x: usize) -> (r: usize)
    ensures
        is_round_sqrt(x as int, r as int),
{
    let x128 = x as u128;
    let mut s: u128 = 0;
    while sq_le(s + 1, x128)
        invariant
            x128 == x as u128,
            s * s <= x128,
            s <= 0x100000000u128,
        decreases x128 - s,
    {
        s = s + 1;
        proof {
            assert(s <= 0x100000000u128) by (nonlinear_arith)
                requires s * s <= x128 && x128 <= 0xffffffffffffffffu128;
            assert(s <= x128) by (nonlinear_arith)
                requires s * s <= x128 && s >= 1;
        }
    }
    // s is the floor of the square root; choose between s and s + 1.
    let fourx: u128 = 4 * x128;
    let cand: u128 = 2 * s + 1;
    let r128: u128 = if sq_le(cand, fourx) {
        s + 1
    } else {
        s
    };
    proof {
        let si = s as int;
        let xi = x as int;
        let ri = r128 as int;
        assert(si * si <= xi);
        assert(xi < (si + 1) * (si + 1));
        if (2 * si + 1) * (2 * si + 1) <= 4 * xi {
            assert(ri == si + 1);
            assert(4 * xi < (2 * ri + 1) * (2 * ri + 1)) by (nonlinear_arith)
                requires xi < (si + 1) * (si + 1) && ri == si + 1 && si >= 0;
        } else {
            assert(ri == si);
            if si > 0 {
                assert((2 * si - 1) * (2 * si - 1) <= 4 * xi) by (nonlinear_arith)
                    requires si * si <= xi && si >= 1;
            }
        }
        // The result fits a usize because it never exceeds max(1, x).
        if ri >= 2 {
            assert(ri <= xi) by (nonlinear_arith)
                requires (2 * ri - 1) * (2 * ri - 1) <= 4 * xi && ri >= 2;
        }
    }
    r128 as usize
}

/// The componentwise mean of the base values at position `pos` across
/// the given tables (integer division). The totals are accumulated
/// in machine words, so each componentwise total must fit one.
pub fn calc_mean(libs: &Vec<Vec<BaseCompCol>>, pos: usize) -> (r: BaseCompColBases)
    requires
        libs@.len() >= 1,
        forall|l: int| 0 <= l < libs@.len() ==> pos < (#[trigger] libs@[l])@.len(),
        mean_sums(libs@, pos as int).0 <= usize::MAX,
        mean_sums(libs@, pos as int).1 <= usize::MAX,
        mean_sums(libs@, pos as int).2 <= usize::MAX,
        mean_sums(libs@, pos as int).3 <= usize::MAX,
        mean_sums(libs@, pos as int).4 <= usize::MAX,
    ensures
        r.A == mean_sums(libs@, pos as int).0 / libs@.len() as int,
        r.T == mean_sums(libs@, pos as int).1 / libs@.len() as int,
        r.G == mean_sums(libs@, pos as int).2 / libs@.len() as int,
        r.C == mean_sums(libs@, pos as int).3 / libs@.len() as int,
        r.N == mean_sums(libs@, pos as int).4 / libs@.len() as int,
{
    let n = libs.len();
    let mut sa: usize = 0;
    let mut st: usize = 0;
    let mut sg: usize = 0;
    let mut sc: usize = 0;
    let mut sn: usize = 0;
    let mut i: usize = 0;
    while i < n
        invariant
            n == libs@.len(),
            i <= n,
            forall|l: int| 0 <= l < libs@.len() ==> pos < (#[trigger] libs@[l])@.len(),
            mean_sums(libs@, pos as int).0 <= usize::MAX,
            mean_sums(libs@, pos as int).1 <= usize::MAX,
            mean_sums(libs@, pos as int).2 <= usize::MAX,
            mean_sums(libs@, pos as int).3 <= usize::MAX,
            mean_sums(libs@, pos as int).4 <= usize::MAX,
            sa == mean_sums(libs@.take(i as int), pos as int).0,
            st == mean_sums(libs@.take(i as int), pos as int).1,
            sg == mean_sums(libs@.take(i as int), pos as int).2,
            sc == mean_sums(libs@.take(i as int), pos as int).3,
            sn == mean_sums(libs@.take(i as int), pos as int).4,
        decreases n - i,
    {
        proof {
            lemma_mean_sums_mono(libs@, pos as int, i as int + 1);
            assert(libs@.take(i as int + 1).drop_last() =~= libs@.take(i as int));
            assert(libs@.take(i as int + 1).last() == libs@[i as int]);
        }
        let lib: &Vec<BaseCompCol> = &libs[i];
        let b = lib[pos].bases;
        sa = sa + b.A;
        st = st + b.T;
        sg = sg + b.G;
        sc = sc + b.C;
        sn = sn + b.N;
        i = i + 1;
    }
    proof {
        assert(libs@.take(n as int) =~= libs@);
    }
    BaseCompColBases { A: sa / n, T: st / n, G: sg / n, C: sc / n, N: sn / n }
}

/// The componentwise sample standard deviation of the base values at
/// position `pos` across the given tables, against the given mean:
/// the squared deviations are summed, divided by one less than the
/// number of tables (variance of a sample; by the count itself when
/// there is only one), and rounded square roots are taken. The
/// totals are accumulated in machine words, so each componentwise
/// total must fit one.
pub fn calc_sd(libs: &Vec<Vec<BaseCompCol>>, mean: BaseCompColBases, pos: usize) -> (r:
    BaseCompColBases)
    requires
        forall|l: int| 0 <= l < libs@.len() ==> pos < (#[trigger] libs@[l])@.len(),
        sq_dev_sums(libs@, mean, pos as int).0 <= usize::MAX,
        sq_dev_sums(libs@, mean, pos as int).1 <= usize::MAX,
        sq_dev_sums(libs@, mean, pos as int).2 <= usize::MAX,
        sq_dev_sums(libs@, mean, pos as int).3 <= usize::MAX,
        sq_dev_sums(libs@, mean, pos as int).4 <= usize::MAX,
    ensures
        ({
            let d = if libs@.len() > 1 {
                libs@.len() as int - 1
            } else {
                1int
            };
            &&& is_round_sqrt(sq_dev_sums(libs@, mean, pos as int).0 / d, r.A as int)
            &&& is_round_sqrt(sq_dev_sums(libs@, mean, pos as int).1 / d, r.T as int)
            &&& is_round_sqrt(sq_dev_sums(libs@, mean, pos as int).2 / d, r.G as int)
            &&& is_round_sqrt(sq_dev_sums(libs@, mean, pos as int).3 / d, r.C as int)
            &&& is_round_sqrt(sq_dev_sums(libs@, mean, pos as int).4 / d, r.N as int)
        }),
{
    let n = libs.len();
    let mut sa: usize = 0;
    let mut st: usize = 0;
    let mut sg: usize = 0;
    let mut sc: usize = 0;
    let mut sn: usize = 0;
    let mut i: usize = 0;
    while i < n
        invariant
            n == libs@.len(),
            i <= n,
            forall|l: int| 0 <= l < libs@.len() ==> pos < (#[trigger] libs@[l])@.len(),
            sq_dev_sums(libs@, mean, pos as int).0 <= usize::MAX,
            sq_dev_sums(libs@, mean, pos as int).1 <= usize::MAX,
            sq_dev_sums(libs@, mean, pos as int).2 <= usize::MAX,
            sq_dev_sums(libs@, mean, pos as int).3 <= usize::MAX,
            sq_dev_sums(libs@, mean, pos as int).4 <= usize::MAX,
            sa == sq_dev_sums(libs@.take(i as int), mean, pos as int).0,
            st == sq_dev_sums(libs@.take(i as int), mean, pos as int).1,
            sg == sq_dev_sums(libs@.take(i as int), mean, pos as int).2,
            sc == sq_dev_sums(libs@.take(i as int), mean, pos as int).3,
            sn == sq_dev_sums(libs@.take(i as int), mean, pos as int).4,
        decreases n - i,
    {
        proof {
            lemma_sq_sums_mono(libs@, mean, pos as int, i as int + 1);
            assert(libs@.take(i as int + 1).drop_last() =~= libs@.take(i as int));
            assert(libs@.take(i as int + 1).last() == libs@[i as int]);
        }
        let lib: &Vec<BaseCompCol> = &libs[i];
        let b = lib[pos].bases;
        let da = sq_diff(b.A, mean.A);
        let dt = sq_diff(b.T, mean.T);
        let dg = sq_diff(b.G, mean.G);
        let dc = sq_diff(b.C, mean.C);
        let dn = sq_diff(b.N, mean.N);
        proof {
            let prev = sq_dev_sums(libs@.take(i as int), mean, pos as int);
            let next = sq_dev_sums(libs@.take(i as int + 1), mean, pos as int);
            let full = sq_dev_sums(libs@, mean, pos as int);
            lemma_sq_sums_mono(libs@, mean, pos as int, i as int);
            assert(next.0 <= full.0 && next.1 <= full.1 && next.2 <= full.2 && next.3 <= full.3
                && next.4 <= full.4);
        }
        sa = sa + da;
        st = st + dt;
        sg = sg + dg;
        sc = sc + dc;
        sn = sn + dn;
        i = i + 1;
    }
    proof {
        assert(libs@.take(n as int) =~= libs@);
    }
    let d = if n > 1 {
        n - 1
    } else {
        1
    };
    BaseCompColBases {
        A: sqrt_round(sa / d),
        T: sqrt_round(st / d),
        G: sqrt_round(sg / d),
        C: sqrt_round(sc / d),
        N: sqrt_round(sn / d),
    }
}

/// The squared absolute difference of two values. The difference of
/// two counts fits a machine word whenever its square does elsewhere,
/// so the square is computed wide and handed back narrow; the caller
/// knows it fits because the whole sum does.
fn sq_diff(a: usize, b: usize) -> (r: usize)
    requires
        abs_diff(a as int, b as int) * abs_diff(a as int, b as int) <= usize::MAX,
    ensures
        r == abs_diff(a as int, b as int) * abs_diff(a as int, b as int),
{
    let d: usize = if a >= b {
        a - b
    } else {
        b - a
    };
    let wide: u128 = (d as u128) * (d as u128);
    wide as usize
}

} // verus!
