//! The solvers agree: on a strongly convex problem, answers that meet the
//! optimality conditions nearly are near to each other.

use vstd::prelude::*;

use crate::dense::{
    dot_s, dot_upto_s, mvec_s, norm_sq_s, transpose_s, vadd_s, vneg_s, vscale_s, vsub_s, vzeros_s,
    Mat,
};
use crate::exact::{
    assoc, distrib, lemma_adjoint, lemma_dot_add, lemma_dot_comm, lemma_dot_scale, lemma_mvec_add,
    lemma_norm_sq_nonneg, lemma_norm_sq_zero,
};
use crate::kernels::DenseKernels;
use crate::laws::kkt::{
    at_least, lagrangian_s, law_kkt_sufficient, positive_semidefinite, within_by,
};
use crate::laws::rotation::lemma_over;
use crate::qp::{objective_s, row_dot_s, Qp};
use crate::scalar::Arith;

verus! {

/// Every entry is at most `b` in magnitude.
pub open spec fn bounded(v: Seq<real>, b: real) -> bool {
    forall|i: int| 0 <= i < v.len() ==> -b <= #[trigger] v[i] <= b
}

/// What the inequalities leave at `x`.
pub open spec fn room_s(q: Qp<real>, x: Seq<real>) -> Seq<real> {
    vsub_s(q.bi, mvec_s(q.ai, x))
}

/// The optimality conditions of `q` hold at `x` with the multipliers `le` and
/// `li` up to `e`: stationarity, equalities, inequalities and signs entry by
/// entry, and complementarity relative to the size `m` of the multipliers.
pub open spec fn near_optimal(
    q: Qp<real>,
    x: Seq<real>,
    le: Seq<real>,
    li: Seq<real>,
    e: real,
    m: real,
) -> bool {
    &&& x.len() == q.n()
    &&& le.len() == q.be.len()
    &&& li.len() == q.bi.len()
    &&& bounded(lagrangian_s(q, q.h, x, le, li), e)
    &&& bounded(vsub_s(mvec_s(q.ae, x), q.be), e)
    &&& at_least(room_s(q, x), -e)
    &&& at_least(li, -e)
    &&& forall|i: int|
        0 <= i < q.bi.len() ==> #[trigger] li[i] * room_s(q, x)[i] <= e * (1real + m + e)
}

/// Multipliers and rooms are at most `m` in magnitude.
pub open spec fn sized(
    q: Qp<real>,
    x: Seq<real>,
    le: Seq<real>,
    li: Seq<real>,
    m: real,
) -> bool {
    bounded(le, m) && bounded(li, m) && bounded(room_s(q, x), m)
}

/// `v' H v` is at least `c |v|^2`.
pub open spec fn strongly_convex(h: Mat<real>, c: real) -> bool {
    forall|v: Seq<real>|
        v.len() == h.nrows() ==> #[trigger] dot_s(v, mvec_s(h, v)) >= c * norm_sq_s(v)
}

/// Terms of at most `c` sum to at most `n c`.
proof fn lemma_sum_upto(a: Seq<real>, b: Seq<real>, n: nat, c: real)
    requires
        forall|i: int| 0 <= i < n ==> #[trigger] a[i] * b[i] <= c,
    ensures
        dot_upto_s(a, b, n) <= (n as real) * c,
    decreases n,
{
    if n == 0 {
        assert(0real * c == 0real) by (nonlinear_arith);
    } else {
        lemma_sum_upto(a, b, (n - 1) as nat, c);
        assert(a[n - 1] * b[n - 1] <= c);
        let k = (n - 1) as real;
        assert(n as real == k + 1real);
        distrib(c, k, 1real);
        distrib(k, c, 0real);
        assert((k + 1real) * c == k * c + c) by (nonlinear_arith);
    }
}

/// The energy of the difference of two points, by their residuals.
proof fn lemma_energy(
    q: Qp<real>,
    x: Seq<real>,
    le: Seq<real>,
    li: Seq<real>,
    y: Seq<real>,
    me: Seq<real>,
    mi: Seq<real>,
)
    requires
        q.wf(),
        x.len() == q.n(),
        y.len() == q.n(),
        le.len() == q.be.len(),
        me.len() == q.be.len(),
        li.len() == q.bi.len(),
        mi.len() == q.bi.len(),
    ensures
        ({
            let d = vsub_s(x, y);
            let r = vsub_s(
                lagrangian_s(q, q.h, x, le, li),
                lagrangian_s(q, q.h, y, me, mi),
            );
            let e = vsub_s(vsub_s(mvec_s(q.ae, x), q.be), vsub_s(mvec_s(q.ae, y), q.be));
            let s = vsub_s(room_s(q, x), room_s(q, y));
            dot_s(d, mvec_s(q.h, d)) == dot_s(d, r) - dot_s(e, vsub_s(le, me)) + dot_s(
                s,
                vsub_s(li, mi),
            )
        }),
{
    let d = vsub_s(x, y);
    let (dle, dli) = (vsub_s(le, me), vsub_s(li, mi));
    let r = vsub_s(lagrangian_s(q, q.h, x, le, li), lagrangian_s(q, q.h, y, me, mi));
    let e = vsub_s(vsub_s(mvec_s(q.ae, x), q.be), vsub_s(mvec_s(q.ae, y), q.be));
    let s = vsub_s(room_s(q, x), room_s(q, y));
    let (hd, ge, gi) = (
        mvec_s(q.h, d),
        mvec_s(transpose_s(q.ae), dle),
        mvec_s(transpose_s(q.ai), dli),
    );
    lemma_mvec_add(q.h, x, y);
    lemma_mvec_add(transpose_s(q.ae), le, me);
    lemma_mvec_add(transpose_s(q.ai), li, mi);
    lemma_mvec_add(q.ae, x, y);
    lemma_mvec_add(q.ai, x, y);
    assert(r =~= vadd_s(vadd_s(hd, ge), gi));
    lemma_dot_add(d, vadd_s(hd, ge), gi);
    lemma_dot_add(d, hd, ge);
    lemma_adjoint(q.ae, d, dle);
    lemma_adjoint(q.ai, d, dli);
    assert(mvec_s(q.ae, d) =~= e);
    assert(mvec_s(q.ai, d) =~= vneg_s(s));
    let minus = vscale_s(-1real, s);
    assert(vneg_s(s) =~= minus) by {
        assert forall|i: int| 0 <= i < s.len() implies vneg_s(s)[i] == minus[i] by {
            let t = s[i];
            assert((-1real) * t == -t) by (nonlinear_arith);
        }
    }
    lemma_dot_comm(minus, dli);
    lemma_dot_scale(dli, -1real, s);
    lemma_dot_comm(s, dli);
    let t = dot_s(s, dli);
    assert((-1real) * t == -t) by (nonlinear_arith);
}

/// The equality part of that energy.
proof fn lemma_eq_part(a: Seq<real>, b: Seq<real>, u: Seq<real>, v: Seq<real>, e: real, m: real)
    requires
        a.len() == b.len(),
        u.len() == a.len(),
        v.len() == a.len(),
        bounded(a, e),
        bounded(b, e),
        bounded(u, m),
        bounded(v, m),
        e >= 0real,
        m >= 0real,
    ensures
        -dot_s(vsub_s(a, b), vsub_s(u, v)) <= (a.len() as real) * (4real * (e * m)),
{
    let (p, w) = (vsub_s(a, b), vsub_s(u, v));
    let np = vscale_s(-1real, p);
    lemma_dot_comm(np, w);
    lemma_dot_scale(w, -1real, p);
    lemma_dot_comm(p, w);
    let t = dot_s(p, w);
    assert((-1real) * t == -t) by (nonlinear_arith);
    assert forall|i: int| 0 <= i < a.len() implies #[trigger] np[i] * w[i] <= 4real * (e * m) by {
        assert(-e <= a[i] <= e);
        assert(-e <= b[i] <= e);
        assert(-m <= u[i] <= m);
        assert(-m <= v[i] <= m);
        let (k, l) = (np[i], w[i]);
        let pi = p[i];
        assert(k == -pi) by (nonlinear_arith)
            requires
                k == (-1real) * pi,
        ;
        let (e2, m2) = (2real * e, 2real * m);
        assert(k * l <= e2 * m2) by (nonlinear_arith)
            requires
                -e2 <= k <= e2,
                -m2 <= l <= m2,
        ;
        assert(e2 * m2 == 4real * (e * m)) by (nonlinear_arith)
            requires
                e2 == 2real * e,
                m2 == 2real * m,
        ;
    }
    lemma_sum_upto(np, w, a.len(), 4real * (e * m));
}

/// The inequality part of that energy.
proof fn lemma_iq_part(
    s: Seq<real>,
    t: Seq<real>,
    u: Seq<real>,
    v: Seq<real>,
    e: real,
    m: real,
)
    requires
        s.len() == t.len(),
        u.len() == s.len(),
        v.len() == s.len(),
        bounded(s, m),
        bounded(t, m),
        bounded(u, m),
        bounded(v, m),
        at_least(s, -e),
        at_least(t, -e),
        at_least(u, -e),
        at_least(v, -e),
        e >= 0real,
        m >= 0real,
        forall|i: int| 0 <= i < s.len() ==> #[trigger] u[i] * s[i] <= e * (1real + m + e),
        forall|i: int| 0 <= i < s.len() ==> #[trigger] v[i] * t[i] <= e * (1real + m + e),
    ensures
        dot_s(vsub_s(s, t), vsub_s(u, v)) <= (s.len() as real) * (2real * (e * (1real + 3real * m
            + 2real * e))),
{
    let (p, w) = (vsub_s(s, t), vsub_s(u, v));
    let c = 2real * (e * (1real + 3real * m + 2real * e));
    assert forall|i: int| 0 <= i < s.len() implies #[trigger] p[i] * w[i] <= c by {
        let (a, b, k, l) = (s[i], t[i], u[i], v[i]);
        assert(-m <= s[i] <= m && -m <= t[i] <= m && -m <= u[i] <= m && -m <= v[i] <= m);
        assert(s[i] >= -e && t[i] >= -e && u[i] >= -e && v[i] >= -e);
        let g = e * (1real + m + e);
        let h = e * (2real * m + e);
        assert(u[i] * s[i] <= g);
        assert(v[i] * t[i] <= g);
        lemma_cross(b, k, e, m);
        lemma_cross(a, l, e, m);
        assert((a - b) * (k - l) == k * a + l * b - b * k - a * l) by (nonlinear_arith);
        assert(c == g + g + h + h) by (nonlinear_arith)
            requires
                c == 2real * (e * (1real + 3real * m + 2real * e)),
                g == e * (1real + m + e),
                h == e * (2real * m + e),
        ;
    }
    lemma_sum_upto(p, w, s.len(), c);
}

/// Numbers of at least `-e` and at most `m` have a product that is hardly
/// negative.
proof fn lemma_cross(a: real, b: real, e: real, m: real)
    requires
        -e <= a <= m,
        -e <= b <= m,
        e >= 0real,
    ensures
        -(a * b) <= e * (2real * m + e),
{
    let (p, q) = (a + e, b + e);
    assert(p * q >= 0real) by (nonlinear_arith)
        requires
            p >= 0real,
            q >= 0real,
    ;
    assert(p * q == a * b + e * (a + b) + e * e) by (nonlinear_arith)
        requires
            p == a + e,
            q == b + e,
    ;
    let (s, t) = (a + b, 2real * m);
    assert(e * s <= e * t) by (nonlinear_arith)
        requires
            s <= t,
            e >= 0real,
    ;
    distrib(e, t, e);
}

/// A product is at most a share of one square and the matching share of the
/// other.
proof fn lemma_share(d: Seq<real>, r: Seq<real>, c: real)
    requires
        d.len() == r.len(),
        c > 0real,
    ensures
        2real * dot_s(d, r) <= c * norm_sq_s(d) + norm_sq_s(r) / c,
{
    let k = 1real / c;
    lemma_over(1real, c);
    let kr = vscale_s(k, r);
    let w = vsub_s(d, kr);
    lemma_norm_sq_nonneg(w, w.len());
    lemma_dot_add(w, d, kr);
    lemma_dot_add(d, d, kr);
    lemma_dot_add(kr, d, kr);
    lemma_dot_comm(w, d);
    lemma_dot_comm(w, kr);
    lemma_dot_scale(d, k, r);
    lemma_dot_comm(kr, d);
    lemma_dot_scale(kr, k, r);
    lemma_dot_comm(kr, r);
    lemma_dot_scale(r, k, r);
    let (dd, dr, rr) = (norm_sq_s(d), dot_s(d, r), norm_sq_s(r));
    let kdr = k * dr;
    let kkrr = k * (k * rr);
    assert(norm_sq_s(w) == dd - kdr - kdr + kkrr);
    let nn = norm_sq_s(w);
    assert(c * nn >= 0real) by (nonlinear_arith)
        requires
            c > 0real,
            nn >= 0real,
    ;
    distrib(c, dd - kdr - kdr, kkrr);
    distrib(c, dd - kdr, kdr);
    distrib(c, dd, kdr);
    assoc(c, k, dr);
    assoc(c, k, k * rr);
    distrib(c, k, 0real);
    assert(1real * dr == dr) by (nonlinear_arith);
    let krr = k * rr;
    assert(1real * krr == krr) by (nonlinear_arith);
    assert(rr / c == k * rr) by {
        lemma_over(rr, c);
        let z = rr / c;
        assoc(k, c, z);
        assert(1real * z == z) by (nonlinear_arith);
        assert(k * c == 1real) by (nonlinear_arith)
            requires
                c * k == 1real,
        ;
    }
}

/// The distance that [`law_near_optimal_agree`] allows.
pub open spec fn distance_s(q: Qp<real>, c: real, e: real, m: real) -> real {
    (q.n() as real) * (4real * (e * e)) / c + 2real * ((q.be.len() as real) * (4real * (e * m)))
        + 2real * ((q.bi.len() as real) * (2real * (e * (1real + 3real * m + 2real * e))))
}

/// Two points that meet the optimality conditions of a strongly convex problem
/// up to `e` are near to each other: the bound on their distance is proportional
/// to `e` and vanishes with it. `m` bounds the multipliers and the rooms, `c` the
/// curvature.
pub proof fn law_near_optimal_agree(
    q: Qp<real>,
    x: Seq<real>,
    le: Seq<real>,
    li: Seq<real>,
    y: Seq<real>,
    me: Seq<real>,
    mi: Seq<real>,
    c: real,
    e: real,
    m: real,
)
    requires
        q.wf(),
        c > 0real,
        strongly_convex(q.h, c),
        e >= 0real,
        m >= 0real,
        near_optimal(q, x, le, li, e, m),
        near_optimal(q, y, me, mi, e, m),
        sized(q, x, le, li, m),
        sized(q, y, me, mi, m),
    ensures
        c * norm_sq_s(vsub_s(x, y)) <= distance_s(q, c, e, m),
{
    let n = q.n();
    let d = vsub_s(x, y);
    let (rx, ry) = (lagrangian_s(q, q.h, x, le, li), lagrangian_s(q, q.h, y, me, mi));
    let r = vsub_s(rx, ry);
    let (ex, ey) = (vsub_s(mvec_s(q.ae, x), q.be), vsub_s(mvec_s(q.ae, y), q.be));
    lemma_energy(q, x, le, li, y, me, mi);
    lemma_eq_part(ex, ey, le, me, e, m);
    lemma_iq_part(room_s(q, x), room_s(q, y), li, mi, e, m);
    lemma_share(d, r, c);
    let ee = 4real * (e * e);
    assert forall|i: int| 0 <= i < n implies #[trigger] r[i] * r[i] <= ee by {
        assert(-e <= rx[i] <= e);
        assert(-e <= ry[i] <= e);
        let t = r[i];
        let e2 = 2real * e;
        assert(t * t <= e2 * e2) by (nonlinear_arith)
            requires
                -e2 <= t <= e2,
        ;
        assert(e2 * e2 == 4real * (e * e)) by (nonlinear_arith)
            requires
                e2 == 2real * e,
        ;
    }
    lemma_sum_upto(r, r, n, ee);
    let (rr, top) = (norm_sq_s(r), (n as real) * ee);
    assert(rr / c <= top / c) by {
        lemma_over(rr, c);
        lemma_over(top, c);
        let (p, t) = (rr / c, top / c);
        assert(p <= t) by (nonlinear_arith)
            requires
                c * p <= c * t,
                c > 0real,
        ;
    }
    assert(dot_s(d, mvec_s(q.h, d)) >= c * norm_sq_s(d));
}

/// The optimum of a strongly convex problem is unique: two points that meet the
/// optimality conditions exactly are the same.
pub proof fn law_optimum_unique(
    q: Qp<real>,
    x: Seq<real>,
    le: Seq<real>,
    li: Seq<real>,
    y: Seq<real>,
    me: Seq<real>,
    mi: Seq<real>,
    c: real,
    m: real,
)
    requires
        q.wf(),
        c > 0real,
        strongly_convex(q.h, c),
        m >= 0real,
        near_optimal(q, x, le, li, 0real, m),
        near_optimal(q, y, me, mi, 0real, m),
        sized(q, x, le, li, m),
        sized(q, y, me, mi, m),
    ensures
        x == y,
{
    law_near_optimal_agree(q, x, le, li, y, me, mi, c, 0real, m);
    let d = vsub_s(x, y);
    let (a, b, k) = (q.n() as real, q.be.len() as real, q.bi.len() as real);
    assert(0real * 0real == 0real) by (nonlinear_arith);
    assert(0real * m == 0real) by (nonlinear_arith);
    let w = 1real + 3real * m + 2real * 0real;
    assert(0real * w == 0real) by (nonlinear_arith);
    assert(a * 0real == 0real && b * 0real == 0real && k * 0real == 0real) by (nonlinear_arith);
    lemma_over(0real, c);
    let z = 0real / c;
    assert(z == 0real) by (nonlinear_arith)
        requires
            c * z == 0real,
            c > 0real,
    ;
    let s = norm_sq_s(d);
    lemma_norm_sq_nonneg(d, d.len());
    assert(distance_s(q, c, 0real, m) == 0real);
    assert(s == 0real) by (nonlinear_arith)
        requires
            c * s <= 0real,
            c > 0real,
            s >= 0real,
    ;
    assert forall|i: int| 0 <= i < q.n() implies x[i] == y[i] by {
        lemma_norm_sq_zero(d, d.len(), i);
        assert(d[i] == 0real);
    }
    assert(x =~= y);
}

/// A point that meets the optimality conditions exactly minimises the objective
/// over the feasible set.
pub proof fn law_exact_minimises(
    q: Qp<real>,
    x: Seq<real>,
    le: Seq<real>,
    li: Seq<real>,
    m: real,
    y: Seq<real>,
)
    requires
        q.wf(),
        transpose_s(q.h) == q.h,
        positive_semidefinite(q.h),
        near_optimal(q, x, le, li, 0real, m),
        y.len() == q.n(),
        mvec_s(q.ae, y) == q.be,
        within_by(q, y, 0real),
    ensures
        objective_s(q.h, q.c, x) <= objective_s(q.h, q.c, y),
{
    let (lag, gap, room) = (
        lagrangian_s(q, q.h, x, le, li),
        vsub_s(mvec_s(q.ae, x), q.be),
        room_s(q, x),
    );
    assert forall|i: int| 0 <= i < q.n() implies lag[i] == 0real by {
        assert(-0real <= lag[i] <= 0real);
    }
    assert(lag =~= vzeros_s::<real>(q.n()));
    assert forall|i: int| 0 <= i < q.be.len() implies mvec_s(q.ae, x)[i] == q.be[i] by {
        assert(-0real <= gap[i] <= 0real);
    }
    assert(mvec_s(q.ae, x) =~= q.be);
    assert forall|i: int| 0 <= i < q.bi.len() implies #[trigger] li[i] == 0real || row_dot_s(
        q.ai,
        i,
        x,
    ) == q.bi[i] by {
        let (l, s, w) = (li[i], room[i], 1real + m + 0real);
        assert(li[i] * room_s(q, x)[i] <= 0real * (1real + m + 0real));
        assert(0real * w == 0real) by (nonlinear_arith);
        assert(li[i] >= -0real && room[i] >= -0real);
        assert(l == 0real || s == 0real) by (nonlinear_arith)
            requires
                l * s <= 0real,
                l >= 0real,
                s >= 0real,
        ;
    }
    assert(at_least(li, 0real)) by {
        assert forall|i: int| 0 <= i < li.len() implies #[trigger] li[i] >= 0real by {
            assert(li[i] >= -0real);
        }
    }
    law_kkt_sufficient(q, x, le, li, y);
}

} // verus!
