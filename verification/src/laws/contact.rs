//! What a contact-force distribution asks for, level by level, and what its
//! forces achieve where every level is answered exactly.

use vstd::prelude::*;

use crate::affine::{coef_affine_s, eval_s};
use crate::contact::{all_forces_s, contact_levels_s, distribute_s, hard_s, ContactError};
use crate::dense::{identity_s, mvec_s, norm_sq_s, slice_s, vadd_s, vsub_s, vzeros_s, Mat};
use crate::exact::{lemma_dot_zero, lemma_identity_mvec, lemma_norm_sq_nonneg, lemma_norm_sq_zero};
use crate::ho_qp::{ho_args_s, ho_level_s, ho_next_s, Anchor};
use crate::laws::affine::law_coefficient_of_expression;
use crate::laws::cascade::{countable, law_cascade_fits};
use crate::laws::catalogue::law_track;
use crate::laws::freedom::{exact_answer, law_level_minimises, ridge_weight_s};
use crate::laws::hierarchy::{law_strict_priority, lemma_upto_wf};
use crate::laws::stack::{law_contact_constraints, leg_ok};
use crate::laws::task::{cost_s, keeps, law_weight, residual_s};
use crate::qp::solve_qp_s;
use crate::scalar::{is_root, lit_s, Arith};
use crate::solve::{
    check_s, default_solve_config_s, first_bad_s, levels_ok_s, null_space_upto_s, prior_s, qp_cfg_s,
    shared_n_s, widened_s, WbcError,
};
use crate::task::Tsk;
use crate::tasks::track_s;

verus! {

/// Every leg carries a force that it may carry.
pub open spec fn legs_ok(f: Seq<real>, stance: Seq<bool>, mu: real, fz_max: real) -> bool {
    forall|l: int|
        0 <= l < stance.len() ==> #[trigger] leg_ok(
            slice_s(f, (3 * l) as nat, 3),
            stance[l],
            mu,
            fz_max,
        )
}

/// How far the forces miss the wrench, squared, over all six of its entries.
pub open spec fn miss_s(wrench_map: Mat<real>, wrench: Seq<real>, f: Seq<real>) -> real {
    norm_sq_s(vsub_s(mvec_s(wrench_map, f), wrench))
}

/// The three levels of a distribution: first the forces that the legs may carry,
/// and nothing else; then the whole wrench, `W f = w`; then the size of the
/// forces, with the weight of the regularisation.
pub proof fn law_contact_levels(
    wrench_map: Mat<real>,
    wrench: Seq<real>,
    stance: Seq<bool>,
    mu: real,
    fz_max: real,
    reg: real,
    f: Seq<real>,
)
    requires
        wrench_map.shaped(6, 3 * stance.len()),
        wrench.len() == 6,
        f.len() == 3 * stance.len(),
    ensures
        ({
            let ts = contact_levels_s(wrench_map, wrench, stance, mu, fz_max, reg);
            &&& ts.len() == 3
            &&& forall|i: int| 0 <= i < 3 ==> (#[trigger] ts[i]).wf() && ts[i].n() == f.len()
            &&& keeps(ts[0], f) <==> legs_ok(f, stance, mu, fz_max)
            &&& ts[0].b.len() == 0
            &&& residual_s(ts[1], f) == vsub_s(mvec_s(wrench_map, f), wrench)
            &&& ts[1].f.len() == 0
            &&& ts[1].b.len() == 6
            &&& is_root(reg, reg.sqrt_s()) ==> cost_s(ts[2], f) == reg * norm_sq_s(f)
            &&& ts[2].f.len() == 0
        }),
{
    let n = f.len();
    let ts = contact_levels_s(wrench_map, wrench, stance, mu, fz_max, reg);
    let all = all_forces_s::<real>(n);
    law_contact_constraints(stance, mu, fz_max, stance.len(), f);
    lemma_hard_rows(stance, mu, fz_max, n, stance.len());
    lemma_identity_mvec(f);
    assert(eval_s(all, f) =~= f);
    law_coefficient_of_expression(wrench_map, all, f);
    law_track(coef_affine_s(wrench_map, all), wrench, f);
    law_track(all, vzeros_s::<real>(n), f);
    let low = track_s(all, vzeros_s::<real>(n));
    assert(residual_s(low, f) =~= f);
    if is_root(reg, reg.sqrt_s()) {
        law_weight(low, reg, f);
    }
    assert forall|i: int| 0 <= i < 3 implies (#[trigger] ts[i]).wf() && ts[i].n() == n by {}
}

/// The hard constraints have no equality.
proof fn lemma_hard_rows(stance: Seq<bool>, mu: real, fz_max: real, n: nat, k: nat)
    requires
        k <= stance.len(),
    ensures
        hard_s(stance, mu, fz_max, n, k).b.len() == 0,
    decreases k,
{
    if k > 0 {
        lemma_hard_rows(stance, mu, fz_max, n, (k - 1) as nat);
    }
}

/// Level `k` of a distribution is answered exactly.
pub open spec fn level_exact(ts: Seq<Tsk<real>>, n: nat, k: nat) -> bool {
    let cfg = default_solve_config_s::<real>();
    let st = null_space_upto_s(ts, cfg, None, n, None, k);
    let a = Anchor { x: None, weight: cfg.prox_weight };
    exact_answer(
        st.ho,
        ts[k as int],
        a,
        solve_qp_s(ho_args_s(st.ho, ts[k as int], a), qp_cfg_s(cfg), prior_s(st.ws, k as int)).0,
    )
}

/// The forces of a distribution whose levels are answered exactly: every leg
/// carries a force that it may carry, and no other such forces `g` come nearer
/// to the wrench, up to the ridge; so where the wrench can be met, it is. The
/// ridge is measured from some forces `h` that the legs may carry.
pub proof fn law_contact_forces(
    wrench_map: Mat<real>,
    wrench: Seq<real>,
    stance: Seq<bool>,
    mu: real,
    fz_max: real,
    reg: real,
    f: Seq<real>,
    g: Seq<real>,
)
    requires
        wrench_map.wf(),
        distribute_s(wrench_map, wrench, stance, mu, fz_max, reg) == Ok::<
            Seq<real>,
            ContactError,
        >(f),
        countable(
            contact_levels_s(wrench_map, wrench, stance, mu, fz_max, reg),
            3 * stance.len(),
        ),
        ({
            let ts = contact_levels_s(wrench_map, wrench, stance, mu, fz_max, reg);
            let n = 3 * stance.len();
            level_exact(ts, n, 0) && level_exact(ts, n, 1) && level_exact(ts, n, 2)
        }),
        g.len() == 3 * stance.len(),
        legs_ok(g, stance, mu, fz_max),
    ensures
        f.len() == 3 * stance.len(),
        legs_ok(f, stance, mu, fz_max),
        exists|h: Seq<real>|
            h.len() == f.len() && #[trigger] legs_ok(h, stance, mu, fz_max) && miss_s(
                wrench_map,
                wrench,
                f,
            ) <= miss_s(wrench_map, wrench, g) + lit_s::<real>(1, -12) * norm_sq_s(vsub_s(g, h)),
{
    let n = 3 * stance.len();
    let ts = contact_levels_s(wrench_map, wrench, stance, mu, fz_max, reg);
    let cfg = default_solve_config_s::<real>();
    law_contact_levels(wrench_map, wrench, stance, mu, fz_max, reg, g);
    assert(ts[0].wf() && ts[1].wf() && ts[2].wf());
    assert(ts[0].n() == n && ts[1].n() == n && ts[2].n() == n);
    assert(shared_n_s(ts, 3) == n) by {
        reveal_with_fuel(shared_n_s, 4);
    }
    assert(check_s(ts) == Ok::<nat, WbcError>(n)) by {
        reveal_with_fuel(first_bad_s, 4);
    }
    assert(levels_ok_s(ts));
    assert(f == null_space_upto_s(ts, cfg, None, n, None, 3).ho.x);
    law_cascade_fits(ts, cfg, None, n, None);
    lemma_contact_steps(ts, n, g, stance, mu, fz_max);
    lemma_upto_wf(ts, cfg, None, n, None, 3);
    law_strict_priority(ts, cfg, None, n, None, 1, 3);
    let h = null_space_upto_s(ts, cfg, None, n, None, 1).ho.x;
    let mid = null_space_upto_s(ts, cfg, None, n, None, 2).ho.x;
    lemma_upto_wf(ts, cfg, None, n, None, 1);
    law_contact_levels(wrench_map, wrench, stance, mu, fz_max, reg, f);
    law_contact_levels(wrench_map, wrench, stance, mu, fz_max, reg, h);
    assert(widened_s(ts[1], n) == ts[1]);
    assert(residual_s(ts[1], f) == residual_s(ts[1], mid));
    assert(legs_ok(h, stance, mu, fz_max));
}

/// What one answered level of a distribution leaves.
proof fn lemma_contact_step(ts: Seq<Tsk<real>>, n: nat, k: nat)
    requires
        k < ts.len(),
        ts[k as int].n() == n,
    ensures
        ({
            let cfg = default_solve_config_s::<real>();
            let st = null_space_upto_s(ts, cfg, None, n, None, k);
            let a = Anchor { x: None, weight: cfg.prox_weight };
            null_space_upto_s(ts, cfg, None, n, None, k + 1).ho == ho_next_s(
                st.ho,
                ts[k as int],
                solve_qp_s(
                    ho_args_s(st.ho, ts[k as int], a),
                    qp_cfg_s(cfg),
                    prior_s(st.ws, k as int),
                ).0,
            )
        }),
{
    reveal(ho_level_s);
    assert(widened_s(ts[k as int], n) == ts[k as int]);
}

proof fn lemma_contact_steps(
    ts: Seq<Tsk<real>>,
    n: nat,
    g: Seq<real>,
    stance: Seq<bool>,
    mu: real,
    fz_max: real,
)
    requires
        ts.len() == 3,
        forall|i: int| 0 <= i < 3 ==> (#[trigger] ts[i]).wf() && ts[i].n() == n,
        levels_ok_s(ts),
        countable(ts, n),
        ts[0].b.len() == 0,
        ts[1].f.len() == 0,
        ts[1].b.len() > 0,
        ts[2].f.len() == 0,
        level_exact(ts, n, 0),
        level_exact(ts, n, 1),
        level_exact(ts, n, 2),
        g.len() == n,
        keeps(ts[0], g),
    ensures
        ({
            let cfg = default_solve_config_s::<real>();
            let h = null_space_upto_s(ts, cfg, None, n, None, 1).ho.x;
            let mid = null_space_upto_s(ts, cfg, None, n, None, 2).ho.x;
            let end = null_space_upto_s(ts, cfg, None, n, None, 3).ho.x;
            &&& keeps(ts[0], h)
            &&& keeps(ts[0], end)
            &&& cost_s(ts[1], mid) <= cost_s(ts[1], g) + lit_s::<real>(1, -12) * norm_sq_s(
                vsub_s(g, h),
            )
        }),
{
    let cfg = default_solve_config_s::<real>();
    let a = Anchor { x: None::<Seq<real>>, weight: cfg.prox_weight };
    law_cascade_fits(ts, cfg, None, n, None);
    lemma_upto_wf(ts, cfg, None, n, None, 0);
    lemma_upto_wf(ts, cfg, None, n, None, 1);
    lemma_upto_wf(ts, cfg, None, n, None, 2);
    lemma_contact_step(ts, n, 0);
    lemma_contact_step(ts, n, 1);
    lemma_contact_step(ts, n, 2);
    let s0 = null_space_upto_s(ts, cfg, None, n, None, 0);
    let s1 = null_space_upto_s(ts, cfg, None, n, None, 1);
    let s2 = null_space_upto_s(ts, cfg, None, n, None, 2);
    let s3 = null_space_upto_s(ts, cfg, None, n, None, 3);
    let sol0 = solve_qp_s(ho_args_s(s0.ho, ts[0], a), qp_cfg_s(cfg), prior_s(s0.ws, 0)).0;
    let sol1 = solve_qp_s(ho_args_s(s1.ho, ts[1], a), qp_cfg_s(cfg), prior_s(s1.ws, 1)).0;
    let sol2 = solve_qp_s(ho_args_s(s2.ho, ts[2], a), qp_cfg_s(cfg), prior_s(s2.ws, 2)).0;
    let id = identity_s::<real>(n);
    let m = ts[0].f.len();
    // the first level takes no slack
    let none = vzeros_s::<real>(m);
    let x0 = s0.ho.x;
    lemma_identity_mvec(g);
    assert(vadd_s(x0, mvec_s(id, g)) =~= g);
    let hard = mvec_s(ts[0].d, g);
    assert forall|i: int| 0 <= i < hard.len() implies #[trigger] hard[i] <= vadd_s(
        ts[0].f,
        none,
    )[i] by {
        assert(mvec_s(ts[0].d, g)[i] <= ts[0].f[i]);
    }
    law_level_minimises(s0.ho, ts[0], a, sol0, g, none);
    let own = slice_s(s1.ho.slack, 0, m);
    assert(own =~= s1.ho.slack);
    lemma_norm_sq_nonneg(own, own.len());
    lemma_dot_zero(none, m);
    let (gg, p0, p1) = (norm_sq_s(g), residual_s(ts[0], g), residual_s(ts[0], s1.ho.x));
    assert(0real * gg == 0real) by (nonlinear_arith);
    assert(ridge_weight_s(ts[0]) == 0real);
    assert(p0.len() == 0 && p1.len() == 0);
    assert(norm_sq_s(own) == 0real);
    assert forall|i: int| 0 <= i < m implies own[i] == 0real by {
        lemma_norm_sq_zero(own, own.len(), i);
    }
    // the rows so far are those of the first level
    assert(s1.ho.f =~= ts[0].f);
    assert(s1.ho.d.rows =~= ts[0].d.rows);
    assert(s1.ho.z == id);
    assert(s2.ho.f =~= ts[0].f && s2.ho.d.rows =~= ts[0].d.rows);
    assert(s2.ho.slack =~= s1.ho.slack);
    let h = s1.ho.x;
    let w = vsub_s(g, h);
    lemma_identity_mvec(w);
    assert(vadd_s(h, mvec_s(id, w)) =~= g);
    let no = vzeros_s::<real>(0);
    lemma_rows(s1.ho.d, ts[0].d, g);
    lemma_rows(s1.ho.d, ts[0].d, h);
    let lhs = mvec_s(s1.ho.d, g);
    assert forall|i: int| 0 <= i < lhs.len() implies #[trigger] lhs[i] <= vadd_s(
        s1.ho.f,
        s1.ho.slack,
    )[i] by {
        assert(mvec_s(ts[0].d, g)[i] <= ts[0].f[i]);
        assert(own[i] == 0real);
    }
    law_level_minimises(s1.ho, ts[1], a, sol1, w, no);
    let o1 = slice_s(s2.ho.slack, m, 0);
    lemma_norm_sq_nonneg(o1, o1.len());
    lemma_dot_zero(no, 0);
    // staying where it is is one choice of the last level
    let k = s2.ho.z.ncols();
    let stay = vzeros_s::<real>(k);
    crate::exact::lemma_mvec_zero(s2.ho.z);
    assert(vadd_s(s2.ho.x, mvec_s(s2.ho.z, stay)) =~= s2.ho.x);
    lemma_rows(s2.ho.d, s1.ho.d, s2.ho.x);
    law_level_minimises(s2.ho, ts[2], a, sol2, stay, no);
    lemma_rows(s2.ho.d, ts[0].d, s3.ho.x);
    assert forall|i: int| 0 <= i < m implies #[trigger] mvec_s(ts[0].d, h)[i] <= ts[0].f[i] by {
        assert(mvec_s(ts[0].d, h)[i] <= vadd_s(ts[0].f, own)[i]);
        assert(own[i] == 0real);
    }
    let last = mvec_s(s2.ho.d, s3.ho.x);
    assert forall|i: int| 0 <= i < m implies #[trigger] mvec_s(ts[0].d, s3.ho.x)[i]
        <= ts[0].f[i] by {
        assert(last[i] <= vadd_s(s2.ho.f, s2.ho.slack)[i]);
        assert(own[i] == 0real);
    }
}

/// Equal rows act equally.
proof fn lemma_rows(a: Mat<real>, b: Mat<real>, x: Seq<real>)
    requires
        a.rows == b.rows,
    ensures
        mvec_s(a, x) == mvec_s(b, x),
{
    assert(mvec_s(a, x) =~= mvec_s(b, x));
}

/// A distribution is refused exactly where the wrench map is not six rows by
/// three columns per leg, or else the wrench does not have six entries; nothing
/// else stops it.
pub proof fn law_contact_refusals(
    wrench_map: Mat<real>,
    wrench: Seq<real>,
    stance: Seq<bool>,
    mu: real,
    fz_max: real,
    reg: real,
)
    requires
        wrench_map.wf(),
        stance.len() <= usize::MAX,
        wrench_map.nrows() <= usize::MAX,
        wrench_map.ncols() <= usize::MAX,
        wrench.len() <= usize::MAX,
    ensures
        match distribute_s(wrench_map, wrench, stance, mu, fz_max, reg) {
            Ok(_) => wrench_map.shaped(6, 3 * stance.len()) && wrench.len() == 6,
            Err(ContactError::MapShape { legs, rows, cols }) => {
                &&& wrench_map.nrows() != 6 || wrench_map.ncols() != 3 * stance.len()
                &&& legs == stance.len() && rows == wrench_map.nrows() && cols
                    == wrench_map.ncols()
            },
            Err(ContactError::WrenchLength { found }) => {
                &&& wrench_map.shaped(6, 3 * stance.len())
                &&& wrench.len() != 6
                &&& found == wrench.len()
            },
            Err(ContactError::Solve(_)) => false,
        },
{
    let n = 3 * stance.len();
    if wrench_map.shaped(6, n) && wrench.len() == 6 {
        let ts = contact_levels_s(wrench_map, wrench, stance, mu, fz_max, reg);
        law_contact_levels(wrench_map, wrench, stance, mu, fz_max, reg, vzeros_s::<real>(n));
        assert(ts[0].n() == n && ts[1].n() == n && ts[2].n() == n);
        assert(shared_n_s(ts, 3) == n) by {
            reveal_with_fuel(shared_n_s, 4);
        }
        assert(check_s(ts) == Ok::<nat, WbcError>(n)) by {
            reveal_with_fuel(first_bad_s, 4);
        }
    }
}

} // verus!
