//! Laws of layouts and affine expressions.

use vstd::prelude::*;

use crate::affine::{
    aff_add_s, aff_minus_s, aff_neg_s, aff_plus_s, aff_sub_s, coef_affine_s, coef_var_s, eval_s,
    layout_s, lemma_offset_mono, offset_s, var_affine_s, Aff, Block,
};
use crate::dense::{mvec_s, mzeros_s, slice_s, vadd_s, vneg_s, vsub_s, vzeros_s, Mat};
use crate::exact::{
    lemma_dot_single, lemma_madd_mvec, lemma_mmul_mvec, lemma_mscale_mvec, lemma_mvec_add,
    lemma_mzeros_mvec, lemma_place_mvec,
};

verus! {

/// The blocks of a layout lie one behind the other without gap or overlap, and
/// fill the decision vector.
pub proof fn law_layout_contiguous(entries: Seq<(Seq<char>, nat)>, i: int, j: int)
    requires
        0 <= i < j < entries.len(),
    ensures
        ({
            let l = layout_s(entries);
            &&& l.blocks.len() == entries.len()
            &&& l.blocks[0].offset == 0
            &&& l.blocks[i].offset + l.blocks[i].size <= l.blocks[j].offset
            &&& j == i + 1 ==> l.blocks[i].offset + l.blocks[i].size == l.blocks[j].offset
            &&& j == entries.len() - 1 ==> l.blocks[j].offset + l.blocks[j].size == l.n
            &&& l.blocks[j].offset + l.blocks[j].size <= l.n
        }),
{
    let sizes = Seq::new(entries.len(), |k: int| entries[k].1);
    lemma_offset_mono(sizes, (i + 1) as nat, j as nat);
    lemma_offset_mono(sizes, (j + 1) as nat, entries.len());
    assert(offset_s(sizes, (i + 1) as nat) == offset_s(sizes, i as nat) + sizes[i]);
    assert(offset_s(sizes, (j + 1) as nat) == offset_s(sizes, j as nat) + sizes[j]);
}

/// Every selector that a layout hands out lies inside the decision vector and
/// has the declared size.
pub proof fn law_selector_in_range(entries: Seq<(Seq<char>, nat)>, name: Seq<char>)
    requires
        layout_s(entries).has(name),
    ensures
        layout_s(entries).var_s(name).wf(),
        layout_s(entries).var_s(name).n == layout_s(entries).n,
        exists|i: int|
            0 <= i < entries.len() && #[trigger] entries[i] == (
                name,
                layout_s(entries).var_s(name).size,
            ),
{
    let l = layout_s(entries);
    let sizes = Seq::new(entries.len(), |k: int| entries[k].1);
    let i = choose|i: int| l.first_at(name, i);
    lemma_offset_mono(sizes, (i + 1) as nat, entries.len());
    assert(offset_s(sizes, (i + 1) as nat) == offset_s(sizes, i as nat) + sizes[i]);
    assert(entries[i] == (name, l.var_s(name).size));
}

proof fn lemma_add_zero(a: Seq<real>)
    ensures
        vadd_s(a, vzeros_s(a.len())) == a,
{
    assert(vadd_s(a, vzeros_s(a.len())) =~= a);
}

/// The expression of a variable evaluates to its slice of the decision vector.
pub proof fn law_var_selects(v: Block, x: Seq<real>)
    requires
        v.wf(),
        x.len() == v.n,
    ensures
        eval_s(var_affine_s(v), x) == slice_s(x, v.offset, v.size),
{
    let a = var_affine_s::<real>(v);
    assert forall|i: int| 0 <= i < v.size implies eval_s(a, x)[i] == x[v.offset + i] by {
        lemma_dot_single(a.m.rows[i], x, v.offset + i, v.n);
        let y = x[v.offset + i];
        assert(1real * y == y) by (nonlinear_arith);
    }
    assert(eval_s(a, x) =~= slice_s(x, v.offset, v.size));
}

/// A coefficient matrix times a variable evaluates to the matrix applied to the
/// variable's slice.
pub proof fn law_coefficient_of_variable(c: Mat<real>, v: Block, x: Seq<real>)
    requires
        v.wf(),
        c.shaped(c.nrows(), v.size),
        x.len() == v.n,
    ensures
        eval_s(coef_var_s(c, v), x) == mvec_s(c, slice_s(x, v.offset, v.size)),
{
    lemma_place_mvec(c, v.offset, v.n, x);
    lemma_add_zero(mvec_s(c, slice_s(x, v.offset, v.size)));
}

/// A coefficient matrix times an expression evaluates to the matrix applied to
/// the expression's value.
pub proof fn law_coefficient_of_expression(c: Mat<real>, a: Aff<real>, x: Seq<real>)
    requires
        a.wf(),
        c.shaped(c.nrows(), a.out()),
        x.len() == a.n(),
    ensures
        eval_s(coef_affine_s(c, a), x) == mvec_s(c, eval_s(a, x)),
{
    lemma_mmul_mvec(c, a.m, x);
    lemma_mvec_add(c, mvec_s(a.m, x), a.q);
}

/// Evaluation respects sums and differences of expressions.
pub proof fn law_sum_of_expressions(a: Aff<real>, b: Aff<real>, x: Seq<real>)
    requires
        a.wf(),
        b.wf(),
        b.m.shaped(a.out(), a.n()),
        x.len() == a.n(),
    ensures
        eval_s(aff_add_s(a, b), x) == vadd_s(eval_s(a, x), eval_s(b, x)),
        eval_s(aff_sub_s(a, b), x) == vsub_s(eval_s(a, x), eval_s(b, x)),
{
    lemma_madd_mvec(a.m, b.m, x);
    assert(eval_s(aff_add_s(a, b), x) =~= vadd_s(eval_s(a, x), eval_s(b, x)));
    assert(eval_s(aff_sub_s(a, b), x) =~= vsub_s(eval_s(a, x), eval_s(b, x)));
}

/// Evaluation respects a shift by a vector.
pub proof fn law_shift_of_expression(a: Aff<real>, v: Seq<real>, x: Seq<real>)
    requires
        a.wf(),
        v.len() == a.out(),
        x.len() == a.n(),
    ensures
        eval_s(aff_plus_s(a, v), x) == vadd_s(eval_s(a, x), v),
        eval_s(aff_minus_s(a, v), x) == vsub_s(eval_s(a, x), v),
{
    assert(eval_s(aff_plus_s(a, v), x) =~= vadd_s(eval_s(a, x), v));
    assert(eval_s(aff_minus_s(a, v), x) =~= vsub_s(eval_s(a, x), v));
}

/// Evaluation respects the sign.
pub proof fn law_opposite_of_expression(a: Aff<real>, x: Seq<real>)
    requires
        a.wf(),
        x.len() == a.n(),
    ensures
        eval_s(aff_neg_s(a), x) == vneg_s(eval_s(a, x)),
{
    lemma_mscale_mvec(0real, a.m, x);
    assert(eval_s(aff_neg_s(a), x) =~= vneg_s(eval_s(a, x)));
}

/// A constant expression has its constant as value everywhere.
pub proof fn law_constant(c: Seq<real>, n: nat, x: Seq<real>)
    requires
        x.len() == n,
    ensures
        eval_s(Aff { m: mzeros_s(c.len(), n), q: c }, x) == c,
{
    lemma_mzeros_mvec(c.len(), n, x);
    assert(eval_s(Aff { m: mzeros_s(c.len(), n), q: c }, x) =~= c);
}

/// The summed sizes of the first `k` entries.
pub open spec fn before_s(entries: Seq<(Seq<char>, nat)>, k: nat) -> nat
    decreases k,
{
    if k == 0 {
        0
    } else {
        before_s(entries, (k - 1) as nat) + entries[k - 1].1
    }
}

proof fn lemma_before(entries: Seq<(Seq<char>, nat)>, k: nat)
    requires
        k <= entries.len(),
    ensures
        offset_s(Seq::new(entries.len(), |i: int| entries[i].1), k) == before_s(entries, k),
    decreases k,
{
    if k > 0 {
        lemma_before(entries, (k - 1) as nat);
    }
}

/// A name selects the first block that was declared under it: as long as
/// declared, and placed behind all blocks that were declared before it. The
/// decision vector is as long as all blocks together.
pub proof fn law_selector(entries: Seq<(Seq<char>, nat)>, name: Seq<char>, i: int)
    requires
        0 <= i < entries.len(),
        entries[i].0 == name,
        forall|j: int| 0 <= j < i ==> (#[trigger] entries[j]).0 != name,
    ensures
        layout_s(entries).has(name),
        layout_s(entries).var_s(name) == (Block {
            offset: before_s(entries, i as nat),
            size: entries[i].1,
            n: before_s(entries, entries.len()),
        }),
        layout_s(entries).n == before_s(entries, entries.len()),
{
    let l = layout_s(entries);
    lemma_before(entries, i as nat);
    lemma_before(entries, entries.len());
    assert(l.blocks[i].name == name);
    assert forall|j: int| 0 <= j < i implies (#[trigger] l.blocks[j]).name != name by {
        assert(entries[j].0 != name);
    }
    assert(l.first_at(name, i));
    let k = choose|k: int| l.first_at(name, k);
    if k < i {
        assert(entries[k].0 != name);
    } else if i < k {
        assert(l.blocks[i].name != name);
    }
    assert(k == i);
}

proof fn lemma_first(entries: Seq<(Seq<char>, nat)>, name: Seq<char>, i: int)
    requires
        0 <= i < entries.len(),
        entries[i].0 == name,
    ensures
        layout_s(entries).has(name),
    decreases i,
{
    if exists|j: int| 0 <= j < i && (#[trigger] entries[j]).0 == name {
        let j = choose|j: int| 0 <= j < i && (#[trigger] entries[j]).0 == name;
        lemma_first(entries, name, j);
    } else {
        law_selector(entries, name, i);
    }
}

/// A name is found exactly where it was declared.
pub proof fn law_undeclared(entries: Seq<(Seq<char>, nat)>, name: Seq<char>)
    ensures
        layout_s(entries).has(name) <==> exists|i: int|
            0 <= i < entries.len() && (#[trigger] entries[i]).0 == name,
{
    let l = layout_s(entries);
    if l.has(name) {
        let i = choose|i: int| #[trigger] l.first_at(name, i);
        assert(entries[i].0 == name);
    }
    if exists|i: int| 0 <= i < entries.len() && (#[trigger] entries[i]).0 == name {
        let i = choose|i: int| 0 <= i < entries.len() && (#[trigger] entries[i]).0 == name;
        lemma_first(entries, name, i);
    }
}

} // verus!
