//! Affine optimization variables: tasks written in terms of named variables.
//!
//! A [`VarLayout`] declares the layout of the global decision vector `x` once
//! and hands out a [`Var`] selector per named block. An [`Affine`] is a map
//! `y = M x + q` from the global `x` to a local quantity; operators compose
//! such maps, so that a task residual reads like the mathematics.

use vstd::prelude::*;

use crate::dense::{
    madd_s, mmul_s, mneg_s, msub_s, mvec_s, mzeros_s, place_s, slice, slice_s, vadd, vadd_s, vcopy,
    vneg, vneg_s, vsub, vsub_s, vzeros, vzeros_s, Mat, Matrix,
};
use crate::scalar::{Arith, Scalar};

verus! {

/// One named block of the decision vector.
#[verifier::ext_equal]
pub struct NamedBlock {
    pub name: Seq<char>,
    pub offset: nat,
    pub size: nat,
}

/// The model of a [`VarLayout`].
#[verifier::ext_equal]
pub struct Layout {
    pub blocks: Seq<NamedBlock>,
    pub n: nat,
}

impl Layout {
    /// The blocks lie one behind the other and fill the decision vector.
    pub open spec fn wf(self) -> bool {
        &&& forall|i: int|
            0 <= i < self.blocks.len() ==> (#[trigger] self.blocks[i]).offset == offset_s(
                sizes_s(self.blocks),
                i as nat,
            )
        &&& self.n == offset_s(sizes_s(self.blocks), self.blocks.len())
    }

    /// Block `i` is the first of that name.
    pub open spec fn first_at(self, name: Seq<char>, i: int) -> bool {
        &&& 0 <= i < self.blocks.len()
        &&& self.blocks[i].name == name
        &&& forall|j: int| 0 <= j < i ==> (#[trigger] self.blocks[j]).name != name
    }

    /// Some block has that name.
    pub open spec fn has(self, name: Seq<char>) -> bool {
        exists|i: int| #[trigger] self.first_at(name, i)
    }

    /// The selector of block `i`.
    pub open spec fn block(self, i: int) -> Block {
        Block { offset: self.blocks[i].offset, size: self.blocks[i].size, n: self.n }
    }

    /// The selector of the first block of that name.
    pub open spec fn var_s(self, name: Seq<char>) -> Block {
        self.block(choose|i: int| self.first_at(name, i))
    }
}

/// The sizes of the blocks.
pub open spec fn sizes_s(blocks: Seq<NamedBlock>) -> Seq<nat> {
    Seq::new(blocks.len(), |i: int| blocks[i].size)
}

/// The sum of the first `n` sizes.
pub open spec fn offset_s(sizes: Seq<nat>, n: nat) -> nat
    decreases n,
{
    if n == 0 {
        0
    } else {
        offset_s(sizes, (n - 1) as nat) + sizes[n - 1]
    }
}

/// A later offset is past every earlier block.
pub proof fn lemma_offset_mono(sizes: Seq<nat>, i: nat, j: nat)
    requires
        i <= j,
    ensures
        offset_s(sizes, i) <= offset_s(sizes, j),
    decreases j,
{
    if i < j {
        lemma_offset_mono(sizes, i, (j - 1) as nat);
    }
}

proof fn lemma_offset_prefix(a: Seq<nat>, b: Seq<nat>, n: nat)
    requires
        forall|i: int| 0 <= i < n ==> a[i] == b[i],
    ensures
        offset_s(a, n) == offset_s(b, n),
    decreases n,
{
    if n > 0 {
        lemma_offset_prefix(a, b, (n - 1) as nat);
    }
}

/// The block of a selector lies inside the decision vector.
#[verifier::ext_equal]
pub struct Block {
    pub offset: nat,
    pub size: nat,
    /// The length of the decision vector.
    pub n: nat,
}

impl Block {
    pub open spec fn wf(self) -> bool {
        self.offset + self.size <= self.n
    }
}

/// The layout that a builder's entries stand for.
pub open spec fn layout_s(entries: Seq<(Seq<char>, nat)>) -> Layout {
    let sizes = Seq::new(entries.len(), |i: int| entries[i].1);
    Layout {
        blocks: Seq::new(
            entries.len(),
            |i: int|
                NamedBlock {
                    name: entries[i].0,
                    offset: offset_s(sizes, i as nat),
                    size: entries[i].1,
                },
        ),
        n: offset_s(sizes, entries.len()),
    }
}

/// A layout that a builder made is contiguous.
pub proof fn lemma_layout_wf(entries: Seq<(Seq<char>, nat)>)
    ensures
        layout_s(entries).wf(),
{
    let sizes = Seq::new(entries.len(), |i: int| entries[i].1);
    assert(sizes_s(layout_s(entries).blocks) =~= sizes);
}

/// A declared layout of the global decision vector as a sequence of named
/// variable blocks. Build with [`VarLayout::builder`].
#[derive(Debug)]
pub struct VarLayout {
    names: Vec<String>,
    offsets: Vec<usize>,
    sizes: Vec<usize>,
    n_decision: usize,
}

impl View for VarLayout {
    type V = Layout;

    closed spec fn view(&self) -> Layout {
        Layout {
            blocks: Seq::new(
                self.names@.len(),
                |i: int|
                    NamedBlock {
                        name: self.names@[i]@,
                        offset: self.offsets@[i] as nat,
                        size: self.sizes@[i] as nat,
                    },
            ),
            n: self.n_decision as nat,
        }
    }
}

/// Builder of a [`VarLayout`]. Blocks are laid out contiguously in the order
/// in which they are added.
#[derive(Debug)]
pub struct VarLayoutBuilder {
    names: Vec<String>,
    sizes: Vec<usize>,
}

impl View for VarLayoutBuilder {
    type V = Seq<(Seq<char>, nat)>;

    closed spec fn view(&self) -> Seq<(Seq<char>, nat)> {
        Seq::new(self.names@.len(), |i: int| (self.names@[i]@, self.sizes@[i] as nat))
    }
}

impl VarLayout {
    #[verifier::type_invariant]
    spec fn inv(self) -> bool {
        &&& self.offsets@.len() == self.names@.len()
        &&& self.sizes@.len() == self.names@.len()
        &&& self@.wf()
    }

    /// An empty builder.
    pub fn builder() -> (b: VarLayoutBuilder)
        ensures
            b@ == Seq::<(Seq<char>, nat)>::empty(),
    {
        let b = VarLayoutBuilder { names: Vec::new(), sizes: Vec::new() };
        assert(b@ =~= Seq::empty());
        b
    }

    /// Total number of decision variables: the sum of all block sizes.
    pub fn n_decision(&self) -> (n: usize)
        ensures
            n == self@.n,
    {
        self.n_decision
    }

    /// The selector of a declared variable.
    pub fn var(&self, name: &str) -> (v: Var)
        requires
            self@.has(name@),
        ensures
            v@ == self@.var_s(name@),
            v@.wf(),
    {
        match self.try_var(name) {
            Some(v) => v,
            None => {
                assert(false);
                Var { offset: 0, size: 0, n_decision: 0 }
            },
        }
    }

    /// The selector, or `None` if no block has that name. The first of several
    /// blocks of one name is selected.
    pub fn try_var(&self, name: &str) -> (r: Option<Var>)
        ensures
            match r {
                Some(v) => self@.has(name@) && v@ == self@.var_s(name@) && v@.wf(),
                None => !self@.has(name@),
            },
    {
        proof {
            use_type_invariant(self);
        }
        let key = name.to_owned();
        let mut i: usize = 0;
        while i < self.names.len()
            invariant
                self.inv(),
                key@ == name@,
                i <= self.names@.len(),
                forall|j: int| 0 <= j < i ==> (#[trigger] self@.blocks[j]).name != name@,
            decreases self.names@.len() - i,
        {
            if self.names[i] == key {
                proof {
                    assert(self@.blocks[i as int].name == name@);
                    assert(self@.first_at(name@, i as int));
                    let k = choose|k: int| self@.first_at(name@, k);
                    assert(k == i) by {
                        if k < i {
                            assert(self@.blocks[k].name != name@);
                        }
                        if i < k {
                            assert(self@.blocks[i as int].name != name@);
                        }
                    }
                    let sizes = sizes_s(self@.blocks);
                    lemma_offset_mono(sizes, (i + 1) as nat, self@.blocks.len());
                }
                return Some(
                    Var {
                        offset: self.offsets[i],
                        size: self.sizes[i],
                        n_decision: self.n_decision,
                    },
                );
            }
            assert(self@.blocks[i as int].name == self.names@[i as int]@);
            i += 1;
        }
        None
    }

    /// Declared variable names, in layout order.
    pub fn names(&self) -> (r: Vec<&str>)
        ensures
            r@.len() == self@.blocks.len(),
            forall|i: int| 0 <= i < r@.len() ==> (#[trigger] r@[i])@ == self@.blocks[i].name,
    {
        let mut r: Vec<&str> = Vec::new();
        let mut i: usize = 0;
        while i < self.names.len()
            invariant
                i <= self.names@.len(),
                r@.len() == i,
                forall|j: int| 0 <= j < i ==> (#[trigger] r@[j])@ == self@.blocks[j].name,
            decreases self.names@.len() - i,
        {
            r.push(self.names[i].as_str());
            i += 1;
        }
        r
    }
}

impl VarLayoutBuilder {
    #[verifier::type_invariant]
    spec fn inv(self) -> bool {
        self.sizes@.len() == self.names@.len()
    }

    /// Appends a variable block of `size` decision variables. Zero-size blocks
    /// are allowed and occupy no range.
    pub fn add(self, name: &str, size: usize) -> (b: VarLayoutBuilder)
        ensures
            b@ == self@.push((name@, size as nat)),
    {
        proof {
            use_type_invariant(&self);
        }
        let mut names = self.names;
        let mut sizes = self.sizes;
        names.push(name.to_owned());
        sizes.push(size);
        let b = VarLayoutBuilder { names, sizes };
        assert(b@ =~= self@.push((name@, size as nat)));
        b
    }

    /// The layout of the blocks added so far.
    pub fn build(self) -> (l: VarLayout)
        requires
            layout_s(self@).n <= usize::MAX,
        ensures
            l@ == layout_s(self@),
    {
        proof {
            use_type_invariant(&self);
        }
        let names = self.names;
        let sizes = self.sizes;
        let ghost spans = Seq::new(self@.len(), |i: int| self@[i].1);
        let mut offsets: Vec<usize> = Vec::new();
        let mut offset: usize = 0;
        let mut i: usize = 0;
        while i < sizes.len()
            invariant
                i <= sizes@.len(),
                sizes@.len() == spans.len(),
                forall|j: int| 0 <= j < sizes@.len() ==> #[trigger] spans[j] == sizes@[j],
                offset_s(spans, spans.len()) <= usize::MAX,
                offset == offset_s(spans, i as nat),
                offsets@.len() == i,
                forall|j: int| 0 <= j < i ==> #[trigger] offsets@[j] == offset_s(spans, j as nat),
            decreases sizes@.len() - i,
        {
            proof {
                lemma_offset_mono(spans, (i + 1) as nat, spans.len());
                assert(spans[i as int] == sizes@[i as int]);
            }
            offsets.push(offset);
            offset += sizes[i];
            i += 1;
        }
        proof {
            lemma_layout_wf(self@);
            let blocks = Seq::new(
                names@.len(),
                |i: int|
                    NamedBlock {
                        name: names@[i]@,
                        offset: offsets@[i] as nat,
                        size: sizes@[i] as nat,
                    },
            );
            assert(blocks =~= layout_s(self@).blocks);
        }
        VarLayout { names, offsets, sizes, n_decision: offset }
    }
}

/// Copies of the strings.
pub(crate) fn copy_strings(v: &Vec<String>) -> (r: Vec<String>)
    ensures
        r@.len() == v@.len(),
        forall|i: int| 0 <= i < v@.len() ==> (#[trigger] r@[i])@ == v@[i]@,
{
    let mut r: Vec<String> = Vec::new();
    let mut i: usize = 0;
    while i < v.len()
        invariant
            i <= v@.len(),
            r@.len() == i,
            forall|j: int| 0 <= j < i ==> (#[trigger] r@[j])@ == v@[j]@,
        decreases v@.len() - i,
    {
        r.push(v[i].as_str().to_owned());
        i += 1;
    }
    r
}

impl Clone for VarLayout {
    fn clone(&self) -> (l: VarLayout)
        ensures
            l@ == self@,
    {
        proof {
            use_type_invariant(self);
        }
        let names = copy_strings(&self.names);
        let offsets = vcopy(&self.offsets);
        let sizes = vcopy(&self.sizes);
        assert(Seq::new(
            names@.len(),
            |i: int|
                NamedBlock {
                    name: names@[i]@,
                    offset: offsets@[i] as nat,
                    size: sizes@[i] as nat,
                },
        ) =~= self@.blocks);
        VarLayout { names, offsets, sizes, n_decision: self.n_decision }
    }
}

impl Clone for VarLayoutBuilder {
    fn clone(&self) -> (b: VarLayoutBuilder)
        ensures
            b@ == self@,
    {
        proof {
            use_type_invariant(self);
        }
        let b = VarLayoutBuilder { names: copy_strings(&self.names), sizes: vcopy(&self.sizes) };
        assert(b@ =~= self@);
        b
    }
}

impl Default for VarLayoutBuilder {
    fn default() -> (b: VarLayoutBuilder)
        ensures
            b@ == Seq::<(Seq<char>, nat)>::empty(),
    {
        VarLayout::builder()
    }
}

/// A selector of one variable block inside the global decision vector.
/// Multiply a coefficient matrix by it to build an [`Affine`], or
/// [`extract`](Var::extract) its slice out of a solution.
#[derive(Debug, Clone, Copy)]
pub struct Var {
    offset: usize,
    size: usize,
    n_decision: usize,
}

impl View for Var {
    type V = Block;

    closed spec fn view(&self) -> Block {
        Block {
            offset: self.offset as nat,
            size: self.size as nat,
            n: self.n_decision as nat,
        }
    }
}

/// The matrix that picks a block: `y = S x` is the block of `x`.
pub open spec fn selection_s<T: Arith>(v: Block) -> Mat<T> {
    Mat::build(
        v.size,
        v.n,
        |i: int, j: int|
            if j == v.offset + i {
                T::one_s()
            } else {
                T::zero_s()
            },
    )
}

impl Var {
    #[verifier::type_invariant]
    spec fn inv(self) -> bool {
        self@.wf()
    }

    /// The selector of the block of `size` variables from `offset` on.
    pub(crate) fn block(offset: usize, size: usize, n_decision: usize) -> (v: Var)
        requires
            offset + size <= n_decision,
        ensures
            v@ == (Block { offset: offset as nat, size: size as nat, n: n_decision as nat }),
    {
        Var { offset, size, n_decision }
    }

    pub fn size(&self) -> (r: usize)
        ensures
            r == self@.size,
    {
        self.size
    }

    pub fn offset(&self) -> (r: usize)
        ensures
            r == self@.offset,
    {
        self.offset
    }

    pub fn n_decision(&self) -> (r: usize)
        ensures
            r == self@.n,
    {
        self.n_decision
    }

    /// The block as an affine map `y = S x`, with `S` the selection matrix.
    pub fn affine<S: Scalar>(&self) -> (a: Affine<S>)
        ensures
            a@ == var_affine_s::<S>(self@),
            a@.wf(),
    {
        proof {
            use_type_invariant(self);
        }
        let off = self.offset;
        let n = self.n_decision;
        let k = self.size;
        let m = Matrix::tabulate(
            k,
            n,
            |i: usize, j: usize| -> (v: S)
                requires
                    i < k,
                    off + k <= n,
                ensures
                    v == (if j == off + i {
                        S::one_s()
                    } else {
                        S::zero_s()
                    })
                {
                    if j == off + i {
                        S::one()
                    } else {
                        S::zero()
                    }
                },
        );
        proof {
            crate::dense::lemma_mat_eq(m@, selection_s::<S>(self@));
        }
        Affine { m, q: vzeros(k) }
    }

    /// This variable's slice of a solution vector that holds its block.
    pub fn extract<S: Copy>(&self, x: &Vec<S>) -> (r: Vec<S>)
        requires
            self@.offset + self@.size <= x@.len(),
        ensures
            r@ == slice_s(x@, self@.offset, self@.size),
    {
        slice(x, self.offset, self.size)
    }
}

/// The model of an [`Affine`]: `y = m x + q`.
#[verifier::ext_equal]
pub struct Aff<T> {
    pub m: Mat<T>,
    pub q: Seq<T>,
}

impl<T> Aff<T> {
    /// One constant per row.
    pub open spec fn wf(self) -> bool {
        self.m.shaped(self.q.len(), self.m.ncols())
    }

    pub open spec fn out(self) -> nat {
        self.q.len()
    }

    pub open spec fn n(self) -> nat {
        self.m.ncols()
    }
}

/// The value at `x`.
pub open spec fn eval_s<T: Arith>(a: Aff<T>, x: Seq<T>) -> Seq<T> {
    vadd_s(mvec_s(a.m, x), a.q)
}

pub open spec fn var_affine_s<T: Arith>(v: Block) -> Aff<T> {
    Aff { m: selection_s(v), q: vzeros_s(v.size) }
}

/// `coef * var`: the coefficients placed in the columns of the block.
pub open spec fn coef_var_s<T: Arith>(c: Mat<T>, v: Block) -> Aff<T> {
    Aff { m: place_s(c, v.offset, v.n), q: vzeros_s(c.nrows()) }
}

/// `coef * affine`.
pub open spec fn coef_affine_s<T: Arith>(c: Mat<T>, a: Aff<T>) -> Aff<T> {
    Aff { m: mmul_s(c, a.m), q: mvec_s(c, a.q) }
}

pub open spec fn aff_add_s<T: Arith>(a: Aff<T>, b: Aff<T>) -> Aff<T> {
    Aff { m: madd_s(a.m, b.m), q: vadd_s(a.q, b.q) }
}

pub open spec fn aff_sub_s<T: Arith>(a: Aff<T>, b: Aff<T>) -> Aff<T> {
    Aff { m: msub_s(a.m, b.m), q: vsub_s(a.q, b.q) }
}

/// `affine + vector`.
pub open spec fn aff_plus_s<T: Arith>(a: Aff<T>, v: Seq<T>) -> Aff<T> {
    Aff { m: a.m, q: vadd_s(a.q, v) }
}

/// `affine - vector`.
pub open spec fn aff_minus_s<T: Arith>(a: Aff<T>, v: Seq<T>) -> Aff<T> {
    Aff { m: a.m, q: vsub_s(a.q, v) }
}

pub open spec fn aff_neg_s<T: Arith>(a: Aff<T>) -> Aff<T> {
    Aff { m: mneg_s(a.m), q: vneg_s(a.q) }
}

/// An affine map `y = M x + q` from the global decision vector to a local
/// quantity. `M` is `out_size x n_decision`.
#[derive(Debug)]
pub struct Affine<S> {
    m: Matrix<S>,
    q: Vec<S>,
}

impl<S> View for Affine<S> {
    type V = Aff<S>;

    closed spec fn view(&self) -> Aff<S> {
        Aff { m: self.m@, q: self.q@ }
    }
}

impl<S: Scalar> Affine<S> {
    /// Made of `M` and `q`, which must agree in their number of rows.
    pub fn new(m: Matrix<S>, q: Vec<S>) -> (a: Affine<S>)
        requires
            m@.wf(),
            m@.nrows() == q@.len(),
        ensures
            a@ == (Aff { m: m@, q: q@ }),
            a@.wf(),
    {
        Affine { m, q }
    }

    /// The constant map `y = c`.
    pub fn constant(c: Vec<S>, n_decision: usize) -> (a: Affine<S>)
        ensures
            a@ == (Aff { m: mzeros_s(c@.len(), n_decision as nat), q: c@ }),
            a@.wf(),
    {
        Affine { m: Matrix::zeros(c.len(), n_decision), q: c }
    }

    /// The zero map of the given output size.
    pub fn zeros(out_size: usize, n_decision: usize) -> (a: Affine<S>)
        ensures
            a@ == (Aff {
                m: mzeros_s::<S>(out_size as nat, n_decision as nat),
                q: vzeros_s::<S>(out_size as nat),
            }),
            a@.wf(),
    {
        Affine { m: Matrix::zeros(out_size, n_decision), q: vzeros(out_size) }
    }

    pub fn out_size(&self) -> (r: usize)
        ensures
            r == self@.m.nrows(),
    {
        self.m.nrows()
    }

    pub fn n_decision(&self) -> (r: usize)
        ensures
            r == self@.n(),
    {
        self.m.ncols()
    }

    pub fn m(&self) -> (r: &Matrix<S>)
        ensures
            r@ == self@.m,
    {
        &self.m
    }

    pub fn q(&self) -> (r: &Vec<S>)
        ensures
            r@ == self@.q,
    {
        &self.q
    }

    /// `y = M x + q` at a concrete decision vector.
    pub fn eval(&self, x: &Vec<S>) -> (y: Vec<S>)
        requires
            self@.wf(),
            x@.len() == self@.n(),
        ensures
            y@ == eval_s(self@, x@),
            y@.len() == self@.out(),
    {
        vadd(&self.m.apply(x), &self.q)
    }

    /// A copy.
    pub fn copied(&self) -> (a: Affine<S>)
        ensures
            a@ == self@,
    {
        Affine { m: self.m.copied(), q: vcopy(&self.q) }
    }

    /// `coef * var`: the coefficients placed in the columns of the block.
    pub fn coef_var(coef: &Matrix<S>, var: &Var) -> (a: Affine<S>)
        requires
            coef@.wf(),
            coef@.ncols() == var@.size,
        ensures
            a@ == coef_var_s(coef@, var@),
            a@.wf(),
    {
        proof {
            use_type_invariant(var);
        }
        Affine { m: coef.place(var.offset, var.n_decision), q: vzeros(coef.nrows()) }
    }

    /// `coef * affine`.
    pub fn coef_affine(coef: &Matrix<S>, a: &Affine<S>) -> (r: Affine<S>)
        requires
            coef@.wf(),
            a@.wf(),
            coef@.ncols() == a@.out(),
        ensures
            r@ == coef_affine_s(coef@, a@),
            r@.wf(),
    {
        Affine { m: coef.mmul(&a.m), q: coef.apply(&a.q) }
    }

    /// The sum of two maps of one shape.
    pub fn sum(&self, o: &Affine<S>) -> (r: Affine<S>)
        requires
            self@.wf(),
            o@.wf(),
            o@.m.shaped(self@.out(), self@.n()),
        ensures
            r@ == aff_add_s(self@, o@),
            r@.wf(),
    {
        Affine { m: self.m.madd(&o.m), q: vadd(&self.q, &o.q) }
    }

    /// The difference of two maps of one shape.
    pub fn difference(&self, o: &Affine<S>) -> (r: Affine<S>)
        requires
            self@.wf(),
            o@.wf(),
            o@.m.shaped(self@.out(), self@.n()),
        ensures
            r@ == aff_sub_s(self@, o@),
            r@.wf(),
    {
        Affine { m: self.m.msub(&o.m), q: vsub(&self.q, &o.q) }
    }

    /// `self + v`: the constant shifted.
    pub fn plus_vec(&self, v: &Vec<S>) -> (r: Affine<S>)
        requires
            self@.wf(),
            v@.len() == self@.out(),
        ensures
            r@ == aff_plus_s(self@, v@),
            r@.wf(),
    {
        Affine { m: self.m.copied(), q: vadd(&self.q, v) }
    }

    /// `self - v`.
    pub fn minus_vec(&self, v: &Vec<S>) -> (r: Affine<S>)
        requires
            self@.wf(),
            v@.len() == self@.out(),
        ensures
            r@ == aff_minus_s(self@, v@),
            r@.wf(),
    {
        Affine { m: self.m.copied(), q: vsub(&self.q, v) }
    }

    /// `-self`.
    pub fn opposite(&self) -> (r: Affine<S>)
        requires
            self@.wf(),
        ensures
            r@ == aff_neg_s(self@),
            r@.wf(),
    {
        Affine { m: self.m.mneg(), q: vneg(&self.q) }
    }
}

impl<S: Scalar> Clone for Affine<S> {
    fn clone(&self) -> (a: Affine<S>)
        ensures
            a@ == self@,
    {
        self.copied()
    }
}

/// Anything that can stand for an affine expression of the decision vector: a
/// raw [`Var`] block or a composed [`Affine`].
pub trait AsAffine<S: Scalar> {
    /// The expression.
    spec fn affine_s(&self) -> Aff<S>;

    /// The expression as a concrete map.
    fn as_affine(&self) -> (a: Affine<S>)
        requires
            self.affine_s().wf(),
        ensures
            a@ == self.affine_s(),
    ;

    /// Output dimension of the expression.
    fn out_size(&self) -> (r: usize)
        requires
            self.affine_s().wf(),
        ensures
            r == self.affine_s().out(),
    ;
}

impl<S: Scalar> AsAffine<S> for Var {
    open spec fn affine_s(&self) -> Aff<S> {
        var_affine_s::<S>(self@)
    }

    fn as_affine(&self) -> Affine<S> {
        self.affine()
    }

    fn out_size(&self) -> usize {
        self.size
    }
}

impl<S: Scalar> AsAffine<S> for Affine<S> {
    open spec fn affine_s(&self) -> Aff<S> {
        self@
    }

    fn as_affine(&self) -> Affine<S> {
        self.copied()
    }

    fn out_size(&self) -> usize {
        self.m.nrows()
    }
}

impl<S: Scalar> vstd::std_specs::convert::FromSpecImpl<&Var> for Affine<S> {
    open spec fn obeys_from_spec() -> bool {
        false
    }

    open spec fn from_spec(v: &Var) -> Affine<S> {
        arbitrary()
    }
}

impl<S: Scalar> From<&Var> for Affine<S> {
    fn from(v: &Var) -> (a: Affine<S>)
        ensures
            a@ == var_affine_s::<S>(v@),
    {
        v.affine()
    }
}

impl<S: Scalar> vstd::std_specs::convert::FromSpecImpl<Var> for Affine<S> {
    open spec fn obeys_from_spec() -> bool {
        false
    }

    open spec fn from_spec(v: Var) -> Affine<S> {
        arbitrary()
    }
}

impl<S: Scalar> From<Var> for Affine<S> {
    fn from(v: Var) -> (a: Affine<S>)
        ensures
            a@ == var_affine_s::<S>(v@),
    {
        v.affine()
    }
}

impl<S: Scalar> vstd::std_specs::ops::MulSpecImpl<&Var> for &Matrix<S> {
    open spec fn obeys_mul_spec() -> bool {
        false
    }

    open spec fn mul_req(self, rhs: &Var) -> bool {
        self@.wf() && self@.ncols() == rhs@.size
    }

    open spec fn mul_spec(self, rhs: &Var) -> Affine<S> {
        arbitrary()
    }
}

impl<S: Scalar> core::ops::Mul<&Var> for &Matrix<S> {
    type Output = Affine<S>;

    fn mul(self, rhs: &Var) -> (r: Affine<S>)
        ensures
            r@ == coef_var_s(self@, rhs@),
    {
        Affine::coef_var(self, rhs)
    }
}

impl<S: Scalar> vstd::std_specs::ops::MulSpecImpl<&Affine<S>> for &Matrix<S> {
    open spec fn obeys_mul_spec() -> bool {
        false
    }

    open spec fn mul_req(self, rhs: &Affine<S>) -> bool {
        self@.wf() && rhs@.wf() && self@.ncols() == rhs@.out()
    }

    open spec fn mul_spec(self, rhs: &Affine<S>) -> Affine<S> {
        arbitrary()
    }
}

impl<S: Scalar> core::ops::Mul<&Affine<S>> for &Matrix<S> {
    type Output = Affine<S>;

    fn mul(self, rhs: &Affine<S>) -> (r: Affine<S>)
        ensures
            r@ == coef_affine_s(self@, rhs@),
    {
        Affine::coef_affine(self, rhs)
    }
}

impl<S: Scalar> vstd::std_specs::ops::AddSpecImpl<&Affine<S>> for &Affine<S> {
    open spec fn obeys_add_spec() -> bool {
        false
    }

    open spec fn add_req(self, rhs: &Affine<S>) -> bool {
        self@.wf() && rhs@.wf() && rhs@.m.shaped(self@.out(), self@.n())
    }

    open spec fn add_spec(self, rhs: &Affine<S>) -> Affine<S> {
        arbitrary()
    }
}

impl<S: Scalar> core::ops::Add<&Affine<S>> for &Affine<S> {
    type Output = Affine<S>;

    fn add(self, rhs: &Affine<S>) -> (r: Affine<S>)
        ensures
            r@ == aff_add_s(self@, rhs@),
    {
        self.sum(rhs)
    }
}

impl<S: Scalar> vstd::std_specs::ops::SubSpecImpl<&Affine<S>> for &Affine<S> {
    open spec fn obeys_sub_spec() -> bool {
        false
    }

    open spec fn sub_req(self, rhs: &Affine<S>) -> bool {
        self@.wf() && rhs@.wf() && rhs@.m.shaped(self@.out(), self@.n())
    }

    open spec fn sub_spec(self, rhs: &Affine<S>) -> Affine<S> {
        arbitrary()
    }
}

impl<S: Scalar> core::ops::Sub<&Affine<S>> for &Affine<S> {
    type Output = Affine<S>;

    fn sub(self, rhs: &Affine<S>) -> (r: Affine<S>)
        ensures
            r@ == aff_sub_s(self@, rhs@),
    {
        self.difference(rhs)
    }
}

impl<S: Scalar> vstd::std_specs::ops::AddSpecImpl<&Vec<S>> for &Affine<S> {
    open spec fn obeys_add_spec() -> bool {
        false
    }

    open spec fn add_req(self, rhs: &Vec<S>) -> bool {
        self@.wf() && rhs@.len() == self@.out()
    }

    open spec fn add_spec(self, rhs: &Vec<S>) -> Affine<S> {
        arbitrary()
    }
}

impl<S: Scalar> core::ops::Add<&Vec<S>> for &Affine<S> {
    type Output = Affine<S>;

    fn add(self, rhs: &Vec<S>) -> (r: Affine<S>)
        ensures
            r@ == aff_plus_s(self@, rhs@),
    {
        self.plus_vec(rhs)
    }
}

impl<S: Scalar> vstd::std_specs::ops::SubSpecImpl<&Vec<S>> for &Affine<S> {
    open spec fn obeys_sub_spec() -> bool {
        false
    }

    open spec fn sub_req(self, rhs: &Vec<S>) -> bool {
        self@.wf() && rhs@.len() == self@.out()
    }

    open spec fn sub_spec(self, rhs: &Vec<S>) -> Affine<S> {
        arbitrary()
    }
}

impl<S: Scalar> core::ops::Sub<&Vec<S>> for &Affine<S> {
    type Output = Affine<S>;

    fn sub(self, rhs: &Vec<S>) -> (r: Affine<S>)
        ensures
            r@ == aff_minus_s(self@, rhs@),
    {
        self.minus_vec(rhs)
    }
}

impl<S: Scalar> vstd::std_specs::ops::NegSpecImpl for &Affine<S> {
    open spec fn obeys_neg_spec() -> bool {
        false
    }

    open spec fn neg_req(self) -> bool {
        self@.wf()
    }

    open spec fn neg_spec(self) -> Affine<S> {
        arbitrary()
    }
}

impl<S: Scalar> core::ops::Neg for &Affine<S> {
    type Output = Affine<S>;

    fn neg(self) -> (r: Affine<S>)
        ensures
            r@ == aff_neg_s(self@),
    {
        self.opposite()
    }
}

} // verus!
