//! The n-dimensional orchestration: walking every lane along a chosen axis of
//! a row-major array, applying the 1-D kernel to each lane, and sequencing
//! axis passes into a separable multi-axis transform.
//!
//! A lane along axis `a` of shape `s` is addressed without moving any data:
//! with `inner` the product of the axis lengths after `a` and `na = s[a]`,
//! the flat position of slot `k` of lane `c` is
//! `(c / inner) * (na * inner) + c % inner + k * inner`.

use vstd::arithmetic::div_mod::{
    lemma_fundamental_div_mod,
    lemma_fundamental_div_mod_converse,
    lemma_mod_pos_bound,
};
use vstd::prelude::*;

use crate::array::{lemma_prod_concat, prod, range_prod, to_ints, NdArray};
use crate::kernel::kernel_spec;

verus! {

/// Flat position of slot `k` of lane `c`, for lanes along an axis of length
/// `na` whose trailing block (the product of the axis lengths after it) is
/// `inner`.
pub open spec fn pos_of(c: int, k: int, na: int, inner: int) -> int {
    (c / inner) * (na * inner) + c % inner + k * inner
}

/// The lane that flat position `j` belongs to.
pub open spec fn lane_of_pos(j: int, na: int, inner: int) -> int {
    (j / (na * inner)) * inner + j % inner
}

/// The slot within its lane that flat position `j` holds.
pub open spec fn slot_of_pos(j: int, na: int, inner: int) -> int {
    (j / inner) % na
}

/// Lane `c` of the row-major contents `v`, read along an axis of length `na`
/// with trailing block `inner`.
pub open spec fn lane_seq(v: Seq<rustfft::num_complex::Complex64>, na: int, inner: int, c: int) -> Seq<
    rustfft::num_complex::Complex64,
> {
    Seq::new(na as nat, |k: int| v[pos_of(c, k, na, inner)])
}

/// The row-major contents after every lane went through the 1-D kernel:
/// position `j` holds its own slot of its own transformed lane.
pub open spec fn lanes_transformed(
    v: Seq<rustfft::num_complex::Complex64>,
    na: int,
    inner: int,
    inverse: bool,
) -> Seq<rustfft::num_complex::Complex64> {
    Seq::new(
        v.len(),
        |j: int| kernel_spec(lane_seq(v, na, inner, lane_of_pos(j, na, inner)), inverse)[
            slot_of_pos(j, na, inner)
        ],
    )
}

/// The product of the axis lengths after `axis`: the trailing block size of
/// that axis in a row-major layout.
pub open spec fn suffix_prod(shape: Seq<int>, axis: int) -> int {
    prod(shape.subrange(axis + 1, shape.len() as int))
}

/// Contents of shape `shape`, transformed lane-wise along one axis.
pub open spec fn axis_transformed(
    v: Seq<rustfft::num_complex::Complex64>,
    shape: Seq<int>,
    axis: int,
    inverse: bool,
) -> Seq<rustfft::num_complex::Complex64> {
    lanes_transformed(v, shape[axis], suffix_prod(shape, axis), inverse)
}

/// The separable multi-axis transform: the axes applied in order, each pass
/// reading the previous pass's result.
pub open spec fn axes_transformed(
    v: Seq<rustfft::num_complex::Complex64>,
    shape: Seq<int>,
    axes: Seq<int>,
    inverse: bool,
) -> Seq<rustfft::num_complex::Complex64>
    decreases axes.len(),
{
    if axes.len() == 0 {
        v
    } else {
        axes_transformed(axis_transformed(v, shape, axes[0], inverse), shape, axes.drop_first(), inverse)
    }
}

/// Slot `k` of lane `c` lies inside the array, and decomposing its flat
/// position recovers `c` and `k`.
proof fn lemma_pos_of_bounds(c: int, k: int, outer: int, na: int, inner: int)
    requires
        1 <= outer,
        1 <= na,
        1 <= inner,
        0 <= c < outer * inner,
        0 <= k < na,
    ensures
        0 <= pos_of(c, k, na, inner) < outer * na * inner,
        lane_of_pos(pos_of(c, k, na, inner), na, inner) == c,
        slot_of_pos(pos_of(c, k, na, inner), na, inner) == k,
{
    let q = c / inner;
    let r = c % inner;
    lemma_fundamental_div_mod(c, inner);
    lemma_mod_pos_bound(c, inner);
    assert(0 <= q && q <= outer - 1) by (nonlinear_arith)
        requires
            c == inner * q + r,
            0 <= r < inner,
            0 <= c < outer * inner,
    ;
    let j = pos_of(c, k, na, inner);
    assert(j == q * (na * inner) + r + k * inner);
    assert(0 <= k * inner + r < na * inner && j == q * (na * inner) + (k * inner + r)
        && j == (q * na + k) * inner + r && j < outer * na * inner && (na * inner) * q == q * (na
        * inner)) by (nonlinear_arith)
        requires
            j == q * (na * inner) + r + k * inner,
            0 <= r < inner,
            0 <= k < na,
            0 <= q <= outer - 1,
            1 <= inner,
            1 <= na,
    ;
    lemma_fundamental_div_mod_converse(j, na * inner, q, k * inner + r);
    lemma_fundamental_div_mod_converse(j, inner, q * na + k, r);
    lemma_fundamental_div_mod_converse(q * na + k, na, q, k);
}

/// Like `lemma_pos_of_bounds`, for every slot of one lane at once.
proof fn lemma_lane_slots(c: int, outer: int, na: int, inner: int)
    requires
        1 <= outer,
        1 <= na,
        1 <= inner,
        0 <= c < outer * inner,
    ensures
        forall|k: int|
            0 <= k < na ==> {
                &&& 0 <= #[trigger] pos_of(c, k, na, inner) < outer * na * inner
                &&& lane_of_pos(pos_of(c, k, na, inner), na, inner) == c
                &&& slot_of_pos(pos_of(c, k, na, inner), na, inner) == k
            },
{
    assert forall|k: int| 0 <= k < na implies {
        &&& 0 <= #[trigger] pos_of(c, k, na, inner) < outer * na * inner
        &&& lane_of_pos(pos_of(c, k, na, inner), na, inner) == c
        &&& slot_of_pos(pos_of(c, k, na, inner), na, inner) == k
    } by {
        lemma_pos_of_bounds(c, k, outer, na, inner);
    }
}

/// Every flat position decomposes into a lane and a slot, and composing them
/// back gives the position again.
proof fn lemma_pos_decompose(j: int, outer: int, na: int, inner: int)
    requires
        1 <= outer,
        1 <= na,
        1 <= inner,
        0 <= j < outer * na * inner,
    ensures
        0 <= lane_of_pos(j, na, inner) < outer * inner,
        0 <= slot_of_pos(j, na, inner) < na,
        pos_of(lane_of_pos(j, na, inner), slot_of_pos(j, na, inner), na, inner) == j,
{
    let m = na * inner;
    assert(m >= 1 && outer * na * inner == outer * m) by (nonlinear_arith)
        requires
            m == na * inner,
            1 <= na,
            1 <= inner,
    ;
    let q = j / m;
    let u = j % m;
    lemma_fundamental_div_mod(j, m);
    lemma_mod_pos_bound(j, m);
    assert(0 <= q && q <= outer - 1) by (nonlinear_arith)
        requires
            j == m * q + u,
            0 <= u < m,
            0 <= j < outer * m,
    ;
    let q2 = u / inner;
    let r = u % inner;
    lemma_fundamental_div_mod(u, inner);
    lemma_mod_pos_bound(u, inner);
    assert(0 <= q2 && q2 <= na - 1) by (nonlinear_arith)
        requires
            u == inner * q2 + r,
            0 <= r < inner,
            0 <= u < na * inner,
    ;
    assert(j == (na * q + q2) * inner + r) by (nonlinear_arith)
        requires
            j == m * q + u,
            m == na * inner,
            u == inner * q2 + r,
    ;
    lemma_fundamental_div_mod_converse(j, inner, na * q + q2, r);
    lemma_fundamental_div_mod_converse(na * q + q2, na, q, q2);
    let c = q * inner + r;
    assert(lane_of_pos(j, na, inner) == c);
    assert(0 <= c && c < outer * inner) by (nonlinear_arith)
        requires
            c == q * inner + r,
            0 <= q <= outer - 1,
            0 <= r < inner,
    ;
    lemma_fundamental_div_mod_converse(c, inner, q, r);
    assert(pos_of(c, q2, na, inner) == j) by (nonlinear_arith)
        requires
            j == (na * q + q2) * inner + r,
            c / inner == q,
            c % inner == r,
            pos_of(c, q2, na, inner) == (c / inner) * (na * inner) + c % inner + q2 * inner,
    ;
}

/// Applies the 1-D kernel to every lane of `input` along `axis`, writing each
/// transformed lane into the matching positions of `output`. Both arrays keep
/// their shape, and `input` keeps its contents: each lane is gathered into a
/// scratch buffer, transformed there, and scattered in slot order.
#[verifier::loop_isolation(false)]
pub fn mutate_lane(input: &mut NdArray, output: &mut NdArray, axis: usize, inverse: bool)
    requires
        old(input).wf(),
        old(output).wf(),
        old(input).shape@ == old(output).shape@,
        axis < old(input).shape@.len(),
        inverse ==> old(input).sh()[axis as int] <= u32::MAX,
    ensures
        final(input).data@ == old(input).data@,
        final(input).shape@ == old(input).shape@,
        final(output).wf(),
        final(output).shape@ == old(output).shape@,
        final(output).data@ == axis_transformed(
            old(input).data@,
            old(input).sh(),
            axis as int,
            inverse,
        ),
{
    let ghost sh = old(input).sh();
    let ghost v0 = old(input).data@;
    let r = input.shape.len();
    let na = input.shape[axis];
    let total = input.data.len();
    let inner = range_prod(&input.shape, axis + 1, r);
    let outer = range_prod(&input.shape, 0, axis);
    proof {
        assert(sh =~= sh.subrange(0, axis as int) + sh.subrange(axis as int, r as int));
        lemma_prod_concat(sh.subrange(0, axis as int), sh.subrange(axis as int, r as int));
        assert(sh.subrange(axis as int, r as int).drop_first() =~= sh.subrange(
            axis as int + 1,
            r as int,
        ));
        assert(sh.subrange(axis as int, r as int)[0] == sh[axis as int]);
        assert(total == outer * (na * inner));
        assert(total == outer * na * inner && outer * inner <= total && na * inner <= total)
            by (nonlinear_arith)
            requires
                total == outer * (na * inner),
                1 <= outer,
                1 <= na,
                1 <= inner,
        ;
    }
    let n_lanes = outer * inner;
    let block = na * inner;
    let ghost tgt = lanes_transformed(v0, na as int, inner as int, inverse);
    let mut c: usize = 0;
    while c < n_lanes
        invariant
            c <= n_lanes,
            input.data@ == v0,
            input.shape@ == old(input).shape@,
            output.shape@ == old(output).shape@,
            output.data@.len() == total,
            output.wf(),
            forall|j: int|
                0 <= j < total && 0 <= lane_of_pos(j, na as int, inner as int) < c
                    ==> output.data@[j] == tgt[j],
            forall|j: int|
                0 <= j < total && lane_of_pos(j, na as int, inner as int) >= c ==> output.data@[j]
                    == old(output).data@[j],
        decreases n_lanes - c,
    {
        proof {
            let ci = c as int;
            let ii = inner as int;
            let bi = block as int;
            let ti = total as int;
            lemma_fundamental_div_mod(ci, ii);
            lemma_mod_pos_bound(ci, ii);
            assert((ci / ii) * bi + ci % ii < ti) by (nonlinear_arith)
                requires
                    ci == ii * (ci / ii) + ci % ii,
                    0 <= ci % ii < ii,
                    0 <= ci < outer as int * ii,
                    bi == na as int * ii,
                    ti == outer as int * na as int * ii,
                    1 <= na as int,
                    1 <= ii,
                    1 <= outer as int,
            ;
        }
        let base = (c / inner) * block + (c % inner);
        assert(base as int == pos_of(c as int, 0, na as int, inner as int));
        let mut lane: Vec<rustfft::num_complex::Complex64> = Vec::new();
        let mut k: usize = 0;
        while k < na
            invariant
                k <= na,
                lane@.len() == k,
                forall|t: int|
                    0 <= t < k ==> lane@[t] == v0[pos_of(c as int, t, na as int, inner as int)],
            decreases na - k,
        {
            proof {
                lemma_pos_of_bounds(c as int, k as int, outer as int, na as int, inner as int);
            }
            let idx = base + k * inner;
            lane.push(input.data[idx]);
            k += 1;
        }
        proof {
            assert(lane@ =~= lane_seq(v0, na as int, inner as int, c as int));
        }
        crate::kernel::transform_lane(&mut lane, inverse);
        let mut k2: usize = 0;
        while k2 < na
            invariant
                k2 <= na,
                output.data@.len() == total,
                output.shape@ == old(output).shape@,
                output.wf(),
                forall|j: int|
                    0 <= j < total && 0 <= lane_of_pos(j, na as int, inner as int) < c
                        ==> output.data@[j] == tgt[j],
                forall|t: int|
                    0 <= t < k2 ==> output.data@[pos_of(c as int, t, na as int, inner as int)]
                        == lane@[t],
                forall|j: int|
                    0 <= j < total && lane_of_pos(j, na as int, inner as int) > c ==> output.data@[
                        j
                    ] == old(output).data@[j],
                forall|j: int|
                    0 <= j < total && lane_of_pos(j, na as int, inner as int) == c && slot_of_pos(
                        j,
                        na as int,
                        inner as int,
                    ) >= k2 ==> output.data@[j] == old(output).data@[j],
            decreases na - k2,
        {
            proof {
                lemma_pos_of_bounds(c as int, k2 as int, outer as int, na as int, inner as int);
                lemma_lane_slots(c as int, outer as int, na as int, inner as int);
            }
            let idx = base + k2 * inner;
            let val = lane[k2];
            output.data[idx] = val;
            k2 += 1;
        }
        proof {
            lemma_lane_slots(c as int, outer as int, na as int, inner as int);
            assert forall|j: int|
                0 <= j < total && lane_of_pos(j, na as int, inner as int) == c implies output.data@[
                j
            ] == tgt[j] by {
                lemma_pos_decompose(j, outer as int, na as int, inner as int);
            }
        }
        c += 1;
    }
    proof {
        assert forall|j: int| 0 <= j < total implies output.data@[j] == tgt[j] by {
            lemma_pos_decompose(j, outer as int, na as int, inner as int);
        }
        assert(output.data@ =~= tgt);
        assert(suffix_prod(sh, axis as int) == inner as int);
        assert(axis_transformed(v0, sh, axis as int, inverse) == tgt);
    }
}

/// A single-axis list is just one pass.
proof fn lemma_axes_transformed_one(
    v: Seq<rustfft::num_complex::Complex64>,
    shape: Seq<int>,
    x: int,
    inverse: bool,
)
    ensures
        axes_transformed(v, shape, seq![x], inverse) == axis_transformed(v, shape, x, inverse),
{
    assert(seq![x].drop_first() =~= Seq::<int>::empty());
    assert(axes_transformed(
        axis_transformed(v, shape, x, inverse),
        shape,
        seq![x].drop_first(),
        inverse,
    ) == axis_transformed(v, shape, x, inverse));
}

/// A transform along one more axis extends the separable transform by one
/// pass at the end.
proof fn lemma_axes_transformed_snoc(
    v: Seq<rustfft::num_complex::Complex64>,
    shape: Seq<int>,
    axes: Seq<int>,
    x: int,
    inverse: bool,
)
    ensures
        axes_transformed(v, shape, axes.push(x), inverse) == axis_transformed(
            axes_transformed(v, shape, axes, inverse),
            shape,
            x,
            inverse,
        ),
    decreases axes.len(),
{
    if axes.len() == 0 {
        assert(axes.push(x)[0] == x);
        assert(axes.push(x).drop_first() =~= Seq::<int>::empty());
        assert(axes_transformed(
            axis_transformed(v, shape, x, inverse),
            shape,
            Seq::<int>::empty(),
            inverse,
        ) == axis_transformed(v, shape, x, inverse));
    } else {
        assert(axes.push(x)[0] == axes[0]);
        assert(axes.push(x).drop_first() =~= axes.drop_first().push(x));
        lemma_axes_transformed_snoc(
            axis_transformed(v, shape, axes[0], inverse),
            shape,
            axes.drop_first(),
            x,
            inverse,
        );
    }
}

/// The separable transform never changes the element count.
proof fn lemma_axes_transformed_len(
    v: Seq<rustfft::num_complex::Complex64>,
    shape: Seq<int>,
    axes: Seq<int>,
    inverse: bool,
)
    ensures
        axes_transformed(v, shape, axes, inverse).len() == v.len(),
    decreases axes.len(),
{
    if axes.len() > 0 {
        lemma_axes_transformed_len(
            axis_transformed(v, shape, axes[0], inverse),
            shape,
            axes.drop_first(),
            inverse,
        );
    }
}

/// One single-axis pass: binds the kernel direction and drives the lane
/// walker along `axis`.
pub fn _fftn(input: &mut NdArray, output: &mut NdArray, axis: usize, inverse: bool)
    requires
        old(input).wf(),
        old(output).wf(),
        old(input).shape@ == old(output).shape@,
        axis < old(input).shape@.len(),
        inverse ==> old(input).sh()[axis as int] <= u32::MAX,
    ensures
        final(input).data@ == old(input).data@,
        final(input).shape@ == old(input).shape@,
        final(output).wf(),
        final(output).shape@ == old(output).shape@,
        final(output).data@ == axis_transformed(
            old(input).data@,
            old(input).sh(),
            axis as int,
            inverse,
        ),
{
    if inverse {
        mutate_lane(input, output, axis, true);
    } else {
        mutate_lane(input, output, axis, false);
    }
}

/// The forward transform along one axis of an array of any rank.
pub fn fftn(input: &mut NdArray, output: &mut NdArray, axis: usize)
    requires
        old(input).wf(),
        old(output).wf(),
        old(input).shape@ == old(output).shape@,
        axis < old(input).shape@.len(),
    ensures
        final(input).data@ == old(input).data@,
        final(input).shape@ == old(input).shape@,
        final(output).wf(),
        final(output).shape@ == old(output).shape@,
        final(output).data@ == axis_transformed(
            old(input).data@,
            old(input).sh(),
            axis as int,
            false,
        ),
{
    _fftn(input, output, axis, false);
}

/// The inverse transform along one axis of an array of any rank, normalized
/// lane-wise by the axis length.
pub fn ifftn(input: &mut NdArray, output: &mut NdArray, axis: usize)
    requires
        old(input).wf(),
        old(output).wf(),
        old(input).shape@ == old(output).shape@,
        axis < old(input).shape@.len(),
        old(input).sh()[axis as int] <= u32::MAX,
    ensures
        final(input).data@ == old(input).data@,
        final(input).shape@ == old(input).shape@,
        final(output).wf(),
        final(output).shape@ == old(output).shape@,
        final(output).data@ == axis_transformed(
            old(input).data@,
            old(input).sh(),
            axis as int,
            true,
        ),
{
    _fftn(input, output, axis, true);
}

/// The separable multi-axis transform. Each axis pass writes into `output`;
/// after every pass but the last, `output` is copied back into `input` so the
/// next pass reads already-transformed data. `input` is therefore overwritten
/// with the result of all passes but the last — callers must not expect it to
/// keep its original contents.
#[verifier::loop_isolation(false)]
pub fn _fftnd(input: &mut NdArray, output: &mut NdArray, axes: &Vec<usize>, inverse: bool)
    requires
        old(input).wf(),
        old(output).wf(),
        old(input).shape@ == old(output).shape@,
        forall|i: int|
            0 <= i < axes@.len() ==> (#[trigger] axes@[i]) < old(input).shape@.len(),
        inverse ==> forall|i: int|
            0 <= i < axes@.len() ==> old(input).sh()[#[trigger] axes@[i] as int] <= u32::MAX,
    ensures
        final(input).wf(),
        final(output).wf(),
        final(input).shape@ == old(input).shape@,
        final(output).shape@ == old(output).shape@,
        axes@.len() == 0 ==> final(output).data@ == old(output).data@,
        axes@.len() == 0 ==> final(input).data@ == old(input).data@,
        axes@.len() >= 1 ==> final(output).data@ == axes_transformed(
            old(input).data@,
            old(input).sh(),
            to_ints(axes@),
            inverse,
        ),
        axes@.len() >= 1 ==> final(input).data@ == axes_transformed(
            old(input).data@,
            old(input).sh(),
            to_ints(axes@).take(axes@.len() - 1),
            inverse,
        ),
{
    let ghost sh = old(input).sh();
    let ghost v0 = old(input).data@;
    let ghost axs = to_ints(axes@);
    let len = axes.len();
    let mut i: usize = 0;
    assert(axs.take(0) =~= Seq::<int>::empty());
    while i < len
        invariant
            i <= len,
            input.wf(),
            output.wf(),
            input.shape@ == old(input).shape@,
            output.shape@ == old(output).shape@,
            i < len ==> input.data@ == axes_transformed(v0, sh, axs.take(i as int), inverse),
            i == len && len >= 1 ==> input.data@ == axes_transformed(
                v0,
                sh,
                axs.take(len - 1),
                inverse,
            ),
            len == 0 ==> input.data@ == v0,
            i >= 1 ==> output.data@ == axes_transformed(v0, sh, axs.take(i as int), inverse),
            i == 0 ==> output.data@ == old(output).data@,
        decreases len - i,
    {
        let axis = axes[i];
        _fftn(input, output, axis, inverse);
        proof {
            lemma_axes_transformed_snoc(v0, sh, axs.take(i as int), axis as int, inverse);
            assert(axs.take(i as int + 1) =~= axs.take(i as int).push(axis as int));
            lemma_axes_transformed_len(v0, sh, axs.take(i as int + 1), inverse);
        }
        if i < len - 1 {
            crate::kernel::copy_data(&mut input.data, &output.data);
        }
        i += 1;
    }
    proof {
        assert(axs.take(len as int) =~= axs);
    }
}

/// The forward separable transform along the given axes, in order.
pub fn fftnd(input: &mut NdArray, output: &mut NdArray, axes: &Vec<usize>)
    requires
        old(input).wf(),
        old(output).wf(),
        old(input).shape@ == old(output).shape@,
        forall|i: int|
            0 <= i < axes@.len() ==> (#[trigger] axes@[i]) < old(input).shape@.len(),
    ensures
        final(input).wf(),
        final(output).wf(),
        final(input).shape@ == old(input).shape@,
        final(output).shape@ == old(output).shape@,
        axes@.len() == 0 ==> final(output).data@ == old(output).data@,
        axes@.len() == 0 ==> final(input).data@ == old(input).data@,
        axes@.len() >= 1 ==> final(output).data@ == axes_transformed(
            old(input).data@,
            old(input).sh(),
            to_ints(axes@),
            false,
        ),
        axes@.len() >= 1 ==> final(input).data@ == axes_transformed(
            old(input).data@,
            old(input).sh(),
            to_ints(axes@).take(axes@.len() - 1),
            false,
        ),
{
    _fftnd(input, output, axes, false);
}

/// The inverse separable transform along the given axes, in order, each pass
/// normalized by its own axis length.
pub fn ifftnd(input: &mut NdArray, output: &mut NdArray, axes: &Vec<usize>)
    requires
        old(input).wf(),
        old(output).wf(),
        old(input).shape@ == old(output).shape@,
        forall|i: int|
            0 <= i < axes@.len() ==> (#[trigger] axes@[i]) < old(input).shape@.len(),
        forall|i: int|
            0 <= i < axes@.len() ==> old(input).sh()[#[trigger] axes@[i] as int] <= u32::MAX,
    ensures
        final(input).wf(),
        final(output).wf(),
        final(input).shape@ == old(input).shape@,
        final(output).shape@ == old(output).shape@,
        axes@.len() == 0 ==> final(output).data@ == old(output).data@,
        axes@.len() == 0 ==> final(input).data@ == old(input).data@,
        axes@.len() >= 1 ==> final(output).data@ == axes_transformed(
            old(input).data@,
            old(input).sh(),
            to_ints(axes@),
            true,
        ),
        axes@.len() >= 1 ==> final(input).data@ == axes_transformed(
            old(input).data@,
            old(input).sh(),
            to_ints(axes@).take(axes@.len() - 1),
            true,
        ),
{
    _fftnd(input, output, axes, true);
}

/// The forward 2-D transform: rows first, then columns — the separable
/// transform over axes 0 and 1 of a rank-2 array.
pub fn fft2(input: &mut NdArray, output: &mut NdArray)
    requires
        old(input).wf(),
        old(output).wf(),
        old(input).shape@ == old(output).shape@,
        old(input).shape@.len() == 2,
    ensures
        final(input).wf(),
        final(output).wf(),
        final(input).shape@ == old(input).shape@,
        final(output).shape@ == old(output).shape@,
        final(output).data@ == axes_transformed(
            old(input).data@,
            old(input).sh(),
            seq![0int, 1int],
            false,
        ),
        final(input).data@ == axis_transformed(old(input).data@, old(input).sh(), 0, false),
{
    let axes: Vec<usize> = vec![0, 1];
    fftnd(input, output, &axes);
    proof {
        assert(to_ints(axes@) =~= seq![0int, 1int]);
        assert(to_ints(axes@).take(1) =~= seq![0int]);
        lemma_axes_transformed_one(old(input).data@, old(input).sh(), 0, false);
    }
}

/// The inverse 2-D transform: columns first, then rows, mirroring the
/// forward order so the buffer bookkeeping lines up; the separable result
/// itself does not depend on the order.
pub fn ifft2(input: &mut NdArray, output: &mut NdArray)
    requires
        old(input).wf(),
        old(output).wf(),
        old(input).shape@ == old(output).shape@,
        old(input).shape@.len() == 2,
        old(input).sh()[0] <= u32::MAX,
        old(input).sh()[1] <= u32::MAX,
    ensures
        final(input).wf(),
        final(output).wf(),
        final(input).shape@ == old(input).shape@,
        final(output).shape@ == old(output).shape@,
        final(output).data@ == axes_transformed(
            old(input).data@,
            old(input).sh(),
            seq![1int, 0int],
            true,
        ),
        final(input).data@ == axis_transformed(old(input).data@, old(input).sh(), 1, true),
{
    let axes: Vec<usize> = vec![1, 0];
    ifftnd(input, output, &axes);
    proof {
        assert(to_ints(axes@) =~= seq![1int, 0int]);
        assert(to_ints(axes@).take(1) =~= seq![1int]);
        lemma_axes_transformed_one(old(input).data@, old(input).sh(), 1, true);
    }
}

} // verus!
