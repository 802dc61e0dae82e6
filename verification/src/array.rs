//! The dense n-dimensional array that the transforms run over, with the
//! product arithmetic that relates a shape to its storage size.

use vstd::prelude::*;

verus! {

/// The product of a sequence of integers; 1 for the empty sequence.
pub open spec fn prod(s: Seq<int>) -> int
    decreases s.len(),
{
    if s.len() == 0 {
        1
    } else {
        s[0] * prod(s.drop_first())
    }
}

/// A sequence of machine lengths read as mathematical integers.
pub open spec fn to_ints(s: Seq<usize>) -> Seq<int> {
    s.map_values(|d: usize| d as int)
}

pub proof fn lemma_prod_concat(a: Seq<int>, b: Seq<int>)
    ensures
        prod(a + b) == prod(a) * prod(b),
    decreases a.len(),
{
    if a.len() == 0 {
        assert(a + b =~= b);
    } else {
        assert((a + b).drop_first() =~= a.drop_first() + b);
        lemma_prod_concat(a.drop_first(), b);
        assert(a[0] * (prod(a.drop_first()) * prod(b)) == (a[0] * prod(a.drop_first())) * prod(b))
            by (nonlinear_arith);
    }
}

pub proof fn lemma_prod_snoc(s: Seq<int>, x: int)
    ensures
        prod(s.push(x)) == prod(s) * x,
{
    assert(s.push(x) =~= s + seq![x]);
    lemma_prod_concat(s, seq![x]);
    assert(prod(seq![x].drop_first()) == 1) by {
        assert(seq![x].drop_first() =~= Seq::<int>::empty());
    }
}

pub proof fn lemma_prod_pos(s: Seq<int>)
    requires
        forall|i: int| 0 <= i < s.len() ==> s[i] >= 1,
    ensures
        prod(s) >= 1,
    decreases s.len(),
{
    if s.len() > 0 {
        assert(forall|i: int| 0 <= i < s.drop_first().len() ==> s.drop_first()[i] >= 1);
        lemma_prod_pos(s.drop_first());
        assert(s[0] * prod(s.drop_first()) >= 1) by (nonlinear_arith)
            requires
                s[0] >= 1,
                prod(s.drop_first()) >= 1,
        ;
    }
}

/// A positive run of a positive sequence multiplies out to something between
/// 1 and the product of the whole sequence.
pub proof fn lemma_prod_subrange_bound(s: Seq<int>, lo: int, hi: int)
    requires
        0 <= lo <= hi <= s.len(),
        forall|i: int| 0 <= i < s.len() ==> s[i] >= 1,
    ensures
        1 <= prod(s.subrange(lo, hi)),
        prod(s.subrange(lo, hi)) <= prod(s),
{
    let a = s.subrange(0, lo);
    let b = s.subrange(lo, hi);
    let c = s.subrange(hi, s.len() as int);
    assert(s =~= (a + b) + c);
    lemma_prod_concat(a + b, c);
    lemma_prod_concat(a, b);
    assert(forall|i: int| 0 <= i < a.len() ==> a[i] >= 1);
    assert(forall|i: int| 0 <= i < b.len() ==> b[i] >= 1);
    assert(forall|i: int| 0 <= i < c.len() ==> c[i] >= 1);
    lemma_prod_pos(a);
    lemma_prod_pos(b);
    lemma_prod_pos(c);
    assert(1 <= prod(b) && prod(b) <= (prod(a) * prod(b)) * prod(c)) by (nonlinear_arith)
        requires
            prod(a) >= 1,
            prod(b) >= 1,
            prod(c) >= 1,
    ;
}

/// A dense array of complex scalars: `data` holds the elements in row-major
/// order, `shape` the length of each axis.
pub struct NdArray {
    pub data: Vec<rustfft::num_complex::Complex64>,
    pub shape: Vec<usize>,
}

impl NdArray {
    /// The shape as a sequence of mathematical integers.
    pub open spec fn sh(self) -> Seq<int> {
        to_ints(self.shape@)
    }

    /// Number of axes.
    pub open spec fn rank(self) -> int {
        self.shape@.len() as int
    }

    /// Well-formed: every axis has positive length, and the storage holds
    /// exactly one element per index tuple.
    pub open spec fn wf(self) -> bool {
        &&& forall|i: int| 0 <= i < self.rank() ==> #[trigger] self.sh()[i] >= 1
        &&& self.data@.len() == prod(self.sh())
    }
}

/// The product of `shape[lo..hi]`. Every partial product divides the whole
/// array's element count, so nothing here can overflow.
pub fn range_prod(shape: &Vec<usize>, lo: usize, hi: usize) -> (p: usize)
    requires
        lo <= hi <= shape.len(),
        forall|i: int| 0 <= i < shape@.len() ==> #[trigger] to_ints(shape@)[i] >= 1,
        prod(to_ints(shape@)) <= usize::MAX,
    ensures
        p == prod(to_ints(shape@).subrange(lo as int, hi as int)),
        1 <= p,
{
    let ghost sh = to_ints(shape@);
    let mut p: usize = 1;
    let mut j: usize = lo;
    assert(sh.subrange(lo as int, lo as int) =~= Seq::<int>::empty());
    while j < hi
        invariant
            lo <= j <= hi <= shape.len(),
            sh == to_ints(shape@),
            forall|i: int| 0 <= i < sh.len() ==> sh[i] >= 1,
            prod(sh) <= usize::MAX,
            p == prod(sh.subrange(lo as int, j as int)),
        decreases hi - j,
    {
        proof {
            lemma_prod_snoc(sh.subrange(lo as int, j as int), sh[j as int]);
            assert(sh.subrange(lo as int, j as int + 1) =~= sh.subrange(
                lo as int,
                j as int,
            ).push(sh[j as int]));
            lemma_prod_subrange_bound(sh, lo as int, j as int + 1);
        }
        p = p * shape[j];
        j += 1;
    }
    proof {
        lemma_prod_subrange_bound(sh, lo as int, hi as int);
    }
    p
}

} // verus!
