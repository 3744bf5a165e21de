//! Access descriptors: affine maps from logical indices to buffer offsets.
use vstd::prelude::*;
use crate::error::ThrillerError;

verus! {

/// Linear offset of the first `n` dimensions: the sum of
/// `offset_d + stride_d * index_d`.
pub open spec fn partial_offset(pairs: Seq<(u64, u64)>, idx: Seq<u64>, n: nat) -> int
    decreases n,
{
    if n == 0 {
        0
    } else {
        partial_offset(pairs, idx, (n - 1) as nat) + pairs[n - 1].0 + pairs[n - 1].1 * idx[n - 1]
    }
}

/// Linear offset that an index tuple maps to.
pub open spec fn linear_offset(pairs: Seq<(u64, u64)>, idx: Seq<u64>) -> int {
    partial_offset(pairs, idx, pairs.len())
}

/// Smallest offset a descriptor covers: the sum of its offsets.
pub open spec fn base_offset(pairs: Seq<(u64, u64)>) -> int {
    linear_offset(pairs, Seq::new(pairs.len(), |i: int| 0u64))
}

/// A descriptor whose strides are all zero covers a single offset.
pub open spec fn is_point(pairs: Seq<(u64, u64)>) -> bool {
    forall|d: int| 0 <= d < pairs.len() ==> #[trigger] pairs[d].1 == 0
}

/// Every offset and stride is zero: the access is plain, untiled.
pub open spec fn is_trivial(pairs: Seq<(u64, u64)>) -> bool {
    forall|d: int| 0 <= d < pairs.len() ==> (#[trigger] pairs[d]).0 == 0 && pairs[d].1 == 0
}

/// Conservative overlap of the covered ranges: a point covers its base
/// offset, any other descriptor covers every offset from its base upwards;
/// a base that does not fit in a `u64` may overlap anything.
pub open spec fn may_overlap(a: Seq<(u64, u64)>, b: Seq<(u64, u64)>) -> bool {
    if base_offset(a) > u64::MAX || base_offset(b) > u64::MAX {
        true
    } else if is_point(a) && is_point(b) {
        base_offset(a) == base_offset(b)
    } else if is_point(a) {
        base_offset(a) >= base_offset(b)
    } else if is_point(b) {
        base_offset(b) >= base_offset(a)
    } else {
        true
    }
}

proof fn lemma_partial_monotone(pairs: Seq<(u64, u64)>, idx: Seq<u64>, i: nat, n: nat)
    requires
        i <= n <= pairs.len(),
        n <= idx.len(),
    ensures
        0 <= partial_offset(pairs, idx, i) <= partial_offset(pairs, idx, n),
    decreases n,
{
    if n > i {
        lemma_partial_monotone(pairs, idx, i, (n - 1) as nat);
        assert(pairs[n - 1].1 * idx[n - 1] >= 0) by (nonlinear_arith);
    } else if n > 0 {
        lemma_partial_monotone(pairs, idx, (n - 1) as nat, (n - 1) as nat);
        assert(pairs[n - 1].1 * idx[n - 1] >= 0) by (nonlinear_arith);
    }
}

proof fn lemma_partial_ext(pairs: Seq<(u64, u64)>, a: Seq<u64>, b: Seq<u64>, n: nat)
    requires
        n <= a.len(),
        n <= b.len(),
        forall|d: int| 0 <= d < n ==> a[d] == b[d],
    ensures
        partial_offset(pairs, a, n) == partial_offset(pairs, b, n),
    decreases n,
{
    if n > 0 {
        lemma_partial_ext(pairs, a, b, (n - 1) as nat);
    }
}

/// Affine mapping from logical indices to linear buffer offsets: one
/// (offset, stride) pair per dimension.
#[derive(Clone, Debug)]
pub struct AccessMap {
    pairs: Vec<(u64, u64)>,
}

impl View for AccessMap {
    type V = Seq<(u64, u64)>;

    closed spec fn view(&self) -> Seq<(u64, u64)> {
        self.pairs@
    }
}

impl AccessMap {
    /// Build a descriptor of `dims` dimensions; fails with `Configuration`
    /// exactly when the number of pairs is not `dims`.
    pub fn new(dims: usize, pairs: Vec<(u64, u64)>) -> (r: Result<AccessMap, ThrillerError>)
        ensures
            pairs@.len() != dims <==> r == Err::<AccessMap, ThrillerError>(
                ThrillerError::Configuration,
            ),
            r is Ok <==> pairs@.len() == dims,
            r is Ok ==> r->Ok_0@ == pairs@,
    {
        if pairs.len() != dims {
            Err(ThrillerError::Configuration)
        } else {
            Ok(AccessMap { pairs })
        }
    }

    /// A descriptor with the same pairs.
    pub fn duplicate(&self) -> (r: AccessMap)
        ensures
            r@ == self@,
    {
        let mut pairs: Vec<(u64, u64)> = Vec::new();
        let mut i: usize = 0;
        while i < self.pairs.len()
            invariant
                i <= self@.len(),
                pairs@ == self@.take(i as int),
            decreases self@.len() - i,
        {
            pairs.push(self.pairs[i]);
            i = i + 1;
            assert(pairs@ =~= self@.take(i as int));
        }
        assert(self@.take(self@.len() as int) =~= self@);
        AccessMap { pairs }
    }

    /// The dimension count.
    pub fn dims(&self) -> (r: usize)
        ensures
            r == self@.len(),
    {
        self.pairs.len()
    }

    /// The (offset, stride) pair of dimension `d`.
    pub fn pair(&self, d: usize) -> (r: (u64, u64))
        requires
            d < self@.len(),
        ensures
            r == self@[d as int],
    {
        self.pairs[d]
    }

    /// Whether every offset and stride is zero.
    pub fn is_trivial(&self) -> (r: bool)
        ensures
            r == is_trivial(self@),
    {
        let mut i: usize = 0;
        while i < self.pairs.len()
            invariant
                i <= self@.len(),
                forall|d: int| 0 <= d < i ==> (#[trigger] self@[d]).0 == 0 && self@[d].1 == 0,
            decreases self@.len() - i,
        {
            if self.pairs[i].0 != 0 || self.pairs[i].1 != 0 {
                return false;
            }
            i = i + 1;
        }
        true
    }

    /// Linear offset of an index tuple; fails with `Configuration` exactly
    /// when the tuple's arity is not the dimension count or the offset does
    /// not fit in a `u64`.
    pub fn offset_of(&self, indices: &Vec<u64>) -> (r: Result<u64, ThrillerError>)
        ensures
            r is Ok <==> indices@.len() == self@.len() && linear_offset(self@, indices@) <= u64::MAX,
            r is Err ==> r == Err::<u64, ThrillerError>(ThrillerError::Configuration),
            r is Ok ==> r->Ok_0 == linear_offset(self@, indices@),
    {
        if indices.len() != self.pairs.len() {
            return Err(ThrillerError::Configuration);
        }
        let n = self.pairs.len();
        let mut acc: u64 = 0;
        let mut i: usize = 0;
        while i < n
            invariant
                n == self@.len(),
                indices@.len() == n,
                i <= n,
                acc == partial_offset(self@, indices@, i as nat),
            decreases n - i,
        {
            let (off, stride) = self.pairs[i];
            let x = indices[i];
            assert((stride as u128) * (x as u128) <= 0xffff_ffff_ffff_fffe_0000_0000_0000_0001u128) by (nonlinear_arith)
                requires
                    stride <= u64::MAX,
                    x <= u64::MAX,
            ;
            let t: u128 = acc as u128 + off as u128 + (stride as u128) * (x as u128);
            if t > u64::MAX as u128 {
                proof {
                    lemma_partial_monotone(self@, indices@, (i + 1) as nat, n as nat);
                }
                return Err(ThrillerError::Configuration);
            }
            acc = t as u64;
            i = i + 1;
        }
        Ok(acc)
    }

    /// Sum of the offsets, if it fits in a `u64`.
    fn base(&self) -> (r: Option<u64>)
        ensures
            r is Some <==> base_offset(self@) <= u64::MAX,
            r is Some ==> r->Some_0 == base_offset(self@),
    {
        let n = self.pairs.len();
        let ghost zeros = Seq::new(self@.len(), |i: int| 0u64);
        let mut acc: u64 = 0;
        let mut i: usize = 0;
        while i < n
            invariant
                n == self@.len(),
                zeros == Seq::new(self@.len(), |i: int| 0u64),
                i <= n,
                acc == partial_offset(self@, zeros, i as nat),
            decreases n - i,
        {
            let (off, _) = self.pairs[i];
            assert(self@[i as int].1 * zeros[i as int] == 0);
            if off > u64::MAX - acc {
                proof {
                    lemma_partial_monotone(self@, zeros, (i + 1) as nat, n as nat);
                }
                return None;
            }
            acc = acc + off;
            i = i + 1;
        }
        Some(acc)
    }

    /// Whether all strides are zero.
    fn all_strides_zero(&self) -> (r: bool)
        ensures
            r == is_point(self@),
    {
        let mut i: usize = 0;
        while i < self.pairs.len()
            invariant
                i <= self@.len(),
                forall|d: int| 0 <= d < i ==> #[trigger] self@[d].1 == 0,
            decreases self@.len() - i,
        {
            if self.pairs[i].1 != 0 {
                return false;
            }
            i = i + 1;
        }
        true
    }

    /// Conservative test of whether two descriptors may reach a common
    /// offset.
    pub fn overlaps(&self, other: &AccessMap) -> (r: bool)
        ensures
            r == may_overlap(self@, other@),
    {
        let pa = self.all_strides_zero();
        let pb = other.all_strides_zero();
        let (ba, bb) = match (self.base(), other.base()) {
            (Some(ba), Some(bb)) => (ba, bb),
            _ => {
                return true;
            },
        };
        if pa && pb {
            ba == bb
        } else if pa {
            ba >= bb
        } else if pb {
            bb >= ba
        } else {
            true
        }
    }
}

/// The overlap test is conservative: descriptors that it reports as
/// disjoint never map two index tuples to the same offset.
pub proof fn overlap_is_conservative(
    a: Seq<(u64, u64)>,
    b: Seq<(u64, u64)>,
    ia: Seq<u64>,
    ib: Seq<u64>,
)
    requires
        ia.len() == a.len(),
        ib.len() == b.len(),
        !may_overlap(a, b),
    ensures
        linear_offset(a, ia) != linear_offset(b, ib),
{
    if is_point(a) {
        lemma_point_offset(a, ia, a.len());
    }
    if is_point(b) {
        lemma_point_offset(b, ib, b.len());
    }
    lemma_base_below(a, ia, a.len());
    lemma_base_below(b, ib, b.len());
}

proof fn lemma_point_offset(p: Seq<(u64, u64)>, idx: Seq<u64>, n: nat)
    requires
        n <= p.len(),
        n <= idx.len(),
        is_point(p),
    ensures
        partial_offset(p, idx, n) == partial_offset(p, Seq::new(p.len(), |i: int| 0u64), n),
    decreases n,
{
    if n > 0 {
        lemma_point_offset(p, idx, (n - 1) as nat);
        assert(p[n - 1].1 == 0);
    }
}

proof fn lemma_base_below(p: Seq<(u64, u64)>, idx: Seq<u64>, n: nat)
    requires
        n <= p.len(),
        n <= idx.len(),
    ensures
        partial_offset(p, Seq::new(p.len(), |i: int| 0u64), n) <= partial_offset(p, idx, n),
    decreases n,
{
    if n > 0 {
        lemma_base_below(p, idx, (n - 1) as nat);
        assert(p[n - 1].1 * idx[n - 1] >= 0) by (nonlinear_arith);
    }
}

} // verus!
