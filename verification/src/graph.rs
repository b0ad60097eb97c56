use core::marker::PhantomData;
use vstd::prelude::*;
use vstd::slice::slice_subrange;

use crate::counting::count_lt;
use crate::counting::lemma_count_lt_monotone;
use crate::counting::lemma_count_lt_split;
use crate::error::ConversionError;
use crate::storage::Csc;
use crate::storage::Csr;
use crate::storage::SparseGraphStorage;

verus! {

/// The pointer sequence `p` delimits a valid compact layout over an index
/// sequence of length `n`: it has a slot for every group boundary, starts at
/// zero, never decreases, and ends at `n`.
pub open spec fn wf_ptrs(p: Seq<i64>, n: int) -> bool {
    &&& p.len() >= 1
    &&& p[0] == 0
    &&& p[p.len() - 1] == n
    &&& forall|a: int, b: int| 0 <= a <= b < p.len() ==> p[a] <= p[b]
}

/// A pointer array whose slot `g` counts the group keys below `g` is
/// non-decreasing, starts at zero and ends at the number of edges, whenever
/// every group key lies in `[0, m)`.
pub proof fn lemma_pointer_array_wf(p: Seq<i64>, s: Seq<i64>, m: int)
    requires
        0 <= m,
        p.len() == m + 1,
        forall|g: int| 0 <= g <= m ==> p[g] == count_lt(s, g),
        forall|i: int| 0 <= i < s.len() ==> 0 <= #[trigger] s[i] < m,
    ensures
        wf_ptrs(p, s.len() as int),
{
    lemma_count_lt_split(s, 0, 0);
    lemma_count_lt_split(s, m, s.len() as int);
    assert forall|a: int, b: int| 0 <= a <= b < p.len() implies p[a] <= p[b] by {
        lemma_count_lt_monotone(s, a, b);
    }
}

/// Sum of the degrees (pointer differences) of the first `g` groups.
pub open spec fn degree_sum(p: Seq<i64>, g: int) -> int
    decreases g,
{
    if g <= 0 {
        0
    } else {
        degree_sum(p, g - 1) + (p[g] - p[g - 1])
    }
}

proof fn lemma_degree_sum_prefix(p: Seq<i64>, g: int)
    requires
        p.len() >= 1,
        0 <= g < p.len(),
    ensures
        degree_sum(p, g) == p[g] - p[0],
    decreases g,
{
    if g > 0 {
        lemma_degree_sum_prefix(p, g - 1);
    }
}

/// Over a well-formed pointer sequence the degrees of all groups add up to
/// the number of edges.
pub proof fn lemma_degree_sum(p: Seq<i64>, n: int)
    requires
        wf_ptrs(p, n),
    ensures
        degree_sum(p, p.len() - 1) == n,
{
    lemma_degree_sum_prefix(p, p.len() - 1);
}

/// Concatenation of the index ranges of the first `g` groups, in group
/// order.
pub open spec fn group_concat(p: Seq<i64>, index: Seq<i64>, g: int) -> Seq<i64>
    decreases g,
{
    if g <= 0 {
        Seq::empty()
    } else {
        group_concat(p, index, g - 1) + index.subrange(p[g - 1] as int, p[g] as int)
    }
}

proof fn lemma_group_concat_prefix(p: Seq<i64>, index: Seq<i64>, g: int)
    requires
        wf_ptrs(p, index.len() as int),
        0 <= g < p.len(),
    ensures
        group_concat(p, index, g) == index.subrange(0, p[g] as int),
    decreases g,
{
    if g == 0 {
        assert(group_concat(p, index, 0) =~= index.subrange(0, p[0] as int));
    } else {
        lemma_group_concat_prefix(p, index, g - 1);
        assert(0 <= p[g - 1] <= p[g] <= index.len());
        assert(index.subrange(0, p[g - 1] as int) + index.subrange(
            p[g - 1] as int,
            p[g] as int,
        ) =~= index.subrange(0, p[g] as int));
    }
}

/// Concatenating each group's index range over all groups reproduces the
/// whole index sequence.
pub proof fn lemma_group_concat(p: Seq<i64>, index: Seq<i64>)
    requires
        wf_ptrs(p, index.len() as int),
    ensures
        group_concat(p, index, p.len() - 1) == index,
{
    lemma_group_concat_prefix(p, index, p.len() - 1);
    assert(index.subrange(0, index.len() as int) =~= index);
}

/// Concatenating each group's index range over all groups reproduces, as a
/// multiset, exactly the paired coordinates of the edge list the store was
/// converted from (given that the index sequence holds those coordinates as
/// a multiset, which the converter guarantees).
pub proof fn lemma_coverage(p: Seq<i64>, index: Seq<i64>, paired: Seq<i64>)
    requires
        wf_ptrs(p, index.len() as int),
        index.to_multiset() == paired.to_multiset(),
    ensures
        group_concat(p, index, p.len() - 1).to_multiset() == paired.to_multiset(),
{
    lemma_group_concat(p, index);
}

proof fn lemma_adjacent_sorted(p: Seq<i64>, a: int, b: int)
    requires
        forall|k: int| 0 <= k < p.len() - 1 ==> #[trigger] p[k] <= p[k + 1],
        0 <= a <= b < p.len(),
    ensures
        p[a] <= p[b],
    decreases b - a,
{
    if a < b {
        lemma_adjacent_sorted(p, a, b - 1);
    }
}

/// A non-owning, read-only structural view over a pointer-indexed store's
/// pointer and index sequences, exposing neighbor queries. It borrows the
/// backing memory and never copies it.
#[verifier::reject_recursive_types(Ty)]
pub struct SparseGraph<'a, Ty> {
    pub ptrs: &'a [i64],
    pub indices: &'a [i64],
    pub _phantom: PhantomData<Ty>,
}

/// A column-grouped (CSC) view: groups are columns, indices are row values.
pub type CscGraph<'a> = SparseGraph<'a, Csc>;

/// A row-grouped (CSR) view: groups are rows, indices are column values.
pub type CsrGraph<'a> = SparseGraph<'a, Csr>;

impl<'a, Ty> SparseGraph<'a, Ty> {
    /// The view is laid over a valid compact layout.
    pub open spec fn wf(&self) -> bool {
        wf_ptrs(self.ptrs@, self.indices@.len() as int)
    }

    /// Number of groups delimited by the pointer sequence.
    pub open spec fn group_count(&self) -> int {
        self.ptrs@.len() - 1
    }

    pub fn new(ptrs: &'a [i64], indices: &'a [i64]) -> (r: Self)
        ensures
            r.ptrs@ == ptrs@,
            r.indices@ == indices@,
    {
        SparseGraph { ptrs, indices, _phantom: PhantomData }
    }

    /// Borrows a store's pointer and index buffers as a view, after checking
    /// that they form a valid compact layout.
    pub fn try_from(storage: &'a SparseGraphStorage<Ty>) -> (r: Result<Self, ConversionError>)
        ensures
            r is Ok <==> wf_ptrs(storage.ptrs@, storage.indices@.len() as int),
            r matches Ok(g) ==> g.ptrs@ == storage.ptrs@ && g.indices@ == storage.indices@
                && g.wf(),
            r matches Err(e) ==> e == ConversionError::InvalidLayout,
    {
        let n = storage.ptrs.len();
        if n == 0 {
            return Err(ConversionError::InvalidLayout);
        }
        if storage.ptrs[0] != 0 {
            return Err(ConversionError::InvalidLayout);
        }
        let last = storage.ptrs[n - 1];
        if last < 0 || (last as u128) != (storage.indices.len() as u128) {
            return Err(ConversionError::InvalidLayout);
        }
        let mut i: usize = 0;
        while i + 1 < n
            invariant
                i < n == storage.ptrs@.len(),
                forall|k: int| 0 <= k < i ==> #[trigger] storage.ptrs@[k] <= storage.ptrs@[k + 1],
            decreases n - i,
        {
            if storage.ptrs[i] > storage.ptrs[i + 1] {
                return Err(ConversionError::InvalidLayout);
            }
            i = i + 1;
        }
        proof {
            assert forall|a: int, b: int|
                0 <= a <= b < storage.ptrs@.len() implies storage.ptrs@[a] <= storage.ptrs@[b] by {
                lemma_adjacent_sorted(storage.ptrs@, a, b);
            }
        }
        Ok(SparseGraph { ptrs: storage.ptrs.as_slice(), indices: storage.indices.as_slice(), _phantom: PhantomData })
    }

    /// Number of neighbors of group `g`: the width of its index range.
    pub fn degree(&self, g: i64) -> (d: i64)
        requires
            self.wf(),
            0 <= g < self.group_count(),
        ensures
            d == self.ptrs@[g + 1] - self.ptrs@[g as int],
            d >= 0,
    {
        let n = self.ptrs.len();
        let gi = g as usize;
        proof {
            assert(self.ptrs@[0] <= self.ptrs@[g as int]);
            assert(self.ptrs@[g as int] <= self.ptrs@[g + 1]);
            assert(self.ptrs@[g + 1] <= self.ptrs@[n - 1]);
        }
        self.ptrs[gi + 1] - self.ptrs[gi]
    }

    /// The neighbors of group `g`: the read-only slice of index values lying
    /// between the group's two pointer slots. The values are ascending when
    /// the store was produced by the converter.
    pub fn neighbors_slice(&self, g: i64) -> (r: &'a [i64])
        requires
            self.wf(),
            0 <= g < self.group_count(),
        ensures
            r@ == self.indices@.subrange(self.ptrs@[g as int] as int, self.ptrs@[g + 1] as int),
    {
        let n = self.ptrs.len();
        let ilen = self.indices.len();
        let gi = g as usize;
        proof {
            assert(self.ptrs@[0] <= self.ptrs@[g as int]);
            assert(self.ptrs@[g as int] <= self.ptrs@[g + 1]);
            assert(self.ptrs@[g + 1] <= self.ptrs@[n - 1]);
            assert(self.ptrs@[n - 1] == ilen);
        }
        let lo = self.ptrs[gi];
        let hi = self.ptrs[gi + 1];
        slice_subrange(self.indices, lo as usize, hi as usize)
    }
}

impl<'a> SparseGraph<'a, Csc> {
    /// In a column-grouped view the degree of a column counts its incoming
    /// edges.
    pub fn in_degree(&self, g: i64) -> (d: i64)
        requires
            self.wf(),
            0 <= g < self.group_count(),
        ensures
            d == self.ptrs@[g + 1] - self.ptrs@[g as int],
            d >= 0,
    {
        self.degree(g)
    }
}

impl<'a> SparseGraph<'a, Csr> {
    /// In a row-grouped view the degree of a row counts its outgoing edges.
    pub fn out_degree(&self, g: i64) -> (d: i64)
        requires
            self.wf(),
            0 <= g < self.group_count(),
        ensures
            d == self.ptrs@[g + 1] - self.ptrs@[g as int],
            d >= 0,
    {
        self.degree(g)
    }
}

} // verus!
