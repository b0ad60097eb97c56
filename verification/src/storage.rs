use core::marker::PhantomData;
use vstd::prelude::*;
use vstd::slice::slice_subrange;

use crate::counting::count_lt;
use crate::counting::lemma_count_lt_multiset;
use crate::counting::lemma_count_lt_empty;
use crate::counting::lemma_count_lt_split;
use crate::counting::sorted;
use crate::error::ConversionError;
use crate::graph::lemma_pointer_array_wf;
use crate::graph::wf_ptrs;
use crate::sorting::proj_group;
use crate::sorting::proj_orig;
use crate::sorting::proj_paired;
use crate::sorting::sort_entries;
use crate::sorting::sorted_by_key;
use crate::sorting::SortEntry;

verus! {

/// Logical matrix dimensions: number of rows, number of columns.
pub type Size = (i64, i64);

/// A raw edge list in coordinate form: a combined buffer holding the row
/// indices of all edges followed by the column indices of all edges, plus
/// the matrix dimensions. A pure accessor layer; nothing is validated at
/// construction.
pub struct CooGraphStorage {
    pub row_col: Vec<i64>,
    pub size: Size,
}

impl CooGraphStorage {
    /// Number of edges held: half the combined buffer.
    pub open spec fn edge_count(&self) -> int {
        self.row_col@.len() as int / 2
    }

    /// The row coordinate of each edge, in edge order.
    pub open spec fn row_seq(&self) -> Seq<i64> {
        self.row_col@.subrange(0, self.edge_count())
    }

    /// The column coordinate of each edge, in edge order.
    pub open spec fn col_seq(&self) -> Seq<i64> {
        self.row_col@.subrange(self.edge_count(), 2 * self.edge_count())
    }

    /// Every row index lies below the declared number of rows and every
    /// column index below the declared number of columns.
    pub open spec fn in_bounds(&self) -> bool {
        &&& forall|i: int|
            0 <= i < self.edge_count() ==> 0 <= #[trigger] self.row_seq()[i] < self.size.0
        &&& forall|i: int|
            0 <= i < self.edge_count() ==> 0 <= #[trigger] self.col_seq()[i] < self.size.1
    }

    /// Wraps a caller-supplied combined row/column buffer (all row indices,
    /// then all column indices) and the matrix dimensions.
    pub fn new(row_col: Vec<i64>, size: Size) -> (r: Self)
        requires
            row_col@.len() % 2 == 0,
        ensures
            r.row_col@ == row_col@,
            r.size == size,
    {
        Self { row_col, size }
    }

    /// Read-only view of the row coordinates; no copy.
    pub fn row(&self) -> (r: &[i64])
        ensures
            r@ == self.row_seq(),
    {
        let e = self.row_col.len() / 2;
        slice_subrange(self.row_col.as_slice(), 0, e)
    }

    /// Read-only view of the column coordinates; no copy.
    pub fn col(&self) -> (r: &[i64])
        ensures
            r@ == self.col_seq(),
    {
        let e = self.row_col.len() / 2;
        slice_subrange(self.row_col.as_slice(), e, 2 * e)
    }
}

/// The two orientations of a pointer-indexed store.
#[derive(Clone, Copy, Debug, PartialEq, Eq, Structural)]
pub enum SparseGraphType {
    /// Row-grouped (compressed sparse row): groups are rows, the index
    /// sequence holds column values.
    Csr,
    /// Column-grouped (compressed sparse column): groups are columns, the
    /// index sequence holds row values.
    Csc,
}

/// A marker type that names its orientation.
pub trait SparseGraphTypeTrait {
    /// The orientation this marker stands for.
    spec fn spec_type() -> SparseGraphType;

    /// Returns the orientation this marker stands for.
    fn get_type() -> (t: SparseGraphType)
        ensures
            t == Self::spec_type(),
    ;
}

/// Marker for the row-grouped orientation.
pub struct Csr;

/// Marker for the column-grouped orientation.
pub struct Csc;

impl SparseGraphTypeTrait for Csr {
    open spec fn spec_type() -> SparseGraphType {
        SparseGraphType::Csr
    }

    fn get_type() -> (t: SparseGraphType) {
        SparseGraphType::Csr
    }
}

impl SparseGraphTypeTrait for Csc {
    open spec fn spec_type() -> SparseGraphType {
        SparseGraphType::Csc
    }

    fn get_type() -> (t: SparseGraphType) {
        SparseGraphType::Csc
    }
}

/// The grouping coordinates of `c`'s edges for orientation `ty`.
pub open spec fn group_seq(c: CooGraphStorage, ty: SparseGraphType) -> Seq<i64> {
    match ty {
        SparseGraphType::Csr => c.row_seq(),
        SparseGraphType::Csc => c.col_seq(),
    }
}

/// The paired coordinates of `c`'s edges for orientation `ty`.
pub open spec fn paired_seq(c: CooGraphStorage, ty: SparseGraphType) -> Seq<i64> {
    match ty {
        SparseGraphType::Csr => c.col_seq(),
        SparseGraphType::Csc => c.row_seq(),
    }
}

/// The number of groups for orientation `ty`.
pub open spec fn group_dim(c: CooGraphStorage, ty: SparseGraphType) -> int {
    match ty {
        SparseGraphType::Csr => c.size.0 as int,
        SparseGraphType::Csc => c.size.1 as int,
    }
}

/// The size of the dimension the paired coordinate ranges over.
pub open spec fn paired_dim(c: CooGraphStorage, ty: SparseGraphType) -> int {
    match ty {
        SparseGraphType::Csr => c.size.1 as int,
        SparseGraphType::Csc => c.size.0 as int,
    }
}

/// The linearized sort key of edge `j`: its grouping coordinate scaled by
/// the paired dimension, plus its paired coordinate. Sorting by this single
/// key orders edges by group and, within a group, by paired coordinate.
pub open spec fn lin_key(c: CooGraphStorage, ty: SparseGraphType, j: int) -> int {
    group_seq(c, ty)[j] * paired_dim(c, ty) + paired_seq(c, ty)[j]
}

/// A pointer-indexed store for orientation `Ty`: a pointer sequence with one
/// slot per group boundary, an index sequence holding the paired coordinate
/// of each edge in sorted order, and optionally the permutation that maps
/// sorted edge positions back to original edge positions.
#[verifier::reject_recursive_types(Ty)]
pub struct SparseGraphStorage<Ty> {
    pub ptrs: Vec<i64>,
    pub indices: Vec<i64>,
    pub perm: Option<Vec<i64>>,
    pub _phantom: PhantomData<Ty>,
}

/// A column-grouped store.
pub type CscGraphStorage = SparseGraphStorage<Csc>;

/// A row-grouped store.
pub type CsrGraphStorage = SparseGraphStorage<Csr>;

impl<Ty> SparseGraphStorage<Ty> {
    /// The store is a faithful conversion of the coordinate store `c` for
    /// orientation `ty`: the pointer sequence counts, for each group
    /// boundary, the edges grouped below it; the index sequence holds the
    /// paired coordinates reordered by a key-sorted permutation of the
    /// original edges, ascending within each group; and the permutation is
    /// retained.
    pub open spec fn is_conversion_of(&self, c: CooGraphStorage, ty: SparseGraphType) -> bool {
        let e = c.edge_count();
        let gc = group_dim(c, ty);
        &&& self.ptrs@.len() == gc + 1
        &&& (forall|g: int| 0 <= g <= gc ==> self.ptrs@[g] == count_lt(group_seq(c, ty), g))
        &&& wf_ptrs(self.ptrs@, e)
        &&& self.indices@.len() == e
        &&& self.indices@.to_multiset() == paired_seq(c, ty).to_multiset()
        &&& self.perm is Some
        &&& {
            let p = self.perm->0@;
            &&& p.len() == e
            &&& (forall|i: int| 0 <= i < e ==> 0 <= #[trigger] p[i] < e)
            &&& (forall|a: int, b: int| 0 <= a < b < e ==> p[a] != p[b])
            &&& (forall|i: int|
                0 <= i < e ==> #[trigger] self.indices@[i] == paired_seq(c, ty)[p[i] as int])
            &&& (forall|i: int|
                0 <= i < e - 1 ==> lin_key(c, ty, #[trigger] p[i] as int) <= lin_key(
                    c,
                    ty,
                    p[i + 1] as int,
                ))
            &&& (forall|i: int|
                0 <= i < e - 1 && group_seq(c, ty)[#[trigger] p[i] as int] == group_seq(c, ty)[p[i
                    + 1] as int] ==> self.indices@[i] <= self.indices@[i + 1])
        }
    }

    /// Wraps the three sequences of a pointer-indexed store.
    pub fn new(ptrs: Vec<i64>, indices: Vec<i64>, perm: Option<Vec<i64>>) -> (r: Self)
        ensures
            r.ptrs@ == ptrs@,
            r.indices@ == indices@,
            r.perm == perm,
    {
        Self { ptrs, indices, perm, _phantom: PhantomData }
    }

    /// Wraps a pointer and an index sequence with no permutation recorded.
    pub fn from_data(ptrs: Vec<i64>, indices: Vec<i64>) -> (r: Self)
        ensures
            r.ptrs@ == ptrs@,
            r.indices@ == indices@,
            r.perm is None,
    {
        Self { ptrs, indices, perm: None, _phantom: PhantomData }
    }
}

/// Derives the pointer array from a sorted group-key sequence: slot `g` of
/// the result is the number of entries with group key below `g`. A single
/// linear pass: leading slots up to and including the first key are zero,
/// each key advance fills the slots in between with the running count, and
/// trailing slots are set to the total count.
#[verifier::loop_isolation(false)]
pub fn ind2ptr(ind: &Vec<i64>, m: i64) -> (out: Vec<i64>)
    requires
        0 <= m,
        m + 1 <= usize::MAX,
        ind@.len() <= i64::MAX,
        sorted(ind@),
        forall|i: int| 0 <= i < ind@.len() ==> 0 <= #[trigger] ind@[i] < m,
    ensures
        out@.len() == m + 1,
        forall|g: int| 0 <= g <= m ==> out@[g] == count_lt(ind@, g),
{
    let e = ind.len();
    let m_us = m as usize;
    let mut out: Vec<i64> = Vec::new();
    let mut z: usize = 0;
    while z < m_us + 1
        invariant
            z <= m_us + 1,
            out@.len() == z,
            forall|k: int| 0 <= k < z ==> out@[k] == 0,
        decreases m_us + 1 - z,
    {
        out.push(0);
        z = z + 1;
    }
    if e == 0 {
        return out;
    }
    proof {
        assert forall|k: int| 0 <= k <= ind@[0] implies count_lt(ind@, k) == 0 by {
            assert forall|j: int| 0 <= j < ind@.len() implies ind@[j] >= k by {
                assert(ind@[0] <= ind@[j]);
            }
            lemma_count_lt_split(ind@, k, 0);
        }
    }
    let mut idx: i64 = ind[0];
    let mut i: usize = 0;
    while i < e - 1
        invariant
            0 <= i <= e - 1,
            idx == ind@[i as int],
            out@.len() == m + 1,
            forall|k: int| 0 <= k <= idx ==> out@[k] == count_lt(ind@, k),
        decreases e - 1 - i,
    {
        let next: i64 = ind[i + 1];
        proof {
            assert(ind@[i as int] <= ind@[i + 1]);
        }
        let mut k: i64 = idx;
        while k < next
            invariant
                idx <= k <= next,
                out@.len() == m + 1,
                forall|t: int| 0 <= t <= k ==> out@[t] == count_lt(ind@, t),
            decreases next - k,
        {
            out.set((k + 1) as usize, (i + 1) as i64);
            proof {
                assert forall|j: int| 0 <= j <= i implies ind@[j] < k + 1 by {
                    assert(ind@[j] <= ind@[i as int]);
                }
                assert forall|j: int| i + 1 <= j < ind@.len() implies ind@[j] >= k + 1 by {
                    assert(ind@[i + 1] <= ind@[j]);
                }
                lemma_count_lt_split(ind@, k + 1, i + 1);
            }
            k = k + 1;
        }
        idx = next;
        i = i + 1;
    }
    let mut t: usize = (idx + 1) as usize;
    while t <= m_us
        invariant
            idx + 1 <= t <= m_us + 1,
            out@.len() == m + 1,
            forall|k: int| 0 <= k < t ==> out@[k] == count_lt(ind@, k),
        decreases m_us + 1 - t,
    {
        out.set(t, e as i64);
        proof {
            assert forall|j: int| 0 <= j < ind@.len() implies ind@[j] < t by {
                assert(ind@[j] <= ind@[ind@.len() - 1]);
            }
            lemma_count_lt_split(ind@, t as int, ind@.len() as int);
        }
        t = t + 1;
    }
    out
}

/// Every value of the slice lies in `[0, bound)`.
fn check_in_range(v: &[i64], bound: i64) -> (b: bool)
    ensures
        b <==> (forall|i: int| 0 <= i < v@.len() ==> 0 <= #[trigger] v@[i] < bound),
{
    let n = v.len();
    let mut i: usize = 0;
    while i < n
        invariant
            i <= n == v@.len(),
            forall|k: int| 0 <= k < i ==> 0 <= #[trigger] v@[k] < bound,
        decreases n - i,
    {
        if v[i] < 0 || v[i] >= bound {
            return false;
        }
        i = i + 1;
    }
    true
}

/// An entry's fields are consistent with the coordinate data it was built
/// from: its original position indexes the coordinate sequences, its group
/// and paired fields hold the coordinates found there, and its key is the
/// linearized combination of the two.
pub(crate) open spec fn entry_wf(e: SortEntry, group: Seq<i64>, paired: Seq<i64>, d: int) -> bool {
    &&& 0 <= e.orig < group.len()
    &&& e.group == group[e.orig as int]
    &&& e.paired == paired[e.orig as int]
    &&& e.key == e.group * d + e.paired
}

/// With a group value below `gc` and a paired value below `d`, the
/// linearized key stays within `[0, gc * d)`.
proof fn lemma_key_bound(g: int, p: int, gc: int, d: int)
    by (nonlinear_arith)
    requires
        0 <= g < gc,
        0 <= p < d,
    ensures
        0 <= g * d,
        g * d + p < gc * d,
{
}

/// A smaller or equal linearized key means a smaller or equal group value.
proof fn lemma_group_le(g1: int, p1: int, g2: int, p2: int, d: int)
    by (nonlinear_arith)
    requires
        0 <= p1 < d,
        0 <= p2 < d,
        g1 * d + p1 <= g2 * d + p2,
    ensures
        g1 <= g2,
{
}

/// Builds one sort entry per edge, keyed by the linearized sort key, with
/// the edge's position recorded.
#[verifier::loop_isolation(false)]
fn build_entries(group: &[i64], paired: &[i64], d: i64, gc: i64) -> (v: Vec<SortEntry>)
    requires
        group@.len() == paired@.len(),
        group@.len() <= i64::MAX,
        0 <= d,
        0 <= gc,
        gc * d <= i64::MAX,
        forall|i: int| 0 <= i < group@.len() ==> 0 <= #[trigger] group@[i] < gc,
        forall|i: int| 0 <= i < paired@.len() ==> 0 <= #[trigger] paired@[i] < d,
    ensures
        v@.len() == group@.len(),
        proj_group(v@) == group@,
        proj_paired(v@) == paired@,
        forall|i: int| 0 <= i < v@.len() ==> #[trigger] v@[i].orig == i,
        forall|i: int| 0 <= i < v@.len() ==> entry_wf(#[trigger] v@[i], group@, paired@, d as int),
{
    let n = group.len();
    let mut v: Vec<SortEntry> = Vec::new();
    let mut i: usize = 0;
    while i < n
        invariant
            i <= n,
            v@.len() == i,
            forall|k: int| 0 <= k < i ==> #[trigger] v@[k].orig == k,
            forall|k: int| 0 <= k < i ==> #[trigger] v@[k].group == group@[k],
            forall|k: int| 0 <= k < i ==> #[trigger] v@[k].paired == paired@[k],
            forall|k: int| 0 <= k < i ==> #[trigger] v@[k].key == group@[k] * d + paired@[k],
        decreases n - i,
    {
        let g = group[i];
        let p = paired[i];
        proof {
            lemma_key_bound(g as int, p as int, gc as int, d as int);
        }
        let key = g * d + p;
        v.push(SortEntry { key, group: g, paired: p, orig: i as i64 });
        i = i + 1;
    }
    proof {
        assert(proj_group(v@) =~= group@);
        assert(proj_paired(v@) =~= paired@);
        assert forall|i: int|
            0 <= i < v@.len() implies entry_wf(#[trigger] v@[i], group@, paired@, d as int) by {
            assert(v@[i].orig == i);
        }
    }
    v
}

/// Splits a sequence of entries into its group, paired and original-position
/// columns.
#[verifier::loop_isolation(false)]
fn split_entries(v: &Vec<SortEntry>) -> (r: (Vec<i64>, Vec<i64>, Vec<i64>))
    ensures
        r.0@ == proj_group(v@),
        r.1@ == proj_paired(v@),
        r.2@ == proj_orig(v@),
{
    let n = v.len();
    let mut sg: Vec<i64> = Vec::new();
    let mut si: Vec<i64> = Vec::new();
    let mut sp: Vec<i64> = Vec::new();
    let mut i: usize = 0;
    while i < n
        invariant
            i <= n,
            sg@.len() == i,
            si@.len() == i,
            sp@.len() == i,
            forall|k: int| 0 <= k < i ==> #[trigger] sg@[k] == v@[k].group,
            forall|k: int| 0 <= k < i ==> #[trigger] si@[k] == v@[k].paired,
            forall|k: int| 0 <= k < i ==> #[trigger] sp@[k] == v@[k].orig,
        decreases n - i,
    {
        let en = v[i];
        sg.push(en.group);
        si.push(en.paired);
        sp.push(en.orig);
        i = i + 1;
    }
    proof {
        assert(sg@ =~= proj_group(v@));
        assert(si@ =~= proj_paired(v@));
        assert(sp@ =~= proj_orig(v@));
    }
    (sg, si, sp)
}

/// Entry consistency depends only on which entries are present, not on
/// their order.
proof fn lemma_entry_wf_preserved(
    s1: Seq<SortEntry>,
    s2: Seq<SortEntry>,
    group: Seq<i64>,
    paired: Seq<i64>,
    d: int,
)
    requires
        s1.to_multiset() == s2.to_multiset(),
        forall|i: int| 0 <= i < s1.len() ==> entry_wf(#[trigger] s1[i], group, paired, d),
    ensures
        forall|i: int| 0 <= i < s2.len() ==> entry_wf(#[trigger] s2[i], group, paired, d),
{
    broadcast use vstd::seq_lib::group_to_multiset_ensures;

    assert forall|i: int| 0 <= i < s2.len() implies entry_wf(#[trigger] s2[i], group, paired, d) by {
        assert(s2.contains(s2[i]));
        assert(s1.to_multiset().count(s2[i]) > 0);
        assert(s1.contains(s2[i]));
        let j = choose|j: int| 0 <= j < s1.len() && s1[j] == s2[i];
        assert(entry_wf(s1[j], group, paired, d));
    }
}

/// A reordering of entries with pairwise distinct values keeps their
/// original positions pairwise distinct, because consistent entries are
/// wholly determined by their original position.
proof fn lemma_orig_distinct(
    s1: Seq<SortEntry>,
    s2: Seq<SortEntry>,
    group: Seq<i64>,
    paired: Seq<i64>,
    d: int,
)
    requires
        s1.to_multiset() == s2.to_multiset(),
        s1.no_duplicates(),
        forall|i: int| 0 <= i < s2.len() ==> entry_wf(#[trigger] s2[i], group, paired, d),
    ensures
        forall|a: int, b: int| 0 <= a < b < s2.len() ==> s2[a].orig != s2[b].orig,
{
    s1.lemma_multiset_has_no_duplicates();
    s2.lemma_multiset_has_no_duplicates_conv();
    assert forall|a: int, b: int| 0 <= a < b < s2.len() implies s2[a].orig != s2[b].orig by {
        if s2[a].orig == s2[b].orig {
            assert(entry_wf(s2[a], group, paired, d));
            assert(entry_wf(s2[b], group, paired, d));
            assert(s2[a] == s2[b]);
        }
    }
}

/// A store converted from a coordinate store with no edges has a pointer
/// array of all zeros, with one slot per group boundary.
pub proof fn lemma_empty_conversion<Ty>(
    s: SparseGraphStorage<Ty>,
    c: CooGraphStorage,
    ty: SparseGraphType,
)
    requires
        s.is_conversion_of(c, ty),
        c.edge_count() == 0,
    ensures
        s.ptrs@.len() == group_dim(c, ty) + 1,
        forall|g: int| 0 <= g < s.ptrs@.len() ==> s.ptrs@[g] == 0,
{
    assert forall|g: int| 0 <= g < s.ptrs@.len() implies s.ptrs@[g] == 0 by {
        lemma_count_lt_empty(group_seq(c, ty), g);
    }
}

impl<Ty: SparseGraphTypeTrait> SparseGraphStorage<Ty> {
    /// Converts a coordinate store into a pointer-indexed store for this
    /// orientation.
    ///
    /// Every coordinate is checked against its declared dimension; an edge
    /// out of range yields `CoordinateOutOfRange` and nothing is produced.
    /// Otherwise the edges are sorted by the linearized key, the permutation
    /// is recorded, and the pointer array is derived from the sorted group
    /// keys.
    ///
    /// The caller must supply dimensions whose product fits the key width,
    /// so that the linearized key cannot overflow.
    pub fn try_from(value: &CooGraphStorage) -> (r: Result<Self, ConversionError>)
        requires
            value.row_col@.len() % 2 == 0,
            value.edge_count() <= i64::MAX,
            0 <= value.size.0,
            0 <= value.size.1,
            value.size.0 * value.size.1 <= i64::MAX,
            value.size.0 + 1 <= usize::MAX,
            value.size.1 + 1 <= usize::MAX,
        ensures
            r is Ok <==> value.in_bounds(),
            r matches Ok(s) ==> s.is_conversion_of(*value, Ty::spec_type()),
            r matches Err(e) ==> e == ConversionError::CoordinateOutOfRange,
    {
        let ghost tys = Ty::spec_type();
        let ty = Ty::get_type();
        let row = value.row();
        let col = value.col();
        let (group, paired, gc, d) = match ty {
            SparseGraphType::Csr => (row, col, value.size.0, value.size.1),
            SparseGraphType::Csc => (col, row, value.size.1, value.size.0),
        };
        proof {
            assert(group@ == group_seq(*value, tys));
            assert(paired@ == paired_seq(*value, tys));
            assert(gc as int == group_dim(*value, tys));
            assert(d as int == paired_dim(*value, tys));
            assert(group@.len() == value.edge_count());
            assert(paired@.len() == value.edge_count());
            assert(gc * d <= i64::MAX);
        }
        let ok_group = check_in_range(group, gc);
        let ok_paired = check_in_range(paired, d);
        if !ok_group || !ok_paired {
            return Err(ConversionError::CoordinateOutOfRange);
        }
        let ghost e = value.edge_count();
        let mut entries = build_entries(group, paired, d, gc);
        let ghost entries0 = entries@;
        proof {
            assert forall|a: int, b: int|
                0 <= a < entries0.len() && 0 <= b < entries0.len() && a != b implies entries0[a]
                != entries0[b] by {
                assert(entries0[a].orig == a);
                assert(entries0[b].orig == b);
            }
            assert(entries0.no_duplicates());
        }
        sort_entries(&mut entries);
        let ghost entries1 = entries@;
        proof {
            lemma_entry_wf_preserved(entries0, entries1, group@, paired@, d as int);
            lemma_orig_distinct(entries0, entries1, group@, paired@, d as int);
        }
        let (sg, si, sp) = split_entries(&entries);
        proof {
            assert forall|a: int, b: int| 0 <= a <= b < sg@.len() implies sg@[a] <= sg@[b] by {
                if a < b {
                    assert(entry_wf(entries1[a], group@, paired@, d as int));
                    assert(entry_wf(entries1[b], group@, paired@, d as int));
                    assert(entries1[a].key <= entries1[b].key);
                    lemma_group_le(
                        entries1[a].group as int,
                        entries1[a].paired as int,
                        entries1[b].group as int,
                        entries1[b].paired as int,
                        d as int,
                    );
                }
            }
            assert forall|i: int| 0 <= i < sg@.len() implies 0 <= #[trigger] sg@[i] < gc by {
                assert(entry_wf(entries1[i], group@, paired@, d as int));
            }
            assert(sorted(sg@));
        }
        let ptrs = ind2ptr(&sg, gc);
        proof {
            assert(sg@.to_multiset() == group@.to_multiset());
            assert(si@.to_multiset() == paired@.to_multiset());
            assert forall|g: int|
                0 <= g <= gc implies #[trigger] ptrs@[g] == count_lt(group_seq(*value, tys), g) by {
                lemma_count_lt_multiset(sg@, group@, g);
            }
            lemma_pointer_array_wf(ptrs@, sg@, gc as int);
            assert forall|i: int|
                0 <= i < e implies #[trigger] si@[i] == paired_seq(*value, tys)[sp@[i] as int] by {
                assert(entry_wf(entries1[i], group@, paired@, d as int));
            }
            assert forall|i: int| 0 <= i < e implies 0 <= #[trigger] sp@[i] < e by {
                assert(entry_wf(entries1[i], group@, paired@, d as int));
            }
            assert forall|a: int, b: int| 0 <= a < b < e implies sp@[a] != sp@[b] by {
                assert(entries1[a].orig != entries1[b].orig);
            }
            assert forall|i: int|
                0 <= i < e - 1 implies lin_key(*value, tys, #[trigger] sp@[i] as int) <= lin_key(
                *value,
                tys,
                sp@[i + 1] as int,
            ) by {
                assert(entry_wf(entries1[i], group@, paired@, d as int));
                assert(entry_wf(entries1[i + 1], group@, paired@, d as int));
                assert(entries1[i].key <= entries1[i + 1].key);
            }
            assert forall|i: int|
                0 <= i < e - 1 && group_seq(*value, tys)[#[trigger] sp@[i] as int] == group_seq(
                *value,
                tys,
            )[sp@[i + 1] as int] implies si@[i] <= si@[i + 1] by {
                assert(entry_wf(entries1[i], group@, paired@, d as int));
                assert(entry_wf(entries1[i + 1], group@, paired@, d as int));
                assert(entries1[i].key <= entries1[i + 1].key);
            }
        }
        Ok(Self::new(ptrs, si, Some(sp)))
    }
}

} // verus!
