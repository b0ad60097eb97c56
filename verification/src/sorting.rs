use vstd::prelude::*;

verus! {

/// One edge prepared for sorting: the linearized sort key, the grouping
/// coordinate, the paired coordinate, and the edge's position in the
/// original coordinate store.
#[derive(Clone, Copy)]
pub(crate) struct SortEntry {
    pub key: i64,
    pub group: i64,
    pub paired: i64,
    pub orig: i64,
}

/// The entries are in non-decreasing order of their sort key.
pub(crate) open spec fn sorted_by_key(s: Seq<SortEntry>) -> bool {
    forall|a: int, b: int| 0 <= a <= b < s.len() ==> s[a].key <= s[b].key
}

/// The grouping coordinates of the entries, in entry order.
pub(crate) open spec fn proj_group(s: Seq<SortEntry>) -> Seq<i64> {
    s.map_values(|e: SortEntry| e.group)
}

/// The paired coordinates of the entries, in entry order.
pub(crate) open spec fn proj_paired(s: Seq<SortEntry>) -> Seq<i64> {
    s.map_values(|e: SortEntry| e.paired)
}

/// The original edge positions of the entries, in entry order.
pub(crate) open spec fn proj_orig(s: Seq<SortEntry>) -> Seq<i64> {
    s.map_values(|e: SortEntry| e.orig)
}

/// Swapping two positions of a sequence leaves its multiset of values
/// unchanged.
proof fn lemma_swap_multiset<A>(s: Seq<A>, i: int, j: int)
    requires
        0 <= i < s.len(),
        0 <= j < s.len(),
        i != j,
    ensures
        s.update(i, s[j]).update(j, s[i]).to_multiset() == s.to_multiset(),
{
    broadcast use vstd::seq_lib::group_to_multiset_ensures;
    broadcast use vstd::seq_lib::to_multiset_update;
    broadcast use vstd::multiset::group_multiset_axioms;

    let s1 = s.update(i, s[j]);
    let s2 = s1.update(j, s[i]);
    assert(s.contains(s[i]));
    assert(s.to_multiset().count(s[i]) > 0);
    assert(s1[j] == s[j]);
    assert(s1.contains(s1[j]));
    assert(s1.to_multiset().count(s[j]) > 0);
    assert(s2.to_multiset() =~= s.to_multiset());
}

/// Updating one entry updates each projection pointwise.
proof fn lemma_proj_update(s: Seq<SortEntry>, i: int, e: SortEntry)
    requires
        0 <= i < s.len(),
    ensures
        proj_group(s.update(i, e)) =~= proj_group(s).update(i, e.group),
        proj_paired(s.update(i, e)) =~= proj_paired(s).update(i, e.paired),
        proj_orig(s.update(i, e)) =~= proj_orig(s).update(i, e.orig),
{
}

/// Swapping two entries preserves the multiset of entries and the multisets
/// of each coordinate projection.
proof fn lemma_swap_entry_multisets(s: Seq<SortEntry>, a: int, b: int)
    requires
        0 <= a < s.len(),
        0 <= b < s.len(),
        a != b,
    ensures
        s.update(a, s[b]).update(b, s[a]).to_multiset() == s.to_multiset(),
        proj_group(s.update(a, s[b]).update(b, s[a])).to_multiset() == proj_group(s).to_multiset(),
        proj_paired(s.update(a, s[b]).update(b, s[a])).to_multiset() == proj_paired(
            s,
        ).to_multiset(),
        proj_orig(s.update(a, s[b]).update(b, s[a])).to_multiset() == proj_orig(s).to_multiset(),
{
    lemma_swap_multiset(s, a, b);
    let t = s.update(a, s[b]).update(b, s[a]);
    lemma_proj_update(s, a, s[b]);
    lemma_proj_update(s.update(a, s[b]), b, s[a]);
    let pg = proj_group(s);
    assert(proj_group(t) =~= pg.update(a, pg[b]).update(b, pg[a]));
    lemma_swap_multiset(pg, a, b);
    let pp = proj_paired(s);
    assert(proj_paired(t) =~= pp.update(a, pp[b]).update(b, pp[a]));
    lemma_swap_multiset(pp, a, b);
    let po = proj_orig(s);
    assert(proj_orig(t) =~= po.update(a, po[b]).update(b, po[a]));
    lemma_swap_multiset(po, a, b);
}

/// Exchanges the entries at positions `a` and `b`.
fn swap_entries(v: &mut Vec<SortEntry>, a: usize, b: usize)
    requires
        a < old(v)@.len(),
        b < old(v)@.len(),
        a != b,
    ensures
        final(v)@ == old(v)@.update(a as int, old(v)@[b as int]).update(
            b as int,
            old(v)@[a as int],
        ),
        final(v)@.len() == old(v)@.len(),
        final(v)@.to_multiset() == old(v)@.to_multiset(),
        proj_group(final(v)@).to_multiset() == proj_group(old(v)@).to_multiset(),
        proj_paired(final(v)@).to_multiset() == proj_paired(old(v)@).to_multiset(),
        proj_orig(final(v)@).to_multiset() == proj_orig(old(v)@).to_multiset(),
{
    let x = v[a];
    let y = v[b];
    v.set(a, y);
    v.set(b, x);
    proof {
        lemma_swap_entry_multisets(old(v)@, a as int, b as int);
    }
}

/// Sorts the entries into non-decreasing key order.
///
/// The result holds the same entries (as a multiset), so each coordinate
/// projection is also preserved as a multiset.
pub(crate) fn sort_entries(v: &mut Vec<SortEntry>)
    ensures
        final(v)@.len() == old(v)@.len(),
        sorted_by_key(final(v)@),
        final(v)@.to_multiset() == old(v)@.to_multiset(),
        proj_group(final(v)@).to_multiset() == proj_group(old(v)@).to_multiset(),
        proj_paired(final(v)@).to_multiset() == proj_paired(old(v)@).to_multiset(),
        proj_orig(final(v)@).to_multiset() == proj_orig(old(v)@).to_multiset(),
{
    let n = v.len();
    if n == 0 {
        return ;
    }
    let mut i: usize = 1;
    while i < n
        invariant
            1 <= i <= n,
            v@.len() == n,
            v@.to_multiset() == old(v)@.to_multiset(),
            proj_group(v@).to_multiset() == proj_group(old(v)@).to_multiset(),
            proj_paired(v@).to_multiset() == proj_paired(old(v)@).to_multiset(),
            proj_orig(v@).to_multiset() == proj_orig(old(v)@).to_multiset(),
            forall|a: int, b: int| 0 <= a <= b < i ==> v@[a].key <= v@[b].key,
        decreases n - i,
    {
        let mut j: usize = i;
        while j > 0 && v[j - 1].key > v[j].key
            invariant
                0 <= j <= i < n,
                v@.len() == n,
                v@.to_multiset() == old(v)@.to_multiset(),
                proj_group(v@).to_multiset() == proj_group(old(v)@).to_multiset(),
                proj_paired(v@).to_multiset() == proj_paired(old(v)@).to_multiset(),
                proj_orig(v@).to_multiset() == proj_orig(old(v)@).to_multiset(),
                forall|a: int, b: int|
                    0 <= a <= b <= i && b != j ==> v@[a].key <= v@[b].key,
            decreases j,
        {
            let ghost prev = v@;
            swap_entries(v, j - 1, j);
            proof {
                assert forall|a: int, b: int|
                    0 <= a <= b <= i && b != j - 1 implies v@[a].key <= v@[b].key by {
                    if b == j {
                        if a < j - 1 {
                            assert(prev[a].key <= prev[j - 1].key);
                        }
                    } else if a == j - 1 {
                        assert(prev[j as int].key <= prev[b].key);
                    } else if a == j {
                        assert(prev[j - 1].key <= prev[b].key);
                    }
                }
            }
            j = j - 1;
        }
        proof {
            assert forall|a: int, b: int| 0 <= a <= b <= i implies v@[a].key <= v@[b].key by {
                if b == j && a < j {
                    assert(v@[a].key <= v@[j - 1].key);
                    assert(v@[j - 1].key <= v@[j as int].key);
                }
            }
        }
        i = i + 1;
    }
}

} // verus!
