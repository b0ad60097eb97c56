use vstd::prelude::*;

verus! {

/// Number of entries of `s` whose value lies strictly below `g`.
///
/// This is the mathematical meaning of a pointer array: in a pointer-indexed
/// store built over group keys `s`, slot `g` of the pointer array holds
/// exactly `count_lt(s, g)`.
pub open spec fn count_lt(s: Seq<i64>, g: int) -> int
    decreases s.len(),
{
    if s.len() == 0 {
        0
    } else {
        count_lt(s.drop_last(), g) + if s.last() < g {
            1int
        } else {
            0int
        }
    }
}

/// The sequence is sorted in non-decreasing order.
pub open spec fn sorted(s: Seq<i64>) -> bool {
    forall|a: int, b: int| 0 <= a <= b < s.len() ==> s[a] <= s[b]
}

/// Raising the bound never lowers the count.
pub proof fn lemma_count_lt_monotone(s: Seq<i64>, g1: int, g2: int)
    requires
        g1 <= g2,
    ensures
        count_lt(s, g1) <= count_lt(s, g2),
    decreases s.len(),
{
    if s.len() > 0 {
        lemma_count_lt_monotone(s.drop_last(), g1, g2);
    }
}

/// Converting zero edges yields only zero counts: over an empty group-key
/// sequence every pointer slot is zero.
pub proof fn lemma_count_lt_empty(s: Seq<i64>, g: int)
    requires
        s.len() == 0,
    ensures
        count_lt(s, g) == 0,
{
}

/// When a sequence is partitioned at position `i` — everything before `i`
/// lies below `g`, everything from `i` on lies at or above `g` — the count
/// below `g` is exactly `i`.
pub proof fn lemma_count_lt_split(s: Seq<i64>, g: int, i: int)
    requires
        0 <= i <= s.len(),
        forall|k: int| 0 <= k < i ==> s[k] < g,
        forall|k: int| i <= k < s.len() ==> s[k] >= g,
    ensures
        count_lt(s, g) == i,
    decreases s.len(),
{
    if s.len() == 0 {
    } else if i == s.len() {
        lemma_count_lt_split(s.drop_last(), g, i - 1);
    } else {
        lemma_count_lt_split(s.drop_last(), g, i);
    }
}

/// Removing one entry lowers the count below `g` by one exactly when that
/// entry lay below `g`.
proof fn lemma_count_lt_remove(s: Seq<i64>, j: int, g: int)
    requires
        0 <= j < s.len(),
    ensures
        count_lt(s.remove(j), g) == count_lt(s, g) - if s[j] < g {
            1int
        } else {
            0int
        },
    decreases s.len(),
{
    if j == s.len() - 1 {
        assert(s.remove(j) =~= s.drop_last());
    } else {
        lemma_count_lt_remove(s.drop_last(), j, g);
        assert(s.remove(j).drop_last() =~= s.drop_last().remove(j));
        assert(s.remove(j).last() == s.last());
    }
}

/// The count below a bound depends only on the multiset of entries, not on
/// their order.
pub proof fn lemma_count_lt_multiset(s1: Seq<i64>, s2: Seq<i64>, g: int)
    requires
        s1.to_multiset() == s2.to_multiset(),
    ensures
        count_lt(s1, g) == count_lt(s2, g),
    decreases s1.len(),
{
    broadcast use vstd::seq_lib::group_to_multiset_ensures;

    if s1.len() == 0 {
        assert(s2.to_multiset().len() == 0);
    } else {
        let x = s1.last();
        assert(s1.contains(x));
        assert(s2.to_multiset().count(x) > 0);
        assert(s2.contains(x));
        let j = choose|j: int| 0 <= j < s2.len() && s2[j] == x;
        assert(s1.drop_last() =~= s1.remove(s1.len() - 1));
        lemma_count_lt_remove(s1, s1.len() - 1, g);
        lemma_count_lt_remove(s2, j, g);
        assert(s1.drop_last().to_multiset() == s2.remove(j).to_multiset());
        lemma_count_lt_multiset(s1.drop_last(), s2.remove(j), g);
    }
}

} // verus!
