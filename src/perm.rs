use vstd::prelude::*;
use crate::grid::{Tile, unique_positions, value_sum};

verus! {

broadcast use vstd::seq_lib::group_to_multiset_ensures;

/// Two sequences that hold the same tiles, each as often.
pub open spec fn same_tiles(r: Seq<Tile>, t: Seq<Tile>) -> bool {
    r.to_multiset() == t.to_multiset()
}

/// Every tile of a rearrangement occurs in the original.
pub proof fn lemma_perm_contains(r: Seq<Tile>, t: Seq<Tile>, i: int)
    requires
        same_tiles(r, t),
        0 <= i < r.len(),
    ensures
        t.contains(r[i]),
{
    assert(r.contains(r[i]));
    assert(r.to_multiset().count(r[i]) > 0);
}

/// Removing the tile at `k` leaves no two tiles on one cell.
proof fn lemma_remove_unique(t: Seq<Tile>, k: int)
    requires
        unique_positions(t),
        0 <= k < t.len(),
    ensures
        unique_positions(t.remove(k)),
        forall|m: int|
            0 <= m < t.len() - 1 ==> #[trigger] t.remove(k)[m] == t[if m < k { m } else { m + 1 }],
{
    let t1 = t.remove(k);
    assert forall|i: int, j: int|
        0 <= i < t1.len() && 0 <= j < t1.len() && i != j implies #[trigger] t1[i].pos
        != #[trigger] t1[j].pos by {
        let a = if i < k { i } else { i + 1 };
        let b = if j < k { j } else { j + 1 };
        assert(t1[i] == t[a]);
        assert(t1[j] == t[b]);
    }
}

/// A rearrangement of tiles on distinct cells keeps the cells distinct.
pub proof fn lemma_perm_unique_positions(r: Seq<Tile>, t: Seq<Tile>)
    requires
        same_tiles(r, t),
        unique_positions(t),
    ensures
        unique_positions(r),
    decreases r.len(),
{
    if r.len() > 0 {
        let n = r.len() - 1;
        let a = r[n];
        let r1 = r.remove(n);
        assert(r1 =~= r.drop_last());
        lemma_perm_contains(r, t, n);
        let k = choose|k: int| 0 <= k < t.len() && t[k] == a;
        let t1 = t.remove(k);
        lemma_remove_unique(t, k);
        lemma_perm_unique_positions(r1, t1);
        assert forall|i: int, j: int|
            0 <= i < r.len() && 0 <= j < r.len() && i != j implies #[trigger] r[i].pos
            != #[trigger] r[j].pos by {
            if i < n && j < n {
                assert(r[i] == r1[i] && r[j] == r1[j]);
            } else if i != n || j != n {
                let m = if i == n { j } else { i };
                assert(r[m] == r1[m]);
                lemma_perm_contains(r1, t1, m);
                let w = choose|w: int| 0 <= w < t1.len() && t1[w] == r1[m];
                let w2 = if w < k { w } else { w + 1 };
                assert(t1[w] == t[w2]);
            }
        }
    }
}

/// A rearrangement keeps the sum of the values.
pub proof fn lemma_perm_value_sum(r: Seq<Tile>, t: Seq<Tile>)
    requires
        same_tiles(r, t),
    ensures
        value_sum(r) == value_sum(t),
    decreases r.len(),
{
    if r.len() == 0 {
        assert(r.to_multiset().len() == 0);
        assert(t.to_multiset().len() == 0);
        assert(t.len() == 0);
    } else {
        let n = r.len() - 1;
        let a = r[n];
        let r1 = r.remove(n);
        assert(r1 =~= r.drop_last());
        lemma_perm_contains(r, t, n);
        let k = choose|k: int| 0 <= k < t.len() && t[k] == a;
        let t1 = t.remove(k);
        lemma_perm_value_sum(r1, t1);
        lemma_value_sum_remove(t, k);
    }
}

/// Removing one tile takes its value off the sum.
pub proof fn lemma_value_sum_remove(t: Seq<Tile>, k: int)
    requires
        0 <= k < t.len(),
    ensures
        value_sum(t) == value_sum(t.remove(k)) + t[k].value,
    decreases t.len(),
{
    let n = t.len() - 1;
    if k < n {
        lemma_value_sum_remove(t.drop_last(), k);
        assert(t.remove(k).drop_last() =~= t.drop_last().remove(k));
        assert(t.remove(k).last() == t.last());
    } else {
        assert(t.remove(k) =~= t.drop_last());
    }
}

/// The sum of a concatenation is the sum of its parts.
pub proof fn lemma_value_sum_concat(a: Seq<Tile>, b: Seq<Tile>)
    ensures
        value_sum(a + b) == value_sum(a) + value_sum(b),
    decreases b.len(),
{
    if b.len() == 0 {
        assert(a + b =~= a);
    } else {
        lemma_value_sum_concat(a, b.drop_last());
        assert((a + b).drop_last() =~= a + b.drop_last());
    }
}

} // verus!
