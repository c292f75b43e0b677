//! Stable sorting by a `u32` key carried as the first field.

use vstd::prelude::*;
use vstd::set_lib::{lemma_int_range, lemma_subset_equality, set_int_range};

verus! {

/// `after` is `before` reordered by `p` (`after[k] == before[p[k]]`), with the
/// keys ascending and items of equal key in their old order.
pub open spec fn stable_sort_by<T>(before: Seq<(u32, T)>, after: Seq<(u32, T)>, p: Seq<int>) -> bool {
    &&& after.len() == before.len()
    &&& p.len() == before.len()
    &&& forall|k: int| 0 <= k < after.len() ==> 0 <= #[trigger] p[k] < before.len() && after[k] == before[p[k]]
    &&& forall|a: int, b: int| 0 <= a < b < after.len() ==> #[trigger] p[a] != #[trigger] p[b]
    &&& forall|a: int, b: int| 0 <= a <= b < after.len() ==> #[trigger] after[a].0 <= #[trigger] after[b].0
    &&& forall|a: int, b: int| 0 <= a < b < after.len() && #[trigger] after[a].0 == #[trigger] after[b].0 ==> p[a] < p[b]
}

/// `after` is the stable sort of `before` by the first field.
pub open spec fn sorted_stably<T>(before: Seq<(u32, T)>, after: Seq<(u32, T)>) -> bool {
    exists|p: Seq<int>| stable_sort_by(before, after, p)
}

/// Some place of `p` holds `j`.
spec fn hits(p: Seq<int>, j: int) -> bool {
    exists|k: int| 0 <= k < p.len() && p[k] == j
}

/// `n` distinct indices below `n` take every index below `n`.
proof fn lemma_onto(p: Seq<int>, n: int)
    requires
        p.len() == n,
        forall|k: int| 0 <= k < n ==> 0 <= #[trigger] p[k] < n,
        forall|a: int, b: int| 0 <= a < b < n ==> #[trigger] p[a] != #[trigger] p[b],
    ensures
        forall|j: int| 0 <= j < n ==> #[trigger] hits(p, j),
{
    assert(p.no_duplicates()) by {
        assert forall|a: int, b: int| 0 <= a < p.len() && 0 <= b < p.len() && a != b implies p[a] != p[b] by {
            if a > b {
                assert(p[b] != p[a]);
            }
        }
    }
    p.unique_seq_to_set();
    lemma_int_range(0, n);
    assert(p.to_set().subset_of(set_int_range(0, n)));
    lemma_subset_equality(p.to_set(), set_int_range(0, n));
    assert forall|j: int| 0 <= j < n implies #[trigger] hits(p, j) by {
        assert(set_int_range(0, n).contains(j));
        assert(p.to_set().contains(j));
    }
}

/// Two stable sorts of one sequence take the same items to the first `m`
/// places.
proof fn lemma_sorts_agree<T>(before: Seq<(u32, T)>, a: Seq<(u32, T)>, b: Seq<(u32, T)>, p: Seq<int>, q: Seq<int>, m: int)
    requires
        stable_sort_by(before, a, p),
        stable_sort_by(before, b, q),
        0 <= m <= before.len(),
        forall|j: int| 0 <= j < before.len() ==> #[trigger] hits(p, j),
        forall|j: int| 0 <= j < before.len() ==> #[trigger] hits(q, j),
    ensures
        forall|k: int| 0 <= k < m ==> #[trigger] p[k] == q[k],
    decreases m,
{
    if m > 0 {
        lemma_sorts_agree(before, a, b, p, q, m - 1);
        let i = m - 1;
        let x = p[i];
        let y = q[i];
        if x != y {
            assert(hits(q, x));
            assert(hits(p, y));
            let mx = choose|k: int| 0 <= k < before.len() && #[trigger] q[k] == x;
            let my = choose|k: int| 0 <= k < before.len() && #[trigger] p[k] == y;
            if mx < i {
                assert(p[mx] == q[mx]);
                assert(p[mx] != p[i]);
            }
            if my < i {
                assert(q[my] == p[my]);
                assert(q[my] != q[i]);
            }
            assert(mx > i && my > i);
            assert(b[i].0 <= b[mx].0);
            assert(a[i].0 <= a[my].0);
            assert(b[i] == before[y] && b[mx] == before[x]);
            assert(a[i] == before[x] && a[my] == before[y]);
            assert(q[i] < q[mx]);
            assert(p[i] < p[my]);
        }
    }
}

/// A stable sort is unique: two stable sorts of one sequence are equal.
pub proof fn lemma_sorted_stably_unique<T>(before: Seq<(u32, T)>, a: Seq<(u32, T)>, b: Seq<(u32, T)>)
    requires
        sorted_stably(before, a),
        sorted_stably(before, b),
    ensures
        a == b,
{
    let p = choose|p: Seq<int>| stable_sort_by(before, a, p);
    let q = choose|q: Seq<int>| stable_sort_by(before, b, q);
    lemma_onto(p, before.len() as int);
    lemma_onto(q, before.len() as int);
    lemma_sorts_agree(before, a, b, p, q, before.len() as int);
    assert forall|k: int| 0 <= k < a.len() implies a[k] == b[k] by {
        assert(p[k] == q[k]);
    }
    assert(a =~= b);
}

/// `slice::sort_by_key` on the first field: by its documentation a stable
/// sort, so the items come out ascending by key, those of equal key in the
/// order they had.
#[verifier::external_body]
pub(crate) fn sort_by_first<T>(v: &mut Vec<(u32, T)>)
    ensures
        sorted_stably(old(v)@, final(v)@),
{
    v.sort_by_key(|e| e.0);
}

} // verus!
