//! Laws of the disjoint-set forest, stated over the root-map model.
//!
//! Each proof function here records a property that follows from the
//! contracts of [`crate::Dsu`]'s operations and the definitions of
//! [`crate::model`], so that it is stated once and checked, not merely
//! implied.

use crate::model::{
    abs_inv, appears, group_size, groups_exact, lemma_count_below_full, lemma_members,
    lemma_merged_sizes,
    lemma_sum_sizes_eq_count, members, merge_loser, merge_view, merge_winner, rep_at,
    sum_sizes_below, to_ints,
};
use crate::Dsu;
use vstd::prelude::*;

verus! {

/// Transitivity: two elements that each share a group with a common element
/// share a group with each other.
pub proof fn lemma_same_transitive(s: Seq<int>, a: int, b: int, c: int)
    requires
        0 <= a < s.len(),
        0 <= b < s.len(),
        0 <= c < s.len(),
        s[a] == s[b],
        s[b] == s[c],
    ensures
        s[a] == s[c],
{
}

/// Merge idempotence: merging `u` and `v` puts them in one group, so a
/// second merge of the same pair changes nothing and reports `false`
/// through `merge`'s contract.
pub proof fn lemma_merge_idempotent(s: Seq<int>, u: int, v: int)
    requires
        0 <= u < s.len(),
        0 <= v < s.len(),
    ensures
        merge_view(s, u, v)[u] == merge_view(s, u, v)[v],
        merge_view(merge_view(s, u, v), u, v) == merge_view(s, u, v),
{
}

/// Symmetry: `same(u, v)` agrees with `same(v, u)`, and `merge(u, v)` has
/// the same effect as `merge(v, u)`: both produce the same partition with
/// the same group sizes (only the surviving representative may differ when
/// the sizes tie), and both report the same result.
pub proof fn lemma_symmetry(s: Seq<int>, u: int, v: int)
    requires
        0 <= u < s.len(),
        0 <= v < s.len(),
    ensures
        (s[u] == s[v]) == (s[v] == s[u]),
        forall|x: int, y: int|
            0 <= x < s.len() && 0 <= y < s.len() ==> ((#[trigger] merge_view(s, u, v)[x]
                == #[trigger] merge_view(s, u, v)[y]) <==> (merge_view(s, v, u)[x] == merge_view(
                s,
                v,
                u,
            )[y])),
        forall|x: int|
            0 <= x < s.len() ==> #[trigger] group_size(merge_view(s, u, v), merge_view(s, u, v)[x])
                == group_size(merge_view(s, v, u), merge_view(s, v, u)[x]),
{
    let m1 = merge_view(s, u, v);
    let m2 = merge_view(s, v, u);
    if s[u] == s[v] {
        assert(m1 == s && m2 == s);
    } else {
        assert forall|x: int, y: int|
            0 <= x < s.len() && 0 <= y < s.len() implies ((#[trigger] m1[x] == #[trigger] m1[y])
            <==> (m2[x] == m2[y])) by {
            assert(m1[x] == (if s[x] == merge_loser(s, u, v) {
                merge_winner(s, u, v)
            } else {
                s[x]
            }));
            assert(m2[x] == (if s[x] == merge_loser(s, v, u) {
                merge_winner(s, v, u)
            } else {
                s[x]
            }));
            assert(m1[y] == (if s[y] == merge_loser(s, u, v) {
                merge_winner(s, u, v)
            } else {
                s[y]
            }));
            assert(m2[y] == (if s[y] == merge_loser(s, v, u) {
                merge_winner(s, v, u)
            } else {
                s[y]
            }));
        };
        lemma_merged_sizes(s, merge_loser(s, u, v), merge_winner(s, u, v));
        lemma_merged_sizes(s, merge_loser(s, v, u), merge_winner(s, v, u));
        assert forall|x: int|
            0 <= x < s.len() implies #[trigger] group_size(m1, m1[x]) == group_size(m2, m2[x]) by {
            assert(m1[x] == (if s[x] == merge_loser(s, u, v) {
                merge_winner(s, u, v)
            } else {
                s[x]
            }));
            assert(m2[x] == (if s[x] == merge_loser(s, v, u) {
                merge_winner(s, v, u)
            } else {
                s[x]
            }));
        };
    }
}

/// Size conservation: summed over every representative, the group sizes of a
/// well-formed forest add up to the element count, whatever merges built it.
pub proof fn lemma_size_conservation(d: Dsu)
    requires
        d.well_formed(),
    ensures
        sum_sizes_below(d@, d@.len() as int) == d@.len(),
{
    d.lemma_view_valid();
    lemma_sum_sizes_eq_count(d@, d@.len() as int);
    lemma_count_below_full(d@, d@.len() as int);
}

/// Group partition: an enumeration of the groups of a well-formed root map
/// covers every element, stays inside the element range, and never lists an
/// element twice — each element lies in exactly one returned group.
pub proof fn lemma_groups_partition(s: Seq<int>, gs: Seq<Vec<usize>>)
    requires
        abs_inv(s),
        groups_exact(s, gs),
    ensures
        forall|i: int| 0 <= i < s.len() ==> #[trigger] appears(gs, i),
        forall|k: int, j: int|
            0 <= k < gs.len() && 0 <= j < gs[k]@.len() ==> (#[trigger] gs[k]@[j] as int)
                < s.len(),
        forall|k1: int, j1: int, k2: int, j2: int|
            0 <= k1 < gs.len() && 0 <= j1 < gs[k1]@.len() && 0 <= k2 < gs.len() && 0 <= j2
                < gs[k2]@.len() && (k1 != k2 || j1 != j2) ==> #[trigger] gs[k1]@[j1]
                != #[trigger] gs[k2]@[j2],
{
    assert forall|i: int| 0 <= i < s.len() implies #[trigger] appears(gs, i) by {
        assert(0 <= s[i] < s.len() && s[s[i]] == s[i]);
        let k = choose|k: int| 0 <= k < gs.len() && rep_at(s, gs, k) == s[i];
        lemma_members(s, s[i]);
        assert(members(s, s[i]).contains(i));
        let j = choose|j: int| 0 <= j < members(s, s[i]).len() && members(s, s[i])[j] == i;
        assert(to_ints(gs[k]@)[j] == gs[k]@[j] as int);
        assert(gs[k]@[j] as int == i);
    };
    assert forall|k: int, j: int|
        0 <= k < gs.len() && 0 <= j < gs[k]@.len() implies (#[trigger] gs[k]@[j] as int)
        < s.len() by {
        lemma_members(s, rep_at(s, gs, k));
        assert(to_ints(gs[k]@)[j] == gs[k]@[j] as int);
    };
    assert forall|k1: int, j1: int, k2: int, j2: int|
        0 <= k1 < gs.len() && 0 <= j1 < gs[k1]@.len() && 0 <= k2 < gs.len() && 0 <= j2
            < gs[k2]@.len() && (k1 != k2 || j1 != j2) implies #[trigger] gs[k1]@[j1]
        != #[trigger] gs[k2]@[j2] by {
        let r1 = rep_at(s, gs, k1);
        let r2 = rep_at(s, gs, k2);
        lemma_members(s, r1);
        lemma_members(s, r2);
        assert(to_ints(gs[k1]@)[j1] == gs[k1]@[j1] as int);
        assert(to_ints(gs[k2]@)[j2] == gs[k2]@[j2] as int);
        if gs[k1]@[j1] == gs[k2]@[j2] {
            let x = gs[k1]@[j1] as int;
            assert(s[x] == r1 && s[x] == r2);
            if k1 != k2 {
                assert(r1 != r2);
            } else {
                assert(members(s, r1)[j1] != members(s, r1)[j2]);
            }
            assert(false);
        }
    };
}

} // verus!
