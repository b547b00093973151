//! The mathematical model of a disjoint-set forest.
//!
//! A forest over `n` elements is abstracted as a *root map*: a sequence `s` of
//! length `n` where `s[i]` is the representative (root) of the group that
//! element `i` belongs to.  Two elements are in the same group exactly when
//! the root map sends them to the same value.  Everything the executable
//! structure promises is stated over this model.

use vstd::prelude::*;

verus! {

/// A well-formed root map: every element's representative is itself an
/// element, and a representative represents itself.
pub open spec fn abs_inv(s: Seq<int>) -> bool {
    forall|i: int| 0 <= i < s.len() ==> 0 <= #[trigger] s[i] < s.len() && s[s[i]] == s[i]
}

/// The elements whose representative is `r`, listed in ascending order.
pub open spec fn members(s: Seq<int>, r: int) -> Seq<int>
    decreases s.len(),
{
    if s.len() == 0 {
        Seq::<int>::empty()
    } else if s.last() == r {
        members(s.drop_last(), r).push(s.len() - 1)
    } else {
        members(s.drop_last(), r)
    }
}

/// How many elements have representative `r`.
pub open spec fn group_size(s: Seq<int>, r: int) -> nat {
    members(s, r).len()
}

/// The root map after redirecting every element of `loser`'s group to `winner`.
pub open spec fn merged_seq(s: Seq<int>, loser: int, winner: int) -> Seq<int> {
    Seq::new(s.len(), |i: int| if s[i] == loser { winner } else { s[i] })
}

/// The representative that survives a merge of `u`'s and `v`'s groups:
/// the root of the larger group, `u`'s root when the sizes tie.
pub open spec fn merge_winner(s: Seq<int>, u: int, v: int) -> int {
    if group_size(s, s[u]) < group_size(s, s[v]) {
        s[v]
    } else {
        s[u]
    }
}

/// The representative that is absorbed by a merge of `u`'s and `v`'s groups.
pub open spec fn merge_loser(s: Seq<int>, u: int, v: int) -> int {
    if group_size(s, s[u]) < group_size(s, s[v]) {
        s[u]
    } else {
        s[v]
    }
}

/// The root map after merging the groups of `u` and `v`.
pub open spec fn merge_view(s: Seq<int>, u: int, v: int) -> Seq<int> {
    if s[u] == s[v] {
        s
    } else {
        merged_seq(s, merge_loser(s, u, v), merge_winner(s, u, v))
    }
}

/// A sequence of element ids, read as mathematical integers.
pub open spec fn to_ints(g: Seq<usize>) -> Seq<int> {
    g.map_values(|x: usize| x as int)
}

/// The representative of the `k`-th group of `gs` (the root of its first element).
pub open spec fn rep_at(s: Seq<int>, gs: Seq<Vec<usize>>, k: int) -> int {
    s[gs[k]@[0] as int]
}

/// What an enumeration of all groups returns: every group is non-empty and is
/// exactly the ascending member list of its representative, the groups come in
/// ascending order of representative, and every representative occurs.
pub open spec fn groups_exact(s: Seq<int>, gs: Seq<Vec<usize>>) -> bool {
    &&& forall|k: int| 0 <= k < gs.len() ==> (#[trigger] gs[k]@).len() > 0
    &&& forall|k: int| 0 <= k < gs.len() ==> to_ints(gs[k]@) == members(s, #[trigger] rep_at(s, gs, k))
    &&& forall|k1: int, k2: int|
        0 <= k1 < k2 < gs.len() ==> #[trigger] rep_at(s, gs, k1) < #[trigger] rep_at(s, gs, k2)
    &&& forall|x: int|
        0 <= x < s.len() && #[trigger] s[x] == x ==> exists|k: int|
            0 <= k < gs.len() && rep_at(s, gs, k) == x
}

/// Whether element `i` occurs somewhere in the list of groups `gs`.
pub open spec fn appears(gs: Seq<Vec<usize>>, i: int) -> bool {
    exists|k: int, j: int| 0 <= k < gs.len() && 0 <= j < gs[k]@.len() && gs[k]@[j] as int == i
}

/// How many elements have a representative smaller than `b`.
pub open spec fn count_below(s: Seq<int>, b: int) -> nat
    decreases s.len(),
{
    if s.len() == 0 {
        0
    } else {
        count_below(s.drop_last(), b) + (if s.last() < b {
            1nat
        } else {
            0nat
        })
    }
}

/// The group sizes summed over every candidate representative below `b`.
/// Ids that represent nothing contribute zero, so this is the sum of the
/// sizes of all distinct groups once `b` reaches the element count.
pub open spec fn sum_sizes_below(s: Seq<int>, b: int) -> nat
    decreases b,
{
    if b <= 0 {
        0nat
    } else {
        sum_sizes_below(s, b - 1) + group_size(s, b - 1)
    }
}

/// The element count of a list of groups.
pub open spec fn total_len(gs: Seq<Vec<usize>>) -> nat
    decreases gs.len(),
{
    if gs.len() == 0 {
        0
    } else {
        total_len(gs.drop_last()) + gs.last()@.len()
    }
}

/// The member list of `r` holds exactly the indices mapped to `r`, in
/// strictly ascending order.
pub proof fn lemma_members(s: Seq<int>, r: int)
    ensures
        members(s, r).len() <= s.len(),
        forall|k: int|
            0 <= k < members(s, r).len() ==> 0 <= #[trigger] members(s, r)[k] < s.len()
                && s[members(s, r)[k]] == r,
        forall|k1: int, k2: int|
            0 <= k1 < k2 < members(s, r).len() ==> #[trigger] members(s, r)[k1]
                < #[trigger] members(s, r)[k2],
        forall|i: int| 0 <= i < s.len() && #[trigger] s[i] == r ==> members(s, r).contains(i),
    decreases s.len(),
{
    if s.len() == 0 {
    } else {
        let d = s.drop_last();
        lemma_members(d, r);
        assert forall|i: int| 0 <= i < s.len() && #[trigger] s[i] == r implies members(
            s,
            r,
        ).contains(i) by {
            if i < s.len() - 1 {
                assert(d[i] == r);
                assert(members(d, r).contains(i));
                let k = choose|k: int| 0 <= k < members(d, r).len() && members(d, r)[k] == i;
                assert(members(s, r)[k] == i);
            } else {
                assert(s.last() == r);
                assert(members(s, r).last() == i);
            }
        };
    }
}

/// Two distinct representatives never account for more elements than exist.
pub proof fn lemma_two_groups(s: Seq<int>, r1: int, r2: int)
    requires
        r1 != r2,
    ensures
        group_size(s, r1) + group_size(s, r2) <= s.len(),
    decreases s.len(),
{
    if s.len() > 0 {
        lemma_two_groups(s.drop_last(), r1, r2);
    }
}

/// Redirecting `loser`'s group to `winner` pools their sizes, empties
/// `loser`, and leaves every other group size unchanged.
pub proof fn lemma_merged_sizes(s: Seq<int>, loser: int, winner: int)
    requires
        loser != winner,
    ensures
        group_size(merged_seq(s, loser, winner), winner) == group_size(s, winner) + group_size(
            s,
            loser,
        ),
        group_size(merged_seq(s, loser, winner), loser) == 0,
        forall|r: int|
            r != winner && r != loser ==> #[trigger] group_size(merged_seq(s, loser, winner), r)
                == group_size(s, r),
    decreases s.len(),
{
    let m = merged_seq(s, loser, winner);
    if s.len() == 0 {
        assert(m =~= Seq::<int>::empty());
    } else {
        let d = s.drop_last();
        lemma_merged_sizes(d, loser, winner);
        assert(m.drop_last() =~= merged_seq(d, loser, winner));
        assert(m.last() == (if s.last() == loser {
            winner
        } else {
            s.last()
        }));
        assert forall|r: int|
            r != winner && r != loser implies #[trigger] group_size(m, r) == group_size(s, r) by {
            assert(group_size(merged_seq(d, loser, winner), r) == group_size(d, r));
            assert((m.last() == r) == (s.last() == r));
        };
    }
}

/// Scanning one more element extends the member list of `r` by that element
/// exactly when it is mapped to `r`.
pub proof fn lemma_members_take_step(s: Seq<int>, r: int, m: int)
    requires
        0 <= m < s.len(),
    ensures
        members(s.take(m + 1), r) == (if s[m] == r {
            members(s.take(m), r).push(m)
        } else {
            members(s.take(m), r)
        }),
{
    assert(s.take(m + 1).drop_last() =~= s.take(m));
    assert(s.take(m + 1).last() == s[m]);
}

/// Scanning the whole sequence yields the member list of the sequence.
pub proof fn lemma_members_take_all(s: Seq<int>, r: int)
    ensures
        members(s.take(s.len() as int), r) == members(s, r),
{
    assert(s.take(s.len() as int) =~= s);
}

/// Raising the bound by one admits exactly the group of the old bound.
pub proof fn lemma_count_below_step(s: Seq<int>, b: int)
    ensures
        count_below(s, b + 1) == count_below(s, b) + group_size(s, b),
    decreases s.len(),
{
    if s.len() > 0 {
        lemma_count_below_step(s.drop_last(), b);
    }
}

/// A bound above every representative counts every element.
pub proof fn lemma_count_below_full(s: Seq<int>, b: int)
    requires
        forall|i: int| 0 <= i < s.len() ==> 0 <= #[trigger] s[i] < b,
    ensures
        count_below(s, b) == s.len(),
    decreases s.len(),
{
    if s.len() > 0 {
        let d = s.drop_last();
        assert(forall|i: int| 0 <= i < d.len() ==> 0 <= #[trigger] d[i] < b) by {
            assert(forall|i: int| 0 <= i < d.len() ==> d[i] == s[i]);
        }
        lemma_count_below_full(d, b);
    }
}

/// A bound at or below every representative counts nothing.
pub proof fn lemma_count_below_none(s: Seq<int>, b: int)
    requires
        forall|i: int| 0 <= i < s.len() ==> #[trigger] s[i] >= b,
    ensures
        count_below(s, b) == 0,
    decreases s.len(),
{
    if s.len() > 0 {
        let d = s.drop_last();
        assert(forall|i: int| 0 <= i < d.len() ==> #[trigger] d[i] >= b) by {
            assert(forall|i: int| 0 <= i < d.len() ==> d[i] == s[i]);
        }
        lemma_count_below_none(d, b);
    }
}

/// Summing the group sizes below `b` counts the elements represented below `b`.
pub proof fn lemma_sum_sizes_eq_count(s: Seq<int>, b: int)
    requires
        b >= 0,
        forall|i: int| 0 <= i < s.len() ==> #[trigger] s[i] >= 0,
    ensures
        sum_sizes_below(s, b) == count_below(s, b),
    decreases b,
{
    if b == 0 {
        lemma_count_below_none(s, 0);
    } else {
        lemma_sum_sizes_eq_count(s, b - 1);
        lemma_count_below_step(s, b - 1);
    }
}

/// Under the identity root map every group is a singleton.
pub proof fn lemma_singleton_groups(s: Seq<int>)
    requires
        forall|i: int| 0 <= i < s.len() ==> #[trigger] s[i] == i,
    ensures
        forall|r: int| 0 <= r < s.len() ==> #[trigger] group_size(s, r) == 1,
{
    assert forall|r: int| 0 <= r < s.len() implies #[trigger] group_size(s, r) == 1 by {
        lemma_members(s, r);
        assert(s[r] == r);
        assert(members(s, r).contains(r));
        if members(s, r).len() >= 2 {
            assert(members(s, r)[0] < members(s, r)[1]);
            assert(s[members(s, r)[0]] == r && s[members(s, r)[1]] == r);
            assert(false);
        }
    };
}

} // verus!
