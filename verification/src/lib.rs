//! A disjoint-set forest (union-find) over a fixed universe of `n` elements.
//!
//! The forest partitions the elements `0..n` into groups.  Groups can be
//! merged, membership and group sizes can be queried, and all groups can be
//! enumerated.  Queries compress paths as a side effect, so every operation
//! takes `&mut self`; compression never changes the partition, and every
//! contract is stated over the abstract root map `self@` of [`model`].

pub mod laws;
pub mod model;

use crate::model::{
    abs_inv, count_below, group_size, groups_exact, lemma_count_below_full, lemma_count_below_none,
    lemma_count_below_step, lemma_members, lemma_members_take_all, lemma_members_take_step,
    lemma_merged_sizes, lemma_singleton_groups, lemma_two_groups, members, merge_loser, merge_view,
    merge_winner, merged_seq, rep_at, to_ints, total_len,
};
use vstd::pervasive::VecAdditionalExecFns;
use vstd::prelude::*;

verus! {

/// A disjoint-set forest with union by size and full path compression.
///
/// Slot `i` of `p` holds the parent of `i` when non-negative, and minus the
/// size of `i`'s group when `i` is a root.  The ghost root map `root` gives
/// every element's representative, and `depth` bounds the distance of every
/// element from its root, which makes the parent chains provably acyclic.
pub struct Dsu {
    p: Vec<isize>,
    root: Ghost<Seq<int>>,
    depth: Ghost<Seq<nat>>,
}

impl View for Dsu {
    type V = Seq<int>;

    closed spec fn view(&self) -> Seq<int> {
        self.root@
    }
}

/// One slot of the forest agrees with the root map: parents stay inside the
/// forest and share the element's root, roots represent themselves and store
/// their group size negated, and depth strictly decreases towards the root.
spec fn slot_ok(p: Seq<isize>, s: Seq<int>, d: Seq<nat>, i: int) -> bool {
    let n = p.len() as int;
    &&& 0 <= s[i] < n
    &&& p[s[i]] < 0
    &&& (p[i] < 0 ==> s[i] == i && p[i] as int == -(group_size(s, i) as int) && d[i] == 0)
    &&& (p[i] >= 0 ==> p[i] < n && s[p[i] as int] == s[i] && d[p[i] as int] < d[i])
}

impl Dsu {
    /// The internal invariant tying the packed array to the root map.
    pub closed spec fn well_formed(&self) -> bool {
        let n = self.p@.len() as int;
        &&& self.root@.len() == n
        &&& self.depth@.len() == n
        &&& n <= isize::MAX as int
        &&& forall|i: int| 0 <= i < n ==> #[trigger] slot_ok(self.p@, self.root@, self.depth@, i)
    }

    /// A well-formed forest has a well-formed root map.
    pub proof fn lemma_view_valid(&self)
        requires
            self.well_formed(),
        ensures
            abs_inv(self@),
    {
        assert forall|i: int|
            0 <= i < self@.len() implies 0 <= #[trigger] self@[i] < self@.len()
            && self@[self@[i]] == self@[i] by {
            assert(slot_ok(self.p@, self.root@, self.depth@, i));
            assert(slot_ok(self.p@, self.root@, self.depth@, self.root@[i]));
        };
    }

    /// Builds a forest of `n` singleton groups: every element is its own
    /// representative and every group has one member.  A group size is
    /// stored negated in an `isize` slot, so `n` must fit in `isize`.
    pub fn new(n: usize) -> (d: Dsu)
        requires
            n <= isize::MAX as usize,
        ensures
            d.well_formed(),
            abs_inv(d@),
            d@.len() == n,
            forall|i: int| 0 <= i < n ==> #[trigger] d@[i] == i,
            forall|i: int, j: int|
                0 <= i < n && 0 <= j < n && i != j ==> d@[i] != d@[j],
            forall|r: int| 0 <= r < n ==> #[trigger] group_size(d@, r) == 1,
    {
        let mut p: Vec<isize> = Vec::new();
        let mut k: usize = 0;
        while k < n
            invariant
                k <= n,
                p@.len() == k,
                forall|i: int| 0 <= i < k ==> #[trigger] p@[i] == -1,
            decreases n - k,
        {
            p.push(-1);
            k += 1;
        }
        let d = Dsu {
            p,
            root: Ghost(Seq::new(n as nat, |i: int| i)),
            depth: Ghost(Seq::new(n as nat, |i: int| 0nat)),
        };
        proof {
            lemma_singleton_groups(d.root@);
            assert forall|i: int| 0 <= i < n implies #[trigger] slot_ok(
                d.p@,
                d.root@,
                d.depth@,
                i,
            ) by {
                assert(d.p@[i] == -1);
                assert(group_size(d.root@, i) == 1);
            };
            d.lemma_view_valid();
        }
        d
    }

    /// Returns the representative of `v`'s group and, as a side effect,
    /// repoints every element on the walked path directly at that root
    /// (full path compression).  The partition itself never changes.
    pub fn leader(&mut self, v: usize) -> (r: usize)
        requires
            old(self).well_formed(),
            (v as int) < old(self)@.len(),
        ensures
            final(self).well_formed(),
            abs_inv(final(self)@),
            final(self)@ == old(self)@,
            r as int == old(self)@[v as int],
    {
        let ghost s = self.root@;
        let ghost n = self.p@.len() as int;
        let mut cur: usize = v;
        let mut path: Vec<usize> = Vec::new();
        while self.p[cur] >= 0
            invariant
                self.well_formed(),
                self.p@ == old(self).p@,
                self.root@ == old(self).root@,
                self.depth@ == old(self).depth@,
                s == self.root@,
                n == self.p@.len() as int,
                (cur as int) < n,
                s[cur as int] == s[v as int],
                forall|k: int|
                    0 <= k < path@.len() ==> (#[trigger] path@[k] as int) < n
                        && self.p@[path@[k] as int] >= 0 && s[path@[k] as int] == s[v as int],
            decreases self.depth@[cur as int],
        {
            proof {
                assert(slot_ok(self.p@, s, self.depth@, cur as int));
            }
            path.push(cur);
            cur = self.p[cur] as usize;
        }
        proof {
            assert(slot_ok(self.p@, s, self.depth@, cur as int));
            assert(cur as int == s[v as int]);
        }
        let root = cur;
        let mut j: usize = 0;
        while j < path.len()
            invariant
                self.well_formed(),
                self.root@ == old(self).root@,
                s == self.root@,
                n == self.p@.len() as int,
                (root as int) == s[v as int],
                (root as int) < n,
                self.p@[root as int] < 0,
                j <= path@.len(),
                forall|k: int|
                    0 <= k < path@.len() ==> (#[trigger] path@[k] as int) < n
                        && self.p@[path@[k] as int] >= 0 && s[path@[k] as int] == s[v as int],
            decreases path@.len() - j,
        {
            let u = path[j];
            let ghost prev = *self;
            self.p.set(u, root as isize);
            self.depth = Ghost(prev.depth@.update(u as int, 1nat));
            proof {
                assert(slot_ok(prev.p@, s, prev.depth@, u as int));
                assert(slot_ok(prev.p@, s, prev.depth@, root as int));
                assert(prev.depth@[u as int] >= 1);
                assert forall|i: int| 0 <= i < n implies #[trigger] slot_ok(
                    self.p@,
                    s,
                    self.depth@,
                    i,
                ) by {
                    assert(slot_ok(prev.p@, s, prev.depth@, i));
                    assert(slot_ok(prev.p@, s, prev.depth@, s[i]));
                    if i == u as int {
                        assert(s[u as int] == s[root as int] == root as int);
                    } else if prev.p@[i] >= 0 && prev.p@[i] == u as int {
                        assert(prev.depth@[i] > prev.depth@[u as int] >= 1);
                    }
                };
            }
            j += 1;
        }
        proof {
            self.lemma_view_valid();
        }
        root
    }

    /// Unions the groups of `u` and `v`.  Returns `true` exactly when the two
    /// groups were distinct before the call; the smaller group is attached
    /// under the root of the larger one (`u`'s root wins a tie), so the new
    /// root map is `merge_view(old(self)@, u, v)`.
    pub fn merge(&mut self, u: usize, v: usize) -> (b: bool)
        requires
            old(self).well_formed(),
            (u as int) < old(self)@.len(),
            (v as int) < old(self)@.len(),
        ensures
            final(self).well_formed(),
            abs_inv(final(self)@),
            final(self)@ == merge_view(old(self)@, u as int, v as int),
            b == (old(self)@[u as int] != old(self)@[v as int]),
    {
        let ghost s = self.root@;
        let ghost n = self.p@.len() as int;
        let ru = self.leader(u);
        let rv = self.leader(v);
        if ru == rv {
            return false;
        }
        let mut a = ru;
        let mut c = rv;
        if self.p[a] > self.p[c] {
            let t = a;
            a = c;
            c = t;
        }
        proof {
            assert(slot_ok(self.p@, s, self.depth@, ru as int));
            assert(slot_ok(self.p@, s, self.depth@, rv as int));
            assert(a as int == merge_winner(s, u as int, v as int));
            assert(c as int == merge_loser(s, u as int, v as int));
            lemma_two_groups(s, ru as int, rv as int);
        }
        let pa = self.p[a];
        let pc = self.p[c];
        let ghost prev = *self;
        self.p.set(a, pa + pc);
        self.p.set(c, a as isize);
        self.root = Ghost(merged_seq(s, c as int, a as int));
        self.depth = Ghost(
            Seq::new(
                s.len(),
                |i: int|
                    if s[i] == c as int {
                        (prev.depth@[i] + 1) as nat
                    } else {
                        prev.depth@[i]
                    },
            ),
        );
        proof {
            let s2 = self.root@;
            lemma_merged_sizes(s, c as int, a as int);
            assert forall|i: int| 0 <= i < n implies #[trigger] slot_ok(
                self.p@,
                s2,
                self.depth@,
                i,
            ) by {
                assert(slot_ok(prev.p@, s, prev.depth@, i));
                assert(slot_ok(prev.p@, s, prev.depth@, s[i]));
                assert(s2[i] == (if s[i] == c as int {
                    a as int
                } else {
                    s[i]
                }));
                assert(s2[s2[i]] == s2[i] && self.p@[s2[i]] < 0);
                if i == c as int {
                    assert(self.p@[i] == a as isize);
                } else if i == a as int {
                    assert(group_size(s2, a as int) == group_size(s, a as int) + group_size(
                        s,
                        c as int,
                    ));
                } else if prev.p@[i] < 0 {
                    assert(group_size(s2, i) == group_size(s, i));
                }
            };
            self.lemma_view_valid();
        }
        true
    }

    /// Returns whether `u` and `v` are in the same group, compressing the
    /// paths of both as a side effect.
    pub fn same(&mut self, u: usize, v: usize) -> (b: bool)
        requires
            old(self).well_formed(),
            (u as int) < old(self)@.len(),
            (v as int) < old(self)@.len(),
        ensures
            final(self).well_formed(),
            abs_inv(final(self)@),
            final(self)@ == old(self)@,
            b == (old(self)@[u as int] == old(self)@[v as int]),
    {
        let ru = self.leader(u);
        let rv = self.leader(v);
        ru == rv
    }

    /// Returns the number of elements in `v`'s group, compressing `v`'s path
    /// as a side effect.
    pub fn size(&mut self, v: usize) -> (sz: usize)
        requires
            old(self).well_formed(),
            (v as int) < old(self)@.len(),
        ensures
            final(self).well_formed(),
            abs_inv(final(self)@),
            final(self)@ == old(self)@,
            sz == group_size(old(self)@, old(self)@[v as int]),
    {
        let ghost s = self.root@;
        let r = self.leader(v);
        proof {
            assert(slot_ok(self.p@, s, self.depth@, r as int));
            lemma_members(s, r as int);
        }
        let x = self.p[r];
        (-x) as usize
    }

    /// Enumerates all groups: each group is the ascending list of its
    /// members, the groups come in ascending order of their representative
    /// at the time of the call, and together they cover every element once,
    /// so their lengths sum to the element count.
    pub fn groups(&mut self) -> (gs: Vec<Vec<usize>>)
        requires
            old(self).well_formed(),
        ensures
            final(self).well_formed(),
            abs_inv(final(self)@),
            final(self)@ == old(self)@,
            groups_exact(old(self)@, gs@),
            total_len(gs@) == old(self)@.len(),
    {
        let ghost s = self.root@;
        let n = self.p.len();
        proof {
            self.lemma_view_valid();
            assert(n as int == s.len());
        }
        let mut ld: Vec<usize> = Vec::new();
        let mut v: usize = 0;
        while v < n
            invariant
                self.well_formed(),
                self.root@ == old(self).root@,
                s == self.root@,
                n == self.p@.len(),
                n as int == s.len(),
                v <= n,
                ld@.len() == v,
                forall|k: int| 0 <= k < v ==> (#[trigger] ld@[k]) as int == s[k],
            decreases n - v,
        {
            let r = self.leader(v);
            ld.push(r);
            v += 1;
        }
        let mut gs: Vec<Vec<usize>> = Vec::new();
        let mut r: usize = 0;
        proof {
            lemma_count_below_none(s, 0);
        }
        while r < n
            invariant
                self.well_formed(),
                self.root@ == old(self).root@,
                s == self.root@,
                abs_inv(s),
                n == self.p@.len(),
                n as int == s.len(),
                ld@.len() == n,
                forall|k: int| 0 <= k < n ==> (#[trigger] ld@[k]) as int == s[k],
                r <= n,
                forall|k: int| 0 <= k < gs@.len() ==> (#[trigger] gs@[k]@).len() > 0,
                forall|k: int|
                    0 <= k < gs@.len() ==> to_ints(gs@[k]@) == members(
                        s,
                        #[trigger] rep_at(s, gs@, k),
                    ),
                forall|k: int|
                    0 <= k < gs@.len() ==> 0 <= #[trigger] rep_at(s, gs@, k) < r,
                forall|k1: int, k2: int|
                    0 <= k1 < k2 < gs@.len() ==> #[trigger] rep_at(s, gs@, k1)
                        < #[trigger] rep_at(s, gs@, k2),
                forall|x: int|
                    0 <= x < r && #[trigger] s[x] == x ==> exists|k: int|
                        0 <= k < gs@.len() && rep_at(s, gs@, k) == x,
                total_len(gs@) == count_below(s, r as int),
            decreases n - r,
        {
            proof {
                assert(slot_ok(self.p@, s, self.depth@, r as int));
                lemma_count_below_step(s, r as int);
                lemma_members(s, r as int);
            }
            if self.p[r] < 0 {
                let ghost gs0 = gs@;
                let mut g: Vec<usize> = Vec::new();
                let mut x: usize = 0;
                while x < n
                    invariant
                        n as int == s.len(),
                        ld@.len() == n,
                        forall|k: int| 0 <= k < n ==> (#[trigger] ld@[k]) as int == s[k],
                        x <= n,
                        r < n,
                        s[r as int] == r as int,
                        to_ints(g@) == members(s.take(x as int), r as int),
                    decreases n - x,
                {
                    proof {
                        lemma_members_take_step(s, r as int, x as int);
                    }
                    if ld[x] == r {
                        let ghost g0 = g@;
                        g.push(x);
                        proof {
                            assert(to_ints(g@) =~= to_ints(g0).push(x as int));
                        }
                    }
                    x += 1;
                }
                proof {
                    lemma_members_take_all(s, r as int);
                    assert(to_ints(g@) == members(s, r as int));
                    assert(members(s, r as int).contains(r as int));
                    assert(g@.len() == members(s, r as int).len());
                    assert(g@.len() > 0);
                    assert(to_ints(g@)[0] == g@[0] as int);
                    assert(s[g@[0] as int] == r as int);
                }
                gs.push(g);
                proof {
                    assert(gs@.drop_last() =~= gs0);
                    assert(rep_at(s, gs@, gs@.len() - 1) == r as int);
                    assert(forall|k: int|
                        0 <= k < gs0.len() ==> #[trigger] rep_at(s, gs@, k) == rep_at(s, gs0, k));
                    assert(total_len(gs@) == total_len(gs0) + group_size(s, r as int));
                    assert forall|x: int|
                        0 <= x < r + 1 && #[trigger] s[x] == x implies exists|k: int|
                            0 <= k < gs@.len() && rep_at(s, gs@, k) == x by {
                        if x == r as int {
                            assert(rep_at(s, gs@, gs@.len() - 1) == x);
                        } else {
                            let k0 = choose|k: int| 0 <= k < gs0.len() && rep_at(s, gs0, k) == x;
                            assert(rep_at(s, gs@, k0) == x);
                        }
                    };
                }
            } else {
                proof {
                    assert(s[r as int] != r as int);
                    if group_size(s, r as int) > 0 {
                        let m0 = members(s, r as int)[0];
                        assert(s[m0] == r as int);
                        assert(s[r as int] == r as int);
                        assert(false);
                    }
                }
            }
            r += 1;
        }
        proof {
            lemma_count_below_full(s, n as int);
            self.lemma_view_valid();
        }
        gs
    }
}

} // verus!
