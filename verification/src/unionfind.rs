//! A disjoint-set structure over the node indices `0..n`, used to count
//! connected components of the interaction graph.
//!
//! Representatives are kept fully compressed: every node points directly at
//! its class representative, and a union rewrites one class's pointers in
//! place. This keeps `find` constant-time and makes the reachable states easy
//! to describe.

use vstd::prelude::*;

verus! {

/// The first-occurrence deduplication of `p`: the distinct values of `p`, in
/// the order in which they first appear.
pub open spec fn dedup_first(p: Seq<int>) -> Seq<int>
    decreases p.len(),
{
    if p.len() == 0 {
        Seq::empty()
    } else if dedup_first(p.drop_last()).contains(p.last()) {
        dedup_first(p.drop_last())
    } else {
        dedup_first(p.drop_last()).push(p.last())
    }
}

/// The number of positions of `p` holding the value `v`.
pub open spec fn count_eq(p: Seq<int>, v: int) -> nat {
    p.filter(|x: int| x == v).len()
}

/// A value occurs in the deduplication exactly when it occurs in the
/// sequence.
pub proof fn lemma_dedup_first_contains(p: Seq<int>, v: int)
    ensures
        dedup_first(p).contains(v) <==> p.contains(v),
    decreases p.len(),
{
    if p.len() > 0 {
        let dl = p.drop_last();
        let d = dedup_first(dl);
        lemma_dedup_first_contains(dl, v);
        if p.contains(v) {
            let i = choose|i: int| 0 <= i < p.len() && p[i] == v;
            if i < p.len() - 1 {
                assert(dl[i] == v);
                assert(dl.contains(v));
                let j = choose|j: int| 0 <= j < d.len() && d[j] == v;
                assert(dedup_first(p)[j] == v);
                assert(dedup_first(p).contains(v));
            } else {
                assert(v == p.last());
                if d.contains(v) {
                    assert(dedup_first(p).contains(v));
                } else {
                    assert(dedup_first(p) == d.push(v));
                    assert(dedup_first(p)[d.len() as int] == v);
                    assert(dedup_first(p).contains(v));
                }
            }
        }
        if dedup_first(p).contains(v) {
            let i = choose|i: int| 0 <= i < dedup_first(p).len() && dedup_first(p)[i] == v;
            if d.contains(p.last()) {
                assert(d[i] == v);
                assert(d.contains(v));
                let j = choose|j: int| 0 <= j < dl.len() && dl[j] == v;
                assert(p[j] == v);
                assert(p.contains(v));
            } else {
                if i < d.len() {
                    assert(d[i] == v);
                    assert(d.contains(v));
                    let j = choose|j: int| 0 <= j < dl.len() && dl[j] == v;
                    assert(p[j] == v);
                    assert(p.contains(v));
                } else {
                    assert(v == p.last());
                    assert(p[p.len() - 1] == v);
                    assert(p.contains(v));
                }
            }
        }
    }
}

/// The values of a first-occurrence deduplication are distinct.
pub proof fn lemma_dedup_first_distinct(p: Seq<int>)
    ensures
        forall|k: int, l: int|
            0 <= k < l < dedup_first(p).len() ==> dedup_first(p)[k] != dedup_first(p)[l],
    decreases p.len(),
{
    if p.len() > 0 {
        let dl = p.drop_last();
        let d = dedup_first(dl);
        lemma_dedup_first_distinct(dl);
        if !d.contains(p.last()) {
            assert forall|k: int, l: int|
                0 <= k < l < dedup_first(p).len() implies dedup_first(p)[k]
                != dedup_first(p)[l] by {
                if l == d.len() {
                    assert(dedup_first(p)[k] == d[k]);
                    assert(d.contains(d[k]));
                }
            }
        }
    }
}

/// A value absent from a sequence has count zero.
pub proof fn lemma_count_eq_absent(p: Seq<int>, v: int)
    requires
        !p.contains(v),
    ensures
        count_eq(p, v) == 0,
    decreases p.len(),
{
    if p.len() == 0 {
        reveal_with_fuel(Seq::filter, 1);
    } else {
        let dl = p.drop_last();
        assert(!dl.contains(v)) by {
            if dl.contains(v) {
                let j = choose|j: int| 0 <= j < dl.len() && dl[j] == v;
                assert(p[j] == v);
            }
        }
        lemma_count_eq_absent(dl, v);
        assert(p.last() != v) by {
            if p.last() == v {
                assert(p[p.len() - 1] == v);
            }
        }
        assert(dl.push(p.last()) =~= p);
        lemma_count_eq_push(dl, p.last(), v);
    }
}

/// Counting distributes over appending one element.
pub proof fn lemma_count_eq_push(p: Seq<int>, x: int, v: int)
    ensures
        count_eq(p.push(x), v) == count_eq(p, v) + if x == v {
            1int
        } else {
            0int
        },
{
    reveal_with_fuel(Seq::filter, 2);
    assert(p.push(x).drop_last() =~= p);
}

/// Tracks, for each node index, the representative of its component.
pub struct UnionFind {
    /// `parent[i]` is the representative of `i`'s component.
    parent: Vec<usize>,
}

impl UnionFind {
    /// The representative assignment, as mathematical integers.
    pub closed spec fn reps(self) -> Seq<int> {
        self.parent@.map_values(|x: usize| x as int)
    }

    /// The number of nodes.
    pub open spec fn len(self) -> nat {
        self.reps().len()
    }

    /// Every node points at a representative, and representatives point at
    /// themselves.
    pub open spec fn wf(self) -> bool {
        forall|i: int|
            0 <= i < self.len() ==> 0 <= #[trigger] self.reps()[i] < self.len() && self.reps()[
                self.reps()[i]
            ] == self.reps()[i]
    }

    /// Creates `n` singleton components.
    pub fn new(n: usize) -> (r: UnionFind)
        ensures
            r.wf(),
            r.len() == n,
            forall|i: int| 0 <= i < n ==> r.reps()[i] == i,
    {
        let mut parent: Vec<usize> = Vec::new();
        let mut i: usize = 0;
        while i < n
            invariant
                i <= n,
                parent@.len() == i,
                forall|k: int| 0 <= k < i ==> parent@[k] == k,
            decreases n - i,
        {
            parent.push(i);
            i = i + 1;
        }
        UnionFind { parent }
    }

    /// Returns the representative of `x`'s component.
    pub fn find(&mut self, x: usize) -> (r: usize)
        requires
            old(self).wf(),
            x < old(self).len(),
        ensures
            *final(self) == *old(self),
            r == old(self).reps()[x as int],
    {
        proof {
            assert(self.reps()[x as int] == self.parent@[x as int] as int);
        }
        self.parent[x]
    }

    /// Merges the components of `x` and `y`: every node of `y`'s component
    /// is re-pointed at `x`'s representative.
    pub fn union(&mut self, x: usize, y: usize)
        requires
            old(self).wf(),
            x < old(self).len(),
            y < old(self).len(),
        ensures
            final(self).wf(),
            final(self).len() == old(self).len(),
            final(self).reps() == Seq::new(
                old(self).len(),
                |i: int|
                    if old(self).reps()[i] == old(self).reps()[y as int] {
                        old(self).reps()[x as int]
                    } else {
                        old(self).reps()[i]
                    },
            ),
    {
        let n = self.parent.len();
        let px = self.parent[x];
        let py = self.parent[y];
        let ghost target = Seq::new(
            old(self).len(),
            |i: int|
                if old(self).reps()[i] == old(self).reps()[y as int] {
                    old(self).reps()[x as int]
                } else {
                    old(self).reps()[i]
                },
        );
        if px == py {
            proof {
                assert(self.reps() =~= target);
            }
            return ;
        }
        let mut i: usize = 0;
        while i < n
            invariant
                old(self).wf(),
                x < old(self).len(),
                y < old(self).len(),
                n == old(self).len(),
                px == old(self).reps()[x as int],
                py == old(self).reps()[y as int],
                i <= n,
                self.parent@.len() == n,
                forall|k: int|
                    0 <= k < i ==> #[trigger] self.reps()[k] == (if old(self).reps()[k] == py {
                        px as int
                    } else {
                        old(self).reps()[k]
                    }),
                forall|k: int| i <= k < n ==> #[trigger] self.reps()[k] == old(self).reps()[k],
            decreases n - i,
        {
            let ghost prev = self.reps();
            proof {
                assert(prev[i as int] == self.parent@[i as int] as int);
            }
            if self.parent[i] == py {
                self.parent.set(i, px);
                proof {
                    assert(self.reps() =~= prev.update(i as int, px as int));
                }
            }
            i = i + 1;
        }
        proof {
            assert(self.reps() =~= target);
            assert forall|i: int|
                0 <= i < self.len() implies 0 <= #[trigger] self.reps()[i] < self.len()
                && self.reps()[self.reps()[i]] == self.reps()[i] by {
                let o = old(self).reps();
                assert(o[o[i]] == o[i]);
                assert(o[px as int] == px as int);
            }
        }
    }

    /// Returns the size of every component, ordered by the first node index
    /// belonging to each component. Sizes saturate at `u32::MAX`.
    pub fn component_sizes(&mut self) -> (r: Vec<u32>)
        requires
            old(self).wf(),
        ensures
            *final(self) == *old(self),
            r@.len() == dedup_first(old(self).reps()).len(),
            forall|k: int|
                0 <= k < r@.len() ==> ({
                    let c = count_eq(old(self).reps(), dedup_first(old(self).reps())[k]);
                    #[trigger] r@[k] == c || (r@[k] == u32::MAX && c > u32::MAX)
                }),
    {
        let n = self.parent.len();
        let mut roots: Vec<usize> = Vec::new();
        let mut sizes: Vec<u32> = Vec::new();
        let mut i: usize = 0;
        proof {
            assert(self.reps().take(0) =~= Seq::<int>::empty());
            assert(roots@.map_values(|x: usize| x as int) =~= dedup_first(self.reps().take(0)));
        }
        while i < n
            invariant
                n == self.reps().len(),
                i <= n,
                roots@.map_values(|x: usize| x as int) == dedup_first(self.reps().take(i as int)),
                sizes@.len() == roots@.len(),
                forall|k: int|
                    0 <= k < sizes@.len() ==> ({
                        let c = count_eq(
                            self.reps().take(i as int),
                            roots@.map_values(|x: usize| x as int)[k],
                        );
                        #[trigger] sizes@[k] == c || (sizes@[k] == u32::MAX && c > u32::MAX)
                    }),
            decreases n - i,
        {
            let ghost pre = self.reps().take(i as int);
            let ghost cur = self.reps()[i as int];
            proof {
                assert(self.reps().take(i + 1).drop_last() =~= pre);
                assert(self.reps().take(i + 1).last() == cur);
                assert(self.reps().take(i + 1) =~= pre.push(cur));
                assert(pre.push(cur).drop_last() =~= pre);
            }
            let root = self.parent[i];
            proof {
                assert(root as int == cur);
            }
            // look for the root among those already seen
            let mut j: usize = 0;
            let mut found: bool = false;
            let mut at: usize = 0;
            while j < roots.len()
                invariant
                    at <= j <= roots@.len(),
                    !found ==> forall|k: int| 0 <= k < j ==> roots@[k] != root,
                    found ==> at < j && roots@[at as int] == root,
                decreases roots@.len() - j,
            {
                if !found && roots[j] == root {
                    found = true;
                    at = j;
                }
                j = j + 1;
            }
            let ghost roots_ints = roots@.map_values(|x: usize| x as int);
            if found {
                proof {
                    assert(roots_ints[at as int] == cur);
                    assert(roots_ints.contains(cur));
                    assert(dedup_first(pre.push(cur)) == roots_ints);
                }
                let ghost sizes_pre = sizes@;
                let s = sizes[at];
                if s < u32::MAX {
                    sizes.set(at, s + 1);
                }
                proof {
                    lemma_dedup_first_distinct(pre);
                    assert forall|k: int| 0 <= k < sizes@.len() implies ({
                        let c = count_eq(self.reps().take(i + 1), roots_ints[k]);
                        #[trigger] sizes@[k] == c || (sizes@[k] == u32::MAX && c > u32::MAX)
                    }) by {
                        lemma_count_eq_push(pre, cur, roots_ints[k]);
                        if k != at {
                            assert(roots_ints[k] != roots_ints[at as int]);
                            assert(sizes@[k] == sizes_pre[k]);
                        }
                    }
                }
            } else {
                proof {
                    assert(!roots_ints.contains(cur)) by {
                        if roots_ints.contains(cur) {
                            let k = choose|k: int|
                                0 <= k < roots_ints.len() && roots_ints[k] == cur;
                            assert(roots@[k] == root);
                        }
                    }
                    assert(dedup_first(pre.push(cur)) == roots_ints.push(cur));
                }
                roots.push(root);
                sizes.push(1);
                proof {
                    assert(roots@.map_values(|x: usize| x as int) =~= roots_ints.push(cur));
                    assert forall|k: int| 0 <= k < sizes@.len() implies ({
                        let c = count_eq(self.reps().take(i + 1), roots_ints.push(cur)[k]);
                        #[trigger] sizes@[k] == c || (sizes@[k] == u32::MAX && c > u32::MAX)
                    }) by {
                        lemma_count_eq_push(pre, cur, roots_ints.push(cur)[k]);
                        if k < sizes@.len() - 1 {
                            assert(roots_ints.push(cur)[k] == roots_ints[k]);
                        } else {
                            assert(roots_ints.push(cur)[k] == cur);
                            assert(count_eq(pre, cur) == 0) by {
                                lemma_dedup_first_contains(pre, cur);
                                lemma_count_eq_absent(pre, cur);
                            }
                        }
                    }
                }
            }
            i = i + 1;
        }
        proof {
            assert(self.reps().take(n as int) =~= self.reps());
        }
        sizes
    }
}

} // verus!
