//! Disjoint sets of small numbers.
use crate::arc::NO_STATE;
use vstd::prelude::*;

verus! {

/// Disjoint sets that can be joined and asked for their representatives.
pub struct UnionFind {
    parent: Vec<usize>,
    size: Vec<usize>,
    root: Ghost<Seq<int>>,
    level: Ghost<Seq<nat>>,
    top: Ghost<nat>,
}

impl UnionFind {
    /// Whether `x` is in one of the sets.
    pub closed spec fn has(self, x: int) -> bool {
        0 <= x < self.parent@.len() && self.parent@[x] != NO_STATE
    }

    /// The number that stands for the set of `x`.
    pub closed spec fn rep(self, x: int) -> int {
        self.root@[x]
    }

    /// Whether `x` and `y` are in one set.
    pub open spec fn same(self, x: int, y: int) -> bool {
        self.has(x) && self.has(y) && self.rep(x) == self.rep(y)
    }

    /// Whether the sets are in order.
    pub closed spec fn wf(self) -> bool {
        &&& self.parent@.len() == self.root@.len()
        &&& self.parent@.len() == self.level@.len()
        &&& self.parent@.len() == self.size@.len()
        &&& forall|x: int| self.has(x) ==> #[trigger] self.node(x)
    }

    /// Whether what is kept for `x` is in order.
    closed spec fn node(self, x: int) -> bool {
        let p = self.parent@[x] as int;
        &&& self.has(p)
        &&& self.root@[x] == self.root@[p]
        &&& p != x ==> self.level@[x] < self.level@[p]
        &&& p == x ==> self.root@[x] == x
        &&& self.level@[x] <= self.top@
        &&& self.has(self.root@[x])
        &&& self.parent@[self.root@[x]] == self.root@[x]
    }

    /// The representative of a set is one of it, and represents itself.
    pub proof fn lemma_rep(self, x: int)
        requires
            self.wf(),
            self.has(x),
        ensures
            self.has(self.rep(x)),
            self.rep(self.rep(x)) == self.rep(x),
            0 <= self.rep(x) < usize::MAX,
    {
        assert(self.node(x));
        assert(self.node(self.root@[x]));
    }

    /// No sets.
    pub fn new() -> (sets: Self)
        ensures
            sets.wf(),
            forall|x: int| !(#[trigger] sets.has(x)),
    {
        UnionFind {
            parent: Vec::new(),
            size: Vec::new(),
            root: Ghost(Seq::empty()),
            level: Ghost(Seq::empty()),
            top: Ghost(0),
        }
    }

    /// Makes a set of `x` alone, unless `x` is in a set already.
    pub fn make_set(&mut self, x: usize)
        requires
            old(self).wf(),
            x < usize::MAX,
        ensures
            final(self).wf(),
            forall|y: int| #[trigger] final(self).has(y) <==> old(self).has(y) || y == x,
            forall|y: int| #[trigger] old(self).has(y) ==> final(self).rep(y) == old(self).rep(y),
            !old(self).has(x as int) ==> final(self).rep(x as int) == x,
    {
        while self.parent.len() <= x
            invariant
                self.wf(),
                x < usize::MAX,
                self.parent@.len() >= old(self).parent@.len(),
                forall|y: int| #[trigger] self.has(y) <==> old(self).has(y),
                forall|y: int| #[trigger] old(self).has(y) ==> self.rep(y) == old(self).rep(y),
            decreases usize::MAX - self.parent@.len(),
        {
            let ghost before = *self;
            self.parent.push(NO_STATE);
            self.size.push(0);
            proof {
                self.root@ = self.root@.push(0);
                self.level@ = self.level@.push(0);
            }
            assert forall|y: int| #[trigger] self.has(y) <==> before.has(y) by {}
            assert forall|y: int| self.has(y) implies #[trigger] self.node(y) by {
                assert(before.node(y));
            }
        }
        let ghost before = *self;
        assert(before.has(x as int) == old(self).has(x as int));
        if self.parent[x] == NO_STATE {
            self.parent.set(x, x);
            self.size.set(x, 1);
            proof {
                self.root@ = self.root@.update(x as int, x as int);
                self.level@ = self.level@.update(x as int, 0);
            }
            assert forall|y: int| #[trigger] self.has(y) <==> before.has(y) || y == x by {}
            assert forall|y: int| self.has(y) implies #[trigger] self.node(y) by {
                if y != x {
                    assert(before.node(y));
                }
            }
            assert forall|y: int| #[trigger] old(self).has(y) implies self.rep(y) == old(self).rep(
                y,
            ) by {
                assert(before.has(y));
            }
        }
    }

    /// The representative of the set of `x`, or nothing if `x` is in none.
    pub fn find_set(&self, x: usize) -> (found: Option<usize>)
        requires
            self.wf(),
        ensures
            match found {
                Some(r) => self.has(x as int) && r == self.rep(x as int),
                None => !self.has(x as int),
            },
    {
        if x >= self.parent.len() || self.parent[x] == NO_STATE {
            return None;
        }
        let mut r: usize = x;
        assert(self.node(r as int));
        while self.parent[r] != r
            invariant
                self.wf(),
                self.has(r as int),
                self.has(x as int),
                self.node(r as int),
                self.root@[r as int] == self.root@[x as int],
            decreases self.top@ - self.level@[r as int],
        {
            let p: usize = self.parent[r];
            assert(self.node(r as int));
            assert(self.node(p as int));
            r = p;
        }
        Some(r)
    }

    /// Joins the sets of `x` and `y`.
    pub fn union(&mut self, x: usize, y: usize)
        requires
            old(self).wf(),
            old(self).has(x as int),
            old(self).has(y as int),
        ensures
            final(self).wf(),
            forall|z: int| #[trigger] final(self).has(z) <==> old(self).has(z),
            forall|a: int, b: int| #[trigger]
                final(self).same(a, b) <==> old(self).same(a, b) || (old(self).same(a, x as int)
                    && old(self).same(b, y as int)) || (old(self).same(a, y as int) && old(
                    self,
                ).same(b, x as int)),
            forall|z: int|
                old(self).has(z) && #[trigger] final(self).rep(z) == z ==> old(self).rep(z) == z,
            old(self).rep(x as int) != old(self).rep(y as int) ==> exists|z: int|
                old(self).has(z) && old(self).rep(z) == z && #[trigger] final(self).rep(z) != z,
    {
        let rx: usize = match self.find_set(x) {
            Some(r) => r,
            None => x,
        };
        let ry: usize = match self.find_set(y) {
            Some(r) => r,
            None => y,
        };
        proof {
            self.lemma_rep(x as int);
            self.lemma_rep(y as int);
        }
        let ghost before = *self;
        if rx == ry {
            assert forall|a: int, b: int| #[trigger]
                self.same(a, b) <==> before.same(a, b) || (before.same(a, x as int) && before.same(
                    b,
                    y as int,
                )) || (before.same(a, y as int) && before.same(b, x as int)) by {}
            return;
        }
        assert(self.node(rx as int));
        assert(self.node(ry as int));
        let ghost mut linked = *self;
        let total: usize = self.size[rx].saturating_add(self.size[ry]);
        if self.size[rx] <= self.size[ry] {
            self.link(rx, ry);
            proof {
                linked = *self;
            }
            self.size.set(ry, total);
        } else {
            self.link(ry, rx);
            proof {
                linked = *self;
            }
            self.size.set(rx, total);
        }
        proof {
            assert forall|z: int| #[trigger] self.has(z) <==> before.has(z) by {
                assert(linked.has(z) <==> before.has(z));
            }
            assert forall|z: int| before.has(z) && #[trigger] self.rep(z) == z implies before.rep(z)
                == z by {
                assert(linked.has(z));
                assert(self.rep(z) == linked.rep(z));
                before.lemma_rep(z);
            }
            assert(linked.has(rx as int) && linked.has(ry as int));
            assert(self.rep(rx as int) != rx || self.rep(ry as int) != ry) by {
                assert(self.rep(rx as int) == linked.rep(rx as int));
                assert(self.rep(ry as int) == linked.rep(ry as int));
            }
            assert forall|z: int| self.has(z) implies #[trigger] self.node(z) by {
                assert(linked.has(z));
                assert(linked.node(z));
            }
            assert forall|a: int, b: int| #[trigger]
                self.same(a, b) <==> before.same(a, b) || (before.same(a, x as int) && before.same(
                    b,
                    y as int,
                )) || (before.same(a, y as int) && before.same(b, x as int)) by {
                if before.has(a) && before.has(b) {
                    assert(linked.has(a) && linked.has(b));
                    assert(self.has(a) && self.has(b));
                }
            }
        }
    }

    /// Hangs the representative `a` under the representative `b`.
    fn link(&mut self, a: usize, b: usize)
        requires
            old(self).wf(),
            old(self).has(a as int),
            old(self).has(b as int),
            old(self).rep(a as int) == a,
            old(self).rep(b as int) == b,
            a != b,
        ensures
            final(self).wf(),
            final(self).size@ == old(self).size@,
            final(self).parent@.len() == old(self).parent@.len(),
            forall|z: int| #[trigger] final(self).has(z) <==> old(self).has(z),
            forall|z: int| #[trigger]
                final(self).has(z) ==> final(self).rep(z) == (if old(self).rep(z) == a {
                    b as int
                } else {
                    old(self).rep(z)
                }),
    {
        let ghost before = *self;
        let n: usize = self.parent.len();
        assert(b < n);
        self.parent.set(a, b);
        proof {
            let level = if self.level@[a as int] < self.level@[b as int] {
                self.level@[b as int]
            } else {
                self.level@[a as int] + 1
            };
            self.root@ = Seq::new(
                self.root@.len(),
                |z: int| if before.root@[z] == a {
                    b as int
                } else {
                    before.root@[z]
                },
            );
            self.level@ = self.level@.update(b as int, level);
            self.top@ = self.top@ + 1;
            assert(before.has(a as int) && before.has(b as int));
            assert forall|z: int| #[trigger] self.has(z) <==> before.has(z) by {}
            assert forall|z: int| self.has(z) implies #[trigger] self.node(z) by {
                assert(before.node(z));
                assert(before.node(b as int));
                assert(before.node(a as int));
                assert(before.node(before.root@[z]));
            }
        }
    }
}

} // verus!
