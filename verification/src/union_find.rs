use vstd::prelude::*;
use vstd::set_lib::*;

verus! {

/// The root reached from `i` by following parent links, each step to a strictly higher rank.
pub open spec fn root_of(parent: Seq<usize>, rank: Seq<nat>, bound: nat, i: int) -> int
    decreases bound - rank[i],
{
    if 0 <= i < parent.len() && i < rank.len() && parent[i] as int != i && (parent[i] as int)
        < rank.len() && rank[i] < rank[parent[i] as int] && rank[parent[i] as int] < bound {
        root_of(parent, rank, bound, parent[i] as int)
    } else {
        i
    }
}

/// Parent links stay in range and climb in rank, and every rank is below `bound`.
pub open spec fn forest_ok(parent: Seq<usize>, rank: Seq<nat>, bound: nat) -> bool {
    &&& parent.len() == rank.len()
    &&& forall|i: int| 0 <= i < parent.len() ==> (#[trigger] parent[i] as int) < parent.len()
    &&& forall|i: int|
        0 <= i < parent.len() && #[trigger] parent[i] as int != i ==> rank[i] < rank[parent[i] as int]
    &&& forall|i: int| 0 <= i < parent.len() ==> #[trigger] rank[i] < bound
}

/// The elements whose root is `r`.
pub open spec fn class_of(parent: Seq<usize>, rank: Seq<nat>, bound: nat, r: int) -> Set<int> {
    Set::new(|j: int| 0 <= j < parent.len() && root_of(parent, rank, bound, j) == r)
}

proof fn lemma_root(parent: Seq<usize>, rank: Seq<nat>, bound: nat, i: int)
    requires
        forest_ok(parent, rank, bound),
        0 <= i < parent.len(),
    ensures
        0 <= root_of(parent, rank, bound, i) < parent.len(),
        parent[root_of(parent, rank, bound, i)] as int == root_of(parent, rank, bound, i),
        rank[i] <= rank[root_of(parent, rank, bound, i)],
        root_of(parent, rank, bound, i) == i <==> parent[i] as int == i,
        parent[i] as int != i ==> root_of(parent, rank, bound, i) == root_of(
            parent,
            rank,
            bound,
            parent[i] as int,
        ),
    decreases bound - rank[i],
{
    assert(parent[i] as int != i ==> rank[i] < rank[parent[i] as int]);
    assert(rank[i] < bound);
    if parent[i] as int != i {
        let p = parent[i] as int;
        assert(rank[p] < bound);
        lemma_root(parent, rank, bound, p);
    }
}

proof fn lemma_root_is_root(parent: Seq<usize>, rank: Seq<nat>, bound: nat, i: int)
    requires
        forest_ok(parent, rank, bound),
        0 <= i < parent.len(),
    ensures
        root_of(parent, rank, bound, root_of(parent, rank, bound, i)) == root_of(
            parent,
            rank,
            bound,
            i,
        ),
{
    lemma_root(parent, rank, bound, i);
    let r = root_of(parent, rank, bound, i);
    lemma_root(parent, rank, bound, r);
}

/// Redirecting parent links to nodes of the same tree leaves every root unchanged.
proof fn lemma_repoint(
    p1: Seq<usize>,
    p2: Seq<usize>,
    rank: Seq<nat>,
    bound: nat,
    k: int,
)
    requires
        forest_ok(p1, rank, bound),
        forest_ok(p2, rank, bound),
        p1.len() == p2.len(),
        forall|j: int| 0 <= j < p2.len() && #[trigger] p2[j] as int == j ==> p1[j] as int == j,
        forall|j: int|
            0 <= j < p2.len() && #[trigger] p2[j] as int != j ==> root_of(
                p1,
                rank,
                bound,
                p2[j] as int,
            ) == root_of(p1, rank, bound, j),
        0 <= k < p2.len(),
    ensures
        root_of(p2, rank, bound, k) == root_of(p1, rank, bound, k),
    decreases bound - rank[k],
{
    assert(rank[k] < bound);
    if p2[k] as int != k {
        let q = p2[k] as int;
        assert(rank[k] < rank[q]);
        assert(rank[q] < bound);
        lemma_repoint(p1, p2, rank, bound, q);
    } else {
        assert(p1[k] as int == k);
    }
}

/// Linking root `a` below root `b` merges the two trees into `b`'s.
proof fn lemma_link(parent: Seq<usize>, rank: Seq<nat>, bound: nat, a: int, b: int, k: int)
    requires
        forest_ok(parent, rank, bound),
        0 <= a < parent.len(),
        0 <= b < parent.len(),
        a != b,
        parent[a] as int == a,
        parent[b] as int == b,
        0 <= k < parent.len(),
    ensures
        forest_ok(
            parent.update(a, b as usize),
            rank.update(b, if rank[b] > rank[a] { rank[b] } else { rank[a] + 1 }),
            if rank[b] + 1 > bound && rank[b] >= rank[a] + 1 {
                (rank[b] + 1) as nat
            } else if rank[a] + 2 > bound {
                (rank[a] + 2) as nat
            } else {
                bound
            },
        ),
        root_of(
            parent.update(a, b as usize),
            rank.update(b, if rank[b] > rank[a] { rank[b] } else { rank[a] + 1 }),
            if rank[b] + 1 > bound && rank[b] >= rank[a] + 1 {
                (rank[b] + 1) as nat
            } else if rank[a] + 2 > bound {
                (rank[a] + 2) as nat
            } else {
                bound
            },
            k,
        ) == if root_of(parent, rank, bound, k) == a {
            b
        } else {
            root_of(parent, rank, bound, k)
        },
    decreases bound - rank[k],
{
    let nb: nat = if rank[b] > rank[a] {
        rank[b]
    } else {
        rank[a] + 1
    };
    let p2 = parent.update(a, b as usize);
    let r2 = rank.update(b, nb);
    let bound2: nat = if rank[b] + 1 > bound && rank[b] >= rank[a] + 1 {
        (rank[b] + 1) as nat
    } else if rank[a] + 2 > bound {
        (rank[a] + 2) as nat
    } else {
        bound
    };
    assert(bound2 >= bound);
    assert(nb < bound2);
    assert forall|i: int| 0 <= i < p2.len() && #[trigger] p2[i] as int != i implies r2[i] < r2[
        p2[i] as int] by {
        if i != a {
            assert(p2[i] == parent[i]);
        }
    }
    assert forall|i: int| 0 <= i < p2.len() implies #[trigger] r2[i] < bound2 by {
        assert(rank[i] < bound);
    }
    assert(forest_ok(p2, r2, bound2));
    assert(rank[k] < bound);
    lemma_root(parent, rank, bound, k);
    if k == a {
        assert(r2[a] < r2[b]);
        assert(root_of(p2, r2, bound2, b) == b);
    } else if parent[k] as int == k {
        assert(p2[k] as int == k);
    } else {
        let q = parent[k] as int;
        assert(p2[k] as int == q);
        assert(rank[q] < bound);
        lemma_link(parent, rank, bound, a, b, q);
    }
}

/// Union-find over the indices `0..len`, with union by size and path compression.
pub struct UnionFind {
    parent: Vec<usize>,
    cluster_sizes: Vec<usize>,
    len: usize,
    rank: Ghost<Seq<nat>>,
    bound: Ghost<nat>,
}

impl UnionFind {
    /// Number of elements.
    pub closed spec fn size_spec(&self) -> nat {
        self.len as nat
    }

    /// The representative of `i`'s set.
    pub closed spec fn find_spec(&self, i: int) -> int {
        root_of(self.parent@, self.rank@, self.bound@, i)
    }

    /// `i` and `j` lie in the same set.
    pub open spec fn same_set(&self, i: int, j: int) -> bool {
        self.find_spec(i) == self.find_spec(j)
    }

    /// The elements of the set whose representative is `r`.
    pub closed spec fn class(&self, r: int) -> Set<int> {
        class_of(self.parent@, self.rank@, self.bound@, r)
    }

    /// Ghost ranks that strictly increase along parent links.
    pub closed spec fn ranks(&self) -> Seq<nat> {
        self.rank@
    }

    /// Strict upper bound of every rank.
    pub closed spec fn rank_bound(&self) -> nat {
        self.bound@
    }

    /// The raw size counters, one per element.
    pub closed spec fn sizes(&self) -> Seq<usize> {
        self.cluster_sizes@
    }

    /// Internal consistency: a forest whose roots count the members of their sets.
    pub closed spec fn wf(&self) -> bool {
        &&& self.parent@.len() == self.len
        &&& self.cluster_sizes@.len() == self.len
        &&& forest_ok(self.parent@, self.rank@, self.bound@)
        &&& forall|r: int|
            0 <= r < self.len && #[trigger] self.parent@[r] as int == r
                ==> self.cluster_sizes@[r] as int == self.class(r).len()
    }

    proof fn lemma_class_bounded(&self, r: int)
        requires
            self.wf(),
        ensures
            self.class(r).finite(),
            self.class(r).len() <= self.len,
    {
        lemma_int_range(0, self.len as int);
        assert(self.class(r).subset_of(set_int_range(0, self.len as int)));
        lemma_len_subset(self.class(r), set_int_range(0, self.len as int));
    }

    /// Facts about representatives that hold of every consistent union-find.
    pub proof fn lemma_find(&self, i: int)
        requires
            self.wf(),
            0 <= i < self.size_spec(),
        ensures
            0 <= self.find_spec(i) < self.size_spec(),
            self.find_spec(self.find_spec(i)) == self.find_spec(i),
            self.class(self.find_spec(i)).contains(i),
    {
        lemma_root(self.parent@, self.rank@, self.bound@, i);
        lemma_root_is_root(self.parent@, self.rank@, self.bound@, i);
    }

    /// The set whose representative is `r` holds exactly the elements whose representative
    /// is `r`.
    pub proof fn lemma_class_members(&self, r: int)
        requires
            self.wf(),
        ensures
            forall|i: int|
                #[trigger] self.class(r).contains(i) <==> (0 <= i < self.size_spec()
                    && self.find_spec(i) == r),
    {
    }

    /// The size counter of a representative is the number of elements in its set.
    pub proof fn lemma_root_size(&self, r: int)
        requires
            self.wf(),
            0 <= r < self.size_spec(),
            self.find_spec(r) == r,
        ensures
            self.sizes()[r] == self.class_size(r),
    {
        lemma_root(self.parent@, self.rank@, self.bound@, r);
    }

    /// A union-find of `len` singleton sets.
    pub fn new(len: usize) -> (uf: Self)
        requires
            len * 8 <= isize::MAX,
        ensures
            uf.wf(),
            uf.size_spec() == len,
            forall|i: int| 0 <= i < len ==> #[trigger] uf.find_spec(i) == i,
            forall|i: int| 0 <= i < len ==> #[trigger] uf.sizes()[i] == 1,
    {
        let mut parent: Vec<usize> = Vec::new();
        let mut cluster_sizes: Vec<usize> = Vec::new();
        let mut i: usize = 0;
        while i < len
            invariant
                i <= len,
                parent@.len() == i,
                cluster_sizes@.len() == i,
                forall|j: int| 0 <= j < i ==> #[trigger] parent@[j] == j,
                forall|j: int| 0 <= j < i ==> #[trigger] cluster_sizes@[j] == 1,
            decreases len - i,
        {
            parent.push(i);
            cluster_sizes.push(1);
            i = i + 1;
        }
        let ghost rank = Seq::new(len as nat, |j: int| 0nat);
        let uf = UnionFind { parent, cluster_sizes, len, rank: Ghost(rank), bound: Ghost(1) };
        assert forall|r: int| 0 <= r < len implies #[trigger] uf.find_spec(r) == r by {}
        assert forall|r: int|
            0 <= r < uf.len && #[trigger] uf.parent@[r] as int == r implies uf.cluster_sizes@[r] as int
            == uf.class(r).len() by {
            assert(uf.class(r) =~= set![r]);
        }
        uf
    }

    /// Find the representative of `id`, compressing the path to it.
    pub fn find(&mut self, id: usize) -> (r: usize)
        requires
            old(self).wf(),
            id < old(self).size_spec(),
        ensures
            final(self).wf(),
            final(self).size_spec() == old(self).size_spec(),
            final(self).sizes() == old(self).sizes(),
            r == old(self).find_spec(id as int),
            forall|j: int| #[trigger] final(self).find_spec(j) == old(self).find_spec(j),
            final(self).ranks() == old(self).ranks(),
            final(self).rank_bound() == old(self).rank_bound(),
        decreases old(self).rank_bound() - old(self).ranks()[id as int],
    {
        let ghost s0 = *self;
        proof {
            lemma_root(s0.parent@, s0.rank@, s0.bound@, id as int);
        }
        let p = self.parent[id];
        if p != id {
            proof {
                assert(s0.rank@[id as int] < s0.rank@[p as int]);
                assert(s0.rank@[p as int] < s0.bound@);
            }
            let r = self.find(p);
            let ghost s1 = *self;
            proof {
                lemma_root(s0.parent@, s0.rank@, s0.bound@, p as int);
                lemma_root(s0.parent@, s0.rank@, s0.bound@, r as int);
            }
            self.parent.set(id, r);
            proof {
                let p1 = s1.parent@;
                let p2 = self.parent@;
                let rank = self.rank@;
                let bound = self.bound@;
                assert(forest_ok(p2, rank, bound)) by {
                    assert forall|i: int|
                        0 <= i < p2.len() && #[trigger] p2[i] as int != i implies rank[i] < rank[p2[
                        i] as int] by {
                        if i != id {
                            assert(p2[i] == p1[i]);
                        }
                    }
                    assert forall|i: int| 0 <= i < p2.len() implies (#[trigger] p2[i] as int)
                        < p2.len() by {
                        if i != id {
                            assert(p2[i] == p1[i]);
                        }
                    }
                }
                assert(s1.find_spec(r as int) == r);
                assert forall|j: int| 0 <= j < p2.len() && #[trigger] p2[j] as int == j implies p1[j]
                    as int == j by {
                    if j != id {
                        assert(p2[j] == p1[j]);
                    }
                }
                assert forall|j: int| 0 <= j < p2.len() && #[trigger] p2[j] as int != j implies root_of(
                    p1,
                    rank,
                    bound,
                    p2[j] as int,
                ) == root_of(p1, rank, bound, j) by {
                    if j != id {
                        assert(p2[j] == p1[j]);
                        lemma_root(p1, rank, bound, j);
                    } else {
                        assert(s1.find_spec(id as int) == s0.find_spec(id as int));
                        assert(s1.find_spec(r as int) == s0.find_spec(r as int));
                    }
                }
                assert forall|j: int| #[trigger] self.find_spec(j) == s0.find_spec(j) by {
                    if 0 <= j < p2.len() {
                        lemma_repoint(p1, p2, rank, bound, j);
                    } else {
                        assert(s1.find_spec(j) == s0.find_spec(j));
                    }
                }
                assert forall|x: int|
                    0 <= x < self.len && #[trigger] self.parent@[x] as int == x implies self.cluster_sizes@[x]
                    as int == self.class(x).len() by {
                    lemma_root(p2, rank, bound, x);
                    lemma_root(s0.parent@, rank, bound, x);
                    assert(self.find_spec(x) == s0.find_spec(x));
                    assert(s0.parent@[x] as int == x);
                    assert(self.cluster_sizes@ == s0.cluster_sizes@);
                    assert forall|j: int| #[trigger] self.class(x).contains(j) == s0.class(x).contains(
                        j,
                    ) by {
                        assert(self.find_spec(j) == s0.find_spec(j));
                    }
                    assert(self.class(x) =~= s0.class(x));
                }
            }
        }
        self.parent[id]
    }

    /// Number of elements in the set whose representative is `r`.
    pub open spec fn class_size(&self, r: int) -> nat {
        self.class(r).len()
    }

    /// Hang root `a` below root `b` and add `a`'s count to `b`'s.
    fn link(&mut self, a: usize, b: usize)
        requires
            old(self).wf(),
            a < old(self).size_spec(),
            b < old(self).size_spec(),
            a != b,
            old(self).find_spec(a as int) == a,
            old(self).find_spec(b as int) == b,
        ensures
            final(self).wf(),
            final(self).size_spec() == old(self).size_spec(),
            forall|k: int|
                0 <= k < old(self).size_spec() ==> #[trigger] final(self).find_spec(k) == if old(
                    self,
                ).find_spec(k) == a {
                    b as int
                } else {
                    old(self).find_spec(k)
                },
            final(self).class_size(b as int) == old(self).class_size(a as int) + old(
                self,
            ).class_size(b as int),
            final(self).sizes() == old(self).sizes().update(
                b as int,
                (old(self).sizes()[a as int] + old(self).sizes()[b as int]) as usize,
            ),
    {
        let ghost s0 = *self;
        let ghost parent = s0.parent@;
        let ghost rank = s0.rank@;
        let ghost bound = s0.bound@;
        proof {
            lemma_root(parent, rank, bound, a as int);
            lemma_root(parent, rank, bound, b as int);
            s0.lemma_class_bounded(a as int);
            s0.lemma_class_bounded(b as int);
            let ca = s0.class(a as int);
            let cb = s0.class(b as int);
            assert(ca.disjoint(cb));
            lemma_set_disjoint_lens(ca, cb);
            lemma_int_range(0, s0.len as int);
            assert(ca.union(cb).subset_of(set_int_range(0, s0.len as int)));
            lemma_len_subset(ca.union(cb), set_int_range(0, s0.len as int));
        }
        self.parent.set(a, b);
        let sa = self.cluster_sizes[a];
        let sb = self.cluster_sizes[b];
        self.cluster_sizes.set(b, sb + sa);
        let ghost nb: nat = if rank[b as int] > rank[a as int] {
            rank[b as int]
        } else {
            rank[a as int] + 1
        };
        let ghost bound2: nat = if rank[b as int] + 1 > bound && rank[b as int] >= rank[a as int]
            + 1 {
            (rank[b as int] + 1) as nat
        } else if rank[a as int] + 2 > bound {
            (rank[a as int] + 2) as nat
        } else {
            bound
        };
        self.rank = Ghost(rank.update(b as int, nb));
        self.bound = Ghost(bound2);
        proof {
            assert(self.parent@ == parent.update(a as int, b));
            lemma_link(parent, rank, bound, a as int, b as int, 0);
            assert forall|k: int| 0 <= k < s0.len implies #[trigger] self.find_spec(k) == if s0.find_spec(
                k,
            ) == a {
                b as int
            } else {
                s0.find_spec(k)
            } by {
                lemma_link(parent, rank, bound, a as int, b as int, k);
            }
            let ca = s0.class(a as int);
            let cb = s0.class(b as int);
            assert forall|j: int| #[trigger] self.class(b as int).contains(j) == ca.union(
                cb,
            ).contains(j) by {
                if 0 <= j < s0.len {
                    assert(self.find_spec(j) == if s0.find_spec(j) == a {
                        b as int
                    } else {
                        s0.find_spec(j)
                    });
                }
            }
            assert(self.class(b as int) =~= ca.union(cb));
            assert forall|x: int|
                0 <= x < self.len && #[trigger] self.parent@[x] as int == x implies self.cluster_sizes@[x]
                as int == self.class(x).len() by {
                assert(x != a);
                lemma_root(parent, rank, bound, x);
                if x == b {
                    assert forall|j: int| #[trigger] self.class(x).contains(j) == ca.union(
                        cb,
                    ).contains(j) by {
                        if 0 <= j < s0.len {
                            assert(self.find_spec(j) == if s0.find_spec(j) == a {
                                b as int
                            } else {
                                s0.find_spec(j)
                            });
                        }
                    }
                    assert(self.class(x) =~= ca.union(cb));
                } else {
                    assert(parent[x] as int == x);
                    assert forall|j: int| #[trigger] self.class(x).contains(j) == s0.class(
                        x,
                    ).contains(j) by {
                        if 0 <= j < s0.len {
                            assert(self.find_spec(j) == if s0.find_spec(j) == a {
                                b as int
                            } else {
                                s0.find_spec(j)
                            });
                        }
                    }
                    assert(self.class(x) =~= s0.class(x));
                }
            }
        }
    }

    /// Merge the sets of `id1` and `id2`; the smaller set joins the larger one.
    pub fn union(&mut self, id1: usize, id2: usize)
        requires
            old(self).wf(),
            id1 < old(self).size_spec(),
            id2 < old(self).size_spec(),
        ensures
            final(self).wf(),
            final(self).size_spec() == old(self).size_spec(),
            final(self).same_set(id1 as int, id2 as int),
            final(self).find_spec(id1 as int) == if old(self).same_set(id1 as int, id2 as int) {
                old(self).find_spec(id1 as int)
            } else if old(self).class_size(old(self).find_spec(id1 as int)) < old(
                self,
            ).class_size(old(self).find_spec(id2 as int)) {
                old(self).find_spec(id2 as int)
            } else {
                old(self).find_spec(id1 as int)
            },
            forall|k: int|
                0 <= k < old(self).size_spec() ==> #[trigger] final(self).find_spec(k) == if old(
                    self,
                ).same_set(k, id1 as int) || old(self).same_set(k, id2 as int) {
                    final(self).find_spec(id1 as int)
                } else {
                    old(self).find_spec(k)
                },
            forall|i: int, j: int|
                0 <= i < old(self).size_spec() && 0 <= j < old(self).size_spec() ==> (
                #[trigger] final(self).same_set(i, j) <==> (old(self).same_set(i, j) || (old(
                    self,
                ).same_set(i, id1 as int) && old(self).same_set(j, id2 as int)) || (old(
                    self,
                ).same_set(i, id2 as int) && old(self).same_set(j, id1 as int)))),
            final(self).class_size(final(self).find_spec(id1 as int)) == if old(self).same_set(
                id1 as int,
                id2 as int,
            ) {
                old(self).class_size(old(self).find_spec(id1 as int))
            } else {
                old(self).class_size(old(self).find_spec(id1 as int)) + old(self).class_size(
                    old(self).find_spec(id2 as int),
                )
            },
            old(self).same_set(id1 as int, id2 as int) ==> final(self).sizes() == old(self).sizes(),
            !old(self).same_set(id1 as int, id2 as int) ==> {
                &&& final(self).find_spec(id1 as int) == if old(self).sizes()[old(self).find_spec(
                    id1 as int,
                )] < old(self).sizes()[old(self).find_spec(id2 as int)] {
                    old(self).find_spec(id2 as int)
                } else {
                    old(self).find_spec(id1 as int)
                }
                &&& final(self).sizes() == old(self).sizes().update(
                    final(self).find_spec(id1 as int),
                    (old(self).sizes()[old(self).find_spec(id1 as int)] + old(self).sizes()[old(
                        self,
                    ).find_spec(id2 as int)]) as usize,
                )
            },
    {
        let ghost s0 = *self;
        proof {
            s0.lemma_find(id1 as int);
            s0.lemma_find(id2 as int);
        }
        let root1 = self.find(id1);
        let root2 = self.find(id2);
        if root1 != root2 {
            proof {
                lemma_root(self.parent@, self.rank@, self.bound@, root1 as int);
                lemma_root(self.parent@, self.rank@, self.bound@, root2 as int);
                assert(self.class(root1 as int) =~= s0.class(root1 as int)) by {
                    assert forall|j: int| #[trigger] self.class(root1 as int).contains(j) == s0.class(
                        root1 as int,
                    ).contains(j) by {
                        assert(self.find_spec(j) == s0.find_spec(j));
                    }
                }
                assert(self.class(root2 as int) =~= s0.class(root2 as int)) by {
                    assert forall|j: int| #[trigger] self.class(root2 as int).contains(j) == s0.class(
                        root2 as int,
                    ).contains(j) by {
                        assert(self.find_spec(j) == s0.find_spec(j));
                    }
                }
            }
            if self.get_size(root1) < self.get_size(root2) {
                self.link(root1, root2);
            } else {
                self.link(root2, root1);
            }
        } else {
            proof {
                assert(self.class(root1 as int) =~= s0.class(root1 as int)) by {
                    assert forall|j: int| #[trigger] self.class(root1 as int).contains(j) == s0.class(
                        root1 as int,
                    ).contains(j) by {
                        assert(self.find_spec(j) == s0.find_spec(j));
                    }
                }
            }
        }
        proof {
            assert forall|i: int, j: int|
                0 <= i < s0.len && 0 <= j < s0.len implies (#[trigger] self.same_set(i, j) <==> (
            s0.same_set(i, j) || (s0.same_set(i, id1 as int) && s0.same_set(j, id2 as int)) || (
            s0.same_set(i, id2 as int) && s0.same_set(j, id1 as int)))) by {
                s0.lemma_find(i);
                s0.lemma_find(j);
            }
        }
    }

    /// Current size counter of `id` (the size of its set when `id` is a representative).
    pub fn get_size(&self, id: usize) -> (s: usize)
        requires
            self.wf(),
            id < self.size_spec(),
        ensures
            s == self.sizes()[id as int],
            self.find_spec(id as int) == id ==> s == self.class(id as int).len(),
    {
        proof {
            lemma_root(self.parent@, self.rank@, self.bound@, id as int);
        }
        self.cluster_sizes[id]
    }
}

} // verus!
