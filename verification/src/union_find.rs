//! A disjoint-set forest over the indices `0..n`, in which a union always
//! makes the class of the second argument absorb the class of the first.
use vstd::prelude::*;

verus! {

/// A view of a partition of `0..n`: each index is mapped to the
/// representative of its class, and a representative is its own.
pub open spec fn is_partition(v: Seq<usize>) -> bool {
    forall|x: int| 0 <= x < v.len() ==> (#[trigger] v[x] as int) < v.len() && v[v[x] as int] == v[x]
}

/// The number of indices below `k` that represent their class.
pub open spec fn classes_below(v: Seq<usize>, k: int) -> nat
    decreases k,
{
    if k <= 0 {
        0
    } else {
        classes_below(v, k - 1) + (if v[k - 1] as int == k - 1 { 1nat } else { 0nat })
    }
}

/// The number of classes of a partition.
pub open spec fn num_classes(v: Seq<usize>) -> nat {
    classes_below(v, v.len() as int)
}

/// The partition after the class of `a` is absorbed into the class of `b`.
pub open spec fn united(v: Seq<usize>, a: int, b: int) -> Seq<usize> {
    Seq::new(v.len(), |x: int| if v[x] == v[a] { v[b] } else { v[x] })
}

/// Follows parent links from `x` up to the root of its tree. Each step
/// goes to an index of strictly larger rank, ranks being bounded.
pub open spec fn root_of(parent: Seq<usize>, rank: Seq<nat>, bound: nat, x: int) -> int
    decreases bound - rank[x],
{
    if !(0 <= x < parent.len()) || parent[x] as int == x {
        x
    } else {
        let p = parent[x] as int;
        if 0 <= p < parent.len() && rank[x] < rank[p] && rank[p] <= bound {
            root_of(parent, rank, bound, p)
        } else {
            x
        }
    }
}

/// Disjoint sets of indices, stored as a forest of parent links.
pub struct UnionFind {
    parent: Vec<usize>,
    num_roots: usize,
    rank: Ghost<Seq<nat>>,
    bound: Ghost<nat>,
}

impl View for UnionFind {
    type V = Seq<usize>;

    /// The representative of each index's class.
    closed spec fn view(&self) -> Seq<usize> {
        Seq::new(
            self.parent@.len(),
            |x: int| root_of(self.parent@, self.rank@, self.bound@, x) as usize,
        )
    }
}

impl UnionFind {
    pub closed spec fn wf(&self) -> bool {
        &&& self.rank@.len() == self.parent@.len()
        &&& forall|x: int|
            0 <= x < self.parent@.len() ==> {
                &&& (#[trigger] self.parent@[x] as int) < self.parent@.len()
                &&& self.rank@[x] <= self.bound@
                &&& self.parent@[x] as int != x ==> self.rank@[x] < self.rank@[self.parent@[x] as int]
            }
        &&& self.num_roots as nat == num_classes(self@)
    }

    proof fn lemma_root(&self, x: int)
        requires
            self.wf(),
            0 <= x < self.parent@.len(),
        ensures
            0 <= root_of(self.parent@, self.rank@, self.bound@, x) < self.parent@.len(),
            self.parent@[root_of(self.parent@, self.rank@, self.bound@, x)] as int == root_of(
                self.parent@,
                self.rank@,
                self.bound@,
                x,
            ),
            self.parent@[x] as int != x ==> root_of(self.parent@, self.rank@, self.bound@, x)
                == root_of(self.parent@, self.rank@, self.bound@, self.parent@[x] as int),
        decreases self.bound@ - self.rank@[x],
    {
        let p = self.parent@[x] as int;
        if p != x {
            assert(self.parent@[p] as int >= 0);
            self.lemma_root(p);
        }
    }

    /// The view is a partition, and an index represents its class exactly
    /// when it is a root of the forest.
    proof fn lemma_view(&self)
        requires
            self.wf(),
        ensures
            is_partition(self@),
            forall|x: int| 0 <= x < self@.len() ==> (self@[x] as int == x <==> self.parent@[x] as int == x),
    {
        assert forall|x: int| 0 <= x < self@.len() implies (#[trigger] self@[x] as int) < self@.len()
            && self@[self@[x] as int] == self@[x] by {
            self.lemma_root(x);
            let r = root_of(self.parent@, self.rank@, self.bound@, x);
            self.lemma_root(r);
        }
        assert forall|x: int| 0 <= x < self@.len() implies (self@[x] as int == x <==> self.parent@[x] as int == x) by {
            self.lemma_root(x);
        }
    }

    /// The view of a well-formed forest is a partition.
    pub proof fn lemma_partition(&self)
        requires
            self.wf(),
        ensures
            is_partition(self@),
    {
        self.lemma_view();
    }

    /// A partition of `0..size` into singletons.
    pub fn new(size: usize) -> (r: Self)
        ensures
            r.wf(),
            r@ == Seq::new(size as nat, |i: int| i as usize),
    {
        let mut parent: Vec<usize> = Vec::new();
        let mut i: usize = 0;
        while i < size
            invariant
                i <= size,
                parent@ == Seq::new(i as nat, |k: int| k as usize),
            decreases size - i,
        {
            parent.push(i);
            assert(parent@ =~= Seq::new((i + 1) as nat, |k: int| k as usize));
            i = i + 1;
        }
        let r = UnionFind {
            parent,
            num_roots: size,
            rank: Ghost(Seq::new(size as nat, |k: int| 0nat)),
            bound: Ghost(0nat),
        };
        assert(r@ =~= Seq::new(size as nat, |i: int| i as usize));
        proof {
            lemma_classes_identity(r@, size as int);
        }
        r
    }

    /// How many indices are partitioned.
    pub fn capacity(&self) -> (r: usize)
        ensures
            r == self@.len(),
    {
        self.parent.len()
    }

    /// How many classes there are.
    pub fn len(&self) -> (r: usize)
        requires
            self.wf(),
        ensures
            r == num_classes(self@),
    {
        self.num_roots
    }

    /// The representative of the class of `x`.
    pub fn find(&self, x: usize) -> (r: usize)
        requires
            self.wf(),
            x < self@.len(),
        ensures
            r == self@[x as int],
    {
        let mut cur = x;
        while self.parent[cur] != cur
            invariant
                self.wf(),
                cur < self.parent@.len(),
                root_of(self.parent@, self.rank@, self.bound@, cur as int) == root_of(
                    self.parent@,
                    self.rank@,
                    self.bound@,
                    x as int,
                ),
            decreases self.bound@ - self.rank@[cur as int],
        {
            proof {
                self.lemma_root(cur as int);
            }
            cur = self.parent[cur];
        }
        proof {
            self.lemma_root(x as int);
        }
        cur
    }

    /// Whether `x` represents its class.
    pub fn is_root(&self, x: usize) -> (r: bool)
        requires
            self.wf(),
            x < self@.len(),
        ensures
            r == (self@[x as int] == x),
    {
        proof {
            self.lemma_view();
        }
        self.parent[x] == x
    }

    /// Makes the class of `a` part of the class of `b`, whose
    /// representative stays the representative of the joined class.
    pub fn union(&mut self, a: usize, b: usize)
        requires
            old(self).wf(),
            a < old(self)@.len(),
            b < old(self)@.len(),
        ensures
            final(self).wf(),
            final(self)@ == united(old(self)@, a as int, b as int),
    {
        let ra = self.find(a);
        let rb = self.find(b);
        proof {
            self.lemma_view();
        }
        if ra == rb {
            assert(self@ =~= united(old(self)@, a as int, b as int));
            return;
        }
        let ghost old_parent = self.parent@;
        let ghost old_rank = self.rank@;
        let ghost old_bound = self.bound@;
        let ghost old_view = self@;
        let ghost new_rank_b = if old_rank[rb as int] > old_rank[ra as int] { old_rank[rb as int] } else { old_rank[ra as int] + 1 };
        self.parent.set(ra, rb);
        self.rank = Ghost(old_rank.update(rb as int, new_rank_b));
        self.bound = Ghost(if new_rank_b > old_bound { new_rank_b } else { old_bound });
        proof {
            assert forall|x: int| 0 <= x < self.parent@.len() implies {
                &&& (#[trigger] self.parent@[x] as int) < self.parent@.len()
                &&& self.rank@[x] <= self.bound@
                &&& self.parent@[x] as int != x ==> self.rank@[x] < self.rank@[self.parent@[x] as int]
            } by {
                if x != ra as int && old_parent[x] as int != x {
                    // x is not a root, so it is not rb
                    assert(x != rb as int) by {
                        old(self).lemma_view();
                    }
                }
            }
            assert forall|y: int| 0 <= y < old_parent.len() implies #[trigger] self.rank@[y] <= self.bound@ by {
                assert(old_parent[y] as int >= 0);
            }
            assert forall|x: int| 0 <= x < self.parent@.len() implies root_of(self.parent@, self.rank@, self.bound@, x)
                == (if old_view[x] == old_view[a as int] { old_view[b as int] as int } else { old_view[x] as int }) by {
                lemma_root_after_link(old_parent, old_rank, old_bound, self.parent@, self.rank@, self.bound@, ra as int, rb as int, x);
                old(self).lemma_root(x);
                assert(old_view[x] == root_of(old_parent, old_rank, old_bound, x) as usize);
            }
            assert(self@ =~= united(old_view, a as int, b as int));
            lemma_classes_after_union(old_view, a as int, b as int);
        }
        self.num_roots = self.num_roots - 1;
    }
}

proof fn lemma_classes_identity(v: Seq<usize>, k: int)
    requires
        0 <= k <= v.len(),
        forall|x: int| 0 <= x < v.len() ==> v[x] as int == x,
    ensures
        classes_below(v, k) == k,
    decreases k,
{
    if k > 0 {
        lemma_classes_identity(v, k - 1);
    }
}

proof fn lemma_root_after_link(
    p: Seq<usize>,
    rk: Seq<nat>,
    bd: nat,
    p2: Seq<usize>,
    rk2: Seq<nat>,
    bd2: nat,
    ra: int,
    rb: int,
    x: int,
)
    requires
        rk.len() == p.len(),
        forall|y: int|
            0 <= y < p.len() ==> {
                &&& (#[trigger] p[y] as int) < p.len()
                &&& rk[y] <= bd
                &&& p[y] as int != y ==> rk[y] < rk[p[y] as int]
            },
        0 <= ra < p.len(),
        0 <= rb < p.len(),
        ra != rb,
        p[ra] as int == ra,
        p[rb] as int == rb,
        p2 == p.update(ra, rb as usize),
        rk2.len() == p.len(),
        forall|y: int| 0 <= y < p.len() && y != rb ==> rk2[y] == rk[y],
        rk2[rb] > rk[ra],
        rk2[rb] >= rk[rb],
        forall|y: int| 0 <= y < p.len() ==> #[trigger] rk2[y] <= bd2,
        0 <= x < p.len(),
    ensures
        root_of(p2, rk2, bd2, x) == (if root_of(p, rk, bd, x) == ra { rb } else { root_of(p, rk, bd, x) }),
    decreases bd - rk[x],
{
    if x == ra {
        assert(root_of(p2, rk2, bd2, rb) == rb);
    } else if p[x] as int == x {
    } else {
        let q = p[x] as int;
        assert(x != rb);
        assert(p2[x] == p[x]);
        assert(p[q] as int >= 0);
        lemma_root_after_link(p, rk, bd, p2, rk2, bd2, ra, rb, q);
    }
}

proof fn lemma_classes_split(v: Seq<usize>, w: Seq<usize>, k: int, t: int)
    requires
        0 <= k <= v.len(),
        v.len() == w.len(),
        0 <= t < v.len(),
        v[t] as int == t,
        w[t] as int != t,
        forall|x: int| 0 <= x < v.len() && x != t ==> ((v[x] as int == x) <==> (w[x] as int == x)),
    ensures
        classes_below(v, k) == classes_below(w, k) + (if t < k { 1nat } else { 0nat }),
    decreases k,
{
    if k > 0 {
        lemma_classes_split(v, w, k - 1, t);
    }
}

/// A union of two different classes leaves one class fewer.
pub proof fn lemma_classes_after_union(v: Seq<usize>, a: int, b: int)
    requires
        is_partition(v),
        0 <= a < v.len(),
        0 <= b < v.len(),
        v[a] != v[b],
    ensures
        num_classes(united(v, a, b)) + 1 == num_classes(v),
{
    let w = united(v, a, b);
    let t = v[a] as int;
    assert(v[t] == v[a]);
    assert forall|x: int| 0 <= x < v.len() && x != t implies ((v[x] as int == x) <==> (w[x] as int == x)) by {
        if v[x] as int == x && v[x] == v[a] {
            assert(x == t);
        }
    }
    lemma_classes_split(v, w, v.len() as int, t);
}

/// Absorbing the class of `a` into the class of `b` yields a partition in
/// which `a` and `b` are in one class, represented by `b`'s representative.
pub proof fn lemma_united_partition(v: Seq<usize>, a: int, b: int)
    requires
        is_partition(v),
        0 <= a < v.len(),
        0 <= b < v.len(),
    ensures
        is_partition(united(v, a, b)),
        united(v, a, b)[a] == v[b],
        united(v, a, b)[b] == v[b],
        forall|x: int| 0 <= x < v.len() && v[x] != v[a] ==> #[trigger] united(v, a, b)[x] == v[x],
{
    let w = united(v, a, b);
    assert forall|x: int| 0 <= x < w.len() implies (#[trigger] w[x] as int) < w.len() && w[w[x] as int] == w[x] by {
        let y = w[x] as int;
        if v[x] == v[a] {
            assert(v[v[b] as int] == v[b]);
            if v[y] == v[a] {
                assert(v[b] == v[a]);
            }
        } else {
            assert(v[v[x] as int] == v[x]);
        }
    }
}

} // verus!
