//! The graph part of consistent normal orientation: union-find, the Kruskal
//! selection of a spanning forest, adjacency lists and the breadth-first
//! order in which orientation propagates.

use vstd::prelude::*;

verus! {

/// The number of positions of `s` that hold `r`.
pub open spec fn count_of(s: Seq<int>, r: int) -> nat
    decreases s.len(),
{
    if s.len() == 0 {
        0
    } else {
        count_of(s.drop_last(), r) + if s.last() == r {
            1nat
        } else {
            0nat
        }
    }
}

/// `s` with every `from` replaced by `to`.
pub open spec fn relabel(s: Seq<int>, from: int, to: int) -> Seq<int> {
    s.map_values(|y: int| if y == from {
        to
    } else {
        y
    })
}

proof fn lemma_count_relabel(s: Seq<int>, from: int, to: int, r: int)
    requires
        from != to,
    ensures
        r == to ==> count_of(relabel(s, from, to), r) == count_of(s, to) + count_of(s, from),
        r != to && r != from ==> count_of(relabel(s, from, to), r) == count_of(s, r),
        count_of(s, from) + count_of(s, to) <= s.len(),
    decreases s.len(),
{
    if s.len() > 0 {
        lemma_count_relabel(s.drop_last(), from, to, r);
        assert(relabel(s, from, to).drop_last() =~= relabel(s.drop_last(), from, to));
    }
}

proof fn lemma_count_identity(n: nat, r: int)
    ensures
        count_of(Seq::new(n, |i: int| i), r) == (if 0 <= r < n {
            1nat
        } else {
            0nat
        }),
    decreases n,
{
    if n > 0 {
        lemma_count_identity((n - 1) as nat, r);
        assert(Seq::new(n, |i: int| i).drop_last() =~= Seq::new((n - 1) as nat, |i: int| i));
    }
}

/// Union-find with path halving and union by size (`DisjointSet`).
pub struct DisjointSet {
    parent: Vec<usize>,
    size: Vec<usize>,
    root: Ghost<Seq<int>>,
    height: Ghost<Seq<nat>>,
    max_height: Ghost<nat>,
}

impl DisjointSet {
    /// Parent links lead up to the representative of each element, and each
    /// representative counts the members of its set.
    pub closed spec fn wf(self) -> bool {
        let n = self.parent@.len();
        &&& self.size@.len() == n
        &&& self.root@.len() == n
        &&& self.height@.len() == n
        &&& forall|x: int| 0 <= x < n ==> #[trigger] self.parent@[x] < n
        &&& forall|x: int| 0 <= x < n ==> 0 <= #[trigger] self.root@[x] < n
        &&& forall|x: int|
            0 <= x < n ==> self.parent@[#[trigger] self.root@[x] as int] == self.root@[x]
        &&& forall|x: int|
            0 <= x < n ==> self.root@[#[trigger] self.parent@[x] as int] == self.root@[x]
        &&& forall|x: int| 0 <= x < n && #[trigger] self.parent@[x] == x ==> self.root@[x] == x
        &&& forall|x: int|
            0 <= x < n && #[trigger] self.parent@[x] != x ==> self.height@[self.parent@[x] as int]
                > self.height@[x]
        &&& forall|x: int| 0 <= x < n ==> #[trigger] self.height@[x] <= self.max_height@
        &&& forall|x: int|
            0 <= x < n && #[trigger] self.parent@[x] == x ==> self.size@[x] == count_of(
                self.root@,
                x,
            )
    }

    /// Number of elements.
    pub closed spec fn len_spec(self) -> nat {
        self.parent@.len()
    }

    /// The representative of the set of `x`.
    pub closed spec fn rep(self, x: int) -> int {
        self.root@[x]
    }

    /// `x` and `y` are in one set.
    pub open spec fn same(self, x: int, y: int) -> bool {
        self.rep(x) == self.rep(y)
    }

    /// The number of elements in the set of `x`.
    pub closed spec fn set_size(self, x: int) -> nat {
        count_of(self.root@, self.root@[x])
    }

    /// The representative after merging the sets of `a` and `b`: that of the
    /// larger set, of `a`'s on a tie.
    pub open spec fn merged_rep(self, a: int, b: int) -> int {
        if self.set_size(a) >= self.set_size(b) {
            self.rep(a)
        } else {
            self.rep(b)
        }
    }

    /// `n` singleton sets `{0}`, ..., `{n - 1}`.
    pub fn new(n: usize) -> (ds: Self)
        ensures
            ds.wf(),
            ds.len_spec() == n,
            forall|x: int| 0 <= x < n ==> #[trigger] ds.rep(x) == x,
            forall|x: int| 0 <= x < n ==> #[trigger] ds.set_size(x) == 1,
    {
        let mut parent: Vec<usize> = Vec::new();
        let mut size: Vec<usize> = Vec::new();
        let mut i: usize = 0;
        while i < n
            invariant
                i <= n,
                parent@.len() == i,
                size@.len() == i,
                forall|x: int| 0 <= x < i ==> #[trigger] parent@[x] == x,
                forall|x: int| 0 <= x < i ==> #[trigger] size@[x] == 1,
            decreases n - i,
        {
            parent.push(i);
            size.push(1);
            i += 1;
        }
        let ghost root = Seq::new(n as nat, |x: int| x);
        let ds = DisjointSet {
            parent,
            size,
            root: Ghost(root),
            height: Ghost(Seq::new(n as nat, |x: int| 0nat)),
            max_height: Ghost(0),
        };
        proof {
            assert forall|x: int| 0 <= x < n && #[trigger] ds.parent@[x] == x implies ds.size@[x]
                == count_of(ds.root@, x) by {
                lemma_count_identity(n as nat, x);
            }
            assert forall|x: int| 0 <= x < n implies #[trigger] ds.set_size(x) == 1 by {
                lemma_count_identity(n as nat, x);
            }
        }
        ds
    }

    /// The representative of the set of `x`; halves the path on the way.
    pub fn find(&mut self, x: usize) -> (r: usize)
        requires
            old(self).wf(),
            x < old(self).len_spec(),
        ensures
            final(self).wf(),
            final(self).len_spec() == old(self).len_spec(),
            forall|y: int| 0 <= y < old(self).len_spec() ==> #[trigger] final(self).rep(y) == old(self).rep(y),
            r == old(self).rep(x as int),
            r < old(self).len_spec(),
    {
        let ghost x0 = x;
        let mut x = x;
        while self.parent[x] != x
            invariant
                self.wf(),
                self.len_spec() == old(self).len_spec(),
                self.root@ == old(self).root@,
                x < self.len_spec(),
                self.root@[x as int] == self.root@[x0 as int],
            decreases self.max_height@ - self.height@[x as int],
        {
            let p = self.parent[x];
            let gp = self.parent[p];
            proof {
                assert(self.height@[p as int] > self.height@[x as int]);
                if gp != p {
                    assert(self.height@[gp as int] > self.height@[p as int]);
                }
                assert(self.height@[x as int] <= self.max_height@);
                assert(self.height@[gp as int] <= self.max_height@);
            }
            self.parent.set(x, gp);
            proof {
                assert forall|y: int| 0 <= y < self.len_spec() && #[trigger] self.parent@[y] != y implies self.height@[self.parent@[y] as int]
                    > self.height@[y] by {
                    if y != x {
                        assert(old(self).parent@.len() == self.parent@.len());
                    }
                }
                assert forall|y: int| 0 <= y < self.len_spec() implies self.parent@[#[trigger] self.root@[y] as int]
                    == self.root@[y] by {
                    if self.root@[y] == x as int {
                        assert(self.parent@[x as int] == gp);
                    }
                }
            }
            x = gp;
        }
        proof {
            assert(self.root@[x as int] == x);
        }
        x
    }
}

impl DisjointSet {
    /// Merges the sets of `a` and `b`, the smaller under the larger; returns
    /// whether they were distinct.
    pub fn union(&mut self, a: usize, b: usize) -> (merged: bool)
        requires
            old(self).wf(),
            a < old(self).len_spec(),
            b < old(self).len_spec(),
        ensures
            final(self).wf(),
            final(self).len_spec() == old(self).len_spec(),
            merged == !old(self).same(a as int, b as int),
            final(self).same(a as int, b as int),
            forall|x: int, y: int|
                0 <= x < old(self).len_spec() && 0 <= y < old(self).len_spec() ==> (#[trigger] final(self).same(x, y)
                    <==> (old(self).same(x, y) || (old(self).same(x, a as int) && old(self).same(y, b as int))
                    || (old(self).same(x, b as int) && old(self).same(y, a as int)))),
            forall|x: int|
                0 <= x < old(self).len_spec() ==> #[trigger] final(self).rep(x) == (if merged && (old(self).same(
                    x,
                    a as int,
                ) || old(self).same(x, b as int)) {
                    old(self).merged_rep(a as int, b as int)
                } else {
                    old(self).rep(x)
                }),
    {
        let ra = self.find(a);
        let rb = self.find(b);
        if ra == rb {
            return false;
        }
        let ghost s0 = *self;
        let (big, small) = if self.size[ra] >= self.size[rb] {
            (ra, rb)
        } else {
            (rb, ra)
        };
        proof {
            lemma_count_relabel(s0.root@, small as int, big as int, big as int);
            assert(s0.rep(a as int) == ra as int);
            assert(s0.rep(b as int) == rb as int);
            assert(s0.root@[a as int] == ra as int);
            assert(s0.root@[b as int] == rb as int);
            assert(s0.parent@[big as int] == big);
            assert(s0.parent@[small as int] == small);
        }
        let n = self.parent.len();
        let grown = self.size[big] + self.size[small];
        self.parent.set(small, big);
        self.size.set(big, grown);
        proof {
            let n = s0.parent@.len();
            let hb = if s0.height@[big as int] > s0.height@[small as int] {
                s0.height@[big as int]
            } else {
                s0.height@[small as int] + 1
            };
            self.root = Ghost(relabel(s0.root@, small as int, big as int));
            self.height = Ghost(s0.height@.update(big as int, hb));
            self.max_height = Ghost(if hb > s0.max_height@ {
                hb
            } else {
                s0.max_height@
            });
            assert forall|x: int| 0 <= x < n implies self.parent@[#[trigger] self.root@[x] as int]
                == self.root@[x] by {
                assert(s0.parent@[s0.root@[x] as int] == s0.root@[x]);
            }
            assert forall|x: int| 0 <= x < n implies self.root@[#[trigger] self.parent@[x] as int]
                == self.root@[x] by {
                if x != small as int {
                    assert(s0.root@[s0.parent@[x] as int] == s0.root@[x]);
                }
            }
            assert forall|x: int| 0 <= x < n && #[trigger] self.parent@[x] == x implies self.root@[x] == x by {
                assert(s0.parent@[x] == x);
            }
            assert forall|x: int| 0 <= x < n && #[trigger] self.parent@[x] != x implies self.height@[self.parent@[x] as int]
                > self.height@[x] by {
                if x != small as int {
                    assert(s0.parent@[x] != x);
                    assert(s0.height@[s0.parent@[x] as int] > s0.height@[x]);
                }
            }
            assert forall|x: int| 0 <= x < n implies #[trigger] self.height@[x] <= self.max_height@ by {
                assert(s0.height@[x] <= s0.max_height@);
            }
            assert forall|x: int| 0 <= x < n && #[trigger] self.parent@[x] == x implies self.size@[x]
                == count_of(self.root@, x) by {
                lemma_count_relabel(s0.root@, small as int, big as int, x);
                assert(s0.parent@[x] == x);
            }
            assert(s0.root@ =~= old(self).root@) by {
                assert forall|x: int| 0 <= x < n implies s0.root@[x] == old(self).root@[x] by {
                    assert(old(self).rep(x) == s0.rep(x));
                }
            }
            assert(old(self).set_size(a as int) == s0.size@[ra as int]);
            assert(old(self).set_size(b as int) == s0.size@[rb as int]);
            assert forall|x: int| 0 <= x < n implies #[trigger] self.rep(x) == (if (old(self).same(x, a as int)
                || old(self).same(x, b as int)) {
                old(self).merged_rep(a as int, b as int)
            } else {
                old(self).rep(x)
            }) by {
                assert(old(self).rep(x) == s0.rep(x));
            }
            assert forall|x: int, y: int|
                0 <= x < n && 0 <= y < n implies (#[trigger] self.same(x, y) <==> (old(self).same(x, y) || (
                old(self).same(x, a as int) && old(self).same(y, b as int)) || (old(self).same(x, b as int)
                && old(self).same(y, a as int)))) by {
                assert(old(self).rep(x) == s0.rep(x));
                assert(old(self).rep(y) == s0.rep(y));
                assert(old(self).rep(a as int) == s0.rep(a as int));
                assert(old(self).rep(b as int) == s0.rep(b as int));
            }
        }
        true
    }
}

/// The set labels after the first `i` edges were taken in order, starting
/// from singletons: an edge between two sets relabels the set of its second
/// end with the label of its first.
pub open spec fn forest_labels(n: nat, edges: Seq<(usize, usize)>, i: nat) -> Seq<int>
    decreases i,
{
    if i == 0 {
        Seq::new(n, |x: int| x)
    } else {
        let l = forest_labels(n, edges, (i - 1) as nat);
        let e = edges[i - 1];
        if l[e.0 as int] != l[e.1 as int] {
            relabel(l, l[e.1 as int], l[e.0 as int])
        } else {
            l
        }
    }
}

/// Edge `i` joins two sets that the edges kept before it leave apart.
pub open spec fn forest_keeps(n: nat, edges: Seq<(usize, usize)>, i: nat) -> bool {
    let l = forest_labels(n, edges, i);
    l[edges[i as int].0 as int] != l[edges[i as int].1 as int]
}

/// The positions of the kept edges among the first `i`, in order.
pub open spec fn forest_edges(n: nat, edges: Seq<(usize, usize)>, i: nat) -> Seq<usize>
    decreases i,
{
    if i == 0 {
        seq![]
    } else if forest_keeps(n, edges, (i - 1) as nat) {
        forest_edges(n, edges, (i - 1) as nat).push((i - 1) as usize)
    } else {
        forest_edges(n, edges, (i - 1) as nat)
    }
}

proof fn lemma_labels_len(n: nat, edges: Seq<(usize, usize)>, i: nat)
    requires
        i <= edges.len(),
        forall|k: int| #![trigger edges[k]] 0 <= k < edges.len() ==> edges[k].0 < n && edges[k].1 < n,
    ensures
        forest_labels(n, edges, i).len() == n,
    decreases i,
{
    if i > 0 {
        lemma_labels_len(n, edges, (i - 1) as nat);
    }
}

/// Kruskal's selection over edges already in ascending weight order: the
/// positions of the edges that join two components of the forest built so far.
pub fn kruskal(edges: &[(usize, usize)], n_vertices: usize) -> (kept: Vec<usize>)
    requires
        forall|k: int| 0 <= k < edges@.len() ==> #[trigger] edges@[k].0 < n_vertices && edges@[k].1 < n_vertices,
    ensures
        kept@ == forest_edges(n_vertices as nat, edges@, edges@.len()),
{
    let mut ds = DisjointSet::new(n_vertices);
    let mut kept: Vec<usize> = Vec::new();
    let mut i: usize = 0;
    while i < edges.len()
        invariant
            i <= edges@.len(),
            ds.wf(),
            ds.len_spec() == n_vertices,
            forall|k: int| 0 <= k < edges@.len() ==> #[trigger] edges@[k].0 < n_vertices && edges@[k].1 < n_vertices,
            forall|x: int, y: int|
                0 <= x < n_vertices && 0 <= y < n_vertices ==> (ds.same(x, y) <==> #[trigger] forest_labels(
                    n_vertices as nat,
                    edges@,
                    i as nat,
                )[x] == #[trigger] forest_labels(n_vertices as nat, edges@, i as nat)[y]),
            kept@ == forest_edges(n_vertices as nat, edges@, i as nat),
        decreases edges@.len() - i,
    {
        let (u, v) = edges[i];
        let ghost l = forest_labels(n_vertices as nat, edges@, i as nat);
        let ghost ds0 = ds;
        proof {
            lemma_labels_len(n_vertices as nat, edges@, i as nat);
            lemma_labels_len(n_vertices as nat, edges@, (i + 1) as nat);
            assert(ds0.same(u as int, v as int) <==> l[u as int] == l[v as int]);
        }
        let merged = ds.union(u, v);
        if merged {
            kept.push(i);
        }
        proof {
            let l2 = forest_labels(n_vertices as nat, edges@, (i + 1) as nat);
            assert(edges@[i as int] == (u, v));
            assert forall|x: int, y: int|
                0 <= x < n_vertices && 0 <= y < n_vertices implies (ds.same(x, y) <==> #[trigger] l2[x]
                == #[trigger] l2[y]) by {
                assert(ds0.same(x, y) <==> l[x] == l[y]);
                assert(ds0.same(x, u as int) <==> l[x] == l[u as int]);
                assert(ds0.same(y, v as int) <==> l[y] == l[v as int]);
                assert(ds0.same(x, v as int) <==> l[x] == l[v as int]);
                assert(ds0.same(y, u as int) <==> l[y] == l[u as int]);
            }
        }
        i += 1;
    }
    kept
}

/// Relabelling keeps equal labels equal.
proof fn lemma_relabel_keeps_equal(l: Seq<int>, from: int, to: int, x: int, y: int)
    requires
        0 <= x < l.len(),
        0 <= y < l.len(),
        l[x] == l[y],
    ensures
        relabel(l, from, to)[x] == relabel(l, from, to)[y],
{
}

proof fn lemma_labels_stay_joined(n: nat, edges: Seq<(usize, usize)>, i: nat, j: nat, x: int, y: int)
    requires
        i <= j <= edges.len(),
        0 <= x < n,
        0 <= y < n,
        forall|k: int| #![trigger edges[k]] 0 <= k < edges.len() ==> edges[k].0 < n && edges[k].1 < n,
        forest_labels(n, edges, i)[x] == forest_labels(n, edges, i)[y],
    ensures
        forest_labels(n, edges, j)[x] == forest_labels(n, edges, j)[y],
    decreases j - i,
{
    if i < j {
        lemma_labels_stay_joined(n, edges, i, (j - 1) as nat, x, y);
        lemma_labels_len(n, edges, (j - 1) as nat);
        let l = forest_labels(n, edges, (j - 1) as nat);
        let e = edges[j - 1];
        if l[e.0 as int] != l[e.1 as int] {
            lemma_relabel_keeps_equal(l, l[e.1 as int], l[e.0 as int], x, y);
        }
    }
}

/// The forest Kruskal keeps spans every edge: the two ends of each edge end
/// up in one component.
pub proof fn lemma_kruskal_spans(n: nat, edges: Seq<(usize, usize)>)
    requires
        forall|k: int| #![trigger edges[k]] 0 <= k < edges.len() ==> edges[k].0 < n && edges[k].1 < n,
    ensures
        forall|i: int|
            0 <= i < edges.len() ==> #[trigger] forest_labels(n, edges, edges.len())[edges[i].0 as int]
                == forest_labels(n, edges, edges.len())[edges[i].1 as int],
{
    assert forall|i: int|
        0 <= i < edges.len() implies #[trigger] forest_labels(n, edges, edges.len())[edges[i].0 as int]
        == forest_labels(n, edges, edges.len())[edges[i].1 as int] by {
        let e = edges[i];
        assert(edges[i].0 < n && edges[i].1 < n);
        lemma_labels_len(n, edges, i as nat);
        lemma_labels_len(n, edges, (i + 1) as nat);
        let l = forest_labels(n, edges, i as nat);
        assert(forest_labels(n, edges, (i + 1) as nat)[e.0 as int] == forest_labels(n, edges, (i + 1) as nat)[e.1 as int]);
        lemma_labels_stay_joined(n, edges, (i + 1) as nat, edges.len(), e.0 as int, e.1 as int);
    }
}

// ------------------------------------------------------------------ propagation

/// The vertices of `pairs` (each a vertex with the vertex it was reached from).
pub open spec fn reached(pairs: Seq<(usize, usize)>) -> Seq<usize> {
    pairs.map_values(|p: (usize, usize)| p.0)
}

/// `pairs` after looking at the first `k` neighbours of `u`: each one not
/// reached yet is reached from `u`.
pub open spec fn expand(adj: Seq<Seq<usize>>, pairs: Seq<(usize, usize)>, u: usize, k: nat) -> Seq<(usize, usize)>
    decreases k,
{
    if k == 0 {
        pairs
    } else {
        let p = expand(adj, pairs, u, (k - 1) as nat);
        let v = adj[u as int][k - 1];
        if reached(p).contains(v) {
            p
        } else {
            p.push((v, u))
        }
    }
}

/// Breadth-first search from `start` after the first `j` reached vertices
/// were expanded, in the order they were reached.
pub open spec fn bfs_pairs(adj: Seq<Seq<usize>>, start: usize, j: nat) -> Seq<(usize, usize)>
    decreases j,
{
    if j == 0 {
        seq![(start, start)]
    } else {
        let p = bfs_pairs(adj, start, (j - 1) as nat);
        if j - 1 < p.len() {
            let u = p[j - 1].0;
            expand(adj, p, u, adj[u as int].len())
        } else {
            p
        }
    }
}

/// Every adjacency list names vertices below `n`.
pub open spec fn adjacency_ok(adj: Seq<Seq<usize>>) -> bool {
    forall|x: int, k: int| 0 <= x < adj.len() && 0 <= k < adj[x].len() ==> #[trigger] adj[x][k] < adj.len()
}

proof fn lemma_expand_grows(adj: Seq<Seq<usize>>, pairs: Seq<(usize, usize)>, u: usize, k: nat)
    requires
        0 <= u < adj.len(),
        k <= adj[u as int].len(),
    ensures
        expand(adj, pairs, u, k).len() >= pairs.len(),
        expand(adj, pairs, u, k).take(pairs.len() as int) == pairs,
    decreases k,
{
    if k > 0 {
        lemma_expand_grows(adj, pairs, u, (k - 1) as nat);
        let p = expand(adj, pairs, u, (k - 1) as nat);
        assert(p.push((adj[u as int][k - 1], u)).take(pairs.len() as int) =~= p.take(pairs.len() as int));
    }
}

/// The number of `true` entries of `s`.
pub open spec fn count_true(s: Seq<bool>) -> nat
    decreases s.len(),
{
    if s.len() == 0 {
        0
    } else {
        count_true(s.drop_last()) + if s.last() {
            1nat
        } else {
            0nat
        }
    }
}

proof fn lemma_count_true_bound(s: Seq<bool>)
    ensures
        count_true(s) <= s.len(),
    decreases s.len(),
{
    if s.len() > 0 {
        lemma_count_true_bound(s.drop_last());
    }
}

proof fn lemma_count_true_set(s: Seq<bool>, x: int)
    requires
        0 <= x < s.len(),
        !s[x],
    ensures
        count_true(s.update(x, true)) == count_true(s) + 1,
    decreases s.len(),
{
    if x < s.len() - 1 {
        lemma_count_true_set(s.drop_last(), x);
        assert(s.update(x, true).drop_last() =~= s.drop_last().update(x, true));
    } else {
        assert(s.update(x, true).drop_last() =~= s.drop_last());
    }
}

proof fn lemma_count_true_none(n: nat)
    ensures
        count_true(Seq::new(n, |x: int| false)) == 0,
    decreases n,
{
    if n > 0 {
        lemma_count_true_none((n - 1) as nat);
        assert(Seq::new(n, |x: int| false).drop_last() =~= Seq::new((n - 1) as nat, |x: int| false));
    }
}

proof fn lemma_bfs_stable(adj: Seq<Seq<usize>>, start: usize, j: nat, m: nat)
    requires
        bfs_pairs(adj, start, j).len() <= j,
        j <= m,
    ensures
        bfs_pairs(adj, start, m) == bfs_pairs(adj, start, j),
    decreases m - j,
{
    if j < m {
        lemma_bfs_stable(adj, start, j, (m - 1) as nat);
    }
}

/// The order in which breadth-first search from `start` reaches the vertices
/// of a graph given by adjacency lists, each with the vertex it was reached
/// from (`start` with itself): the order in which orientation propagates.
pub fn bfs_order(adj: &Vec<Vec<usize>>, start: usize) -> (pairs: Vec<(usize, usize)>)
    requires
        start < adj@.len(),
        adjacency_ok(adj@.map_values(|l: Vec<usize>| l@)),
    ensures
        pairs@ == bfs_pairs(adj@.map_values(|l: Vec<usize>| l@), start, adj@.len() as nat),
{
    let ghost g = adj@.map_values(|l: Vec<usize>| l@);
    let n = adj.len();
    let mut visited: Vec<bool> = Vec::new();
    let mut i: usize = 0;
    while i < n
        invariant
            i <= n,
            visited@ == Seq::new(i as nat, |x: int| false),
        decreases n - i,
    {
        visited.push(false);
        proof {
            assert(visited@ =~= Seq::new((i + 1) as nat, |x: int| false));
        }
        i += 1;
    }
    proof {
        lemma_count_true_none(n as nat);
        lemma_count_true_set(visited@, start as int);
    }
    let mut pairs: Vec<(usize, usize)> = Vec::new();
    pairs.push((start, start));
    visited.set(start, true);
    let mut j: usize = 0;
    proof {
        assert(pairs@ =~= bfs_pairs(g, start, 0));
        assert forall|x: int| 0 <= x < n implies (#[trigger] visited@[x] <==> reached(pairs@).contains(
            x as usize,
        )) by {
            if x == start {
                assert(reached(pairs@)[0] == start);
            }
            if reached(pairs@).contains(x as usize) {
                assert(reached(pairs@)[0] == x as usize);
            }
        }
        lemma_count_true_bound(visited@);
    }
    while j < pairs.len()
        invariant
            n == adj@.len(),
            g == adj@.map_values(|l: Vec<usize>| l@),
            adjacency_ok(g),
            start < n,
            visited@.len() == n,
            j <= pairs@.len(),
            count_true(visited@) == pairs@.len(),
            pairs@ == bfs_pairs(g, start, j as nat),
            forall|x: int| 0 <= x < n ==> (#[trigger] visited@[x] <==> reached(pairs@).contains(x as usize)),
            forall|q: int| 0 <= q < pairs@.len() ==> #[trigger] pairs@[q].0 < n,
        decreases n - j,
    {
        proof {
            lemma_count_true_bound(visited@);
        }
        let u = pairs[j].0;
        let ghost base = pairs@;
        let m = adj[u].len();
        proof {
            assert(g[u as int] == adj@[u as int]@);
        }
        let mut k: usize = 0;
        while k < m
            invariant
                n == adj@.len(),
                g == adj@.map_values(|l: Vec<usize>| l@),
                adjacency_ok(g),
                u < n,
                m == g[u as int].len(),
                k <= m,
                visited@.len() == n,
                count_true(visited@) == pairs@.len(),
                pairs@ == expand(g, base, u, k as nat),
                forall|x: int| 0 <= x < n ==> (#[trigger] visited@[x] <==> reached(pairs@).contains(x as usize)),
                forall|q: int| 0 <= q < pairs@.len() ==> #[trigger] pairs@[q].0 < n,
            decreases m - k,
        {
            let v = adj[u][k];
            proof {
                assert(g[u as int][k as int] == v);
                assert(v < n);
            }
            if !visited[v] {
                let ghost before = pairs@;
                let ghost vis0 = visited@;
                pairs.push((v, u));
                visited.set(v, true);
                proof {
                    lemma_count_true_set(vis0, v as int);
                    assert(reached(pairs@) =~= reached(before).push(v));
                    assert forall|x: int| 0 <= x < n implies (#[trigger] visited@[x] <==> reached(pairs@).contains(
                        x as usize,
                    )) by {
                        if x != v as int {
                            if reached(pairs@).contains(x as usize) {
                                let q = choose|q: int| 0 <= q < reached(pairs@).len() && reached(pairs@)[q] == x as usize;
                                assert(q < before.len());
                                assert(reached(before)[q] == x as usize);
                            }
                            if vis0[x] {
                                let q = choose|q: int| 0 <= q < reached(before).len() && reached(before)[q] == x as usize;
                                assert(reached(pairs@)[q] == x as usize);
                            }
                        } else {
                            assert(reached(pairs@)[before.len() as int] == v);
                        }
                    }
                }
            }
            k += 1;
        }
        proof {
            lemma_count_true_bound(visited@);
            lemma_expand_grows(g, base, u, m as nat);
            assert(bfs_pairs(g, start, (j + 1) as nat) == expand(g, base, u, m as nat));
        }
        j += 1;
    }
    proof {
        lemma_count_true_bound(visited@);
        lemma_bfs_stable(g, start, j as nat, n as nat);
    }
    pairs
}

/// The adjacency lists of `n` vertices after the first `i` edges: each edge
/// `(a, b)` appends `b` to the list of `a`, then `a` to the list of `b`.
pub open spec fn adjacency_spec(n: nat, edges: Seq<(usize, usize)>, i: nat) -> Seq<Seq<usize>>
    decreases i,
{
    if i == 0 {
        Seq::new(n, |x: int| Seq::<usize>::empty())
    } else {
        let a = adjacency_spec(n, edges, (i - 1) as nat);
        let e = edges[i - 1];
        let a1 = a.update(e.0 as int, a[e.0 as int].push(e.1));
        a1.update(e.1 as int, a1[e.1 as int].push(e.0))
    }
}

proof fn lemma_adjacency_len(n: nat, edges: Seq<(usize, usize)>, i: nat)
    requires
        i <= edges.len(),
        forall|k: int| #![trigger edges[k]] 0 <= k < edges.len() ==> edges[k].0 < n && edges[k].1 < n,
    ensures
        adjacency_spec(n, edges, i).len() == n,
    decreases i,
{
    if i > 0 {
        lemma_adjacency_len(n, edges, (i - 1) as nat);
    }
}

/// The adjacency lists of the graph on `n` vertices with the given edges.
pub fn adjacency_of(n: usize, edges: &[(usize, usize)]) -> (adj: Vec<Vec<usize>>)
    requires
        forall|k: int| #![trigger edges@[k]] 0 <= k < edges@.len() ==> edges@[k].0 < n && edges@[k].1 < n,
    ensures
        adj@.map_values(|l: Vec<usize>| l@) == adjacency_spec(n as nat, edges@, edges@.len()),
        adjacency_ok(adj@.map_values(|l: Vec<usize>| l@)),
{
    let mut adj: Vec<Vec<usize>> = Vec::new();
    let mut i: usize = 0;
    while i < n
        invariant
            i <= n,
            adj@.map_values(|l: Vec<usize>| l@) == Seq::new(i as nat, |x: int| Seq::<usize>::empty()),
        decreases n - i,
    {
        let ghost before = adj@;
        let empty: Vec<usize> = Vec::new();
        adj.push(empty);
        proof {
            assert(adj@ =~= before.push(empty));
            assert(adj@.map_values(|l: Vec<usize>| l@) =~= before.map_values(|l: Vec<usize>| l@).push(empty@));
            assert(adj@.map_values(|l: Vec<usize>| l@) =~= Seq::new((i + 1) as nat, |x: int| Seq::<usize>::empty()));
        }
        i += 1;
    }
    proof {
        assert forall|x: int| 0 <= x < adj@.len() implies #[trigger] adj@[x]@.len() == 0 by {
            assert(adj@.map_values(|l: Vec<usize>| l@)[x] == adj@[x]@);
        }
    }
    let mut k: usize = 0;
    while k < edges.len()
        invariant
            k <= edges@.len(),
            forall|q: int| #![trigger edges@[q]] 0 <= q < edges@.len() ==> edges@[q].0 < n && edges@[q].1 < n,
            adj@.len() == n,
            adj@.map_values(|l: Vec<usize>| l@) == adjacency_spec(n as nat, edges@, k as nat),
            forall|x: int, t: int| 0 <= x < adj@.len() && 0 <= t < adj@[x]@.len() ==> #[trigger] adj@[x]@[t] < n,
        decreases edges@.len() - k,
    {
        let (a, b) = edges[k];
        proof {
            assert(edges@[k as int] == (a, b));
            lemma_adjacency_len(n as nat, edges@, k as nat);
            lemma_adjacency_len(n as nat, edges@, (k + 1) as nat);
        }
        let ghost s0 = adj@;
        adj[a].push(b);
        let ghost s1 = adj@;
        adj[b].push(a);
        proof {
            let sp = adjacency_spec(n as nat, edges@, k as nat);
            assert(s0.map_values(|l: Vec<usize>| l@)[a as int] == s0[a as int]@);
            assert(s1.map_values(|l: Vec<usize>| l@) =~= sp.update(a as int, sp[a as int].push(b)));
            assert(s1.map_values(|l: Vec<usize>| l@)[b as int] == s1[b as int]@);
            assert(adj@.map_values(|l: Vec<usize>| l@) =~= adjacency_spec(n as nat, edges@, (k + 1) as nat));
            assert forall|x: int, t: int| 0 <= x < adj@.len() && 0 <= t < adj@[x]@.len() implies #[trigger] adj@[x]@[t]
                < n by {
                if x == b as int && t == adj@[x]@.len() - 1 {
                } else if x == b as int {
                    assert(adj@[x]@[t] == s1[x]@[t]);
                    if x == a as int && t == s1[x]@.len() - 1 {
                    } else {
                        assert(s1[x]@[t] == s0[x]@[t]);
                    }
                } else if x == a as int {
                    assert(adj@[x]@ == s1[x]@);
                    if t < s0[x]@.len() {
                        assert(s1[x]@[t] == s0[x]@[t]);
                    }
                } else {
                    assert(adj@[x] == s0[x]);
                }
            }
        }
        k += 1;
    }
    let ghost gg = adj@.map_values(|l: Vec<usize>| l@);
    proof {
        assert forall|x: int, t: int| 0 <= x < gg.len() && 0 <= t < gg[x].len() implies #[trigger] gg[x][t]
            < gg.len() by {
            assert(gg[x] == adj@[x]@);
        }
    }
    adj
}

} // verus!
