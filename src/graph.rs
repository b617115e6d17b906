//! A small directed graph whose vertices are the indices `0..n`.
//!
//! Edges carry a weight, are kept in insertion order and only ever appended.
//! Reachability is answered by an explicit-stack depth-first search.
use vstd::prelude::*;

verus! {

/// A vertex, identified by the index it wraps.
#[derive(Debug, Clone, Copy, PartialEq, Eq, Structural)]
pub struct Vertex(pub usize);

/// A directed edge `from -> to` with its weight.
#[derive(Debug, Clone, Copy, PartialEq, Eq, Structural)]
pub struct Edge(pub Vertex, pub Vertex, pub usize);

/// A directed graph: its vertex list and its edge list.
#[derive(Debug)]
pub struct Graph {
    pub v: Vec<Vertex>,
    pub e: Vec<Edge>,
}

/// There is an edge `x -> y` among `es`.
pub open spec fn has_edge(es: Seq<Edge>, x: usize, y: usize) -> bool {
    exists|k: int| 0 <= k < es.len() && (#[trigger] es[k]).0.0 == x && es[k].1.0 == y
}

/// `p` is a walk along edges of `es`: each vertex of it is joined to the next by an edge.
pub open spec fn is_walk(es: Seq<Edge>, p: Seq<usize>) -> bool {
    &&& p.len() >= 1
    &&& forall|i: int| 0 <= i < p.len() - 1 ==> #[trigger] has_edge(es, p[i], p[i + 1])
}

/// `b` can be reached from `a` by following edges of `es` (every vertex reaches itself).
pub open spec fn reachable(es: Seq<Edge>, a: usize, b: usize) -> bool {
    exists|p: Seq<usize>| #[trigger] is_walk(es, p) && p[0] == a && p.last() == b
}

/// No two distinct vertices reach each other: the edges form no cycle through two vertices.
pub open spec fn acyclic(es: Seq<Edge>) -> bool {
    forall|a: usize, b: usize|
        #[trigger] reachable(es, a, b) && #[trigger] reachable(es, b, a) ==> a == b
}

/// Some edge of `es` ends at `x`.
pub open spec fn has_incoming(es: Seq<Edge>, x: usize) -> bool {
    exists|k: int| 0 <= k < es.len() && (#[trigger] es[k]).1.0 == x
}

/// The targets of the edges that leave `x`, in edge order.
pub open spec fn targets(es: Seq<Edge>, x: usize) -> Seq<Vertex>
    decreases es.len(),
{
    if es.len() == 0 {
        Seq::empty()
    } else {
        let rest = targets(es.drop_last(), x);
        if es.last().0.0 == x {
            rest.push(es.last().1)
        } else {
            rest
        }
    }
}

/// Every edge of `es` joins two vertices below `n`.
pub open spec fn edges_within(es: Seq<Edge>, n: nat) -> bool {
    forall|k: int| 0 <= k < es.len() ==> (#[trigger] es[k]).0.0 < n && es[k].1.0 < n
}

impl Graph {
    /// The vertices are exactly `0..n` in order, and every edge joins two of them.
    pub open spec fn well_formed(&self) -> bool {
        &&& forall|k: int| 0 <= k < self.v@.len() ==> (#[trigger] self.v@[k]).0 == k
        &&& edges_within(self.e@, self.v@.len())
    }

    /// True iff `target` can be reached from `start` along the edges of the graph.
    pub fn dfs(&self, start: &Vertex, target: &Vertex) -> (r: bool)
        requires
            self.well_formed(),
            start.0 < self.v@.len(),
            target.0 < self.v@.len(),
        ensures
            r == reachable(self.e@, start.0, target.0),
    {
        let n = self.v.len();
        let ghost es = self.e@;
        let mut discovered: Vec<bool> = Vec::new();
        let mut i: usize = 0;
        while i < n
            invariant
                i <= n,
                discovered@.len() == i,
                forall|x: int| 0 <= x < i ==> !(#[trigger] discovered@[x]),
            decreases n - i,
        {
            discovered.push(false);
            i = i + 1;
        }
        let ghost mut undiscovered: nat = n as nat;
        proof {
            lemma_count_all_false(discovered@);
        }
        let mut stack: Vec<Vertex> = Vec::new();
        discovered.set(start.0, true);
        proof {
            lemma_count_set_true(seq_all_false(n as nat), start.0 as int);
            assert(discovered@ =~= seq_all_false(n as nat).update(start.0 as int, true));
            lemma_reach_refl(es, start.0);
            undiscovered = (undiscovered - 1) as nat;
        }
        stack.push(*start);
        proof {
            assert forall|x: usize|
                x < n && #[trigger] discovered@[x as int] && !stack@.contains(Vertex(x)) implies
                finished(es, discovered@, x, target.0) by {
                assert(x == start.0);
                assert(stack@[0] == Vertex(x));
            }
        }
        while stack.len() > 0
            invariant
                self.well_formed(),
                es == self.e@,
                n == self.v@.len(),
                start.0 < n,
                target.0 < n,
                discovered@.len() == n,
                undiscovered == count_false(discovered@),
                discovered@[start.0 as int],
                forall|x: usize| x < n && #[trigger] discovered@[x as int] ==> reachable(es, start.0, x),
                forall|k: int| 0 <= k < stack@.len() ==> (#[trigger] stack@[k]).0 < n
                    && discovered@[stack@[k].0 as int],
                forall|x: usize|
                    x < n && #[trigger] discovered@[x as int] && !stack@.contains(Vertex(x))
                        ==> finished(es, discovered@, x, target.0),
            decreases 2 * undiscovered + stack@.len(),
        {
            let ghost stack_before_pop = stack@;
            let v = stack.pop().unwrap();
            let ghost stack_after_pop = stack@;
            let ghost bound = 2 * undiscovered + stack@.len();
            proof {
                assert(stack_before_pop =~= stack_after_pop.push(v));
                assert(stack_before_pop[stack_before_pop.len() - 1] == v);
                assert forall|x: usize|
                    x < n && #[trigger] discovered@[x as int] && !stack@.contains(Vertex(x)) && x != v.0
                        implies finished(es, discovered@, x, target.0) by {
                    if stack_before_pop.contains(Vertex(x)) {
                        let k = choose|k: int| 0 <= k < stack_before_pop.len() && stack_before_pop[k] == Vertex(x);
                        assert(stack@[k] == Vertex(x));
                    }
                }
            }
            if v.0 == target.0 {
                return true;
            }
            let nbrs = self.neighbors(&v);
            let mut j: usize = 0;
            while j < nbrs.len()
                invariant
                    self.well_formed(),
                    es == self.e@,
                    n == self.v@.len(),
                    start.0 < n,
                    target.0 < n,
                    v.0 < n,
                    v.0 != target.0,
                    discovered@[v.0 as int],
                    forall|k: int| 0 <= k < nbrs@.len() ==> has_edge(es, v.0, (#[trigger] nbrs@[k]).0),
                    j <= nbrs@.len(),
                    discovered@.len() == n,
                    undiscovered == count_false(discovered@),
                    2 * undiscovered + stack@.len() <= bound,
                    discovered@[start.0 as int],
                    forall|x: usize| x < n && #[trigger] discovered@[x as int] ==> reachable(es, start.0, x),
                    forall|k: int| 0 <= k < stack@.len() ==> (#[trigger] stack@[k]).0 < n
                        && discovered@[stack@[k].0 as int],
                    forall|k: int| 0 <= k < j ==> discovered@[(#[trigger] nbrs@[k]).0 as int],
                    forall|x: usize|
                        x < n && #[trigger] discovered@[x as int] && !stack@.contains(Vertex(x)) && x != v.0
                            ==> finished(es, discovered@, x, target.0),
                decreases nbrs@.len() - j,
            {
                let w = nbrs[j];
                proof {
                    assert(has_edge(es, v.0, w.0));
                    let k = choose|k: int| 0 <= k < es.len() && (#[trigger] es[k]).0.0 == v.0 && es[k].1.0 == w.0;
                    assert(es[k].1.0 < n);
                }
                if !discovered[w.0] {
                    let ghost before = discovered@;
                    let ghost old_stack = stack@;
                    proof {
                        lemma_count_set_true(before, w.0 as int);
                        lemma_reach_step(es, start.0, v.0, w.0);
                    }
                    discovered.set(w.0, true);
                    proof {
                        undiscovered = (undiscovered - 1) as nat;
                    }
                    stack.push(w);
                    proof {
                        assert forall|x: usize|
                            x < n && #[trigger] discovered@[x as int] && !stack@.contains(Vertex(x)) && x != v.0
                                implies finished(es, discovered@, x, target.0) by {
                            if x == w.0 {
                                assert(stack@[stack@.len() - 1] == w);
                            } else {
                                assert(before[x as int]);
                                if old_stack.contains(Vertex(x)) {
                                    let k = choose|k: int| 0 <= k < old_stack.len() && old_stack[k] == Vertex(x);
                                    assert(stack@[k] == Vertex(x));
                                }
                                assert(finished(es, before, x, target.0));
                            }
                        }
                    }
                }
                j = j + 1;
            }
            proof {
                assert forall|y: usize| has_edge(es, v.0, y) implies #[trigger] discovered@[y as int] by {
                    lemma_targets_complete(es, v.0, y);
                    let k = choose|k: int| 0 <= k < nbrs@.len() && nbrs@[k] == Vertex(y);
                    assert(discovered@[nbrs@[k].0 as int]);
                }
                assert(finished(es, discovered@, v.0, target.0));
            }
        }
        proof {
            assert forall|x: usize, y: usize|
                x < n && #[trigger] discovered@[x as int] && has_edge(es, x, y) implies
                #[trigger] discovered@[y as int] by {
                assert(!stack@.contains(Vertex(x)));
                assert(finished(es, discovered@, x, target.0));
            }
            assert(!discovered@[target.0 as int]) by {
                assert(!stack@.contains(Vertex(target.0)));
            }
            lemma_closed_set(es, discovered@, n as nat, start.0, target.0);
        }
        false
    }

    /// The targets of the edges that leave `v`, in the order the edges were added.
    pub fn neighbors(&self, v: &Vertex) -> (r: Vec<Vertex>)
        requires
            edges_within(self.e@, self.v@.len()),
        ensures
            r@ == targets(self.e@, v.0),
            forall|k: int| 0 <= k < r@.len() ==> has_edge(self.e@, v.0, (#[trigger] r@[k]).0),
    {
        let mut r: Vec<Vertex> = Vec::new();
        let mut k: usize = 0;
        while k < self.e.len()
            invariant
                k <= self.e@.len(),
                r@ == targets(self.e@.subrange(0, k as int), v.0),
            decreases self.e@.len() - k,
        {
            proof {
                assert(self.e@.subrange(0, k as int + 1).drop_last() =~= self.e@.subrange(0, k as int));
            }
            let edge = self.e[k];
            if edge.0.0 == v.0 {
                r.push(edge.1);
            }
            k = k + 1;
        }
        proof {
            assert(self.e@.subrange(0, self.e@.len() as int) =~= self.e@);
            assert forall|k: int| 0 <= k < r@.len() implies has_edge(self.e@, v.0, (#[trigger] r@[k]).0) by {
                lemma_targets_sound(self.e@, v.0, k);
            }
        }
        r
    }

    /// The first vertex, in vertex order, that no edge enters; `None` if every vertex has one.
    pub fn source(&self) -> (r: Option<&Vertex>)
        ensures
            match r {
                Some(x) => exists|i: int|
                    0 <= i < self.v@.len() && self.v@[i] == *x && !has_incoming(self.e@, x.0)
                        && forall|k: int| 0 <= k < i ==> has_incoming(self.e@, (#[trigger] self.v@[k]).0),
                None => forall|k: int|
                    0 <= k < self.v@.len() ==> has_incoming(self.e@, (#[trigger] self.v@[k]).0),
            },
    {
        let mut i: usize = 0;
        while i < self.v.len()
            invariant
                i <= self.v@.len(),
                forall|k: int| 0 <= k < i ==> has_incoming(self.e@, (#[trigger] self.v@[k]).0),
            decreases self.v@.len() - i,
        {
            let x = &self.v[i];
            let mut entered = false;
            let mut k: usize = 0;
            while k < self.e.len()
                invariant
                    k <= self.e@.len(),
                    entered ==> has_incoming(self.e@, x.0),
                    !entered ==> forall|m: int| 0 <= m < k ==> (#[trigger] self.e@[m]).1.0 != x.0,
                decreases self.e@.len() - k,
            {
                if self.e[k].1.0 == x.0 {
                    entered = true;
                }
                k = k + 1;
            }
            if !entered {
                return Some(x);
            }
            i = i + 1;
        }
        None
    }
}

/// The sequence of `n` falses.
pub open spec fn seq_all_false(n: nat) -> Seq<bool> {
    Seq::new(n, |i: int| false)
}

/// How many entries of `s` are false.
pub open spec fn count_false(s: Seq<bool>) -> nat
    decreases s.len(),
{
    if s.len() == 0 {
        0
    } else {
        count_false(s.drop_last()) + if s.last() {
            0nat
        } else {
            1nat
        }
    }
}

/// `x` is not `target`, and every edge out of `x` leads to a vertex marked in `d`.
spec fn finished(es: Seq<Edge>, d: Seq<bool>, x: usize, target: usize) -> bool {
    x != target && forall|y: usize| has_edge(es, x, y) ==> #[trigger] d[y as int]
}

proof fn lemma_count_all_false(s: Seq<bool>)
    requires
        forall|x: int| 0 <= x < s.len() ==> !(#[trigger] s[x]),
    ensures
        count_false(s) == s.len(),
        s == seq_all_false(s.len()),
    decreases s.len(),
{
    assert(s =~= seq_all_false(s.len()));
    if s.len() > 0 {
        lemma_count_all_false(s.drop_last());
    }
}

proof fn lemma_count_set_true(s: Seq<bool>, i: int)
    requires
        0 <= i < s.len(),
        !s[i],
    ensures
        count_false(s) >= 1,
        count_false(s.update(i, true)) == count_false(s) - 1,
    decreases s.len(),
{
    let t = s.update(i, true);
    if i == s.len() - 1 {
        assert(t.drop_last() =~= s.drop_last());
    } else {
        assert(t.drop_last() =~= s.drop_last().update(i, true));
        lemma_count_set_true(s.drop_last(), i);
    }
}

/// Every vertex reaches itself.
pub proof fn lemma_reach_refl(es: Seq<Edge>, a: usize)
    ensures
        reachable(es, a, a),
{
    assert(is_walk(es, seq![a]));
}

/// Reaching `z` and then following an edge `z -> b` reaches `b`.
pub proof fn lemma_reach_step(es: Seq<Edge>, a: usize, z: usize, b: usize)
    requires
        reachable(es, a, z),
        has_edge(es, z, b),
    ensures
        reachable(es, a, b),
{
    let p = choose|p: Seq<usize>| #[trigger] is_walk(es, p) && p[0] == a && p.last() == z;
    let q = p.push(b);
    assert forall|i: int| 0 <= i < q.len() - 1 implies #[trigger] has_edge(es, q[i], q[i + 1]) by {
        if i < p.len() - 1 {
            assert(has_edge(es, p[i], p[i + 1]));
        }
    }
    assert(is_walk(es, q));
}

/// Reachability is transitive.
pub proof fn lemma_reach_trans(es: Seq<Edge>, a: usize, b: usize, c: usize)
    requires
        reachable(es, a, b),
        reachable(es, b, c),
    ensures
        reachable(es, a, c),
{
    let p = choose|p: Seq<usize>| #[trigger] is_walk(es, p) && p[0] == a && p.last() == b;
    let q = choose|q: Seq<usize>| #[trigger] is_walk(es, q) && q[0] == b && q.last() == c;
    let r = p + q.drop_first();
    assert forall|i: int| 0 <= i < r.len() - 1 implies #[trigger] has_edge(es, r[i], r[i + 1]) by {
        if i < p.len() - 1 {
            assert(has_edge(es, p[i], p[i + 1]));
        } else {
            let j = i - p.len() + 1;
            assert(has_edge(es, q[j], q[j + 1]));
        }
    }
    assert(is_walk(es, r));
}

/// A set of vertices closed under the edges, holding `a` and not `b`: `b` is out of reach of `a`.
proof fn lemma_closed_set(es: Seq<Edge>, d: Seq<bool>, n: nat, a: usize, b: usize)
    requires
        d.len() == n,
        edges_within(es, n),
        a < n,
        d[a as int],
        forall|x: usize, y: usize| x < n && #[trigger] d[x as int] && has_edge(es, x, y) ==> #[trigger] d[y as int],
        b < n,
        !d[b as int],
    ensures
        !reachable(es, a, b),
{
    if reachable(es, a, b) {
        let p = choose|p: Seq<usize>| #[trigger] is_walk(es, p) && p[0] == a && p.last() == b;
        lemma_walk_stays(es, d, n, p, p.len() - 1);
    }
}

proof fn lemma_walk_stays(es: Seq<Edge>, d: Seq<bool>, n: nat, p: Seq<usize>, i: int)
    requires
        d.len() == n,
        edges_within(es, n),
        is_walk(es, p),
        p[0] < n,
        d[p[0] as int],
        forall|x: usize, y: usize| x < n && #[trigger] d[x as int] && has_edge(es, x, y) ==> #[trigger] d[y as int],
        0 <= i < p.len(),
    ensures
        p[i] < n,
        d[p[i] as int],
    decreases i,
{
    if i > 0 {
        lemma_walk_stays(es, d, n, p, i - 1);
        let j = i - 1;
        assert(has_edge(es, p[j], p[j + 1]));
        let k = choose|k: int| 0 <= k < es.len() && (#[trigger] es[k]).0.0 == p[i - 1] && es[k].1.0 == p[i];
        assert(es[k].1.0 < n);
    }
}

proof fn lemma_targets_sound(es: Seq<Edge>, x: usize, k: int)
    requires
        0 <= k < targets(es, x).len(),
    ensures
        has_edge(es, x, targets(es, x)[k].0),
    decreases es.len(),
{
    let rest = targets(es.drop_last(), x);
    if es.last().0.0 == x && k == rest.len() {
        assert(es[es.len() - 1] == es.last());
    } else {
        lemma_targets_sound(es.drop_last(), x, k);
        let m = choose|m: int| 0 <= m < es.drop_last().len() && (#[trigger] es.drop_last()[m]).0.0 == x
            && es.drop_last()[m].1.0 == targets(es, x)[k].0;
        assert(es[m] == es.drop_last()[m]);
    }
}

proof fn lemma_targets_complete(es: Seq<Edge>, x: usize, y: usize)
    requires
        has_edge(es, x, y),
    ensures
        exists|k: int| 0 <= k < targets(es, x).len() && targets(es, x)[k] == Vertex(y),
    decreases es.len(),
{
    let m = choose|m: int| 0 <= m < es.len() && (#[trigger] es[m]).0.0 == x && es[m].1.0 == y;
    let rest = targets(es.drop_last(), x);
    if m == es.len() - 1 {
        assert(es.last() == es[m]);
        let k = rest.len() as int;
        assert(0 <= k < targets(es, x).len() && targets(es, x)[k] == Vertex(y));
    } else {
        assert(es.drop_last()[m] == es[m]);
        lemma_targets_complete(es.drop_last(), x, y);
        let k = choose|k: int| 0 <= k < rest.len() && rest[k] == Vertex(y);
        assert(0 <= k < targets(es, x).len() && targets(es, x)[k] == Vertex(y));
    }
}

/// No edge of `es` leads from a vertex to itself.
pub open spec fn no_self_loops(es: Seq<Edge>) -> bool {
    forall|k: int| 0 <= k < es.len() ==> (#[trigger] es[k]).0.0 != es[k].1.0
}

/// The source of some edge that enters `x`.
pub open spec fn predecessor(es: Seq<Edge>, x: usize) -> usize {
    es[choose|k: int| 0 <= k < es.len() && (#[trigger] es[k]).1.0 == x].0.0
}

/// Starting at `x`, `k` steps back along edges entering each vertex reached.
pub open spec fn back_walk(es: Seq<Edge>, x: usize, k: nat) -> usize
    decreases k,
{
    if k == 0 {
        x
    } else {
        predecessor(es, back_walk(es, x, (k - 1) as nat))
    }
}

/// Among `n + 1` values below `n`, two are equal.
proof fn lemma_pigeonhole(s: Seq<usize>, n: nat)
    requires
        s.len() > n,
        forall|k: int| 0 <= k < s.len() ==> (#[trigger] s[k]) < n,
    ensures
        exists|i: int, j: int| 0 <= i < j < s.len() && s[i] == s[j],
    decreases n,
{
    if n == 0 {
        assert(s[0] < 0);
    } else {
        let x = s.last();
        let t = s.drop_last();
        if exists|i: int| 0 <= i < t.len() && t[i] == x {
            let i = choose|i: int| 0 <= i < t.len() && t[i] == x;
            assert(s[i] == s[s.len() - 1]);
        } else {
            let top = (n - 1) as usize;
            let u = Seq::new(t.len(), |k: int| if t[k] == top { x } else { t[k] });
            assert forall|k: int| 0 <= k < u.len() implies (#[trigger] u[k]) < n - 1 by {
                assert(t[k] == s[k]);
                if t[k] == top {
                    assert(x != top || t[k] == x);
                }
            }
            lemma_pigeonhole(u, (n - 1) as nat);
            let (i, j) = choose|i: int, j: int| 0 <= i < j < u.len() && u[i] == u[j];
            assert(s[i] == t[i] && s[j] == t[j]);
        }
    }
}

/// Going back `m - i` steps from the `m`-th vertex of a back walk: the `m`-th
/// vertex reaches the `i`-th one.
proof fn lemma_back_walk_reaches(es: Seq<Edge>, x: usize, i: nat, m: nat)
    requires
        i <= m,
        forall|k: nat| k < m ==> #[trigger] has_incoming(es, back_walk(es, x, k)),
    ensures
        reachable(es, back_walk(es, x, m), back_walk(es, x, i)),
    decreases m - i,
{
    if m == i {
        lemma_reach_refl(es, back_walk(es, x, m));
    } else {
        let below = back_walk(es, x, (m - 1) as nat);
        lemma_back_walk_reaches(es, x, i, (m - 1) as nat);
        lemma_predecessor_edge(es, below);
        lemma_reach_refl(es, back_walk(es, x, m));
        lemma_reach_step(es, back_walk(es, x, m), back_walk(es, x, m), below);
        lemma_reach_trans(es, back_walk(es, x, m), below, back_walk(es, x, i));
    }
}

proof fn lemma_predecessor_edge(es: Seq<Edge>, x: usize)
    requires
        has_incoming(es, x),
    ensures
        has_edge(es, predecessor(es, x), x),
{
    let k = choose|k: int| 0 <= k < es.len() && (#[trigger] es[k]).1.0 == x;
    assert(es[k].0.0 == predecessor(es, x));
}

/// Edges over the vertices `0..n`, `n >= 1`, with no cycle and no edge from a
/// vertex to itself leave some vertex without an incoming edge.
pub proof fn lemma_acyclic_has_source(es: Seq<Edge>, n: nat)
    requires
        n >= 1,
        edges_within(es, n),
        acyclic(es),
        no_self_loops(es),
    ensures
        exists|x: usize| x < n && !has_incoming(es, x),
{
    if forall|x: usize| x < n ==> #[trigger] has_incoming(es, x) {
        assert forall|k: nat| #[trigger] back_walk(es, 0, k) < n by {
            lemma_back_walk_within(es, n, k);
        }
        assert forall|k: nat| #[trigger] has_incoming(es, back_walk(es, 0, k)) by {
            assert(back_walk(es, 0, k) < n);
        }
        let s = Seq::new(n + 1, |k: int| back_walk(es, 0, k as nat));
        assert forall|k: int| 0 <= k < s.len() implies (#[trigger] s[k]) < n by {
            assert(back_walk(es, 0, k as nat) < n);
        }
        lemma_pigeonhole(s, n);
        let (i, j) = choose|i: int, j: int| 0 <= i < j < s.len() && s[i] == s[j];
        let vi = back_walk(es, 0, i as nat);
        let next = back_walk(es, 0, (i + 1) as nat);
        assert(s[i] == vi && s[j] == back_walk(es, 0, j as nat));
        lemma_predecessor_edge(es, vi);
        let e = choose|e: int| 0 <= e < es.len() && (#[trigger] es[e]).0.0 == next && es[e].1.0 == vi;
        assert(next != vi);
        lemma_back_walk_reaches(es, 0, (i + 1) as nat, j as nat);
        lemma_reach_refl(es, next);
        lemma_reach_step(es, next, next, vi);
        assert(reachable(es, vi, next) && reachable(es, next, vi));
    }
}

proof fn lemma_back_walk_within(es: Seq<Edge>, n: nat, k: nat)
    requires
        n >= 1,
        edges_within(es, n),
        forall|x: usize| x < n ==> #[trigger] has_incoming(es, x),
    ensures
        back_walk(es, 0, k) < n,
    decreases k,
{
    if k > 0 {
        lemma_back_walk_within(es, n, (k - 1) as nat);
        let below = back_walk(es, 0, (k - 1) as nat);
        assert(has_incoming(es, below));
        let m = choose|m: int| 0 <= m < es.len() && (#[trigger] es[m]).1.0 == below;
        assert(es[m].0.0 < n);
    }
}

/// Without cycles and self-loops no walk of at least one edge comes back to
/// where it started.
pub proof fn lemma_no_closed_walk(es: Seq<Edge>, p: Seq<usize>)
    requires
        acyclic(es),
        no_self_loops(es),
        is_walk(es, p),
        p.len() >= 2,
    ensures
        p[0] != p.last(),
{
    let z: int = 0;
    assert(has_edge(es, p[z], p[z + 1]));
    let e = choose|e: int| 0 <= e < es.len() && (#[trigger] es[e]).0.0 == p[0] && es[e].1.0 == p[1];
    assert(p[0] != p[1]);
    if p[0] == p.last() {
        let q = p.drop_first();
        assert forall|i: int| 0 <= i < q.len() - 1 implies #[trigger] has_edge(es, q[i], q[i + 1]) by {
            assert(has_edge(es, p[i + 1], p[i + 1 + 1]));
        }
        assert(is_walk(es, q) && q[0] == p[1] && q.last() == p[0]);
        lemma_reach_refl(es, p[0]);
        lemma_reach_step(es, p[0], p[0], p[1]);
        assert(reachable(es, p[1], p[0]));
    }
}

} // verus!
