//! Ranked-pairs (Tideman) resolution of an election.
//!
//! Every pair of candidates gives one edge, from the pairwise winner to the loser,
//! weighted by the margin of victory (a tie points from the later candidate to the
//! earlier one with weight zero). The edges are ordered by decreasing margin, ties
//! keeping the order in which the pairs were generated, and locked into a graph one
//! by one unless an edge would close a cycle. The winner is the first candidate, in
//! index order, that no locked edge enters.
use crate::graph::{
    acyclic, edges_within, has_edge, has_incoming, is_walk, lemma_acyclic_has_source,
    lemma_no_closed_walk, lemma_reach_refl, lemma_reach_step, lemma_reach_trans, no_self_loops, reachable, Edge, Graph,
    Vertex,
};
use vstd::multiset::Multiset;
use vstd::prelude::*;

verus! {

/// The names of the candidates; a candidate is referred to by its index here.
pub type Candidates = Vec<String>;

/// One voter's ranking: candidate indices, most preferred first.
pub type Ballot = Vec<usize>;

/// All the ballots of an election.
pub type Ballots = Vec<Ballot>;

/// An election: its candidates and the ballots cast.
pub struct Election {
    pub candidates: Candidates,
    pub ballots: Ballots,
}

/// The ballots as sequences of indices.
pub open spec fn ballot_views(bs: Seq<Vec<usize>>) -> Seq<Seq<usize>> {
    Seq::new(bs.len(), |k: int| bs[k]@)
}

/// The first position at or after `k` where `x` stands on `b`, or `b.len()` if there is none.
pub open spec fn position_from(b: Seq<usize>, x: usize, k: nat) -> nat
    decreases b.len() - k,
{
    if k >= b.len() {
        b.len()
    } else if b[k as int] == x {
        k
    } else {
        position_from(b, x, k + 1)
    }
}

/// Where `x` stands on the ballot `b` (0 is first).
pub open spec fn rank_of(b: Seq<usize>, x: usize) -> nat {
    position_from(b, x, 0)
}

/// The ballot `b` ranks `i` ahead of `j`.
pub open spec fn prefers(b: Seq<usize>, i: usize, j: usize) -> bool {
    rank_of(b, i) < rank_of(b, j)
}

/// How many of the ballots rank `i` ahead of `j`.
pub open spec fn victories(bs: Seq<Seq<usize>>, i: usize, j: usize) -> nat
    decreases bs.len(),
{
    if bs.len() == 0 {
        0
    } else {
        victories(bs.drop_last(), i, j) + if prefers(bs.last(), i, j) {
            1nat
        } else {
            0nat
        }
    }
}

/// The edge of the matchup of `i` against `j`: from the winner to the loser, weighted
/// by the margin; on a tie it goes from `j` to `i` with weight zero.
pub open spec fn matchup(bs: Seq<Seq<usize>>, i: usize, j: usize) -> Edge {
    let wins = victories(bs, i, j);
    let losses = bs.len() - wins;
    if wins > losses {
        Edge(Vertex(i), Vertex(j), (wins - losses) as usize)
    } else {
        Edge(Vertex(j), Vertex(i), (losses - wins) as usize)
    }
}

/// The matchups of `i` against `i + 1, ..., m - 1`, in that order.
pub open spec fn row(bs: Seq<Seq<usize>>, i: usize, m: nat) -> Seq<Edge>
    decreases m,
{
    if m <= i + 1 {
        Seq::empty()
    } else {
        row(bs, i, (m - 1) as nat).push(matchup(bs, i, (m - 1) as usize))
    }
}

/// The matchups of every pair `i < j < n` with `i < k`, by increasing `i`, then `j`.
pub open spec fn rows(bs: Seq<Seq<usize>>, n: nat, k: nat) -> Seq<Edge>
    decreases k,
{
    if k == 0 {
        Seq::empty()
    } else {
        rows(bs, n, (k - 1) as nat) + row(bs, (k - 1) as usize, n)
    }
}

/// One edge per pair of the `n` candidates, in the order the pairs are generated.
pub open spec fn margin_edges(bs: Seq<Seq<usize>>, n: nat) -> Seq<Edge> {
    rows(bs, n, n)
}

/// `e` placed into `s` after the leading edges whose weight is at least its own.
pub open spec fn insert_by_margin(s: Seq<Edge>, e: Edge) -> Seq<Edge>
    decreases s.len(),
{
    if s.len() == 0 {
        seq![e]
    } else if s[0].2 >= e.2 {
        seq![s[0]] + insert_by_margin(s.drop_first(), e)
    } else {
        seq![e] + s
    }
}

/// `s` ordered by decreasing weight; edges of equal weight keep their order in `s`.
pub open spec fn sort_by_margin(s: Seq<Edge>) -> Seq<Edge>
    decreases s.len(),
{
    if s.len() == 0 {
        Seq::empty()
    } else {
        insert_by_margin(sort_by_margin(s.drop_last()), s.last())
    }
}

/// The weights of `s` do not increase.
pub open spec fn by_decreasing_margin(s: Seq<Edge>) -> bool {
    forall|a: int, b: int| 0 <= a < b < s.len() ==> #[trigger] s[a].2 >= #[trigger] s[b].2
}

/// The edges of `s` that are kept when each one, in turn, is kept unless its
/// target already reaches its source through the edges kept before it.
pub open spec fn lock_in(s: Seq<Edge>) -> Seq<Edge>
    decreases s.len(),
{
    if s.len() == 0 {
        Seq::empty()
    } else {
        let kept = lock_in(s.drop_last());
        let e = s.last();
        if reachable(kept, e.1.0, e.0.0) {
            kept
        } else {
            kept.push(e)
        }
    }
}

/// The edges locked in for the ballots `bs` over `n` candidates.
pub open spec fn locked_edges(bs: Seq<Seq<usize>>, n: nat) -> Seq<Edge> {
    lock_in(sort_by_margin(margin_edges(bs, n)))
}

/// The first vertex in `k..n` that no edge of `es` enters.
pub open spec fn first_source(es: Seq<Edge>, n: nat, k: nat) -> Option<usize>
    decreases n - k,
{
    if k >= n {
        None
    } else if !has_incoming(es, k as usize) {
        Some(k as usize)
    } else {
        first_source(es, n, k + 1)
    }
}

/// The index of the ranked-pairs winner among `n` candidates, if there is one.
pub open spec fn winner(bs: Seq<Seq<usize>>, n: nat) -> Option<usize> {
    first_source(locked_edges(bs, n), n, 0)
}

impl Election {
    /// The ballots as sequences of indices.
    pub open spec fn ballots_view(&self) -> Seq<Seq<usize>> {
        ballot_views(self.ballots@)
    }

    /// The index of the winner, if there is one.
    pub open spec fn winner_index(&self) -> Option<usize> {
        winner(self.ballots_view(), self.candidates@.len() as nat)
    }

    /// The winner's name, or `None` when every candidate has a locked edge entering it.
    pub fn tideman(&self) -> (r: Option<String>)
        ensures
            match self.winner_index() {
                Some(w) => r.is_some() && r.unwrap()@ == self.candidates@[w as int]@,
                None => r.is_none(),
            },
            self.candidates@.len() > 0 <==> r.is_some(),
    {
        let graph = self.construct_graph()?;
        let src = graph.source();
        let n = self.candidates.len();
        proof {
            lemma_source_is_first(graph.e@, graph.v@, src);
            if n > 0 {
                lemma_winner_exists(self.ballots_view(), n as nat);
            }
        }
        match src {
            Some(x) => Some(self.candidates[x.0].clone()),
            None => None,
        }
    }

    /// The graph of the election: one vertex per candidate and the locked-in edges.
    pub fn construct_graph(&self) -> (r: Option<Graph>)
        ensures
            r.is_some(),
            r.unwrap().well_formed(),
            r.unwrap().v@.len() == self.candidates@.len(),
            r.unwrap().e@ == locked_edges(self.ballots_view(), self.candidates@.len() as nat),
            acyclic(r.unwrap().e@),
            no_self_loops(r.unwrap().e@),
    {
        let n = self.candidates.len();
        let ghost bs = self.ballots_view();
        let edges = self.get_edges();
        proof {
            lemma_margin_edges_within(bs, n as nat);
            lemma_sort_keeps_members(margin_edges(bs, n as nat));
            assert forall|k: int| 0 <= k < edges@.len() implies (#[trigger] edges@[k]).0.0 < n
                && edges@[k].1.0 < n by {
                assert(edges@.contains(edges@[k]));
                let m = choose|m: int| 0 <= m < margin_edges(bs, n as nat).len()
                    && margin_edges(bs, n as nat)[m] == edges@[k];
            }
        }
        let mut graph = Graph { v: self.get_vertices(), e: Vec::new() };
        let mut k: usize = 0;
        while k < edges.len()
            invariant
                k <= edges@.len(),
                graph.well_formed(),
                graph.v@.len() == n,
                edges_within(edges@, n as nat),
                graph.e@ == lock_in(edges@.subrange(0, k as int)),
            decreases edges@.len() - k,
        {
            let edge = edges[k];
            proof {
                assert(edges@.subrange(0, k as int + 1).drop_last() =~= edges@.subrange(0, k as int));
                assert(edges@.subrange(0, k as int + 1).last() == edge);
            }
            if !graph.dfs(&edge.1, &edge.0) {
                graph.e.push(edge);
            }
            k = k + 1;
        }
        proof {
            assert(edges@.subrange(0, edges@.len() as int) =~= edges@);
            lemma_lock_in_acyclic(edges@);
            lemma_locked_edges_simple(bs, n as nat);
        }
        Some(graph)
    }

    /// One vertex per candidate, in index order.
    pub fn get_vertices(&self) -> (r: Vec<Vertex>)
        ensures
            r@.len() == self.candidates@.len(),
            forall|k: int| 0 <= k < r@.len() ==> (#[trigger] r@[k]).0 == k,
    {
        let n = self.candidates.len();
        let mut r: Vec<Vertex> = Vec::new();
        let mut k: usize = 0;
        while k < n
            invariant
                k <= n,
                n == self.candidates@.len(),
                r@.len() == k,
                forall|m: int| 0 <= m < k ==> (#[trigger] r@[m]).0 == m,
            decreases n - k,
        {
            r.push(Vertex(k));
            k = k + 1;
        }
        r
    }

    /// The matchup edges of every pair of candidates, ordered by decreasing margin;
    /// for `n` candidates there are `n * (n - 1) / 2` of them.
    pub fn get_edges(&self) -> (r: Vec<Edge>)
        ensures
            r@ == sort_by_margin(margin_edges(self.ballots_view(), self.candidates@.len() as nat)),
            2 * r@.len() == self.candidates@.len() * (self.candidates@.len() - 1),
            one_edge_per_pair(r@, self.candidates@.len() as nat),
    {
        let n = self.candidates.len();
        let ghost bs = self.ballots_view();
        let mut edges: Vec<Edge> = Vec::new();
        let mut i: usize = 0;
        while i < n
            invariant
                i <= n,
                n == self.candidates@.len(),
                bs == self.ballots_view(),
                edges@ == rows(bs, n as nat, i as nat),
            decreases n - i,
        {
            let mut j: usize = i + 1;
            proof {
                assert(rows(bs, n as nat, i as nat) + row(bs, i, j as nat) =~= rows(bs, n as nat, i as nat));
            }
            while j < n
                invariant
                    i < j <= n,
                    n == self.candidates@.len(),
                    bs == self.ballots_view(),
                    edges@ == rows(bs, n as nat, i as nat) + row(bs, i, j as nat),
                decreases n - j,
            {
                let i_victories = self.count_victories(i, j);
                let j_victories = self.ballots.len() - i_victories;
                if i_victories > j_victories {
                    edges.push(Edge(Vertex(i), Vertex(j), i_victories - j_victories));
                } else {
                    edges.push(Edge(Vertex(j), Vertex(i), j_victories - i_victories));
                }
                proof {
                    assert(row(bs, i, (j + 1) as nat) == row(bs, i, j as nat).push(matchup(bs, i, j)));
                    assert(rows(bs, n as nat, i as nat) + row(bs, i, (j + 1) as nat)
                        =~= (rows(bs, n as nat, i as nat) + row(bs, i, j as nat)).push(matchup(bs, i, j)));
                }
                j = j + 1;
            }
            i = i + 1;
        }
        proof {
            lemma_margin_edge_count(bs, n as nat);
            lemma_one_edge_per_pair(bs, n as nat);
        }
        sort_edges(edges)
    }

    /// How many ballots rank candidate `i` ahead of candidate `j`.
    fn count_victories(&self, i: usize, j: usize) -> (r: usize)
        ensures
            r == victories(self.ballots_view(), i, j),
            r <= self.ballots@.len(),
    {
        let ghost bs = self.ballots_view();
        let mut count: usize = 0;
        let mut k: usize = 0;
        while k < self.ballots.len()
            invariant
                k <= self.ballots@.len(),
                bs == self.ballots_view(),
                count == victories(bs.subrange(0, k as int), i, j),
                count <= k,
            decreases self.ballots@.len() - k,
        {
            let b = &self.ballots[k];
            let i_index = rank_in(b, i);
            let j_index = rank_in(b, j);
            proof {
                assert(bs.subrange(0, k as int + 1).drop_last() =~= bs.subrange(0, k as int));
                assert(bs.subrange(0, k as int + 1).last() == b@);
            }
            if i_index < j_index {
                count = count + 1;
            }
            k = k + 1;
        }
        proof {
            assert(bs.subrange(0, self.ballots@.len() as int) =~= bs);
        }
        count
    }
}

/// The first position of `x` on `b`, or `b.len()` if it is not there.
fn rank_in(b: &Vec<usize>, x: usize) -> (r: usize)
    ensures
        r == rank_of(b@, x),
{
    let mut k: usize = 0;
    while k < b.len()
        invariant
            k <= b@.len(),
            position_from(b@, x, 0) == position_from(b@, x, k as nat),
        decreases b@.len() - k,
    {
        if b[k] == x {
            return k;
        }
        k = k + 1;
    }
    k
}

/// Orders `edges` by decreasing weight, keeping the order of edges of equal weight.
fn sort_edges(edges: Vec<Edge>) -> (r: Vec<Edge>)
    ensures
        r@ == sort_by_margin(edges@),
{
    let mut r: Vec<Edge> = Vec::new();
    let mut k: usize = 0;
    while k < edges.len()
        invariant
            k <= edges@.len(),
            r@ == sort_by_margin(edges@.subrange(0, k as int)),
        decreases edges@.len() - k,
    {
        let e = edges[k];
        let mut p: usize = 0;
        while p < r.len() && r[p].2 >= e.2
            invariant
                p <= r@.len(),
                forall|q: int| 0 <= q < p ==> (#[trigger] r@[q]).2 >= e.2,
            decreases r@.len() - p,
        {
            p = p + 1;
        }
        proof {
            lemma_insert_at(r@, e, p as int);
            assert(edges@.subrange(0, k as int + 1).drop_last() =~= edges@.subrange(0, k as int));
            assert(edges@.subrange(0, k as int + 1).last() == e);
        }
        r.insert(p, e);
        k = k + 1;
    }
    proof {
        assert(edges@.subrange(0, edges@.len() as int) =~= edges@);
    }
    r
}

proof fn lemma_insert_at(s: Seq<Edge>, e: Edge, p: int)
    requires
        0 <= p <= s.len(),
        forall|q: int| 0 <= q < p ==> (#[trigger] s[q]).2 >= e.2,
        p < s.len() ==> s[p].2 < e.2,
    ensures
        insert_by_margin(s, e) == s.insert(p, e),
    decreases s.len(),
{
    if s.len() == 0 {
        assert(s.insert(p, e) =~= seq![e]);
    } else if p == 0 {
        assert(s.insert(p, e) =~= seq![e] + s);
    } else {
        assert(s[0].2 >= e.2);
        let t = s.drop_first();
        assert forall|q: int| 0 <= q < p - 1 implies (#[trigger] t[q]).2 >= e.2 by {
            assert(t[q] == s[q + 1]);
        }
        lemma_insert_at(t, e, p - 1);
        assert(s.insert(p, e) =~= seq![s[0]] + t.insert(p - 1, e));
    }
}

/// Inserting keeps every edge and adds `e` once.
proof fn lemma_insert_multiset(s: Seq<Edge>, e: Edge)
    ensures
        insert_by_margin(s, e).to_multiset() == s.to_multiset().insert(e),
    decreases s.len(),
{
    broadcast use vstd::seq_lib::group_to_multiset_ensures;

    if s.len() == 0 {
        assert(seq![e] =~= Seq::<Edge>::empty().push(e));
    } else if s[0].2 >= e.2 {
        let t = s.drop_first();
        lemma_insert_multiset(t, e);
        vstd::seq_lib::lemma_multiset_commutative(seq![s[0]], insert_by_margin(t, e));
        vstd::seq_lib::lemma_multiset_commutative(seq![s[0]], t);
        assert(seq![s[0]] + t =~= s);
        assert(seq![s[0]] =~= Seq::<Edge>::empty().push(s[0]));
        assert(seq![s[0]].to_multiset() =~= Multiset::empty().insert(s[0]));
        assert(insert_by_margin(s, e).to_multiset() =~= s.to_multiset().insert(e));
    } else {
        vstd::seq_lib::lemma_multiset_commutative(seq![e], s);
        assert(seq![e] =~= Seq::<Edge>::empty().push(e));
        assert(seq![e].to_multiset() =~= Multiset::empty().insert(e));
        assert(insert_by_margin(s, e).to_multiset() =~= s.to_multiset().insert(e));
    }
}

/// Inserting into edges of decreasing weight keeps them so.
proof fn lemma_insert_sorted(s: Seq<Edge>, e: Edge)
    requires
        by_decreasing_margin(s),
    ensures
        by_decreasing_margin(insert_by_margin(s, e)),
        insert_by_margin(s, e).len() == s.len() + 1,
        insert_by_margin(s, e)[0] == e || (s.len() > 0 && insert_by_margin(s, e)[0] == s[0]),
    decreases s.len(),
{
    let r = insert_by_margin(s, e);
    if s.len() == 0 {
    } else if s[0].2 >= e.2 {
        let t = s.drop_first();
        assert(by_decreasing_margin(t)) by {
            assert forall|a: int, b: int| 0 <= a < b < t.len() implies #[trigger] t[a].2 >= #[trigger] t[b].2 by {
                assert(s[a + 1].2 >= s[b + 1].2);
            }
        }
        lemma_insert_sorted(t, e);
        let rt = insert_by_margin(t, e);
        assert forall|a: int, b: int| 0 <= a < b < r.len() implies #[trigger] r[a].2 >= #[trigger] r[b].2 by {
            if a == 0 {
                assert(r[b] == rt[b - 1]);
                if rt[b - 1] == e || b - 1 == 0 {
                    if rt[0] != e && b - 1 == 0 {
                        assert(rt[0] == t[0] && t[0] == s[1]);
                        assert(s[0].2 >= s[1].2);
                    }
                } else {
                    lemma_insert_member(t, e, b - 1);
                    let m = choose|m: int| 0 <= m < t.len() && t[m] == rt[b - 1];
                    assert(s[0].2 >= s[m + 1].2);
                }
            } else {
                assert(r[a] == rt[a - 1] && r[b] == rt[b - 1]);
            }
        }
    } else {
        assert forall|a: int, b: int| 0 <= a < b < r.len() implies #[trigger] r[a].2 >= #[trigger] r[b].2 by {
            if a == 0 {
                assert(r[b] == s[b - 1]);
                assert(s[0].2 >= s[b - 1].2 || b - 1 == 0);
            } else {
                assert(r[a] == s[a - 1] && r[b] == s[b - 1]);
            }
        }
    }
}

/// Every edge of the insertion is `e` or an edge of `s`.
proof fn lemma_insert_member(s: Seq<Edge>, e: Edge, b: int)
    requires
        0 <= b < insert_by_margin(s, e).len(),
        insert_by_margin(s, e)[b] != e,
    ensures
        exists|m: int| 0 <= m < s.len() && s[m] == insert_by_margin(s, e)[b],
{
    broadcast use vstd::seq_lib::group_to_multiset_ensures;

    let r = insert_by_margin(s, e);
    lemma_insert_multiset(s, e);
    assert(r.contains(r[b]));
    assert(r.to_multiset().count(r[b]) > 0);
    assert(s.to_multiset().count(r[b]) > 0);
    assert(s.contains(r[b]));
}

/// Sorting keeps the edges, each as often as it occurs, in decreasing weight.
pub proof fn lemma_sort_by_margin(s: Seq<Edge>)
    ensures
        sort_by_margin(s).to_multiset() == s.to_multiset(),
        sort_by_margin(s).len() == s.len(),
        by_decreasing_margin(sort_by_margin(s)),
    decreases s.len(),
{
    broadcast use vstd::seq_lib::group_to_multiset_ensures;

    if s.len() > 0 {
        lemma_sort_by_margin(s.drop_last());
        lemma_insert_multiset(sort_by_margin(s.drop_last()), s.last());
        lemma_insert_sorted(sort_by_margin(s.drop_last()), s.last());
        assert(s.drop_last().push(s.last()) =~= s);
    }
}

/// Sorting keeps exactly the edges of `s`.
proof fn lemma_sort_keeps_members(s: Seq<Edge>)
    ensures
        forall|e: Edge| #[trigger] sort_by_margin(s).contains(e) <==> s.contains(e),
{
    broadcast use vstd::seq_lib::group_to_multiset_ensures;

    lemma_sort_by_margin(s);
    assert forall|e: Edge| #[trigger] sort_by_margin(s).contains(e) <==> s.contains(e) by {
        assert(sort_by_margin(s).to_multiset().count(e) == s.to_multiset().count(e));
    }
}

proof fn lemma_row(bs: Seq<Seq<usize>>, i: usize, m: nat)
    ensures
        row(bs, i, m).len() == if m > i + 1 {
            m - i - 1
        } else {
            0
        },
        forall|t: int| 0 <= t < row(bs, i, m).len() ==> #[trigger] row(bs, i, m)[t] == matchup(bs, i, (i + 1 + t) as usize),
    decreases m,
{
    if m > i + 1 {
        lemma_row(bs, i, (m - 1) as nat);
    }
}

/// The edges generated for the pairs of the first `k` candidates are the matchups `i < j < n` with `i < k`.
proof fn lemma_rows(bs: Seq<Seq<usize>>, n: nat, k: nat)
    requires
        k <= n,
        n <= usize::MAX + 1,
    ensures
        2 * rows(bs, n, k).len() == k * (2 * n - k - 1),
        forall|t: int| 0 <= t < rows(bs, n, k).len() ==> exists|i: usize, j: usize|
            i < k && i < j < n && #[trigger] rows(bs, n, k)[t] == matchup(bs, i, j)
                && t == rows(bs, n, i as nat).len() + (j - i - 1),
        forall|i: usize, j: usize| i < k && i < j < n ==> #[trigger] rows(bs, n, k).contains(matchup(bs, i, j)),
    decreases k,
{
    if k > 0 {
        let km = (k - 1) as nat;
        lemma_rows(bs, n, km);
        lemma_row(bs, km as usize, n);
        let prev = rows(bs, n, km);
        let r = row(bs, km as usize, n);
        assert(2 * (prev.len() + r.len()) == k * (2 * n - k - 1)) by (nonlinear_arith)
            requires
                2 * prev.len() == km * (2 * n - km - 1),
                r.len() == n - k,
                km == k - 1,
                k <= n,
        ;
        assert forall|t: int| 0 <= t < rows(bs, n, k).len() implies exists|i: usize, j: usize|
            i < k && i < j < n && #[trigger] rows(bs, n, k)[t] == matchup(bs, i, j)
                && t == rows(bs, n, i as nat).len() + (j - i - 1) by {
            if t < prev.len() {
                assert(rows(bs, n, k)[t] == prev[t]);
                let (i, j) = choose|i: usize, j: usize| i < km && i < j < n && #[trigger] prev[t] == matchup(bs, i, j)
                    && t == rows(bs, n, i as nat).len() + (j - i - 1);
                assert(i < k && i < j < n && rows(bs, n, k)[t] == matchup(bs, i, j));
            } else {
                let u = t - prev.len();
                assert(rows(bs, n, k)[t] == r[u]);
                let j = (km + 1 + u) as usize;
                assert(r[u] == matchup(bs, km as usize, j));
                assert(km < k && km < j < n && rows(bs, n, k)[t] == matchup(bs, km as usize, j)
                    && t == rows(bs, n, km).len() + (j - km - 1));
            }
        }
        assert forall|i: usize, j: usize| i < k && i < j < n implies #[trigger] rows(bs, n, k).contains(
            matchup(bs, i, j),
        ) by {
            if i < km {
                assert(rows(bs, n, km).contains(matchup(bs, i, j)));
                let t = choose|t: int| 0 <= t < prev.len() && prev[t] == matchup(bs, i, j);
                assert(rows(bs, n, k)[t] == prev[t]);
            } else {
                let u = j - i - 1;
                assert(r[u] == matchup(bs, i, j));
                assert(rows(bs, n, k)[prev.len() + u] == r[u]);
            }
        }
    }
}

/// There are `n * (n - 1) / 2` margin edges, one per pair of candidates.
pub proof fn lemma_margin_edge_count(bs: Seq<Seq<usize>>, n: nat)
    requires
        n <= usize::MAX + 1,
    ensures
        2 * margin_edges(bs, n).len() == n * (n - 1),
        2 * sort_by_margin(margin_edges(bs, n)).len() == n * (n - 1),
{
    lemma_rows(bs, n, n);
    lemma_sort_by_margin(margin_edges(bs, n));
    assert(n * (2 * n - n - 1) == n * (n - 1)) by (nonlinear_arith);
}

/// Every matchup joins two distinct candidates below `n`.
proof fn lemma_margin_edges_within(bs: Seq<Seq<usize>>, n: nat)
    requires
        n <= usize::MAX + 1,
    ensures
        edges_within(margin_edges(bs, n), n),
        forall|k: int| 0 <= k < margin_edges(bs, n).len() ==> (#[trigger] margin_edges(bs, n)[k]).0 != margin_edges(bs, n)[k].1,
{
    lemma_rows(bs, n, n);
    let s = margin_edges(bs, n);
    assert forall|k: int| 0 <= k < s.len() implies (#[trigger] s[k]).0.0 < n && s[k].1.0 < n && s[k].0 != s[k].1 by {
        let (i, j) = choose|i: usize, j: usize| i < n && i < j < n && #[trigger] rows(bs, n, n)[k] == matchup(bs, i, j);
    }
}

/// An edge of `es.push(e)` is one of `es` or `e` itself.
proof fn lemma_has_edge_push(es: Seq<Edge>, e: Edge, x: usize, y: usize)
    ensures
        has_edge(es.push(e), x, y) <==> has_edge(es, x, y) || (e.0.0 == x && e.1.0 == y),
{
    let t = es.push(e);
    if has_edge(t, x, y) {
        let k = choose|k: int| 0 <= k < t.len() && (#[trigger] t[k]).0.0 == x && t[k].1.0 == y;
        if k < es.len() {
            assert(es[k] == t[k]);
        }
    }
    if has_edge(es, x, y) {
        let k = choose|k: int| 0 <= k < es.len() && (#[trigger] es[k]).0.0 == x && es[k].1.0 == y;
        assert(t[k] == es[k]);
    }
    if e.0.0 == x && e.1.0 == y {
        assert(t[es.len() as int] == e);
    }
}

/// A walk using the edge `u -> v` added to `es` either avoids it or passes `u` then `v`.
proof fn lemma_walk_push(es: Seq<Edge>, e: Edge, p: Seq<usize>)
    requires
        is_walk(es.push(e), p),
    ensures
        reachable(es, p[0], p.last()) || (reachable(es, p[0], e.0.0) && reachable(es, e.1.0, p.last())),
    decreases p.len(),
{
    let t = es.push(e);
    if p.len() == 1 {
        lemma_reach_refl(es, p[0]);
    } else {
        let q = p.drop_last();
        assert forall|i: int| 0 <= i < q.len() - 1 implies #[trigger] has_edge(t, q[i], q[i + 1]) by {
            assert(has_edge(t, p[i], p[i + 1]));
        }
        lemma_walk_push(es, e, q);
        let z = q.last();
        let y = p.last();
        let i = p.len() - 2;
        assert(has_edge(t, p[i], p[i + 1]));
        lemma_has_edge_push(es, e, z, y);
        if has_edge(es, z, y) {
            if reachable(es, p[0], z) {
                lemma_reach_step(es, p[0], z, y);
            } else {
                lemma_reach_step(es, e.1.0, z, y);
            }
        } else {
            lemma_reach_refl(es, y);
            if reachable(es, p[0], z) {
            }
        }
    }
}

/// Adding an edge `u -> v` where `v` does not reach `u` keeps the edges acyclic.
proof fn lemma_push_acyclic(es: Seq<Edge>, e: Edge)
    requires
        acyclic(es),
        !reachable(es, e.1.0, e.0.0),
    ensures
        acyclic(es.push(e)),
{
    let t = es.push(e);
    let u = e.0.0;
    let v = e.1.0;
    assert forall|a: usize, b: usize| #[trigger] reachable(t, a, b) && #[trigger] reachable(t, b, a) implies a == b by {
        let p = choose|p: Seq<usize>| #[trigger] is_walk(t, p) && p[0] == a && p.last() == b;
        let q = choose|q: Seq<usize>| #[trigger] is_walk(t, q) && q[0] == b && q.last() == a;
        lemma_walk_push(es, e, p);
        lemma_walk_push(es, e, q);
        if reachable(es, a, b) {
            if reachable(es, b, a) {
            } else {
                lemma_reach_trans(es, v, a, b);
                lemma_reach_trans(es, v, b, u);
            }
        } else {
            if reachable(es, b, a) {
                lemma_reach_trans(es, v, b, a);
                lemma_reach_trans(es, v, a, u);
            } else {
                lemma_reach_trans(es, v, b, u);
            }
        }
    }
}

/// The locked-in edges form no cycle.
pub proof fn lemma_lock_in_acyclic(s: Seq<Edge>)
    ensures
        acyclic(lock_in(s)),
    decreases s.len(),
{
    if s.len() == 0 {
        assert forall|a: usize, b: usize| #[trigger] reachable(lock_in(s), a, b) && #[trigger] reachable(
            lock_in(s),
            b,
            a,
        ) implies a == b by {
            let p = choose|p: Seq<usize>| #[trigger] is_walk(lock_in(s), p) && p[0] == a && p.last() == b;
            if p.len() > 1 {
                let z: int = 0;
                assert(has_edge(lock_in(s), p[z], p[z + 1]));
                assert(lock_in(s).len() == 0);
            }
        }
    } else {
        lemma_lock_in_acyclic(s.drop_last());
        let kept = lock_in(s.drop_last());
        if !reachable(kept, s.last().1.0, s.last().0.0) {
            lemma_push_acyclic(kept, s.last());
        }
    }
}

/// The graph's `source` answer, read over vertices `0..n`, is the first source.
proof fn lemma_source_is_first(es: Seq<Edge>, vs: Seq<Vertex>, r: Option<&Vertex>)
    requires
        forall|k: int| 0 <= k < vs.len() ==> (#[trigger] vs[k]).0 == k,
        match r {
            Some(x) => exists|i: int|
                0 <= i < vs.len() && vs[i] == *x && !has_incoming(es, x.0)
                    && forall|k: int| 0 <= k < i ==> has_incoming(es, (#[trigger] vs[k]).0),
            None => forall|k: int| 0 <= k < vs.len() ==> has_incoming(es, (#[trigger] vs[k]).0),
        },
    ensures
        match r {
            Some(x) => first_source(es, vs.len(), 0) == Some(x.0) && x.0 < vs.len(),
            None => first_source(es, vs.len(), 0).is_none(),
        },
{
    match r {
        Some(x) => {
            let i = choose|i: int|
                0 <= i < vs.len() && vs[i] == *x && !has_incoming(es, x.0)
                    && forall|k: int| 0 <= k < i ==> has_incoming(es, (#[trigger] vs[k]).0);
            assert forall|k: usize| k < i implies #[trigger] has_incoming(es, k) by {
                assert(vs[k as int].0 == k);
            }
            lemma_first_source_at(es, vs.len(), 0, i as nat);
        },
        None => {
            assert forall|k: usize| k < vs.len() implies #[trigger] has_incoming(es, k) by {
                assert(vs[k as int].0 == k);
            }
            lemma_first_source_none(es, vs.len(), 0);
        },
    }
}

proof fn lemma_first_source_at(es: Seq<Edge>, n: nat, k: nat, i: nat)
    requires
        k <= i < n,
        !has_incoming(es, i as usize),
        forall|m: usize| m < i ==> #[trigger] has_incoming(es, m),
    ensures
        first_source(es, n, k) == Some(i as usize),
    decreases i - k,
{
    if k < i {
        lemma_first_source_at(es, n, k + 1, i);
    }
}

proof fn lemma_first_source_none(es: Seq<Edge>, n: nat, k: nat)
    requires
        forall|m: usize| m < n ==> #[trigger] has_incoming(es, m),
    ensures
        first_source(es, n, k).is_none(),
    decreases n - k,
{
    if k < n {
        lemma_first_source_none(es, n, k + 1);
    }
}

/// With a single candidate, that candidate wins, whatever the ballots.
pub proof fn lemma_single_candidate_wins(bs: Seq<Seq<usize>>)
    ensures
        winner(bs, 1) == Some(0usize),
{
    let m = margin_edges(bs, 1);
    assert(rows(bs, 1, 0) + row(bs, 0, 1) =~= Seq::<Edge>::empty());
    assert(m.len() == 0);
    assert(sort_by_margin(m).len() == 0);
    let locked = locked_edges(bs, 1);
    assert(locked.len() == 0);
    assert(!has_incoming(locked, 0));
}

/// Resolving the same candidates and ballots twice gives the same winner.
pub proof fn lemma_resolution_repeatable(a: &Election, b: &Election)
    requires
        a.candidates@.len() == b.candidates@.len(),
        a.ballots_view() == b.ballots_view(),
    ensures
        a.winner_index() == b.winner_index(),
{
}

/// Whatever the ballots, the locked-in edges form no cycle: no two distinct
/// candidates reach each other.
pub proof fn lemma_locked_edges_acyclic(bs: Seq<Seq<usize>>, n: nat)
    requires
        n <= usize::MAX + 1,
    ensures
        acyclic(locked_edges(bs, n)),
        no_self_loops(locked_edges(bs, n)),
        forall|p: Seq<usize>|
            #[trigger] is_walk(locked_edges(bs, n), p) && p.len() >= 2 ==> p[0] != p.last(),
{
    let locked = locked_edges(bs, n);
    lemma_lock_in_acyclic(sort_by_margin(margin_edges(bs, n)));
    lemma_locked_edges_simple(bs, n);
    assert forall|p: Seq<usize>| #[trigger] is_walk(locked, p) && p.len() >= 2 implies p[0] != p.last() by {
        lemma_no_closed_walk(locked, p);
    }
}

/// The locked-in edges join two distinct candidates below `n`.
pub proof fn lemma_locked_edges_simple(bs: Seq<Seq<usize>>, n: nat)
    requires
        n <= usize::MAX + 1,
    ensures
        edges_within(locked_edges(bs, n), n),
        no_self_loops(locked_edges(bs, n)),
{
    let margins = margin_edges(bs, n);
    let sorted = sort_by_margin(margins);
    let locked = lock_in(sorted);
    lemma_margin_edges_within(bs, n);
    lemma_sort_keeps_members(margins);
    lemma_lock_in_subset(sorted);
    assert forall|k: int| 0 <= k < locked.len() implies (#[trigger] locked[k]).0.0 < n && locked[k].1.0 < n
        && locked[k].0.0 != locked[k].1.0 by {
        assert(sorted.contains(locked[k]));
        assert(margins.contains(locked[k]));
        let m = choose|m: int| 0 <= m < margins.len() && margins[m] == locked[k];
    }
}

/// A candidate ranked first on every ballot, with at least one ballot cast, wins.
pub proof fn lemma_first_on_every_ballot_wins(bs: Seq<Seq<usize>>, n: nat, c: usize)
    requires
        c < n,
        n <= usize::MAX + 1,
        0 < bs.len() <= usize::MAX,
        forall|k: int| 0 <= k < bs.len() ==> (#[trigger] bs[k]).len() > 0 && bs[k][0] == c,
    ensures
        winner(bs, n) == Some(c),
{
    let margins = margin_edges(bs, n);
    let sorted = sort_by_margin(margins);
    let locked = lock_in(sorted);
    lemma_rows(bs, n, n);
    lemma_sort_keeps_members(margins);
    assert forall|x: usize| x != c implies #[trigger] victories(bs, c, x) == bs.len() && victories(bs, x, c)
        == 0 by {
        lemma_first_victories(bs, c, x);
    }
    assert forall|k: int| 0 <= k < sorted.len() implies (#[trigger] sorted[k]).1.0 != c by {
        assert(sorted.contains(sorted[k]));
        let t = choose|t: int| 0 <= t < margins.len() && margins[t] == sorted[k];
        let (i, j) = choose|i: usize, j: usize| i < n && i < j < n && #[trigger] rows(bs, n, n)[t] == matchup(bs, i, j);
        if i == c {
            lemma_first_victories(bs, c, j);
        } else if j == c {
            lemma_first_victories(bs, c, i);
        }
    }
    assert forall|x: usize| x < n && x != c implies #[trigger] sorted.contains(Edge(Vertex(c), Vertex(x), bs.len() as usize)) by {
        lemma_first_victories(bs, c, x);
        if c < x {
            assert(margins.contains(matchup(bs, c, x)));
        } else {
            assert(margins.contains(matchup(bs, x, c)));
        }
    }
    lemma_lock_in_from(sorted, c);
    assert forall|m: usize| m < c implies #[trigger] has_incoming(locked, m) by {
        let e = Edge(Vertex(c), Vertex(m), bs.len() as usize);
        assert(sorted.contains(e));
        assert(locked.contains(e));
        let k = choose|k: int| 0 <= k < locked.len() && locked[k] == e;
        assert(locked[k].1.0 == m);
    }
    assert(!has_incoming(locked, c));
    lemma_first_source_at(locked, n, 0, c as nat);
}

/// On ballots that all rank `c` first, `c` beats every other candidate on each of them.
proof fn lemma_first_victories(bs: Seq<Seq<usize>>, c: usize, x: usize)
    requires
        x != c,
        forall|k: int| 0 <= k < bs.len() ==> (#[trigger] bs[k]).len() > 0 && bs[k][0] == c,
    ensures
        victories(bs, c, x) == bs.len(),
        victories(bs, x, c) == 0,
    decreases bs.len(),
{
    if bs.len() > 0 {
        let b = bs.last();
        assert(bs[bs.len() - 1] == b);
        assert forall|k: int| 0 <= k < bs.drop_last().len() implies (#[trigger] bs.drop_last()[k]).len() > 0
            && bs.drop_last()[k][0] == c by {
            assert(bs.drop_last()[k] == bs[k]);
        }
        lemma_first_victories(bs.drop_last(), c, x);
        lemma_position_from_at_least(b, x, 1);
        assert(rank_of(b, c) == 0);
    }
}

proof fn lemma_position_from_at_least(b: Seq<usize>, x: usize, k: nat)
    requires
        k <= b.len(),
    ensures
        position_from(b, x, k) >= k,
    decreases b.len() - k,
{
    if k < b.len() && b[k as int] != x {
        lemma_position_from_at_least(b, x, k + 1);
    }
}

/// Nothing but `c` itself reaches a vertex `c` that no edge enters.
proof fn lemma_unreachable_without_incoming(es: Seq<Edge>, x: usize, c: usize)
    requires
        !has_incoming(es, c),
        x != c,
    ensures
        !reachable(es, x, c),
{
    if reachable(es, x, c) {
        let p = choose|p: Seq<usize>| #[trigger] is_walk(es, p) && p[0] == x && p.last() == c;
        let i = p.len() - 2;
        assert(has_edge(es, p[i], p[i + 1]));
        let k = choose|k: int| 0 <= k < es.len() && (#[trigger] es[k]).0.0 == p[i] && es[k].1.0 == p[i + 1];
        assert(es[k].1.0 == c);
    }
}

/// If no edge of `s` enters `c`, none of the locked-in ones does, and every edge
/// of `s` that leaves `c` is locked in.
proof fn lemma_lock_in_from(s: Seq<Edge>, c: usize)
    requires
        forall|k: int| 0 <= k < s.len() ==> (#[trigger] s[k]).1.0 != c,
    ensures
        !has_incoming(lock_in(s), c),
        forall|e: Edge| s.contains(e) && e.0.0 == c ==> #[trigger] lock_in(s).contains(e),
    decreases s.len(),
{
    if s.len() > 0 {
        let t = s.drop_last();
        let e = s.last();
        assert(s[s.len() - 1] == e);
        assert forall|k: int| 0 <= k < t.len() implies (#[trigger] t[k]).1.0 != c by {
            assert(t[k] == s[k]);
        }
        lemma_lock_in_from(t, c);
        let kept = lock_in(t);
        if e.0.0 == c {
            lemma_unreachable_without_incoming(kept, e.1.0, c);
            assert(lock_in(s) == kept.push(e));
        }
        let r = lock_in(s);
        assert(!has_incoming(r, c)) by {
            if has_incoming(r, c) {
                let k = choose|k: int| 0 <= k < r.len() && (#[trigger] r[k]).1.0 == c;
                if k < kept.len() {
                    assert(r[k] == kept[k]);
                } else {
                    assert(r[k] == e);
                }
            }
        }
        assert forall|f: Edge| s.contains(f) && f.0.0 == c implies #[trigger] lock_in(s).contains(f) by {
            let k = choose|k: int| 0 <= k < s.len() && s[k] == f;
            if k < t.len() {
                assert(t[k] == f);
                assert(kept.contains(f));
                let m = choose|m: int| 0 <= m < kept.len() && kept[m] == f;
                assert(r[m] == f);
            } else {
                assert(r[r.len() - 1] == f);
            }
        }
    }
}

/// Every locked-in edge is one of `s`.
proof fn lemma_lock_in_subset(s: Seq<Edge>)
    ensures
        forall|k: int| 0 <= k < lock_in(s).len() ==> s.contains(#[trigger] lock_in(s)[k]),
    decreases s.len(),
{
    if s.len() > 0 {
        let t = s.drop_last();
        lemma_lock_in_subset(t);
        let kept = lock_in(t);
        assert forall|k: int| 0 <= k < lock_in(s).len() implies s.contains(#[trigger] lock_in(s)[k]) by {
            if k < kept.len() {
                assert(lock_in(s)[k] == kept[k]);
                assert(t.contains(kept[k]));
                let m = choose|m: int| 0 <= m < t.len() && t[m] == kept[k];
                assert(s[m] == t[m]);
            } else {
                assert(lock_in(s)[k] == s[s.len() - 1]);
            }
        }
    }
}

/// With at least one candidate there is always a winner: the locked-in edges
/// form no cycle, so some candidate has no edge entering it.
pub proof fn lemma_winner_exists(bs: Seq<Seq<usize>>, n: nat)
    requires
        1 <= n <= usize::MAX + 1,
    ensures
        winner(bs, n).is_some(),
{
    let locked = locked_edges(bs, n);
    lemma_locked_edges_simple(bs, n);
    lemma_lock_in_acyclic(sort_by_margin(margin_edges(bs, n)));
    lemma_acyclic_has_source(locked, n);
    let x = choose|x: usize| x < n && !has_incoming(locked, x);
    lemma_first_source_some(locked, n, 0, x as nat);
}

proof fn lemma_first_source_some(es: Seq<Edge>, n: nat, k: nat, x: nat)
    requires
        k <= x < n,
        x <= usize::MAX,
        !has_incoming(es, x as usize),
    ensures
        first_source(es, n, k).is_some(),
    decreases x - k,
{
    if k < x {
        lemma_first_source_some(es, n, k + 1, x);
    }
}

/// The edge `e` joins `i` and `j`, in either direction.
pub open spec fn joins(e: Edge, i: usize, j: usize) -> bool {
    (e.0.0 == i && e.1.0 == j) || (e.0.0 == j && e.1.0 == i)
}

/// Some edge of `s` joins `i` and `j`.
pub open spec fn joined(s: Seq<Edge>, i: usize, j: usize) -> bool {
    exists|k: int| 0 <= k < s.len() && #[trigger] joins(s[k], i, j)
}

/// Each pair `i < j < n` is joined by exactly one edge of `s`, and every edge
/// joins two distinct candidates below `n`.
pub open spec fn one_edge_per_pair(s: Seq<Edge>, n: nat) -> bool {
    &&& forall|k: int| 0 <= k < s.len() ==> (#[trigger] s[k]).0.0 < n && s[k].1.0 < n && s[k].0 != s[k].1
    &&& forall|i: usize, j: usize| i < j < n ==> #[trigger] joined(s, i, j)
    &&& forall|k1: int, k2: int, i: usize, j: usize|
        0 <= k1 < k2 < s.len() && i != j && #[trigger] joins(s[k1], i, j) ==> !#[trigger] joins(s[k2], i, j)
}

/// One edge per pair: the ordered margin edges for `n` candidates join each pair
/// exactly once, and no candidate to itself.
pub proof fn lemma_one_edge_per_pair(bs: Seq<Seq<usize>>, n: nat)
    requires
        n <= usize::MAX + 1,
    ensures
        one_edge_per_pair(sort_by_margin(margin_edges(bs, n)), n),
{
    broadcast use vstd::seq_lib::group_to_multiset_ensures;

    let m = margin_edges(bs, n);
    let s = sort_by_margin(m);
    lemma_rows(bs, n, n);
    lemma_margin_edges_within(bs, n);
    lemma_sort_keeps_members(m);
    lemma_sort_by_margin(m);
    assert forall|k1: int, k2: int, i: usize, j: usize|
        0 <= k1 < m.len() && 0 <= k2 < m.len() && i != j && #[trigger] joins(m[k1], i, j) && #[trigger] joins(m[k2], i, j)
        implies k1 == k2 by {
        let (a1, b1) = choose|a: usize, b: usize| a < n && a < b < n && #[trigger] rows(bs, n, n)[k1] == matchup(bs, a, b)
            && k1 == rows(bs, n, a as nat).len() + (b - a - 1);
        let (a2, b2) = choose|a: usize, b: usize| a < n && a < b < n && #[trigger] rows(bs, n, n)[k2] == matchup(bs, a, b)
            && k2 == rows(bs, n, a as nat).len() + (b - a - 1);
        assert(a1 == a2 && b1 == b2);
    }
    assert(m.no_duplicates()) by {
        assert forall|k1: int, k2: int| 0 <= k1 < m.len() && 0 <= k2 < m.len() && k1 != k2 implies m[k1] != m[k2] by {
            if m[k1] == m[k2] {
                assert(joins(m[k1], m[k1].0.0, m[k1].1.0));
            }
        }
    }
    m.lemma_multiset_has_no_duplicates();
    assert forall|x: Edge| s.to_multiset().contains(x) implies s.to_multiset().count(x) == 1 by {
        assert(m.to_multiset().contains(x));
    }
    s.lemma_multiset_has_no_duplicates_conv();
    assert forall|k: int| 0 <= k < s.len() implies (#[trigger] s[k]).0.0 < n && s[k].1.0 < n && s[k].0 != s[k].1 by {
        assert(s.contains(s[k]));
        let t = choose|t: int| 0 <= t < m.len() && m[t] == s[k];
    }
    assert forall|i: usize, j: usize| i < j < n implies #[trigger] joined(s, i, j) by {
        assert(m.contains(matchup(bs, i, j)));
        assert(s.contains(matchup(bs, i, j)));
        let k = choose|k: int| 0 <= k < s.len() && s[k] == matchup(bs, i, j);
        assert(joins(s[k], i, j));
    }
    assert forall|k1: int, k2: int, i: usize, j: usize|
        0 <= k1 < k2 < s.len() && i != j && #[trigger] joins(s[k1], i, j) implies !#[trigger] joins(s[k2], i, j) by {
        if joins(s[k2], i, j) {
            assert(s[k1] != s[k2]);
            assert(s.contains(s[k1]) && s.contains(s[k2]));
            let t1 = choose|t: int| 0 <= t < m.len() && m[t] == s[k1];
            let t2 = choose|t: int| 0 <= t < m.len() && m[t] == s[k2];
            assert(joins(m[t1], i, j) && joins(m[t2], i, j));
        }
    }
}

/// When every pair of candidates ties, every edge points from the later candidate
/// to the earlier one, and the last candidate wins.
pub proof fn lemma_all_ties_last_wins(bs: Seq<Seq<usize>>, n: nat)
    requires
        1 <= n <= usize::MAX + 1,
        forall|i: usize, j: usize| i < j < n ==> 2 * #[trigger] victories(bs, i, j) == bs.len(),
    ensures
        winner(bs, n) == Some((n - 1) as usize),
{
    let c = (n - 1) as usize;
    let margins = margin_edges(bs, n);
    let sorted = sort_by_margin(margins);
    let locked = lock_in(sorted);
    lemma_rows(bs, n, n);
    lemma_sort_keeps_members(margins);
    assert forall|k: int| 0 <= k < sorted.len() implies (#[trigger] sorted[k]).1.0 != c by {
        assert(sorted.contains(sorted[k]));
        let t = choose|t: int| 0 <= t < margins.len() && margins[t] == sorted[k];
        let (i, j) = choose|i: usize, j: usize| i < n && i < j < n && #[trigger] rows(bs, n, n)[t] == matchup(bs, i, j)
            && t == rows(bs, n, i as nat).len() + (j - i - 1);
        assert(2 * victories(bs, i, j) == bs.len());
    }
    lemma_lock_in_from(sorted, c);
    assert forall|m: usize| m < c implies #[trigger] has_incoming(locked, m) by {
        assert(2 * victories(bs, m, c) == bs.len());
        let e = matchup(bs, m, c);
        assert(e.0.0 == c && e.1.0 == m);
        assert(margins.contains(e));
        assert(sorted.contains(e));
        assert(locked.contains(e));
        let k = choose|k: int| 0 <= k < locked.len() && locked[k] == e;
        assert(locked[k].1.0 == m);
    }
    lemma_first_source_at(locked, n, 0, c as nat);
}

} // verus!
