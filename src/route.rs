//! Shortest routes between two nodes: a best-first search over a
//! min-priority queue keyed by cost plus an optional distance estimate,
//! with dense per-query tables and lazy deletion of outdated entries.
//!
//! When several routes share the least cost, which of them is reported
//! depends on the order in which equal-priority entries leave the queue;
//! the cost reported never does.

use crate::graph::{manhattan, manhattan_distance, Graph, Node};
use crate::queue::MinQueue;
use vstd::multiset::Multiset;
use vstd::prelude::*;

verus! {

/// The cost that stands for "no route": above every finite route cost.
/// A route whose cost reaches it counts as no route.
pub const UNREACHABLE: u64 = 0xffff_ffff_ffff_ffff;

/// The sum of a sequence of weights.
pub open spec fn total(ws: Seq<int>) -> int
    decreases ws.len(),
{
    if ws.len() == 0 {
        0
    } else {
        total(ws.drop_last()) + ws.last()
    }
}

/// A result of a route query with its path as a sequence.
pub open spec fn answer_view(r: Option<(u64, Vec<i32>)>) -> Option<(u64, Seq<i32>)> {
    match r {
        Some((c, p)) => Some((c, p@)),
        None => None,
    }
}

impl Graph {
    /// `p` lists dense nodes; step `i` follows an edge of weight `ws[i]`.
    pub open spec fn is_walk(self, p: Seq<int>, ws: Seq<int>) -> bool {
        &&& p.len() == ws.len() + 1
        &&& forall|i: int| 0 <= i < p.len() ==> 0 <= #[trigger] p[i] < self.num_nodes()
        &&& forall|i: int| 0 <= i < ws.len() ==> self.has_link(p[i], p[i + 1], #[trigger] ws[i])
    }

    /// A walk from dense node `s` to dense node `t`.
    pub open spec fn is_route(self, s: int, t: int, p: Seq<int>, ws: Seq<int>) -> bool {
        &&& self.is_walk(p, ws)
        &&& p[0] == s
        &&& p.last() == t
    }

    /// The identifiers of the nodes along `p`.
    pub open spec fn ids_along(self, p: Seq<int>) -> Seq<i32> {
        p.map_values(|u: int| self.node(u).id)
    }

    /// No route from `s` to `t` costs less than `c`.
    pub open spec fn no_cheaper(self, s: int, t: int, c: int) -> bool {
        forall|p: Seq<int>, ws: Seq<int>| #[trigger] self.is_route(s, t, p, ws) ==> c <= total(ws)
    }

    /// What a route query from `from` to `to` may return: `None` when an
    /// endpoint is unknown or every route costs at least `UNREACHABLE`;
    /// otherwise the least cost of a route and the identifiers along one
    /// route of that cost.
    pub open spec fn answers(self, from: i32, to: i32, r: Option<(u64, Seq<i32>)>) -> bool {
        let s = self.index_of(from);
        let t = self.index_of(to);
        match r {
            None => !self.has_id(from) || !self.has_id(to) || self.no_cheaper(
                s,
                t,
                UNREACHABLE as int,
            ),
            Some((c, path)) => {
                &&& self.has_id(from)
                &&& self.has_id(to)
                &&& c < UNREACHABLE
                &&& self.no_cheaper(s, t, c as int)
                &&& exists|p: Seq<int>, ws: Seq<int>|
                    #[trigger] self.is_route(s, t, p, ws) && total(ws) == c && path
                        == self.ids_along(p)
            },
        }
    }

    /// The estimate of the remaining cost from dense node `u` to dense node
    /// `t`: the Manhattan distance while the heuristic is in use, else 0.
    pub open spec fn estimate(self, u: int, t: int) -> int {
        if self.heuristic_active() {
            manhattan(self.node(u), self.node(t))
        } else {
            0
        }
    }
}

/// Splitting a sequence of weights splits its sum.
pub proof fn lemma_total_split(ws: Seq<int>, j: int)
    requires
        0 <= j <= ws.len(),
    ensures
        total(ws) == total(ws.take(j)) + total(ws.skip(j)),
    decreases ws.len(),
{
    if j == ws.len() {
        assert(ws.take(j) =~= ws);
        assert(ws.skip(j) =~= Seq::<int>::empty());
    } else {
        lemma_total_split(ws.drop_last(), j);
        assert(ws.drop_last().take(j) =~= ws.take(j));
        assert(ws.drop_last().skip(j) =~= ws.skip(j).drop_last());
    }
}

/// Appending a weight adds it to the sum.
pub proof fn lemma_total_push(ws: Seq<int>, w: int)
    ensures
        total(ws.push(w)) == total(ws) + w,
{
    assert(ws.push(w).drop_last() =~= ws);
}

/// Prepending a weight adds it to the sum.
pub proof fn lemma_total_prepend(w: int, ws: Seq<int>)
    ensures
        total(seq![w] + ws) == w + total(ws),
{
    let s = seq![w] + ws;
    lemma_total_split(s, 1);
    assert(s.take(1) =~= seq![w]);
    assert(s.skip(1) =~= ws);
    assert(seq![w].drop_last() =~= Seq::<int>::empty());
    assert(total(seq![w]) == total(seq![w].drop_last()) + w);
    assert(total(Seq::<int>::empty()) == 0);
}

/// What a link of a well-formed graph guarantees.
pub proof fn lemma_link_facts(g: Graph, u: int, v: int, w: int)
    requires
        g.wf(),
        0 <= u < g.num_nodes(),
        g.has_link(u, v, w),
    ensures
        0 <= v < g.num_nodes(),
        w >= 0,
        g.has_link(v, u, w),
        g.heuristic_active() ==> manhattan(g.node(u), g.node(v)) <= w,
{
    let k = choose|k: int|
        0 <= k < g.degree(u) && #[trigger] g.link(u, k).to as int == v && g.link(u, k).weight as int
            == w;
    assert(g.link(u, k).to < g.num_nodes());
}

/// The weights of a walk are non-negative, and so is its cost.
pub proof fn lemma_walk_nonneg(g: Graph, p: Seq<int>, ws: Seq<int>)
    requires
        g.wf(),
        g.is_walk(p, ws),
    ensures
        total(ws) >= 0,
        forall|i: int| 0 <= i < ws.len() ==> #[trigger] ws[i] >= 0,
    decreases ws.len(),
{
    assert forall|i: int| 0 <= i < ws.len() implies #[trigger] ws[i] >= 0 by {
        lemma_link_facts(g, p[i], p[i + 1], ws[i]);
    }
    if ws.len() > 0 {
        let p2 = p.drop_last();
        let w2 = ws.drop_last();
        assert forall|i: int| 0 <= i < w2.len() implies g.has_link(
            p2[i],
            p2[i + 1],
            #[trigger] w2[i],
        ) by {
            assert(w2[i] == ws[i]);
        }
        lemma_walk_nonneg(g, p2, w2);
    }
}

/// The estimate never drops by more than the cost of a walk.
pub proof fn lemma_estimate_along(g: Graph, p: Seq<int>, ws: Seq<int>, t: int)
    requires
        g.wf(),
        g.is_walk(p, ws),
        0 <= t < g.num_nodes(),
    ensures
        g.estimate(p[0], t) <= total(ws) + g.estimate(p.last(), t),
    decreases ws.len(),
{
    if ws.len() > 0 {
        let p2 = p.drop_last();
        let w2 = ws.drop_last();
        assert forall|i: int| 0 <= i < w2.len() implies g.has_link(
            p2[i],
            p2[i + 1],
            #[trigger] w2[i],
        ) by {
            assert(w2[i] == ws[i]);
        }
        lemma_estimate_along(g, p2, w2, t);
        let m = ws.len() - 1;
        assert(g.has_link(p[m], p[m + 1], ws[m]));
        lemma_link_facts(g, p[m], p[m + 1], ws[m]);
    }
}

/// The part of a walk from position `j` on is a walk.
pub proof fn lemma_walk_suffix(g: Graph, p: Seq<int>, ws: Seq<int>, j: int)
    requires
        g.is_walk(p, ws),
        0 <= j < p.len(),
    ensures
        g.is_walk(p.skip(j), ws.skip(j)),
{
    let p2 = p.skip(j);
    let w2 = ws.skip(j);
    assert forall|i: int| 0 <= i < w2.len() implies g.has_link(
        p2[i],
        p2[i + 1],
        #[trigger] w2[i],
    ) by {
        assert(w2[i] == ws[i + j]);
    }
    assert forall|i: int| 0 <= i < p2.len() implies 0 <= #[trigger] p2[i] < g.num_nodes() by {
        assert(p2[i] == p[i + j]);
    }
}

/// The part of a walk up to position `j` is a walk.
pub proof fn lemma_walk_prefix(g: Graph, p: Seq<int>, ws: Seq<int>, j: int)
    requires
        g.is_walk(p, ws),
        0 <= j < p.len(),
    ensures
        g.is_walk(p.take(j + 1), ws.take(j)),
{
    let p2 = p.take(j + 1);
    let w2 = ws.take(j);
    assert forall|i: int| 0 <= i < w2.len() implies g.has_link(
        p2[i],
        p2[i + 1],
        #[trigger] w2[i],
    ) by {
        assert(w2[i] == ws[i]);
    }
    assert forall|i: int| 0 <= i < p2.len() implies 0 <= #[trigger] p2[i] < g.num_nodes() by {
        assert(p2[i] == p[i]);
    }
}

/// Extending a walk by one link gives a walk.
pub proof fn lemma_walk_push(g: Graph, p: Seq<int>, ws: Seq<int>, v: int, w: int)
    requires
        g.is_walk(p, ws),
        0 <= v < g.num_nodes(),
        g.has_link(p.last(), v, w),
    ensures
        g.is_walk(p.push(v), ws.push(w)),
{
    let p2 = p.push(v);
    let w2 = ws.push(w);
    assert forall|i: int| 0 <= i < w2.len() implies g.has_link(
        p2[i],
        p2[i + 1],
        #[trigger] w2[i],
    ) by {
        if i < ws.len() {
            assert(w2[i] == ws[i]);
        }
    }
    assert forall|i: int| 0 <= i < p2.len() implies 0 <= #[trigger] p2[i] < g.num_nodes() by {
        if i < p.len() {
            assert(p2[i] == p[i]);
        }
    }
}

/// Every settled node carries the least cost of a route to it.
#[verifier::opaque]
spec fn settled_optimal(g: Graph, s: int, dist: Seq<u64>, done: Seq<bool>) -> bool {
    forall|v: int|
        0 <= v < g.num_nodes() && #[trigger] done[v] ==> dist[v] < UNREACHABLE && g.no_cheaper(
            s,
            v,
            dist[v] as int,
        )
}

/// Every link out of a settled node has been relaxed.
#[verifier::opaque]
spec fn relaxed(g: Graph, dist: Seq<u64>, done: Seq<bool>) -> bool {
    forall|u: int, k: int|
        #![trigger g.link(u, k), done[u]]
        0 <= u < g.num_nodes() && done[u] && 0 <= k < g.degree(u) ==> dist[g.link(u, k).to as int]
            <= dist[u] + g.link(u, k).weight
}

/// Every node with a finite cost carries a route from the start of that
/// cost.
#[verifier::opaque]
spec fn witnesses(g: Graph, s: int, dist: Seq<u64>, wp: Seq<Seq<int>>, ww: Seq<Seq<int>>) -> bool {
    forall|v: int|
        0 <= v < g.num_nodes() && #[trigger] dist[v] < UNREACHABLE ==> g.is_route(s, v, wp[v], ww[v])
            && total(ww[v]) == dist[v]
}

/// Lowering the cost of a neighbour of a settled node through its `k`-th
/// link, recording the route and the predecessor and queueing the new
/// entry, keeps the search's invariants.
proof fn lemma_relax_update(
    g: Graph,
    s: int,
    t: int,
    u: int,
    k: int,
    dist: Seq<u64>,
    done: Seq<bool>,
    pred: Seq<usize>,
    pw: Seq<int>,
    rank: Seq<int>,
    wp: Seq<Seq<int>>,
    ww: Seq<Seq<int>>,
    q: Multiset<(u128, (u64, usize))>,
    ng: u64,
)
    requires
        g.wf(),
        0 <= s < g.num_nodes(),
        0 <= t < g.num_nodes(),
        0 <= u < g.num_nodes(),
        0 <= k < g.degree(u),
        dist.len() == g.num_nodes(),
        done.len() == g.num_nodes(),
        pred.len() == g.num_nodes(),
        pw.len() == g.num_nodes(),
        wp.len() == g.num_nodes(),
        ww.len() == g.num_nodes(),
        done[u],
        dist[s] == 0,
        witnesses(g, s, dist, wp, ww),
        settled_optimal(g, s, dist, done),
        relaxed_but(g, dist, done, u, k),
        queued(g, t, dist, done, q),
        entries_ok(g, t, q),
        chain_ok(g, s, dist, done, pred, pw, rank),
        ng == dist[u] + g.link(u, k).weight,
        ng < dist[g.link(u, k).to as int],
    ensures
        ({
            let v = g.link(u, k).to as int;
            let w = g.link(u, k).weight as int;
            let dist2 = dist.update(v, ng);
            &&& !done[v]
            &&& dist2[s] == 0
            &&& witnesses(g, s, dist2, wp.update(v, wp[u].push(v)), ww.update(v, ww[u].push(w)))
            &&& settled_optimal(g, s, dist2, done)
            &&& relaxed_but(g, dist2, done, u, k + 1)
            &&& queued(g, t, dist2, done, q.insert(entry(g, t, ng, v)))
            &&& entries_ok(g, t, q.insert(entry(g, t, ng, v)))
            &&& chain_ok(g, s, dist2, done, pred.update(v, u as usize), pw.update(v, w), rank)
        }),
{
    reveal(settled_optimal);
    reveal(witnesses);
    reveal(relaxed_but);
    reveal(queued);
    reveal(entries_ok);
    reveal(chain_ok);
    let v = g.link(u, k).to as int;
    let w = g.link(u, k).weight as int;
    let dist2 = dist.update(v, ng);
    let wp2 = wp.update(v, wp[u].push(v));
    let ww2 = ww.update(v, ww[u].push(w));
    let q2 = q.insert(entry(g, t, ng, v));
    assert(0 <= v < g.num_nodes() && w >= 0);
    assert(g.has_link(u, v, w));
    assert(dist[u] < UNREACHABLE);
    assert(g.is_route(s, u, wp[u], ww[u]));
    lemma_walk_push(g, wp[u], ww[u], v, w);
    lemma_total_push(ww[u], w);
    assert(g.is_route(s, v, wp[u].push(v), ww[u].push(w)));
    assert(!done[v]) by {
        if done[v] {
            assert(g.no_cheaper(s, v, dist[v] as int));
        }
    }
    assert(u != v);
    assert(witnesses(g, s, dist2, wp2, ww2)) by {
        assert forall|x: int| 0 <= x < g.num_nodes() && #[trigger] dist2[x] < UNREACHABLE implies g.is_route(
            s,
            x,
            wp2[x],
            ww2[x],
        ) && total(ww2[x]) == dist2[x] by {
            if x != v {
                assert(dist2[x] == dist[x]);
            }
        }
    }
    assert(settled_optimal(g, s, dist2, done)) by {
        assert forall|x: int| 0 <= x < g.num_nodes() && #[trigger] done[x] implies dist2[x]
            < UNREACHABLE && g.no_cheaper(s, x, dist2[x] as int) by {
            assert(dist2[x] == dist[x]);
        }
    }
    assert(relaxed_but(g, dist2, done, u, k + 1)) by {
        assert forall|x: int, j: int|
            #![trigger g.link(x, j), done[x]]
            0 <= x < g.num_nodes() && done[x] && 0 <= j < g.degree(x) && (x != u || j < k + 1)
                implies dist2[g.link(x, j).to as int] <= dist2[x] + g.link(x, j).weight by {
            assert(dist2[x] == dist[x]);
            if x != u || j < k {
                assert(dist[g.link(x, j).to as int] <= dist[x] + g.link(x, j).weight);
            }
        }
    }
    assert(queued(g, t, dist2, done, q2)) by {
        assert forall|x: int|
            0 <= x < g.num_nodes() && !done[x] && dist2[x] < UNREACHABLE implies q2.count(
            #[trigger] entry(g, t, dist2[x], x),
        ) > 0 by {
            if x != v {
                assert(dist2[x] == dist[x]);
                assert(q.count(entry(g, t, dist[x], x)) > 0);
            }
        }
    }
    assert(entries_ok(g, t, q2)) by {
        assert forall|e: (u128, (u64, usize))| #[trigger] q2.count(e) > 0 implies e.1.1
            < g.num_nodes() && e.1.0 < UNREACHABLE && e == entry(g, t, e.1.0, e.1.1 as int) by {
            if e != entry(g, t, ng, v) {
                assert(q.count(e) > 0);
            }
        }
    }
    assert(chain_ok(g, s, dist2, done, pred.update(v, u as usize), pw.update(v, w), rank)) by {
        let pred2 = pred.update(v, u as usize);
        let pw2 = pw.update(v, w);
        assert forall|x: int|
            0 <= x < g.num_nodes() && x != s && #[trigger] dist2[x] < UNREACHABLE implies {
            let y = pred2[x] as int;
            &&& y < g.num_nodes()
            &&& done[y]
            &&& g.has_link(y, x, pw2[x])
            &&& dist2[y] + pw2[x] == dist2[x]
            &&& done[x] ==> 0 <= rank[y] < rank[x]
        } by {
            if x != v {
                assert(dist2[x] == dist[x]);
                assert(dist[x] < UNREACHABLE);
                let y = pred[x] as int;
                assert(done[y]);
                assert(dist2[y] == dist[y]);
            } else {
                assert(dist2[u] == dist[u]);
            }
        }
    }
}

/// The queue entry that stands for dense node `v` at cost `c`.
spec fn entry(g: Graph, t: int, c: u64, v: int) -> (u128, (u64, usize)) {
    ((c + g.estimate(v, t)) as u128, (c, v as usize))
}

/// Every unsettled node with a finite cost has its current entry queued.
#[verifier::opaque]
spec fn queued(
    g: Graph,
    t: int,
    dist: Seq<u64>,
    done: Seq<bool>,
    q: Multiset<(u128, (u64, usize))>,
) -> bool {
    forall|v: int|
        0 <= v < g.num_nodes() && !done[v] && dist[v] < UNREACHABLE ==> q.count(
            #[trigger] entry(g, t, dist[v], v),
        ) > 0
}

/// Every queued entry names a node, a finite cost, and that cost plus the
/// node's estimate as its priority.
#[verifier::opaque]
spec fn entries_ok(g: Graph, t: int, q: Multiset<(u128, (u64, usize))>) -> bool {
    forall|e: (u128, (u64, usize))| #[trigger]
        q.count(e) > 0 ==> e.1.1 < g.num_nodes() && e.1.0 < UNREACHABLE && e == entry(
            g,
            t,
            e.1.0,
            e.1.1 as int,
        )
}

/// On a route from the start, the first node that is not settled already
/// has a cost no greater than the part of the route that leads to it.
proof fn lemma_frontier(
    g: Graph,
    s: int,
    dist: Seq<u64>,
    done: Seq<bool>,
    x: int,
    p: Seq<int>,
    ws: Seq<int>,
    j: int,
) -> (f: int)
    requires
        g.wf(),
        dist.len() == g.num_nodes(),
        done.len() == g.num_nodes(),
        0 <= s < g.num_nodes(),
        dist[s] == 0,
        settled_optimal(g, s, dist, done),
        relaxed(g, dist, done),
        g.is_route(s, x, p, ws),
        !done[x],
        0 <= j < p.len(),
        forall|i: int| 0 <= i < j ==> done[#[trigger] p[i]],
    ensures
        j <= f < p.len(),
        !done[p[f]],
        dist[p[f]] <= total(ws.take(f)),
    decreases p.len() - j,
{
    reveal(settled_optimal);
    reveal(relaxed);
    if !done[p[j]] {
        if j == 0 {
            assert(ws.take(0) =~= Seq::<int>::empty());
        } else {
            let u = p[j - 1];
            assert(done[u]);
            lemma_walk_prefix(g, p, ws, j - 1);
            assert(g.is_route(s, u, p.take(j), ws.take(j - 1)));
            assert(dist[u] <= total(ws.take(j - 1)));
            assert(g.has_link(p[j - 1], p[j], ws[j - 1]));
            let k = choose|k: int|
                0 <= k < g.degree(u) && #[trigger] g.link(u, k).to as int == p[j] && g.link(
                    u,
                    k,
                ).weight as int == ws[j - 1];
            assert(dist[g.link(u, k).to as int] <= dist[u] + g.link(u, k).weight);
            assert(ws.take(j).drop_last() =~= ws.take(j - 1));
        }
        j
    } else {
        lemma_frontier(g, s, dist, done, x, p, ws, j + 1)
    }
}

/// The entry of least priority, when current and unsettled, settles its
/// node: no route to it is cheaper.
proof fn lemma_settle(
    g: Graph,
    s: int,
    t: int,
    dist: Seq<u64>,
    done: Seq<bool>,
    q: Multiset<(u128, (u64, usize))>,
    u: int,
)
    requires
        g.wf(),
        dist.len() == g.num_nodes(),
        done.len() == g.num_nodes(),
        0 <= s < g.num_nodes(),
        0 <= t < g.num_nodes(),
        0 <= u < g.num_nodes(),
        dist[s] == 0,
        settled_optimal(g, s, dist, done),
        relaxed(g, dist, done),
        queued(g, t, dist, done, q),
        !done[u],
        dist[u] < UNREACHABLE,
        forall|e: (u128, (u64, usize))| #[trigger]
            q.count(e) > 0 ==> entry(g, t, dist[u], u).0 <= e.0,
    ensures
        g.no_cheaper(s, u, dist[u] as int),
        settled_optimal(g, s, dist, done.update(u, true)),
        forall|v: int|
            0 <= v < g.num_nodes() && #[trigger] done.update(u, true)[v] ==> dist[v] < UNREACHABLE,
{
    reveal(queued);
    assert forall|p: Seq<int>, ws: Seq<int>| #[trigger] g.is_route(s, u, p, ws) implies dist[u]
        <= total(ws) by {
        let f = lemma_frontier(g, s, dist, done, u, p, ws, 0);
        let x = p[f];
        lemma_total_split(ws, f);
        lemma_walk_suffix(g, p, ws, f);
        lemma_walk_nonneg(g, p.skip(f), ws.skip(f));
        if dist[x] < UNREACHABLE {
            assert(q.count(entry(g, t, dist[x], x)) > 0);
            lemma_estimate_along(g, p.skip(f), ws.skip(f), t);
            assert(p.skip(f)[0] == x);
            assert(p.skip(f).last() == u);
        }
    }
    reveal(settled_optimal);
}

/// With the queue empty and the target unsettled, no route reaches the
/// target below `UNREACHABLE`.
proof fn lemma_exhausted(
    g: Graph,
    s: int,
    t: int,
    dist: Seq<u64>,
    done: Seq<bool>,
    q: Multiset<(u128, (u64, usize))>,
)
    requires
        g.wf(),
        dist.len() == g.num_nodes(),
        done.len() == g.num_nodes(),
        0 <= s < g.num_nodes(),
        0 <= t < g.num_nodes(),
        dist[s] == 0,
        settled_optimal(g, s, dist, done),
        relaxed(g, dist, done),
        queued(g, t, dist, done, q),
        q.len() == 0,
        !done[t],
    ensures
        g.no_cheaper(s, t, UNREACHABLE as int),
{
    reveal(queued);
    assert forall|p: Seq<int>, ws: Seq<int>| #[trigger] g.is_route(s, t, p, ws) implies UNREACHABLE
        <= total(ws) by {
        let f = lemma_frontier(g, s, dist, done, t, p, ws, 0);
        let x = p[f];
        lemma_total_split(ws, f);
        lemma_walk_suffix(g, p, ws, f);
        lemma_walk_nonneg(g, p.skip(f), ws.skip(f));
        if dist[x] < UNREACHABLE {
            assert(q.count(entry(g, t, dist[x], x)) > 0);
        }
    }
}

/// Taking an entry out of the queue keeps the entries well formed, and
/// keeps every current entry queued unless the entry taken was current.
proof fn lemma_pop_entry(
    g: Graph,
    t: int,
    dist: Seq<u64>,
    done: Seq<bool>,
    q: Multiset<(u128, (u64, usize))>,
    e: (u128, (u64, usize)),
)
    requires
        g.wf(),
        dist.len() == g.num_nodes(),
        done.len() == g.num_nodes(),
        queued(g, t, dist, done, q),
        entries_ok(g, t, q),
        q.count(e) > 0,
    ensures
        e.1.1 < g.num_nodes(),
        e.1.0 < UNREACHABLE,
        e == entry(g, t, e.1.0, e.1.1 as int),
        entries_ok(g, t, q.remove(e)),
        done[e.1.1 as int] || e.1.0 != dist[e.1.1 as int] ==> queued(g, t, dist, done, q.remove(e)),
{
    reveal(queued);
    reveal(entries_ok);
    assert(e == entry(g, t, e.1.0, e.1.1 as int));
    assert forall|x: (u128, (u64, usize))| #[trigger] q.remove(e).count(x) > 0 implies x.1.1
        < g.num_nodes() && x.1.0 < UNREACHABLE && x == entry(g, t, x.1.0, x.1.1 as int) by {
        assert(q.count(x) > 0);
    }
    if done[e.1.1 as int] || e.1.0 != dist[e.1.1 as int] {
        assert forall|v: int|
            0 <= v < g.num_nodes() && !done[v] && dist[v] < UNREACHABLE implies q.remove(e).count(
            #[trigger] entry(g, t, dist[v], v),
        ) > 0 by {
            assert(q.count(entry(g, t, dist[v], v)) > 0);
            if entry(g, t, dist[v], v) == e {
                assert(e.1.1 as int == v);
            }
        }
    }
}

/// Marking node `u`, taken from the queue at its current cost, as settled
/// with rank `r` keeps the queue and predecessor invariants; its links are
/// still to be relaxed.
proof fn lemma_mark_settled(
    g: Graph,
    s: int,
    t: int,
    dist: Seq<u64>,
    done: Seq<bool>,
    pred: Seq<usize>,
    pw: Seq<int>,
    rank: Seq<int>,
    q: Multiset<(u128, (u64, usize))>,
    u: int,
    r: int,
)
    requires
        g.wf(),
        dist.len() == g.num_nodes(),
        done.len() == g.num_nodes(),
        pred.len() == g.num_nodes(),
        rank.len() == g.num_nodes(),
        0 <= u < g.num_nodes(),
        !done[u],
        dist[u] < UNREACHABLE,
        0 <= r,
        forall|v: int| 0 <= v < g.num_nodes() && #[trigger] done[v] ==> 0 <= rank[v] < r,
        queued(g, t, dist, done, q),
        relaxed(g, dist, done),
        chain_ok(g, s, dist, done, pred, pw, rank),
    ensures
        queued(g, t, dist, done.update(u, true), q.remove(entry(g, t, dist[u], u))),
        relaxed_but(g, dist, done.update(u, true), u, 0),
        chain_ok(g, s, dist, done.update(u, true), pred, pw, rank.update(u, r)),
{
    reveal(queued);
    reveal(relaxed);
    reveal(relaxed_but);
    reveal(chain_ok);
    let done2 = done.update(u, true);
    let e = entry(g, t, dist[u], u);
    assert forall|v: int|
        0 <= v < g.num_nodes() && !done2[v] && dist[v] < UNREACHABLE implies q.remove(e).count(
        #[trigger] entry(g, t, dist[v], v),
    ) > 0 by {
        assert(q.count(entry(g, t, dist[v], v)) > 0);
        assert(v != u);
        assert((v as usize) as int == v);
        assert(entry(g, t, dist[v], v).1.1 != e.1.1);
    }
    assert forall|x: int, k: int|
        #![trigger g.link(x, k), done2[x]]
        0 <= x < g.num_nodes() && done2[x] && 0 <= k < g.degree(x) && (x != u || k < 0)
            implies dist[g.link(x, k).to as int] <= dist[x] + g.link(x, k).weight by {
        assert(done[x]);
    }
    let rank2 = rank.update(u, r);
    assert forall|v: int|
        0 <= v < g.num_nodes() && v != s && #[trigger] dist[v] < UNREACHABLE implies {
        let y = pred[v] as int;
        &&& y < g.num_nodes()
        &&& done2[y]
        &&& g.has_link(y, v, pw[v])
        &&& dist[y] + pw[v] == dist[v]
        &&& done2[v] ==> 0 <= rank2[y] < rank2[v]
    } by {
        let y = pred[v] as int;
        assert(done[y]);
        assert(rank2[y] == rank[y]);
    }
}

/// Relaxing a link that offers no lower cost changes nothing.
proof fn lemma_relax_skip(g: Graph, dist: Seq<u64>, done: Seq<bool>, u: int, k: int)
    requires
        relaxed_but(g, dist, done, u, k),
        0 <= k < g.degree(u),
        dist[g.link(u, k).to as int] <= dist[u] + g.link(u, k).weight,
    ensures
        relaxed_but(g, dist, done, u, k + 1),
{
    reveal(relaxed_but);
}

/// Once every link of `u` is relaxed, all links of settled nodes are.
proof fn lemma_relaxed_all(g: Graph, dist: Seq<u64>, done: Seq<bool>, u: int)
    requires
        relaxed_but(g, dist, done, u, g.degree(u)),
    ensures
        relaxed(g, dist, done),
{
    reveal(relaxed_but);
    reveal(relaxed);
}

/// The search's invariants hold at its start.
proof fn lemma_start(
    g: Graph,
    s: int,
    t: int,
    dist: Seq<u64>,
    done: Seq<bool>,
    pred: Seq<usize>,
    pw: Seq<int>,
    rank: Seq<int>,
    q: Multiset<(u128, (u64, usize))>,
)
    requires
        g.wf(),
        0 <= s < g.num_nodes(),
        dist.len() == g.num_nodes(),
        done.len() == g.num_nodes(),
        forall|v: int| 0 <= v < g.num_nodes() && v != s ==> #[trigger] dist[v] == UNREACHABLE,
        dist[s] == 0,
        forall|v: int| 0 <= v < g.num_nodes() ==> !#[trigger] done[v],
        q =~= Multiset::empty().insert(entry(g, t, 0, s)),
    ensures
        relaxed(g, dist, done),
        queued(g, t, dist, done, q),
        entries_ok(g, t, q),
        chain_ok(g, s, dist, done, pred, pw, rank),
{
    reveal(relaxed);
    reveal(queued);
    reveal(entries_ok);
    reveal(chain_ok);
    let e0 = entry(g, t, 0, s);
    assert forall|v: int|
        0 <= v < g.num_nodes() && !done[v] && dist[v] < UNREACHABLE implies q.count(
        #[trigger] entry(g, t, dist[v], v),
    ) > 0 by {
        assert(v == s);
    }
    assert forall|x: (u128, (u64, usize))| #[trigger] q.count(x) > 0 implies x.1.1
        < g.num_nodes() && x.1.0 < UNREACHABLE && x == entry(g, t, x.1.0, x.1.1 as int) by {
        assert(x == e0);
        assert((s as usize) as int == s);
    }
}

/// The predecessor links of reached nodes lead back to the start, each
/// along an edge whose weight is the difference of the two costs, towards
/// a node settled earlier.
#[verifier::opaque]
spec fn chain_ok(
    g: Graph,
    s: int,
    dist: Seq<u64>,
    done: Seq<bool>,
    pred: Seq<usize>,
    pw: Seq<int>,
    rank: Seq<int>,
) -> bool {
    forall|v: int|
        0 <= v < g.num_nodes() && v != s && #[trigger] dist[v] < UNREACHABLE ==> {
            let u = pred[v] as int;
            &&& u < g.num_nodes()
            &&& done[u]
            &&& g.has_link(u, v, pw[v])
            &&& dist[u] + pw[v] == dist[v]
            &&& done[v] ==> 0 <= rank[u] < rank[v]
        }
}

impl Graph {
    /// Follows predecessor links back from `t` to `s` and returns the
    /// identifiers along that route, in order from `s`.
    fn trace_path(
        &self,
        pred: &Vec<usize>,
        s: usize,
        t: usize,
        Ghost(dist): Ghost<Seq<u64>>,
        Ghost(done): Ghost<Seq<bool>>,
        Ghost(pw): Ghost<Seq<int>>,
        Ghost(rank): Ghost<Seq<int>>,
    ) -> (r: Vec<i32>)
        requires
            self.wf(),
            s < self.num_nodes(),
            t < self.num_nodes(),
            pred@.len() == self.num_nodes(),
            dist.len() == self.num_nodes(),
            done.len() == self.num_nodes(),
            done[t as int],
            dist[s as int] == 0,
            forall|v: int| 0 <= v < self.num_nodes() && #[trigger] done[v] ==> dist[v] < UNREACHABLE,
            chain_ok(*self, s as int, dist, done, pred@, pw, rank),
            rank.len() == self.num_nodes(),
            0 <= rank[t as int],
        ensures
            exists|p: Seq<int>, ws: Seq<int>|
                #[trigger] self.is_route(s as int, t as int, p, ws) && total(ws) == dist[t as int]
                    && r@ == self.ids_along(p),
            s == t ==> r@ == seq![self.node(s as int).id],
    {
        let mut rev: Vec<i32> = Vec::new();
        let mut cur = t;
        rev.push(self.node_at(t).id);
        let ghost mut gp: Seq<int> = seq![t as int];
        let ghost mut gw: Seq<int> = Seq::empty();
        while cur != s
            invariant
                self.wf(),
                s < self.num_nodes(),
                t < self.num_nodes(),
                pred@.len() == self.num_nodes(),
                dist.len() == self.num_nodes(),
                done.len() == self.num_nodes(),
                dist[s as int] == 0,
                forall|v: int| 0 <= v < self.num_nodes() && #[trigger] done[v] ==> dist[v] < UNREACHABLE,
                chain_ok(*self, s as int, dist, done, pred@, pw, rank),
                cur < self.num_nodes(),
                done[cur as int],
                rank.len() == self.num_nodes(),
                0 <= rank[cur as int],
                self.is_route(cur as int, t as int, gp, gw),
                total(gw) + dist[cur as int] == dist[t as int],
                rev@.len() == gp.len(),
                forall|i: int|
                    0 <= i < rev@.len() ==> #[trigger] rev@[i] == self.node(
                        gp[gp.len() - 1 - i],
                    ).id,
                s == t ==> cur == t && gp == seq![t as int],
            decreases rank[cur as int],
        {
            let u = pred[cur];
            proof {
                reveal(chain_ok);
                assert(done[cur as int]);
                let w = pw[cur as int];
                lemma_link_facts(*self, u as int, cur as int, w);
                let gp2 = seq![u as int] + gp;
                let gw2 = seq![w] + gw;
                assert forall|i: int| 0 <= i < gw2.len() implies self.has_link(
                    gp2[i],
                    gp2[i + 1],
                    #[trigger] gw2[i],
                ) by {
                    if i > 0 {
                        assert(gw2[i] == gw[i - 1]);
                        assert(gp2[i] == gp[i - 1]);
                        assert(gp2[i + 1] == gp[i]);
                    }
                }
                assert forall|i: int| 0 <= i < gp2.len() implies 0 <= #[trigger] gp2[i]
                    < self.num_nodes() by {
                    if i > 0 {
                        assert(gp2[i] == gp[i - 1]);
                    }
                }
                lemma_total_prepend(w, gw);
                gp = gp2;
                gw = gw2;
            }
            rev.push(self.node_at(u).id);
            cur = u;
        }
        let mut path: Vec<i32> = Vec::new();
        let mut i: usize = rev.len();
        while i > 0
            invariant
                i <= rev@.len(),
                path@.len() == rev@.len() - i,
                forall|j: int| 0 <= j < path@.len() ==> #[trigger] path@[j] == rev@[rev@.len() - 1 - j],
            decreases i,
        {
            i = i - 1;
            path.push(rev[i]);
        }
        proof {
            assert(path@ =~= self.ids_along(gp));
            if s == t {
                assert(self.ids_along(gp) =~= seq![self.node(s as int).id]);
            }
            assert(self.is_route(s as int, t as int, gp, gw));
        }
        path
    }
}

/// Every link out of a settled node has been relaxed, except the links of
/// `u` from position `m` on.
#[verifier::opaque]
spec fn relaxed_but(g: Graph, dist: Seq<u64>, done: Seq<bool>, u: int, m: int) -> bool {
    forall|x: int, k: int|
        #![trigger g.link(x, k), done[x]]
        0 <= x < g.num_nodes() && done[x] && 0 <= k < g.degree(x) && (x != u || k < m)
            ==> dist[g.link(x, k).to as int] <= dist[x] + g.link(x, k).weight
}

impl Graph {
    /// The estimate of the remaining cost from dense node `a` to dense
    /// node `b`: their Manhattan distance while the heuristic is in use,
    /// else 0.
    fn heuristic(&self, a: usize, b: usize) -> (r: u64)
        requires
            self.wf(),
            a < self.num_nodes(),
            b < self.num_nodes(),
        ensures
            r == self.estimate(a as int, b as int),
    {
        if self.uses_heuristic() {
            manhattan_distance(self.node_at(a), self.node_at(b))
        } else {
            0
        }
    }

    /// The least cost of a route from `from_node_id` to `to_node_id` and
    /// the identifiers along one such route, or `None` when either node is
    /// unknown or no route costs less than `UNREACHABLE`. A node's route to
    /// itself is the node alone, at cost 0.
    pub fn shortest_path(&self, from_node_id: i32, to_node_id: i32) -> (r: Option<(u64, Vec<i32>)>)
        requires
            self.wf(),
        ensures
            self.answers(from_node_id, to_node_id, answer_view(r)),
            !self.has_id(from_node_id) || !self.has_id(to_node_id) ==> r is None,
            self.has_id(from_node_id) && from_node_id == to_node_id ==> (r matches Some((c, path))
                && c == 0 && path@ == seq![from_node_id]),
    {
        let s = match self.index_for(from_node_id) {
            Some(u) => u,
            None => {
                return None;
            },
        };
        let t = match self.index_for(to_node_id) {
            Some(u) => u,
            None => {
                return None;
            },
        };
        let n = self.node_count();
        let mut dist: Vec<u64> = Vec::new();
        let mut pred: Vec<usize> = Vec::new();
        let mut done: Vec<bool> = Vec::new();
        let mut i: usize = 0;
        while i < n
            invariant
                i <= n,
                dist@.len() == i,
                pred@.len() == i,
                done@.len() == i,
                forall|j: int| 0 <= j < i ==> #[trigger] dist@[j] == UNREACHABLE,
                forall|j: int| 0 <= j < i ==> !#[trigger] done@[j],
            decreases n - i,
        {
            dist.push(UNREACHABLE);
            pred.push(s);
            done.push(false);
            i = i + 1;
        }
        dist.set(s, 0);
        // Proof-only state: a route of each reached node's current cost
        // (`wp`, `ww`), the weight of the link from its predecessor (`pw`),
        // the order in which nodes were settled (`rank`), and the settled set.
        let ghost mut wp: Seq<Seq<int>> = Seq::new(n as nat, |v: int| seq![s as int]);
        let ghost mut ww: Seq<Seq<int>> = Seq::new(n as nat, |v: int| Seq::<int>::empty());
        let ghost mut pw: Seq<int> = Seq::new(n as nat, |v: int| 0int);
        let ghost mut rank: Seq<int> = Seq::new(n as nat, |v: int| 0int);
        let ghost mut settled: Set<int> = Set::empty();
        let mut queue: MinQueue<(u64, usize)> = MinQueue::new();
        let hs = self.heuristic(s, t);
        queue.push(hs as u128, (0, s));
        proof {
            assert(self.is_route(s as int, s as int, wp[s as int], ww[s as int]));
            assert(total(ww[s as int]) == 0);
            assert(witnesses(*self, s as int, dist@, wp, ww)) by {
                reveal(witnesses);
            }
            assert(settled_optimal(*self, s as int, dist@, done@)) by {
                reveal(settled_optimal);
            }
            lemma_start(*self, s as int, t as int, dist@, done@, pred@, pw, rank, queue@);
        }
        loop
            invariant
                self.wf(),
                n == self.num_nodes(),
                s < n,
                t < n,
                self.has_id(from_node_id),
                self.has_id(to_node_id),
                s == self.index_of(from_node_id),
                t == self.index_of(to_node_id),
                dist@.len() == n,
                pred@.len() == n,
                done@.len() == n,
                wp.len() == n,
                ww.len() == n,
                pw.len() == n,
                rank.len() == n,
                dist@[s as int] == 0,
                witnesses(*self, s as int, dist@, wp, ww),
                settled_optimal(*self, s as int, dist@, done@),
                relaxed(*self, dist@, done@),
                queued(*self, t as int, dist@, done@, queue@),
                entries_ok(*self, t as int, queue@),
                chain_ok(*self, s as int, dist@, done@, pred@, pw, rank),
                forall|v: int| 0 <= v < n && #[trigger] done@[v] ==> 0 <= rank[v] < settled.len(),
                forall|v: int| #[trigger] settled.contains(v) <==> 0 <= v < n && done@[v],
                settled.finite(),
                settled.len() <= n,
                !done@[t as int],
            decreases n - settled.len(), queue@.len(),
        {
            let ghost q0 = queue@;
            let popped = queue.pop_min();
            let (key, (g, u)) = match popped {
                Some(e) => e,
                None => {
                    proof {
                        lemma_exhausted(*self, s as int, t as int, dist@, done@, q0);
                        if s == t {
                            assert(self.is_route(
                                s as int,
                                s as int,
                                seq![s as int],
                                Seq::<int>::empty(),
                            ));
                        }
                    }
                    return None;
                },
            };
            proof {
                lemma_pop_entry(*self, t as int, dist@, done@, q0, (key, (g, u)));
            }
            // An entry for a settled node, or one whose cost has since been
            // lowered, is outdated: skip it.
            if done[u] || g != dist[u] {
                continue;
            }
            proof {
                lemma_settle(*self, s as int, t as int, dist@, done@, q0, u as int);
                lemma_mark_settled(
                    *self,
                    s as int,
                    t as int,
                    dist@,
                    done@,
                    pred@,
                    pw,
                    rank,
                    q0,
                    u as int,
                    settled.len() as int,
                );
                assert(!settled.contains(u as int));
                rank = rank.update(u as int, settled.len() as int);
                settled = settled.insert(u as int);
                vstd::set_lib::lemma_int_range(0, n as int);
                vstd::set_lib::lemma_len_subset(settled, vstd::set_lib::set_int_range(0, n as int));
            }
            done.set(u, true);
            if u == t {
                let path = self.trace_path(
                    &pred,
                    s,
                    t,
                    Ghost(dist@),
                    Ghost(done@),
                    Ghost(pw),
                    Ghost(rank),
                );
                return Some((dist[t], path));
            }
            // Relax every link of `u`; the sum saturates at `UNREACHABLE`.
            let links = self.links_at(u);
            let du = dist[u];
            let mut k: usize = 0;
            while k < links.len()
                invariant
                    self.wf(),
                    n == self.num_nodes(),
                    s < n,
                    t < n,
                    u < n,
                    u != t,
                    links@ == self.links_of(u as int),
                    k <= links@.len(),
                    dist@.len() == n,
                    pred@.len() == n,
                    done@.len() == n,
                    wp.len() == n,
                    ww.len() == n,
                    pw.len() == n,
                    rank.len() == n,
                    done@[u as int],
                    dist@[u as int] == du,
                    dist@[s as int] == 0,
                    witnesses(*self, s as int, dist@, wp, ww),
                    settled_optimal(*self, s as int, dist@, done@),
                    relaxed_but(*self, dist@, done@, u as int, k as int),
                    queued(*self, t as int, dist@, done@, queue@),
                    entries_ok(*self, t as int, queue@),
                    chain_ok(*self, s as int, dist@, done@, pred@, pw, rank),
                    forall|v: int| 0 <= v < n && #[trigger] done@[v] ==> 0 <= rank[v] < settled.len(),
                    forall|v: int| #[trigger] settled.contains(v) <==> 0 <= v < n && done@[v],
                    settled.finite(),
                    settled.len() <= n,
                    !done@[t as int],
                decreases links@.len() - k,
            {
                let l = links[k];
                assert(self.link(u as int, k as int) == l);
                let v = l.to;
                let ng = du.saturating_add(l.weight as u64);
                if ng < dist[v] {
                    proof {
                        lemma_relax_update(
                            *self,
                            s as int,
                            t as int,
                            u as int,
                            k as int,
                            dist@,
                            done@,
                            pred@,
                            pw,
                            rank,
                            wp,
                            ww,
                            queue@,
                            ng,
                        );
                        let w = l.weight as int;
                        wp = wp.update(v as int, wp[u as int].push(v as int));
                        ww = ww.update(v as int, ww[u as int].push(w));
                        pw = pw.update(v as int, w);
                    }
                    dist.set(v, ng);
                    pred.set(v, u);
                    let hv = self.heuristic(v, t);
                    queue.push(ng as u128 + hv as u128, (ng, v));
                } else {
                    proof {
                        lemma_relax_skip(*self, dist@, done@, u as int, k as int);
                    }
                }
                k = k + 1;
            }
            proof {
                lemma_relaxed_all(*self, dist@, done@, u as int);
            }
        }
    }

    /// Answers each `(from, to)` pair as `shortest_path` does, in the order
    /// of the pairs.
    pub fn shortest_paths(&self, pairs: &Vec<(i32, i32)>) -> (r: Vec<Option<(u64, Vec<i32>)>>)
        requires
            self.wf(),
        ensures
            r@.len() == pairs@.len(),
            forall|i: int|
                0 <= i < pairs@.len() ==> self.answers(
                    pairs@[i].0,
                    pairs@[i].1,
                    #[trigger] answer_view(r@[i]),
                ),
    {
        let mut out: Vec<Option<(u64, Vec<i32>)>> = Vec::new();
        let mut i: usize = 0;
        while i < pairs.len()
            invariant
                self.wf(),
                i <= pairs@.len(),
                out@.len() == i,
                forall|j: int|
                    0 <= j < i ==> self.answers(
                        pairs@[j].0,
                        pairs@[j].1,
                        #[trigger] answer_view(out@[j]),
                    ),
            decreases pairs@.len() - i,
        {
            let (a, b) = pairs[i];
            let r = self.shortest_path(a, b);
            out.push(r);
            i = i + 1;
        }
        out
    }
}

} // verus!
