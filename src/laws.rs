//! Properties that relate several queries, proved from the contracts of
//! `shortest_path` and `shortest_paths`.

use crate::graph::{lemma_same_network_links, Graph};
use crate::route::{lemma_link_facts, lemma_total_prepend, total, UNREACHABLE};
use vstd::prelude::*;

verus! {

/// Reversing a route gives a route back, at the same cost.
pub proof fn lemma_reverse_route(g: Graph, s: int, t: int, p: Seq<int>, ws: Seq<int>)
    requires
        g.wf(),
        g.is_route(s, t, p, ws),
    ensures
        g.is_route(t, s, p.reverse(), ws.reverse()),
        total(ws.reverse()) == total(ws),
    decreases ws.len(),
{
    let rp = p.reverse();
    let rw = ws.reverse();
    let m = ws.len();
    assert forall|i: int| 0 <= i < rw.len() implies g.has_link(
        rp[i],
        rp[i + 1],
        #[trigger] rw[i],
    ) by {
        let j = m - 1 - i;
        assert(rw[i] == ws[j]);
        assert(rp[i] == p[j + 1]);
        assert(rp[i + 1] == p[j]);
        assert(g.has_link(p[j], p[j + 1], ws[j]));
        lemma_link_facts(g, p[j], p[j + 1], ws[j]);
    }
    assert forall|i: int| 0 <= i < rp.len() implies 0 <= #[trigger] rp[i] < g.num_nodes() by {
        assert(rp[i] == p[p.len() - 1 - i]);
    }
    if m > 0 {
        let p2 = p.drop_last();
        let w2 = ws.drop_last();
        assert forall|i: int| 0 <= i < w2.len() implies g.has_link(
            p2[i],
            p2[i + 1],
            #[trigger] w2[i],
        ) by {
            assert(w2[i] == ws[i]);
        }
        lemma_reverse_route(g, s, p2.last(), p2, w2);
        assert(rw =~= seq![ws.last()] + w2.reverse());
        lemma_total_prepend(ws.last(), w2.reverse());
    } else {
        assert(rw =~= ws);
    }
}

/// Two answers to the same query on the same graph agree on whether a
/// route was found and on its cost.
pub proof fn lemma_answer_cost_unique(
    g: Graph,
    a: i32,
    b: i32,
    r1: Option<(u64, Seq<i32>)>,
    r2: Option<(u64, Seq<i32>)>,
)
    requires
        g.wf(),
        g.answers(a, b, r1),
        g.answers(a, b, r2),
    ensures
        r1 is Some <==> r2 is Some,
        r1 is Some ==> r1.unwrap().0 == r2.unwrap().0,
{
    let s = g.index_of(a);
    let t = g.index_of(b);
    if let Some((c1, _)) = r1 {
        let (p1, w1) = choose|p: Seq<int>, ws: Seq<int>|
            #[trigger] g.is_route(s, t, p, ws) && total(ws) == c1 && r1.unwrap().1 == g.ids_along(p);
        assert(g.is_route(s, t, p1, w1));
        if let Some((c2, _)) = r2 {
            let (p2, w2) = choose|p: Seq<int>, ws: Seq<int>|
                #[trigger] g.is_route(s, t, p, ws) && total(ws) == c2 && r2.unwrap().1 == g.ids_along(p);
            assert(g.is_route(s, t, p2, w2));
        }
    }
}

/// Routes are undirected: the query from `a` to `b` and the query from `b`
/// to `a` both find a route or both find none, and at the same cost.
pub proof fn lemma_symmetric_cost(
    g: Graph,
    a: i32,
    b: i32,
    r1: Option<(u64, Seq<i32>)>,
    r2: Option<(u64, Seq<i32>)>,
)
    requires
        g.wf(),
        g.answers(a, b, r1),
        g.answers(b, a, r2),
    ensures
        r1 is Some <==> r2 is Some,
        r1 is Some ==> r1.unwrap().0 == r2.unwrap().0,
{
    let s = g.index_of(a);
    let t = g.index_of(b);
    if let Some((c1, _)) = r1 {
        let (p1, w1) = choose|p: Seq<int>, ws: Seq<int>|
            #[trigger] g.is_route(s, t, p, ws) && total(ws) == c1 && r1.unwrap().1 == g.ids_along(p);
        lemma_reverse_route(g, s, t, p1, w1);
        assert(g.is_route(t, s, p1.reverse(), w1.reverse()));
    }
    if let Some((c2, _)) = r2 {
        let (p2, w2) = choose|p: Seq<int>, ws: Seq<int>|
            #[trigger] g.is_route(t, s, p, ws) && total(ws) == c2 && r2.unwrap().1 == g.ids_along(p);
        lemma_reverse_route(g, t, s, p2, w2);
        assert(g.is_route(s, t, p2.reverse(), w2.reverse()));
    }
}

/// A walk that starts in a set of nodes that no edge leaves stays in it.
pub proof fn lemma_walk_stays(g: Graph, part: Set<int>, p: Seq<int>, ws: Seq<int>, i: int)
    requires
        g.wf(),
        g.is_walk(p, ws),
        part.contains(p[0]),
        forall|u: int, k: int|
            0 <= u < g.num_nodes() && part.contains(u) && 0 <= k < g.degree(u) ==> part.contains(
                #[trigger] g.link(u, k).to as int,
            ),
        0 <= i < p.len(),
    ensures
        part.contains(p[i]),
    decreases i,
{
    if i > 0 {
        lemma_walk_stays(g, part, p, ws, i - 1);
        assert(g.has_link(p[i - 1], p[i], ws[i - 1]));
        let u = p[i - 1];
        let k = choose|k: int|
            0 <= k < g.degree(u) && #[trigger] g.link(u, k).to as int == p[i] && g.link(
                u,
                k,
            ).weight as int == ws[i - 1];
    }
}

/// A query from a node inside a set of nodes that no edge leaves to a node
/// outside it finds no route: separate components do not reach each other.
pub proof fn lemma_separated_none(
    g: Graph,
    part: Set<int>,
    a: i32,
    b: i32,
    r: Option<(u64, Seq<i32>)>,
)
    requires
        g.wf(),
        g.has_id(a),
        g.has_id(b),
        part.contains(g.index_of(a)),
        !part.contains(g.index_of(b)),
        forall|u: int, k: int|
            0 <= u < g.num_nodes() && part.contains(u) && 0 <= k < g.degree(u) ==> part.contains(
                #[trigger] g.link(u, k).to as int,
            ),
        g.answers(a, b, r),
    ensures
        r is None,
{
    let s = g.index_of(a);
    let t = g.index_of(b);
    if let Some((c, _)) = r {
        let (p, ws) = choose|p: Seq<int>, ws: Seq<int>|
            #[trigger] g.is_route(s, t, p, ws) && total(ws) == c && r.unwrap().1 == g.ids_along(p);
        lemma_walk_stays(g, part, p, ws, p.len() - 1);
    }
}

/// Whether the distance heuristic is in use changes no cost: two graphs
/// with the same nodes and edges, one with and one without the
/// heuristic, answer a query alike in whether a route exists and in its
/// cost. Only the route reported may differ, among routes of least cost.
pub proof fn lemma_heuristic_neutral(
    g1: Graph,
    g2: Graph,
    a: i32,
    b: i32,
    r1: Option<(u64, Seq<i32>)>,
    r2: Option<(u64, Seq<i32>)>,
)
    requires
        g1.wf(),
        g2.wf(),
        g1.same_network(g2),
        g1.answers(a, b, r1),
        g2.answers(a, b, r2),
    ensures
        r1 is Some <==> r2 is Some,
        r1 is Some ==> r1.unwrap().0 == r2.unwrap().0,
{
    lemma_same_network_links(g1, g2);
    assert forall|s: int, t: int, p: Seq<int>, ws: Seq<int>|
        #[trigger] g1.is_route(s, t, p, ws) == g2.is_route(s, t, p, ws) by {
        if g1.is_walk(p, ws) {
            assert forall|i: int| 0 <= i < ws.len() implies g2.has_link(
                p[i],
                p[i + 1],
                #[trigger] ws[i],
            ) by {
                assert(0 <= p[i] < g1.num_nodes());
            }
        }
        if g2.is_walk(p, ws) {
            assert forall|i: int| 0 <= i < ws.len() implies g1.has_link(
                p[i],
                p[i + 1],
                #[trigger] ws[i],
            ) by {
                assert(0 <= p[i] < g2.num_nodes());
            }
        }
    }
    assert(g1.ids_along(Seq::empty()) == g2.ids_along(Seq::empty()));
    assert forall|p: Seq<int>| #[trigger] g1.ids_along(p) == g2.ids_along(p) by {
        assert(g1.ids_along(p) =~= g2.ids_along(p));
    }
    let s = g1.index_of(a);
    let t = g1.index_of(b);
    match r1 {
        None => {
            if g1.has_id(a) && g1.has_id(b) {
                assert forall|p: Seq<int>, ws: Seq<int>| #[trigger]
                    g2.is_route(s, t, p, ws) implies UNREACHABLE <= total(ws) by {
                    assert(g1.is_route(s, t, p, ws));
                }
            }
        },
        Some((c, path)) => {
            assert forall|p: Seq<int>, ws: Seq<int>| #[trigger] g2.is_route(s, t, p, ws) implies c
                <= total(ws) by {
                assert(g1.is_route(s, t, p, ws));
            }
            let (p, ws) = choose|p: Seq<int>, ws: Seq<int>|
                #[trigger] g1.is_route(s, t, p, ws) && total(ws) == c && path == g1.ids_along(p);
            assert(g2.is_route(s, t, p, ws));
            assert(g2.ids_along(p) == g1.ids_along(p));
        },
    }
    assert(g2.answers(a, b, r1));
    lemma_answer_cost_unique(g2, a, b, r1, r2);
}

/// Each answer of a batch agrees with any answer of the single query on
/// the same pair: both find a route or neither does, at the same cost.
pub proof fn lemma_batch_matches_single(
    g: Graph,
    pairs: Seq<(i32, i32)>,
    batch: Seq<Option<(u64, Seq<i32>)>>,
    i: int,
    single: Option<(u64, Seq<i32>)>,
)
    requires
        g.wf(),
        batch.len() == pairs.len(),
        forall|j: int| 0 <= j < pairs.len() ==> g.answers(pairs[j].0, pairs[j].1, #[trigger] batch[j]),
        0 <= i < pairs.len(),
        g.answers(pairs[i].0, pairs[i].1, single),
    ensures
        batch[i] is Some <==> single is Some,
        single is Some ==> batch[i].unwrap().0 == single.unwrap().0,
{
    lemma_answer_cost_unique(g, pairs[i].0, pairs[i].1, batch[i], single);
}

} // verus!
