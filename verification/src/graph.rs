//! The vertex-adjacency graph and the shortest edge-following path.
//!
//! Every ordered pair of corners of every input triangle contributes an
//! entry `(neighbor, weight)`; the weight of an edge is the same in both
//! directions, so the graph is symmetric by construction.  The initial
//! path is the cheapest route over these entries.

use vstd::prelude::*;

verus! {

/// The slot of the unordered corner pair `{p, q}` of a triangle in its
/// weight block: `{0,1}` first, `{0,2}` second, `{1,2}` third.
pub open spec fn pair_slot(p: int, q: int) -> int {
    p + q - 1
}

/// Corner `c` of triangle `t` in the flat index list.
pub open spec fn tri_corner(tris: Seq<usize>, t: int, c: int) -> usize {
    tris[3 * t + c]
}

/// The weight stored for the corner pair `{p, q}` of triangle `t`.
pub open spec fn pair_weight(weights: Seq<i32>, t: int, p: int, q: int) -> i32 {
    weights[3 * t + pair_slot(p, q)]
}

/// Whether corner `p` of triangle `t` is `u`, corner `q` is `x`, and the
/// weight stored for that corner pair is `w`.
pub open spec fn tri_gives_edge(
    tris: Seq<usize>,
    weights: Seq<i32>,
    t: int,
    p: int,
    q: int,
    u: usize,
    x: usize,
    w: i32,
) -> bool {
    &&& 0 <= t < tris.len() / 3
    &&& 0 <= p < 3
    &&& 0 <= q < 3
    &&& p != q
    &&& tri_corner(tris, t, p) == u
    &&& tri_corner(tris, t, q) == x
    &&& pair_weight(weights, t, p, q) == w
}

/// Whether some triangle contributes the entry `(x, w)` to the adjacency
/// list of `u`.
pub open spec fn tri_entry(
    tris: Seq<usize>,
    weights: Seq<i32>,
    u: usize,
    x: usize,
    w: i32,
) -> bool {
    exists|t: int, p: int, q: int| tri_gives_edge(tris, weights, t, p, q, u, x, w)
}

/// As `tri_entry`, over the first `tcount` triangles only.
pub open spec fn tri_entry_upto(
    tris: Seq<usize>,
    weights: Seq<i32>,
    tcount: int,
    u: usize,
    x: usize,
    w: i32,
) -> bool {
    exists|t: int, p: int, q: int| t < tcount && tri_gives_edge(tris, weights, t, p, q, u, x, w)
}

/// The mathematical view of an adjacency structure.
pub open spec fn adj_view(adj: Vec<Vec<(usize, i32)>>) -> Seq<Seq<(usize, i32)>> {
    adj@.map_values(|row: Vec<(usize, i32)>| row@)
}

/// Every entry names a vertex of the graph and carries a non-negative
/// weight.
pub open spec fn graph_ok(g: Seq<Seq<(usize, i32)>>) -> bool {
    forall|u: int, k: int|
        0 <= u < g.len() && 0 <= k < g[u].len() ==> {
            &&& ((#[trigger] g[u][k]).0 as int) < g.len()
            &&& g[u][k].1 >= 0
        }
}

/// Every held entry comes from a triangle.
pub open spec fn graph_sound(
    g: Seq<Seq<(usize, i32)>>,
    tris: Seq<usize>,
    weights: Seq<i32>,
) -> bool {
    forall|u: int, k: int|
        0 <= u < g.len() && 0 <= k < g[u].len() ==> tri_entry(
            tris,
            weights,
            u as usize,
            (#[trigger] g[u][k]).0,
            g[u][k].1,
        )
}

pub open spec fn graph_sound_upto(
    g: Seq<Seq<(usize, i32)>>,
    tris: Seq<usize>,
    weights: Seq<i32>,
    tcount: int,
) -> bool {
    forall|u: int, k: int|
        0 <= u < g.len() && 0 <= k < g[u].len() ==> tri_entry_upto(
            tris,
            weights,
            tcount,
            u as usize,
            (#[trigger] g[u][k]).0,
            g[u][k].1,
        )
}

/// Every triangle's ordered corner pairs are all present.
pub open spec fn graph_complete(
    g: Seq<Seq<(usize, i32)>>,
    tris: Seq<usize>,
    weights: Seq<i32>,
) -> bool {
    forall|t: int, p: int, q: int| #![trigger tri_corner(tris, t, p), tri_corner(tris, t, q)]
        0 <= t < tris.len() / 3 && 0 <= p < 3 && 0 <= q < 3 && p != q ==> g[tri_corner(
            tris,
            t,
            p,
        ) as int].contains((tri_corner(tris, t, q), pair_weight(weights, t, p, q)))
}

pub open spec fn graph_complete_upto(
    g: Seq<Seq<(usize, i32)>>,
    tris: Seq<usize>,
    weights: Seq<i32>,
    tcount: int,
) -> bool {
    forall|t: int, p: int, q: int| #![trigger tri_corner(tris, t, p), tri_corner(tris, t, q)]
        0 <= t < tcount && 0 <= p < 3 && 0 <= q < 3 && p != q ==> g[tri_corner(
            tris,
            t,
            p,
        ) as int].contains((tri_corner(tris, t, q), pair_weight(weights, t, p, q)))
}

/// An edge between consecutive path vertices.
pub open spec fn adj_has_edge(g: Seq<Seq<(usize, i32)>>, u: usize, v: usize) -> bool {
    exists|k: int| 0 <= k < g[u as int].len() && (#[trigger] g[u as int][k]).0 == v
}

/// A vertex sequence each of whose steps follows an entry of the graph.
pub open spec fn is_graph_path(g: Seq<Seq<(usize, i32)>>, p: Seq<usize>) -> bool {
    &&& p.len() >= 1
    &&& forall|i: int| 0 <= i < p.len() ==> ((#[trigger] p[i]) as int) < g.len()
    &&& forall|i: int| 0 <= i < p.len() - 1 ==> adj_has_edge(g, #[trigger] p[i], p[i + 1])
}

/// A graph path from `s` to `e`.
pub open spec fn connects(g: Seq<Seq<(usize, i32)>>, p: Seq<usize>, s: usize, e: usize) -> bool {
    is_graph_path(g, p) && p.first() == s && p.last() == e
}

/// The cheapest weight an adjacency row offers toward `v`; one past the
/// largest weight where the row offers none.
pub open spec fn min_weight(row: Seq<(usize, i32)>, v: usize) -> int
    decreases row.len(),
{
    if row.len() == 0 {
        0x8000_0000
    } else {
        let rest = min_weight(row.drop_first(), v);
        if row.first().0 == v && (row.first().1 as int) < rest {
            (row.first().1 as int)
        } else {
            rest
        }
    }
}

/// The cost of a path: the sum over its steps of the cheapest entry for
/// each step.
pub open spec fn path_cost(g: Seq<Seq<(usize, i32)>>, p: Seq<usize>) -> int
    decreases p.len(),
{
    if p.len() <= 1 {
        0
    } else {
        min_weight(g[p.first() as int], p[1]) + path_cost(g, p.drop_first())
    }
}

/// The graph is symmetric: an entry `(x, w)` in the list of `u` stands
/// beside an entry `(u, w)` in the list of `x`.  This holds of every graph
/// the builder produces, because each triangle writes both directions of
/// each of its edges with one weight.
pub proof fn lemma_graph_symmetric(
    g: Seq<Seq<(usize, i32)>>,
    tris: Seq<usize>,
    weights: Seq<i32>,
    u: usize,
    x: usize,
    w: i32,
)
    requires
        graph_sound(g, tris, weights),
        graph_complete(g, tris, weights),
        forall|i: int| 0 <= i < tris.len() ==> ((#[trigger] tris[i]) as int) < g.len(),
        (u as int) < g.len(),
        (x as int) < g.len(),
    ensures
        g[u as int].contains((x, w)) <==> g[x as int].contains((u, w)),
{
    if g[u as int].contains((x, w)) {
        let k = choose|k: int| 0 <= k < g[u as int].len() && g[u as int][k] == (x, w);
        assert(g[u as int][k] == (x, w));
        assert(tri_entry(tris, weights, u, x, w));
        let (t, p, q) = choose|t: int, p: int, q: int|
            tri_gives_edge(tris, weights, t, p, q, u, x, w);
        assert(pair_slot(q, p) == pair_slot(p, q));
        assert(pair_weight(weights, t, q, p) == pair_weight(weights, t, p, q));
        assert(g[tri_corner(tris, t, q) as int].contains(
            (tri_corner(tris, t, p), pair_weight(weights, t, q, p)),
        ));
    }
    if g[x as int].contains((u, w)) {
        let k = choose|k: int| 0 <= k < g[x as int].len() && g[x as int][k] == (u, w);
        assert(g[x as int][k] == (u, w));
        assert(tri_entry(tris, weights, x, u, w));
        let (t, p, q) = choose|t: int, p: int, q: int|
            tri_gives_edge(tris, weights, t, p, q, x, u, w);
        assert(pair_slot(q, p) == pair_slot(p, q));
        assert(pair_weight(weights, t, q, p) == pair_weight(weights, t, p, q));
        assert(g[tri_corner(tris, t, q) as int].contains(
            (tri_corner(tris, t, p), pair_weight(weights, t, q, p)),
        ));
    }
}

/// Build the adjacency graph of `n` vertices from the triangle list and
/// one weight per triangle corner pair (first the pair of the first two
/// corners, then first and last, then the last two).
#[verifier::rlimit(60)]
pub fn build_graph(n: usize, tris: &Vec<usize>, weights: &Vec<i32>) -> (adj: Vec<
    Vec<(usize, i32)>,
>)
    requires
        tris@.len() % 3 == 0,
        weights@.len() == tris@.len(),
        forall|i: int| 0 <= i < tris@.len() ==> ((#[trigger] tris@[i]) as int) < n,
        forall|i: int| 0 <= i < weights@.len() ==> #[trigger] weights@[i] >= 0,
    ensures
        adj_view(adj).len() == n,
        graph_ok(adj_view(adj)),
        graph_sound(adj_view(adj), tris@, weights@),
        graph_complete(adj_view(adj), tris@, weights@),
{
    let mut adj: Vec<Vec<(usize, i32)>> = Vec::new();
    let mut i: usize = 0;
    while i < n
        invariant
            adj@.len() == i,
            0 <= i <= n,
            forall|u: int| 0 <= u < i ==> (#[trigger] adj@[u])@.len() == 0,
        decreases n - i,
    {
        adj.push(Vec::new());
        i += 1;
    }
    let tlen = tris.len() / 3;
    let mut t: usize = 0;
    while t < tlen
        invariant
            tlen == tris@.len() / 3,
            tris@.len() % 3 == 0,
            weights@.len() == tris@.len(),
            forall|ii: int| 0 <= ii < tris@.len() ==> ((#[trigger] tris@[ii]) as int) < n,
            forall|ii: int| 0 <= ii < weights@.len() ==> #[trigger] weights@[ii] >= 0,
            0 <= t <= tlen,
            adj@.len() == n,
            graph_ok(adj_view(adj)),
            graph_sound_upto(adj_view(adj), tris@, weights@, t as int),
            graph_complete_upto(adj_view(adj), tris@, weights@, t as int),
            t == tlen ==> graph_sound(adj_view(adj), tris@, weights@),
            t == tlen ==> graph_complete(adj_view(adj), tris@, weights@),
        decreases tlen - t,
    {
        let ghost told = t as int;
        proof {
            assert(tris@.len() == 3 * (tris@.len() / 3) + (tris@.len() % 3)) by (nonlinear_arith);
            assert(tris@.len() == tris.len());
            assert(3 * told + 2 < tris@.len());
        }
        let c0 = tris[3 * t];
        let c1 = tris[3 * t + 1];
        let c2 = tris[3 * t + 2];
        let w01 = weights[3 * t];
        let w02 = weights[3 * t + 1];
        let w12 = weights[3 * t + 2];
        let ghost g0 = adj_view(adj);
        adj[c0].push((c1, w01));
        adj[c0].push((c2, w02));
        let ghost g1 = adj_view(adj);
        proof {
            assert(g1 =~= g0.update(c0 as int, g0[c0 as int].push((c1, w01)).push((c2, w02))));
        }
        adj[c1].push((c0, w01));
        adj[c1].push((c2, w12));
        let ghost g2 = adj_view(adj);
        proof {
            assert(g2 =~= g1.update(c1 as int, g1[c1 as int].push((c0, w01)).push((c2, w12))));
        }
        adj[c2].push((c0, w02));
        adj[c2].push((c1, w12));
        let ghost g3 = adj_view(adj);
        proof {
            assert(g3 =~= g2.update(c2 as int, g2[c2 as int].push((c0, w02)).push((c1, w12))));
        }
        t += 1;
        proof {
            lemma_graph_build_step(
                g0, g1, g2, g3, tris@, weights@, told, n as int, c0, c1, c2, w01, w02, w12,
            );
            if t == tlen {
                lemma_graph_build_done(g3, tris@, weights@, n as int);
            }
        }
    }
    adj
}

/// One triangle's six directed entries, appended to the three corner rows
/// in turn, preserve the builder's invariants and add the triangle itself.
#[verifier::rlimit(60)]
proof fn lemma_graph_build_step(
    g0: Seq<Seq<(usize, i32)>>,
    g1: Seq<Seq<(usize, i32)>>,
    g2: Seq<Seq<(usize, i32)>>,
    g3: Seq<Seq<(usize, i32)>>,
    tris: Seq<usize>,
    weights: Seq<i32>,
    told: int,
    n: int,
    c0: usize,
    c1: usize,
    c2: usize,
    w01: i32,
    w02: i32,
    w12: i32,
)
    requires
        tris.len() % 3 == 0,
        weights.len() == tris.len(),
        forall|i: int| 0 <= i < tris.len() ==> ((#[trigger] tris[i]) as int) < n,
        forall|i: int| 0 <= i < weights.len() ==> #[trigger] weights[i] >= 0,
        0 <= told < tris.len() / 3,
        g0.len() == n,
        tri_corner(tris, told, 0) == c0,
        tri_corner(tris, told, 1) == c1,
        tri_corner(tris, told, 2) == c2,
        pair_weight(weights, told, 0, 1) == w01,
        pair_weight(weights, told, 0, 2) == w02,
        pair_weight(weights, told, 1, 2) == w12,
        g1 == g0.update(c0 as int, g0[c0 as int].push((c1, w01)).push((c2, w02))),
        g2 == g1.update(c1 as int, g1[c1 as int].push((c0, w01)).push((c2, w12))),
        g3 == g2.update(c2 as int, g2[c2 as int].push((c0, w02)).push((c1, w12))),
        graph_ok(g0),
        graph_sound_upto(g0, tris, weights, told),
        graph_complete_upto(g0, tris, weights, told),
    ensures
        g3.len() == n,
        graph_ok(g3),
        graph_sound_upto(g3, tris, weights, told + 1),
        graph_complete_upto(g3, tris, weights, told + 1),
{
    assert((c0 as int) < n && (c1 as int) < n && (c2 as int) < n);
    // rows only grow
    assert forall|v: int, e: (usize, i32)| 0 <= v < n && g0[v].contains(e) implies g3[
        v
    ].contains(e) by {
        if v == c0 as int {
            vstd::seq_lib::lemma_seq_contains_after_push(g0[v], (c1, w01), e);
            vstd::seq_lib::lemma_seq_contains_after_push(g0[v].push((c1, w01)), (c2, w02), e);
        }
        assert(g1[v].contains(e));
        if v == c1 as int {
            vstd::seq_lib::lemma_seq_contains_after_push(g1[v], (c0, w01), e);
            vstd::seq_lib::lemma_seq_contains_after_push(g1[v].push((c0, w01)), (c2, w12), e);
        }
        assert(g2[v].contains(e));
        if v == c2 as int {
            vstd::seq_lib::lemma_seq_contains_after_push(g2[v], (c0, w02), e);
            vstd::seq_lib::lemma_seq_contains_after_push(g2[v].push((c0, w02)), (c1, w12), e);
        }
        assert(g3[v].contains(e));
    }
    // the six entries of this triangle are present in the final state
    assert(g3[c0 as int].contains((c1, w01))) by {
        vstd::seq_lib::lemma_seq_contains_after_push(g0[c0 as int], (c1, w01), (c1, w01));
        vstd::seq_lib::lemma_seq_contains_after_push(
            g0[c0 as int].push((c1, w01)),
            (c2, w02),
            (c1, w01),
        );
        assert(g1[c0 as int].contains((c1, w01)));
        if c1 as int == c0 as int {
            vstd::seq_lib::lemma_seq_contains_after_push(g1[c1 as int], (c0, w01), (c1, w01));
            vstd::seq_lib::lemma_seq_contains_after_push(
                g1[c1 as int].push((c0, w01)),
                (c2, w12),
                (c1, w01),
            );
        }
        assert(g2[c0 as int].contains((c1, w01)));
        if c2 as int == c0 as int {
            vstd::seq_lib::lemma_seq_contains_after_push(g2[c2 as int], (c0, w02), (c1, w01));
            vstd::seq_lib::lemma_seq_contains_after_push(
                g2[c2 as int].push((c0, w02)),
                (c1, w12),
                (c1, w01),
            );
        }
        assert(g3[c0 as int].contains((c1, w01)));
    }
    assert(g3[c0 as int].contains((c2, w02))) by {
        vstd::seq_lib::lemma_seq_contains_after_push(
            g0[c0 as int].push((c1, w01)),
            (c2, w02),
            (c2, w02),
        );
        assert(g1[c0 as int].contains((c2, w02)));
        if c1 as int == c0 as int {
            vstd::seq_lib::lemma_seq_contains_after_push(g1[c1 as int], (c0, w01), (c2, w02));
            vstd::seq_lib::lemma_seq_contains_after_push(
                g1[c1 as int].push((c0, w01)),
                (c2, w12),
                (c2, w02),
            );
        }
        assert(g2[c0 as int].contains((c2, w02)));
        if c2 as int == c0 as int {
            vstd::seq_lib::lemma_seq_contains_after_push(g2[c2 as int], (c0, w02), (c2, w02));
            vstd::seq_lib::lemma_seq_contains_after_push(
                g2[c2 as int].push((c0, w02)),
                (c1, w12),
                (c2, w02),
            );
        }
        assert(g3[c0 as int].contains((c2, w02)));
    }
    assert(g3[c1 as int].contains((c0, w01))) by {
        vstd::seq_lib::lemma_seq_contains_after_push(g1[c1 as int], (c0, w01), (c0, w01));
        vstd::seq_lib::lemma_seq_contains_after_push(
            g1[c1 as int].push((c0, w01)),
            (c2, w12),
            (c0, w01),
        );
        assert(g2[c1 as int].contains((c0, w01)));
        if c2 as int == c1 as int {
            vstd::seq_lib::lemma_seq_contains_after_push(g2[c2 as int], (c0, w02), (c0, w01));
            vstd::seq_lib::lemma_seq_contains_after_push(
                g2[c2 as int].push((c0, w02)),
                (c1, w12),
                (c0, w01),
            );
        }
        assert(g3[c1 as int].contains((c0, w01)));
    }
    assert(g3[c1 as int].contains((c2, w12))) by {
        vstd::seq_lib::lemma_seq_contains_after_push(
            g1[c1 as int].push((c0, w01)),
            (c2, w12),
            (c2, w12),
        );
        assert(g2[c1 as int].contains((c2, w12)));
        if c2 as int == c1 as int {
            vstd::seq_lib::lemma_seq_contains_after_push(g2[c2 as int], (c0, w02), (c2, w12));
            vstd::seq_lib::lemma_seq_contains_after_push(
                g2[c2 as int].push((c0, w02)),
                (c1, w12),
                (c2, w12),
            );
        }
        assert(g3[c1 as int].contains((c2, w12)));
    }
    assert(g3[c2 as int].contains((c0, w02))) by {
        vstd::seq_lib::lemma_seq_contains_after_push(g2[c2 as int], (c0, w02), (c0, w02));
        vstd::seq_lib::lemma_seq_contains_after_push(
            g2[c2 as int].push((c0, w02)),
            (c1, w12),
            (c0, w02),
        );
    }
    assert(g3[c2 as int].contains((c1, w12))) by {
        vstd::seq_lib::lemma_seq_contains_after_push(
            g2[c2 as int].push((c0, w02)),
            (c1, w12),
            (c1, w12),
        );
    }
    // completeness
    assert forall|tt: int, p: int, q: int|
        #![trigger tri_corner(tris, tt, p), tri_corner(tris, tt, q)]
        0 <= tt < told + 1 && 0 <= p < 3 && 0 <= q < 3 && p != q implies g3[tri_corner(
        tris,
        tt,
        p,
    ) as int].contains((tri_corner(tris, tt, q), pair_weight(weights, tt, p, q))) by {
        if tt < told {
            assert(g0[tri_corner(tris, tt, p) as int].contains(
                (tri_corner(tris, tt, q), pair_weight(weights, tt, p, q)),
            ));
            assert((tri_corner(tris, tt, p) as int) < n);
        } else {
            assert(tt == told);
            if p == 0 && q == 1 {
                assert(g3[c0 as int].contains((c1, w01)));
            } else if p == 0 && q == 2 {
                assert(g3[c0 as int].contains((c2, w02)));
            } else if p == 1 && q == 0 {
                assert(g3[c1 as int].contains((c0, w01)));
            } else if p == 1 && q == 2 {
                assert(g3[c1 as int].contains((c2, w12)));
            } else if p == 2 && q == 0 {
                assert(g3[c2 as int].contains((c0, w02)));
            } else {
                assert(g3[c2 as int].contains((c1, w12)));
            }
        }
    }
    // soundness
    assert forall|u: int, k: int|
        0 <= u < n && 0 <= k < g3[u].len() implies tri_entry_upto(
        tris,
        weights,
        told + 1,
        u as usize,
        (#[trigger] g3[u][k]).0,
        g3[u][k].1,
    ) by {
        let e = g3[u][k];
        let fresh = seq![(c1, w01), (c2, w02), (c0, w01), (c2, w12), (c0, w02), (c1, w12)];
        if u == c0 as int || u == c1 as int || u == c2 as int {
            if k < g0[u].len() && g0[u][k] == e {
                assert(g0[u].contains(e));
                assert(tri_entry_upto(tris, weights, told, u as usize, e.0, e.1));
                let (t9, p9, q9) = choose|t9: int, p9: int, q9: int|
                    #![trigger tri_gives_edge(tris, weights, t9, p9, q9, u as usize, e.0, e.1)]
                    t9 < told && tri_gives_edge(tris, weights, t9, p9, q9, u as usize, e.0, e.1);
                assert(t9 < told + 1 && tri_gives_edge(
                    tris,
                    weights,
                    t9,
                    p9,
                    q9,
                    u as usize,
                    e.0,
                    e.1,
                ));
            } else {
                // one of this triangle's fresh entries on this row
                assert(e == (c1, w01) || e == (c2, w02) || e == (c0, w01) || e == (c2, w12) || e
                    == (c0, w02) || e == (c1, w12)) by {
                    assert(k >= g0[u].len() || g0[u][k] != e);
                    if u == c0 as int && k < g1[u].len() {
                        assert(e == (c1, w01) || e == (c2, w02));
                    } else if u == c1 as int && k < g2[u].len() {
                        if k < g1[u].len() {
                            assert(g1[u][k] == e);
                            if u == c0 as int {
                            } else {
                                assert(g1[u] == g0[u]);
                            }
                        } else {
                            assert(e == (c0, w01) || e == (c2, w12));
                        }
                    } else if u == c2 as int {
                        if k < g2[u].len() {
                            if k < g1[u].len() {
                                if u != c0 as int {
                                    assert(g1[u] == g0[u]);
                                }
                                if u != c1 as int {
                                    assert(g2[u] == g1[u]);
                                }
                            } else {
                                assert(e == (c0, w01) || e == (c2, w12));
                            }
                        } else {
                            assert(e == (c0, w02) || e == (c1, w12));
                        }
                    }
                }
                assert(tri_entry_upto(tris, weights, told + 1, u as usize, e.0, e.1)) by {
                    if e == (c1, w01) && u == c0 as int {
                        assert(tri_gives_edge(tris, weights, told, 0, 1, c0, c1, w01));
                    } else if e == (c2, w02) && u == c0 as int {
                        assert(tri_gives_edge(tris, weights, told, 0, 2, c0, c2, w02));
                    } else if e == (c0, w01) && u == c1 as int {
                        assert(tri_gives_edge(tris, weights, told, 1, 0, c1, c0, w01));
                    } else if e == (c2, w12) && u == c1 as int {
                        assert(tri_gives_edge(tris, weights, told, 1, 2, c1, c2, w12));
                    } else if e == (c0, w02) && u == c2 as int {
                        assert(tri_gives_edge(tris, weights, told, 2, 0, c2, c0, w02));
                    } else if e == (c1, w12) && u == c2 as int {
                        assert(tri_gives_edge(tris, weights, told, 2, 1, c2, c1, w12));
                    } else {
                        // an entry of another corner of the same triangle can
                        // only arise when two corners coincide
                        if e == (c1, w01) {
                            if u == c1 as int {
                                assert(tri_gives_edge(tris, weights, told, 1, 1, c1, c1, w01)
                                    || c1 == c0);
                                assert(tri_gives_edge(tris, weights, told, 0, 1, u as usize, e.0, e.1));
                            } else {
                                assert(c2 == c0);
                                assert(tri_gives_edge(tris, weights, told, 0, 1, u as usize, e.0, e.1));
                            }
                        } else if e == (c2, w02) {
                            assert(u == c1 as int || u == c2 as int);
                            if u == c1 as int {
                                assert(c1 == c0);
                            } else {
                                assert(c2 == c0);
                            }
                            assert(tri_gives_edge(tris, weights, told, 0, 2, u as usize, e.0, e.1));
                        } else if e == (c0, w01) {
                            assert(u == c0 as int || u == c2 as int);
                            if u == c0 as int {
                                assert(c0 == c1);
                            } else {
                                assert(c2 == c1);
                            }
                            assert(tri_gives_edge(tris, weights, told, 1, 0, u as usize, e.0, e.1));
                        } else if e == (c2, w12) {
                            assert(u == c0 as int || u == c2 as int);
                            if u == c0 as int {
                                assert(c0 == c1);
                            } else {
                                assert(c2 == c1);
                            }
                            assert(tri_gives_edge(tris, weights, told, 1, 2, u as usize, e.0, e.1));
                        } else if e == (c0, w02) {
                            assert(u == c0 as int || u == c1 as int);
                            if u == c0 as int {
                                assert(c0 == c2);
                            } else {
                                assert(c1 == c2);
                            }
                            assert(tri_gives_edge(tris, weights, told, 2, 0, u as usize, e.0, e.1));
                        } else {
                            assert(e == (c1, w12));
                            assert(u == c0 as int || u == c1 as int);
                            if u == c0 as int {
                                assert(c0 == c2);
                            } else {
                                assert(c1 == c2);
                            }
                            assert(tri_gives_edge(tris, weights, told, 2, 1, u as usize, e.0, e.1));
                        }
                    }
                }
            }
        } else {
            assert(g3[u] == g0[u]);
            assert(g0[u].contains(e));
            assert(tri_entry_upto(tris, weights, told, u as usize, e.0, e.1));
            let (t9, p9, q9) = choose|t9: int, p9: int, q9: int|
                #![trigger tri_gives_edge(tris, weights, t9, p9, q9, u as usize, e.0, e.1)]
                t9 < told && tri_gives_edge(tris, weights, t9, p9, q9, u as usize, e.0, e.1);
            assert(t9 < told + 1 && tri_gives_edge(
                tris,
                weights,
                t9,
                p9,
                q9,
                u as usize,
                e.0,
                e.1,
            ));
        }
    }
    // bounds and signs of every entry
    assert forall|u: int, k: int| 0 <= u < g3.len() && 0 <= k < g3[u].len() implies {
        &&& ((#[trigger] g3[u][k]).0 as int) < g3.len()
        &&& g3[u][k].1 >= 0
    } by {
        let e = g3[u][k];
        if u == c0 as int || u == c1 as int || u == c2 as int {
            if k < g0[u].len() && g0[u][k] == e {
            } else {
                if u == c0 as int && k < g1[u].len() {
                } else if u == c1 as int && k < g2[u].len() {
                    if k < g1[u].len() && u != c0 as int {
                        assert(g1[u] == g0[u]);
                    }
                } else if u == c2 as int {
                    if k < g2[u].len() {
                        if k < g1[u].len() && u != c0 as int {
                            assert(g1[u] == g0[u]);
                        }
                        if k >= g1[u].len() || (u != c0 as int && u != c1 as int) {
                        }
                    }
                }
                assert(e == (c1, w01) || e == (c2, w02) || e == (c0, w01) || e == (c2, w12) || e
                    == (c0, w02) || e == (c1, w12) || (k < g0[u].len() && g0[u][k] == e));
                assert(pair_weight(weights, told, 0, 1) == w01);
                assert(weights[3 * told + pair_slot(0, 1)] >= 0);
                assert(weights[3 * told + pair_slot(0, 2)] >= 0);
                assert(weights[3 * told + pair_slot(1, 2)] >= 0);
            }
        } else {
            assert(g3[u] == g0[u]);
        }
    }
}

/// At the last triangle the bounded invariants become the full statements.
proof fn lemma_graph_build_done(
    g: Seq<Seq<(usize, i32)>>,
    tris: Seq<usize>,
    weights: Seq<i32>,
    n: int,
)
    requires
        g.len() == n,
        graph_sound_upto(g, tris, weights, tris.len() as int / 3),
        graph_complete_upto(g, tris, weights, tris.len() as int / 3),
    ensures
        graph_sound(g, tris, weights),
        graph_complete(g, tris, weights),
{
    assert forall|u: int, k: int| 0 <= u < g.len() && 0 <= k < g[u].len() implies tri_entry(
        tris,
        weights,
        u as usize,
        (#[trigger] g[u][k]).0,
        g[u][k].1,
    ) by {
        assert(tri_entry_upto(
            tris,
            weights,
            tris.len() as int / 3,
            u as usize,
            g[u][k].0,
            g[u][k].1,
        ));
        let e = g[u][k];
        let (t9, p9, q9) = choose|t9: int, p9: int, q9: int|
            #![trigger tri_gives_edge(tris, weights, t9, p9, q9, u as usize, e.0, e.1)]
            t9 < tris.len() as int / 3 && tri_gives_edge(
                tris,
                weights,
                t9,
                p9,
                q9,
                u as usize,
                e.0,
                e.1,
            );
        assert(tri_gives_edge(tris, weights, t9, p9, q9, u as usize, e.0, e.1));
    }
    assert forall|t: int, p: int, q: int|
        #![trigger tri_corner(tris, t, p), tri_corner(tris, t, q)]
        0 <= t < tris.len() / 3 && 0 <= p < 3 && 0 <= q < 3 && p != q implies g[tri_corner(
        tris,
        t,
        p,
    ) as int].contains((tri_corner(tris, t, q), pair_weight(weights, t, p, q))) by {}
}

/// Whether the search goal is reached.
fn goal_reached(n: usize, end: usize) -> (r: bool)
    ensures
        r == (n == end),
{
    n == end
}

/// The successor entries of `n`: its adjacency row, each weight widened to
/// 64 bits so that summed path costs stay in range.
fn successor_list(adj: &Vec<Vec<(usize, i32)>>, n: usize) -> (r: Vec<(usize, i64)>)
    ensures
        (n as int) < adj@.len() ==> r@.len() == adj@[n as int]@.len() && (forall|k: int|
            0 <= k < r@.len() ==> #[trigger] r@[k] == (
                adj@[n as int]@[k].0,
                adj@[n as int]@[k].1 as i64,
            )),
        (n as int) >= adj@.len() ==> r@.len() == 0,
{
    let mut out: Vec<(usize, i64)> = Vec::new();
    if n < adj.len() {
        let row = &adj[n];
        let mut k: usize = 0;
        while k < row.len()
            invariant
                row@ == adj@[n as int]@,
                (n as int) < adj@.len(),
                0 <= k <= row@.len(),
                out@.len() == k,
                forall|i: int|
                    0 <= i < k ==> #[trigger] out@[i] == (row@[i].0, row@[i].1 as i64),
                k == row@.len() ==> (forall|i: int|
                    0 <= i < row@.len() ==> #[trigger] out@[i] == (row@[i].0, row@[i].1 as i64)),
            decreases row@.len() - k,
        {
            let e = row[k];
            out.push((e.0, e.1 as i64));
            k += 1;
            proof {
                if k == row@.len() {
                    assert forall|i: int| 0 <= i < row@.len() implies #[trigger] out@[i] == (
                        row@[i].0,
                        row@[i].1 as i64,
                    ) by {
                        if i < k - 1 {
                        } else {
                            assert(out@[i] == (e.0, e.1 as i64));
                        }
                    }
                }
            }
        }
    }
    out
}

/// Relies on pathfinding's `dijkstra`: over non-negative edge costs it
/// returns a cheapest path from `start` to the first goal node, both ends
/// included and no node repeated, and returns nothing only when the goal
/// is unreachable.  Weights are widened to 64 bits by the successor
/// closure, and the graph has fewer than 2^32 vertices, so summed costs
/// cannot overflow.
#[verifier::external_body]
fn dijkstra_search(adj: &Vec<Vec<(usize, i32)>>, start: usize, end: usize) -> (r: Option<
    Vec<usize>,
>)
    requires
        graph_ok(adj_view(*adj)),
        (start as int) < adj@.len(),
        adj@.len() < 0x1_0000_0000,
    ensures
        match r {
            Option::Some(p) => {
                &&& p@.len() >= 1
                &&& p@.first() == start
                &&& p@.last() == end
                &&& is_graph_path(adj_view(*adj), p@)
                &&& p@.no_duplicates()
                &&& forall|q: Seq<usize>|
                    connects(adj_view(*adj), q, start, end) ==> path_cost(adj_view(*adj), q)
                        >= path_cost(adj_view(*adj), p@)
            },
            Option::None => forall|q: Seq<usize>| !connects(adj_view(*adj), q, start, end),
        },
{
    match pathfinding::prelude::dijkstra(
        &start,
        |n: &usize| successor_list(adj, *n),
        |n: &usize| goal_reached(*n, end),
    ) {
        Some((p, _cost)) => Some(p),
        None => None,
    }
}

/// The search behind a checked interface: `None` where an endpoint is out
/// of range or no route exists; otherwise a graph path between the
/// endpoints of minimal cost.
pub fn shortest_path(adj: &Vec<Vec<(usize, i32)>>, start: usize, end: usize) -> (r: Option<
    Vec<usize>,
>)
    requires
        graph_ok(adj_view(*adj)),
        adj@.len() < 0x1_0000_0000,
    ensures
        match r {
            Option::Some(p) => {
                &&& connects(adj_view(*adj), p@, start, end)
                &&& p@.no_duplicates()
                &&& forall|q: Seq<usize>|
                    connects(adj_view(*adj), q, start, end) ==> path_cost(adj_view(*adj), q)
                        >= path_cost(adj_view(*adj), p@)
            },
            Option::None => ((start as int) >= adj@.len() || (end as int) >= adj@.len() || (forall|
                q: Seq<usize>,
            | !connects(adj_view(*adj), q, start, end))),
        },
{
    if start >= adj.len() || end >= adj.len() {
        return None;
    }
    dijkstra_search(adj, start, end)
}

} // verus!
