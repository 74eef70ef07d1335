//! The path refiner: the mesh, the edge graph, the current vertex path,
//! and the window being rewritten.
//!
//! The refiner owns everything the algorithm decides combinatorially.  The
//! numeric kernel outside the library drives it window by window: it asks
//! for the candidate wedges of a window, scores them, selects one, and
//! reports each chord intersection; the refiner performs the re-edging,
//! the cutting and the splicing, and keeps the path's endpoints pinned.

use vstd::prelude::*;

use crate::PathError;
use crate::graph::adj_view;
use crate::graph::build_graph;
use crate::graph::connects;
use crate::graph::path_cost;
use crate::graph::graph_complete;
use crate::graph::graph_ok;
use crate::graph::graph_sound;
use crate::graph::shortest_path;
use crate::mesh::Coord3;
use crate::mesh::Mesh;
use crate::mesh::TriNode;
use crate::mesh::cut_children_spec;
use crate::mesh::cut_target;
use crate::mesh::pair_selected;

verus! {

/// Whether the inputs of `Refiner::new` are malformed: ragged buffers, an
/// index past the vertex store, a negative weight, or a store too large
/// for the search.
pub open spec fn bad_input(points: Seq<Coord3>, tris: Seq<usize>, weights: Seq<i32>) -> bool {
    ||| tris.len() % 3 != 0
    ||| weights.len() != tris.len()
    ||| points.len() >= 0x1_0000_0000
    ||| exists|i: int| 0 <= i < tris.len() && (#[trigger] tris[i] as int) >= points.len()
    ||| exists|i: int| 0 <= i < weights.len() && #[trigger] weights[i] < 0
}

/// A wedge: consecutive nodes share the fan vertex `mid` in their first
/// slot, each node's second slot continues where the previous third slot
/// ended, the chain runs from `u` to `v`.
pub open spec fn wedge_chain(m: Mesh, w: Seq<usize>, u: usize, mid: usize, v: usize) -> bool {
    &&& w.len() >= 1
    &&& forall|j: int| 0 <= j < w.len() ==> ((#[trigger] w[j]) as int) < m.nodes@.len()
    &&& m.nodes@[w[0] as int].v0 == mid
    &&& m.nodes@[w[0] as int].v1 == u
    &&& forall|j: int|
        1 <= j < w.len() ==> (#[trigger] m.nodes@[w[j] as int]).v0 == mid
            && m.nodes@[w[j] as int].v1 == m.nodes@[w[j - 1] as int].v2
    &&& m.nodes@[w[w.len() - 1] as int].v2 == v
}

/// The conditions of the thin-fan shortcut on the index side: the
/// selected wedge has exactly two nodes, both were cut from parents, the
/// first parent avoids the wedge's fan edge, the second parent avoids the
/// outgoing vertex.
pub open spec fn thin_ok(m: Mesh, w: Seq<usize>) -> bool {
    &&& w.len() == 2
    &&& (w[0] as int) < m.nodes@.len()
    &&& (w[1] as int) < m.nodes@.len()
    &&& m.nodes@[w[0] as int].parent matches Some(p0) && (p0 as int) < m.nodes@.len() && {
        let pn = m.nodes@[p0 as int];
        !pn.has_vertex(m.nodes@[w[0] as int].v0) && !pn.has_vertex(m.nodes@[w[0] as int].v1)
    }
    &&& m.nodes@[w[1] as int].parent matches Some(p1) && (p1 as int) < m.nodes@.len()
        && !m.nodes@[p1 as int].has_vertex(m.nodes@[w[1] as int].v2)
}

/// The refiner's state.
pub struct Refiner {
    pub mesh: Mesh,
    pub adj: Vec<Vec<(usize, i32)>>,
    pub start: usize,
    pub end: usize,
    pub path: Vec<usize>,
    pub cand: Vec<Vec<usize>>,
    pub win: usize,
    pub wedge: Vec<usize>,
    pub rewrite: Vec<usize>,
}

impl Refiner {
    /// Structural soundness: the arena is well formed, the graph addresses
    /// the vertex store, path and rewrite entries address the store, wedge
    /// and candidate entries address the arena, and a non-empty path keeps
    /// the requested endpoints.
    pub open spec fn base_wf(self) -> bool {
        &&& self.mesh.wf()
        &&& adj_view(self.adj).len() <= self.mesh.coords@.len()
        &&& adj_view(self.adj).len() < 0x1_0000_0000
        &&& graph_ok(adj_view(self.adj))
        &&& forall|i: int|
            0 <= i < self.path@.len() ==> ((#[trigger] self.path@[i]) as int)
                < self.mesh.coords@.len()
        &&& (self.path@.len() > 0 ==> self.path@.first() == self.start && self.path@.last()
            == self.end)
        &&& forall|k: int, j: int|
            0 <= k < self.cand@.len() && 0 <= j < self.cand@[k]@.len() ==> ((#[trigger] self.cand@[
                k
            ]@[j]) as int) < self.mesh.nodes@.len()
        &&& forall|j: int|
            0 <= j < self.wedge@.len() ==> ((#[trigger] self.wedge@[j]) as int)
                < self.mesh.nodes@.len()
        &&& forall|i: int|
            0 <= i < self.rewrite@.len() ==> ((#[trigger] self.rewrite@[i]) as int)
                < self.mesh.coords@.len()
    }

    /// `base_wf` plus the invariant of an active window: the window fits
    /// the path and the rewrite starts at its first vertex.
    pub open spec fn wf(self) -> bool {
        &&& self.base_wf()
        &&& (self.wedge@.len() > 0 ==> {
            &&& self.win + 2 < self.path@.len()
            &&& self.rewrite@.len() >= 1
            &&& self.rewrite@.first() == self.path@[self.win as int]
        })
    }

    /// Ingest a mesh: the scaled points, the flat triangle list, and one
    /// weight per triangle corner pair.  Rejects ragged or out-of-range
    /// input; otherwise the arena holds one top-level node per triangle
    /// and the edge graph holds exactly the triangles' entries.
    pub fn new(points: Vec<Coord3>, tris: Vec<usize>, weights: Vec<i32>) -> (r: Result<
        Refiner,
        PathError,
    >)
        ensures
            match r {
                Result::Ok(rf) => {
                    &&& !bad_input(points@, tris@, weights@)
                    &&& rf.wf()
                    &&& rf.mesh.coords@ == points@
                    &&& rf.mesh.n_roots == tris@.len() / 3
                    &&& rf.mesh.nodes@.len() == tris@.len() / 3
                    &&& forall|t: int|
                        0 <= t < tris@.len() / 3 ==> {
                            &&& (#[trigger] rf.mesh.nodes@[t]).v0 == tris@[3 * t]
                            &&& rf.mesh.nodes@[t].v1 == tris@[3 * t + 1]
                            &&& rf.mesh.nodes@[t].v2 == tris@[3 * t + 2]
                            &&& rf.mesh.nodes@[t].parent is None
                            &&& rf.mesh.nodes@[t].children@.len() == 0
                        }
                    &&& adj_view(rf.adj).len() == points@.len()
                    &&& graph_sound(adj_view(rf.adj), tris@, weights@)
                    &&& graph_complete(adj_view(rf.adj), tris@, weights@)
                    &&& rf.path@.len() == 0
                },
                Result::Err(e) => e == PathError::BadInput && bad_input(points@, tris@, weights@),
            },
    {
        if tris.len() % 3 != 0 {
            return Err(PathError::BadInput);
        }
        if weights.len() != tris.len() {
            return Err(PathError::BadInput);
        }
        if (points.len() as u64) >= 0x1_0000_0000u64 {
            proof {
                assert(points@.len() >= 0x1_0000_0000);
            }
            return Err(PathError::BadInput);
        }
        let n = points.len();
        let mut i: usize = 0;
        while i < tris.len()
            invariant
                0 <= i <= tris@.len(),
                n == points@.len(),
                forall|j: int| 0 <= j < i ==> ((#[trigger] tris@[j]) as int) < n,
                i == tris@.len() ==> (forall|j: int|
                    0 <= j < tris@.len() ==> ((#[trigger] tris@[j]) as int) < n),
            decreases tris@.len() - i,
        {
            if tris[i] >= n {
                return Err(PathError::BadInput);
            }
            i += 1;
            proof {
                if i == tris@.len() {
                    assert forall|j: int| 0 <= j < tris@.len() implies ((#[trigger] tris@[j]) as int)
                        < n by {
                        if j < i - 1 {
                        } else {
                            assert(j == i - 1);
                        }
                    }
                }
            }
        }
        let mut i: usize = 0;
        while i < weights.len()
            invariant
                0 <= i <= weights@.len(),
                forall|j: int| 0 <= j < i ==> #[trigger] weights@[j] >= 0,
                i == weights@.len() ==> (forall|j: int|
                    0 <= j < weights@.len() ==> #[trigger] weights@[j] >= 0),
            decreases weights@.len() - i,
        {
            if weights[i] < 0 {
                return Err(PathError::BadInput);
            }
            i += 1;
            proof {
                if i == weights@.len() {
                    assert forall|j: int| 0 <= j < weights@.len() implies #[trigger] weights@[j]
                        >= 0 by {
                        if j < i - 1 {
                        } else {
                            assert(j == i - 1);
                        }
                    }
                }
            }
        }
        proof {
            assert(tris@.len() == 3 * (tris@.len() / 3) + (tris@.len() % 3)) by (nonlinear_arith);
            assert(tris@.len() == tris.len());
        }
        let tlen = tris.len() / 3;
        let mut nodes: Vec<TriNode> = Vec::new();
        let mut t: usize = 0;
        while t < tlen
            invariant
                tlen == tris@.len() / 3,
                tris@.len() == 3 * tlen,
                n == points@.len(),
                forall|j: int| 0 <= j < tris@.len() ==> ((#[trigger] tris@[j]) as int) < n,
                0 <= t <= tlen,
                nodes@.len() == t,
                forall|j: int|
                    0 <= j < t ==> {
                        &&& (#[trigger] nodes@[j]).v0 == tris@[3 * j]
                        &&& nodes@[j].v1 == tris@[3 * j + 1]
                        &&& nodes@[j].v2 == tris@[3 * j + 2]
                        &&& nodes@[j].parent is None
                        &&& nodes@[j].children@.len() == 0
                    },
                t == tlen ==> (forall|j: int|
                    0 <= j < tlen ==> {
                        &&& (#[trigger] nodes@[j]).v0 == tris@[3 * j]
                        &&& nodes@[j].v1 == tris@[3 * j + 1]
                        &&& nodes@[j].v2 == tris@[3 * j + 2]
                        &&& nodes@[j].parent is None
                        &&& nodes@[j].children@.len() == 0
                    }),
            decreases tlen - t,
        {
            proof {
                assert(tris@.len() == tris.len());
                assert(3 * (t as int) + 2 < tris@.len());
            }
            let v0 = tris[3 * t];
            let v1 = tris[3 * t + 1];
            let v2 = tris[3 * t + 2];
            nodes.push(TriNode { v0, v1, v2, parent: None, children: Vec::new() });
            t += 1;
            proof {
                if t == tlen {
                    assert forall|j: int| 0 <= j < tlen implies {
                        &&& (#[trigger] nodes@[j]).v0 == tris@[3 * j]
                        &&& nodes@[j].v1 == tris@[3 * j + 1]
                        &&& nodes@[j].v2 == tris@[3 * j + 2]
                        &&& nodes@[j].parent is None
                        &&& nodes@[j].children@.len() == 0
                    } by {
                        if j < t - 1 {
                        } else {
                            assert(j == t - 1);
                        }
                    }
                }
            }
        }
        let adj = build_graph(n, &tris, &weights);
        let mesh = Mesh { coords: points, nodes, n_roots: tlen };
        let rf = Refiner {
            mesh,
            adj,
            start: 0,
            end: 0,
            path: Vec::new(),
            cand: Vec::new(),
            win: 0,
            wedge: Vec::new(),
            rewrite: Vec::new(),
        };
        proof {
            assert(rf.mesh.wf());
            assert(rf.wf());
        }
        Ok(rf)
    }

    /// Run the shortest-path search between the endpoints and install the
    /// result as the working path.  Fails with `NoPath` exactly where an
    /// endpoint is out of range or the graph offers no route.
    pub fn find_path(&mut self, start: usize, end: usize) -> (r: Result<(), PathError>)
        requires
            old(self).wf(),
        ensures
            final(self).wf(),
            final(self).mesh == old(self).mesh,
            final(self).adj == old(self).adj,
            match r {
                Result::Ok(()) => {
                    &&& final(self).start == start
                    &&& final(self).end == end
                    &&& connects(adj_view(final(self).adj), final(self).path@, start, end)
                    &&& final(self).path@.first() == start
                    &&& final(self).path@.last() == end
                    &&& final(self).path@.no_duplicates()
                    &&& forall|q: Seq<usize>|
                        connects(adj_view(final(self).adj), q, start, end) ==> path_cost(
                            adj_view(final(self).adj),
                            q,
                        ) >= path_cost(adj_view(final(self).adj), final(self).path@)
                },
                Result::Err(e) => {
                    &&& e == PathError::NoPath
                    &&& ((start as int) >= adj_view(old(self).adj).len() || (end as int)
                        >= adj_view(old(self).adj).len() || (forall|q: Seq<usize>|
                        !connects(adj_view(old(self).adj), q, start, end)))
                    &&& final(self).path@ == old(self).path@
                },
            },
    {
        match shortest_path(&self.adj, start, end) {
            Some(p) => {
                proof {
                    assert(adj_view(self.adj).len() <= self.mesh.coords@.len());
                }
                self.start = start;
                self.end = end;
                self.path = p;
                self.cand = Vec::new();
                self.wedge = Vec::new();
                self.rewrite = Vec::new();
                Ok(())
            },
            None => Err(PathError::NoPath),
        }
    }

    /// The number of vertices in the working path.
    pub fn path_len(&self) -> (r: usize)
        ensures
            r == self.path@.len(),
    {
        self.path.len()
    }

    /// The vertex at position `i` of the working path.
    pub fn path_at(&self, i: usize) -> (r: usize)
        requires
            i < self.path@.len(),
        ensures
            r == self.path@[i as int],
    {
        self.path[i]
    }

    /// The number of stored vertices.
    pub fn n_coords(&self) -> (r: usize)
        ensures
            r == self.mesh.coords@.len(),
    {
        self.mesh.coords.len()
    }

    /// The stored point at `i`.
    pub fn coord_at(&self, i: usize) -> (r: Coord3)
        requires
            i < self.mesh.coords@.len(),
        ensures
            r == self.mesh.coords@[i as int],
    {
        self.mesh.coords[i]
    }

    /// The index triple of the arena node `h`.
    pub fn node_indices(&self, h: usize) -> (r: (usize, usize, usize))
        requires
            self.wf(),
            h < self.mesh.nodes@.len(),
        ensures
            r.0 == self.mesh.nodes@[h as int].v0,
            r.1 == self.mesh.nodes@[h as int].v1,
            r.2 == self.mesh.nodes@[h as int].v2,
            (r.0 as int) < self.mesh.coords@.len(),
            (r.1 as int) < self.mesh.coords@.len(),
            (r.2 as int) < self.mesh.coords@.len(),
    {
        let nd = &self.mesh.nodes[h];
        (nd.v0, nd.v1, nd.v2)
    }

    /// The parent handle of the arena node `h`, if it has one.
    pub fn node_parent(&self, h: usize) -> (r: Option<usize>)
        requires
            h < self.mesh.nodes@.len(),
        ensures
            r == self.mesh.nodes@[h as int].parent,
    {
        self.mesh.nodes[h].parent
    }

    /// The child handles of the arena node `h`.
    pub fn node_children(&self, h: usize) -> (r: Vec<usize>)
        requires
            self.wf(),
            h < self.mesh.nodes@.len(),
        ensures
            r@ == self.mesh.nodes@[h as int].children@,
    {
        let mut out: Vec<usize> = Vec::new();
        let list = &self.mesh.nodes[h].children;
        let mut i: usize = 0;
        while i < list.len()
            invariant
                list@ == self.mesh.nodes@[h as int].children@,
                0 <= i <= list@.len(),
                out@ == list@.subrange(0, i as int),
            decreases list@.len() - i,
        {
            out.push(list[i]);
            proof {
                assert(out@ =~= list@.subrange(0, i + 1));
            }
            i += 1;
        }
        proof {
            assert(out@ =~= list@);
        }
        out
    }

    /// The number of candidate wedges of the open window.
    pub fn cand_len(&self) -> (r: usize)
        ensures
            r == self.cand@.len(),
    {
        self.cand.len()
    }

    /// The length of candidate wedge `k`.
    pub fn cand_wedge_len(&self, k: usize) -> (r: usize)
        requires
            k < self.cand@.len(),
        ensures
            r == self.cand@[k as int]@.len(),
    {
        self.cand[k].len()
    }

    /// Node `j` of candidate wedge `k`.
    pub fn cand_node(&self, k: usize, j: usize) -> (r: usize)
        requires
            k < self.cand@.len(),
            j < self.cand@[k as int]@.len(),
        ensures
            r == self.cand@[k as int]@[j as int],
    {
        self.cand[k][j]
    }

    /// The length of the selected wedge.
    pub fn wedge_len(&self) -> (r: usize)
        ensures
            r == self.wedge@.len(),
    {
        self.wedge.len()
    }

    /// Node `j` of the selected wedge.
    pub fn wedge_node(&self, j: usize) -> (r: usize)
        requires
            j < self.wedge@.len(),
        ensures
            r == self.wedge@[j as int],
    {
        self.wedge[j]
    }

    /// The last vertex of the sub-path being rewritten.
    pub fn rewrite_last(&self) -> (r: Option<usize>)
        ensures
            match r {
                Option::Some(v) => self.rewrite@.len() > 0 && v == self.rewrite@.last(),
                Option::None => self.rewrite@.len() == 0,
            },
    {
        if self.rewrite.len() > 0 {
            Some(self.rewrite[self.rewrite.len() - 1])
        } else {
            None
        }
    }

    /// The points of the working path, in order.
    pub fn result_points(&self) -> (r: Vec<Coord3>)
        requires
            self.wf(),
        ensures
            r@.len() == self.path@.len(),
            forall|i: int|
                0 <= i < r@.len() ==> #[trigger] r@[i] == self.mesh.coords@[self.path@[i] as int],
    {
        let mut out: Vec<Coord3> = Vec::new();
        let mut i: usize = 0;
        while i < self.path.len()
            invariant
                self.wf(),
                0 <= i <= self.path@.len(),
                out@.len() == i,
                forall|j: int|
                    0 <= j < i ==> #[trigger] out@[j] == self.mesh.coords@[self.path@[j] as int],
                i == self.path@.len() ==> (forall|j: int|
                    0 <= j < self.path@.len() ==> #[trigger] out@[j] == self.mesh.coords@[
                        self.path@[j] as int
                    ]),
            decreases self.path@.len() - i,
        {
            let v = self.path[i];
            out.push(self.mesh.coords[v]);
            i += 1;
            proof {
                if i == self.path@.len() {
                    assert forall|j: int| 0 <= j < self.path@.len() implies #[trigger] out@[j]
                        == self.mesh.coords@[self.path@[j] as int] by {
                        if j < i - 1 {
                        } else {
                            assert(j == i - 1);
                        }
                    }
                }
            }
        }
        out
    }
}

impl Refiner {
    /// Open the window at position `i` of the path: collect the candidate
    /// wedges around `path[i+1]` between `path[i]` and `path[i+2]`,
    /// re-edging the nodes they visit, and keep those that still chain
    /// from the window's first vertex to its last.  Every kept candidate
    /// begins at a node the seeding edge query selected.  Returns how many
    /// candidates there are; zero where the window does not exist or no
    /// fan could be closed.
    ///
    /// The contract pins what every returned candidate is, not that every
    /// closable fan is returned: which node continues a fan depends on
    /// the order of the edge query's answers, and the queries that grow
    /// one candidate re-edge nodes another candidate may hold, so a
    /// completeness claim would have to carry the whole mutating walk as
    /// a specification.  `select_wedge` re-checks the chosen candidate
    /// against the arena in any case.
    pub fn open_window(&mut self, i: usize) -> (r: usize)
        requires
            old(self).wf(),
        ensures
            final(self).wf(),
            final(self).mesh.coords == old(self).mesh.coords,
            final(self).mesh.n_roots == old(self).mesh.n_roots,
            final(self).mesh.nodes@.len() == old(self).mesh.nodes@.len(),
            final(self).path == old(self).path,
            final(self).start == old(self).start,
            final(self).end == old(self).end,
            final(self).wedge@.len() == 0,
            final(self).win == i,
            r == final(self).cand@.len(),
            (i as int) + 2 >= old(self).path@.len() ==> final(self).cand@.len() == 0,
            (i as int) + 2 < old(self).path@.len() ==> {
                let u = old(self).path@[i as int];
                let mid = old(self).path@[i as int + 1];
                let v = old(self).path@[i as int + 2];
                &&& forall|k: int|
                    0 <= k < final(self).cand@.len() ==> wedge_chain(
                        final(self).mesh,
                        (#[trigger] final(self).cand@[k])@,
                        u,
                        mid,
                        v,
                    )
                &&& forall|k: int|
                    0 <= k < final(self).cand@.len() ==> pair_selected(
                        old(self).mesh,
                        (#[trigger] final(self).cand@[k])@[0],
                        mid,
                        u,
                        None,
                    )
            },
    {
        self.cand = Vec::new();
        self.wedge = Vec::new();
        self.rewrite = Vec::new();
        self.win = i;
        if i >= self.path.len() || self.path.len() - i < 3 {
            return 0;
        }
        let u = self.path[i];
        let mid = self.path[i + 1];
        let v = self.path[i + 2];
        let ghost m_in = self.mesh;
        let seeds = self.mesh.pair_by_edge(mid, u, None);
        let fuel_max = self.mesh.nodes.len();
        let mut built: Vec<Vec<usize>> = Vec::new();
        let mut s: usize = 0;
        while s < seeds.len()
            invariant
                self.wf(),
                self.mesh.coords == old(self).mesh.coords,
                self.mesh.n_roots == old(self).mesh.n_roots,
                self.mesh.nodes@.len() == old(self).mesh.nodes@.len(),
                self.path == old(self).path,
                self.start == old(self).start,
                self.end == old(self).end,
                self.cand@.len() == 0,
                self.wedge@.len() == 0,
                self.win == i,
                (u as int) < self.mesh.coords@.len(),
                (mid as int) < self.mesh.coords@.len(),
                (v as int) < self.mesh.coords@.len(),
                forall|j: int|
                    0 <= j < seeds@.len() ==> ((#[trigger] seeds@[j]) as int)
                        < self.mesh.nodes@.len(),
                forall|j: int|
                    0 <= j < seeds@.len() ==> pair_selected(
                        m_in,
                        #[trigger] seeds@[j],
                        mid,
                        u,
                        None,
                    ),
                0 <= s <= seeds@.len(),
                forall|k: int, j: int|
                    0 <= k < built@.len() && 0 <= j < built@[k]@.len() ==> ((
                    #[trigger] built@[k]@[j]) as int) < self.mesh.nodes@.len(),
                forall|k: int|
                    0 <= k < built@.len() ==> (#[trigger] built@[k])@.len() >= 1
                        && pair_selected(m_in, built@[k]@[0], mid, u, None),
            decreases seeds@.len() - s,
        {
            let mut wedge: Vec<usize> = Vec::new();
            wedge.push(seeds[s]);
            let mut last = seeds[s];
            let mut cur = self.mesh.nodes[last].v2;
            let mut fuel: usize = fuel_max;
            let mut ok = true;
            while cur != v && fuel > 0 && ok
                invariant
                    self.wf(),
                    self.mesh.coords == old(self).mesh.coords,
                    self.mesh.n_roots == old(self).mesh.n_roots,
                    self.mesh.nodes@.len() == old(self).mesh.nodes@.len(),
                    self.path == old(self).path,
                    self.start == old(self).start,
                    self.end == old(self).end,
                    self.cand@.len() == 0,
                    self.wedge@.len() == 0,
                    self.win == i,
                    (mid as int) < self.mesh.coords@.len(),
                    (cur as int) < self.mesh.coords@.len(),
                    (last as int) < self.mesh.nodes@.len(),
                    0 <= (s as int) < seeds@.len(),
                    wedge@.len() >= 1,
                    wedge@[0] == seeds@[s as int],
                    forall|j: int|
                        0 <= j < wedge@.len() ==> ((#[trigger] wedge@[j]) as int)
                            < self.mesh.nodes@.len(),
                decreases fuel,
            {
                let ghost mpre = self.mesh;
                let pair = self.mesh.pair_by_edge(mid, cur, Some(last));
                if pair.len() == 0 {
                    ok = false;
                } else {
                    let next = pair[0];
                    proof {
                        assert(pair_selected(mpre, next, mid, cur, Some(last)));
                    }
                    wedge.push(next);
                    last = next;
                    cur = self.mesh.nodes[next].v2;
                }
                if fuel >= 1 {
                    fuel = fuel - 1;
                } else {
                    ok = false;
                }
            }
            if ok && cur == v {
                let ghost built_prev = built@;
                let ghost w = wedge@;
                built.push(wedge);
                proof {
                    assert(pair_selected(m_in, seeds@[s as int], mid, u, None));
                    assert forall|k: int, j: int|
                        0 <= k < built@.len() && 0 <= j < built@[k]@.len() implies ((
                    #[trigger] built@[k]@[j]) as int) < self.mesh.nodes@.len() by {
                        if k < built@.len() - 1 {
                            assert(built@[k] == built_prev[k]);
                        } else {
                            assert(built@[k]@ == w);
                        }
                    }
                    assert forall|k: int|
                        0 <= k < built@.len() implies (#[trigger] built@[k])@.len() >= 1
                            && pair_selected(m_in, built@[k]@[0], mid, u, None) by {
                        if k < built@.len() - 1 {
                            assert(built@[k] == built_prev[k]);
                        } else {
                            assert(built@[k]@ == w);
                        }
                    }
                }
            }
            s += 1;
        }
        // keep the candidates that still chain after all the re-edging
        let ghost m_fin = self.mesh;
        let mut q: usize = 0;
        while q < built.len()
            invariant
                self.wf(),
                self.mesh == m_fin,
                self.mesh.coords == old(self).mesh.coords,
                self.mesh.n_roots == old(self).mesh.n_roots,
                self.mesh.nodes@.len() == old(self).mesh.nodes@.len(),
                self.path == old(self).path,
                self.start == old(self).start,
                self.end == old(self).end,
                self.wedge@.len() == 0,
                self.win == i,
                0 <= q <= built@.len(),
                forall|k: int, j: int|
                    0 <= k < built@.len() && 0 <= j < built@[k]@.len() ==> ((
                    #[trigger] built@[k]@[j]) as int) < self.mesh.nodes@.len(),
                forall|k: int|
                    0 <= k < built@.len() ==> (#[trigger] built@[k])@.len() >= 1
                        && pair_selected(m_in, built@[k]@[0], mid, u, None),
                forall|k: int|
                    0 <= k < self.cand@.len() ==> wedge_chain(
                        self.mesh,
                        (#[trigger] self.cand@[k])@,
                        u,
                        mid,
                        v,
                    ),
                forall|k: int|
                    0 <= k < self.cand@.len() ==> pair_selected(
                        m_in,
                        (#[trigger] self.cand@[k])@[0],
                        mid,
                        u,
                        None,
                    ),
            decreases built@.len() - q,
        {
            let keep = self.check_chain(&built[q], u, mid, v);
            if keep {
                let copy = copy_handles(&built[q]);
                let ghost cand_prev = self.cand@;
                let ghost cv = copy@;
                self.cand.push(copy);
                proof {
                    assert(wedge_chain(self.mesh, cv, u, mid, v));
                    assert(cv.len() >= 1);
                    assert(pair_selected(m_in, built@[q as int]@[0], mid, u, None));
                    assert forall|k: int|
                        0 <= k < self.cand@.len() implies wedge_chain(
                        self.mesh,
                        (#[trigger] self.cand@[k])@,
                        u,
                        mid,
                        v,
                    ) by {
                        if k < self.cand@.len() - 1 {
                            assert(self.cand@[k] == cand_prev[k]);
                        } else {
                            assert(self.cand@[k]@ == cv);
                        }
                    }
                    assert forall|k: int|
                        0 <= k < self.cand@.len() implies pair_selected(
                        m_in,
                        (#[trigger] self.cand@[k])@[0],
                        mid,
                        u,
                        None,
                    ) by {
                        if k < self.cand@.len() - 1 {
                            assert(self.cand@[k] == cand_prev[k]);
                        } else {
                            assert(self.cand@[k]@ == cv);
                        }
                    }
                }
            }
            q += 1;
        }
        proof {
            assert(m_in == old(self).mesh);
            assert(u == old(self).path@[i as int]);
            assert(mid == old(self).path@[i as int + 1]);
            assert(v == old(self).path@[i as int + 2]);
        }
        self.cand.len()
    }
}

/// A copy of a handle list.
fn copy_handles(w: &Vec<usize>) -> (r: Vec<usize>)
    ensures
        r@ == w@,
{
    let mut out: Vec<usize> = Vec::new();
    let mut i: usize = 0;
    while i < w.len()
        invariant
            0 <= i <= w@.len(),
            out@ == w@.subrange(0, i as int),
        decreases w@.len() - i,
    {
        out.push(w[i]);
        proof {
            assert(out@ =~= w@.subrange(0, i + 1));
        }
        i += 1;
    }
    proof {
        assert(out@ =~= w@);
    }
    out
}

impl Refiner {
    /// Whether `w` is a wedge chain from `u` around `mid` to `v` in the
    /// current arena.
    fn check_chain(&self, w: &Vec<usize>, u: usize, mid: usize, v: usize) -> (r: bool)
        requires
            self.wf(),
            forall|j: int| 0 <= j < w@.len() ==> ((#[trigger] w@[j]) as int) < self.mesh.nodes@.len(),
        ensures
            r == wedge_chain(self.mesh, w@, u, mid, v),
    {
        if w.len() == 0 {
            return false;
        }
        let first = &self.mesh.nodes[w[0]];
        if !(first.v0 == mid && first.v1 == u) {
            return false;
        }
        let mut j: usize = 1;
        while j < w.len()
            invariant
                self.wf(),
                forall|jj: int|
                    0 <= jj < w@.len() ==> ((#[trigger] w@[jj]) as int) < self.mesh.nodes@.len(),
                1 <= j <= w@.len(),
                self.mesh.nodes@[w@[0] as int].v0 == mid,
                self.mesh.nodes@[w@[0] as int].v1 == u,
                forall|jj: int|
                    1 <= jj < j ==> (#[trigger] self.mesh.nodes@[w@[jj] as int]).v0 == mid
                        && self.mesh.nodes@[w@[jj] as int].v1 == self.mesh.nodes@[w@[jj
                        - 1] as int].v2,
                j == w@.len() ==> (forall|jj: int|
                    1 <= jj < w@.len() ==> (#[trigger] self.mesh.nodes@[w@[jj] as int]).v0 == mid
                        && self.mesh.nodes@[w@[jj] as int].v1 == self.mesh.nodes@[w@[jj
                        - 1] as int].v2),
            decreases w@.len() - j,
        {
            let nd = &self.mesh.nodes[w[j]];
            let prev = &self.mesh.nodes[w[j - 1]];
            if !(nd.v0 == mid && nd.v1 == prev.v2) {
                return false;
            }
            j += 1;
            proof {
                if j == w@.len() {
                    assert forall|jj: int|
                        1 <= jj < w@.len() implies (#[trigger] self.mesh.nodes@[w@[jj] as int]).v0
                        == mid && self.mesh.nodes@[w@[jj] as int].v1 == self.mesh.nodes@[w@[jj
                        - 1] as int].v2 by {
                        if jj < j - 1 {
                        } else {
                            assert(jj == j - 1);
                        }
                    }
                }
            }
        }
        self.mesh.nodes[w[w.len() - 1]].v2 == v
    }

    /// Select candidate wedge `k` of the open window, after checking that
    /// it still chains from the window's first vertex around its middle
    /// one to its last.  On success the rewrite starts at the window's
    /// first vertex.
    pub fn select_wedge(&mut self, k: usize) -> (r: bool)
        requires
            old(self).wf(),
        ensures
            final(self).wf(),
            final(self).mesh == old(self).mesh,
            final(self).path == old(self).path,
            final(self).start == old(self).start,
            final(self).end == old(self).end,
            final(self).win == old(self).win,
            r == ((k as int) < old(self).cand@.len() && old(self).win + 2 < old(self).path@.len()
                && wedge_chain(
                old(self).mesh,
                old(self).cand@[k as int]@,
                old(self).path@[old(self).win as int],
                old(self).path@[old(self).win as int + 1],
                old(self).path@[old(self).win as int + 2],
            )),
            r ==> {
                &&& final(self).wedge@ == old(self).cand@[k as int]@
                &&& final(self).win + 2 < final(self).path@.len()
                &&& wedge_chain(
                    final(self).mesh,
                    final(self).wedge@,
                    final(self).path@[final(self).win as int],
                    final(self).path@[final(self).win as int + 1],
                    final(self).path@[final(self).win as int + 2],
                )
                &&& final(self).rewrite@ == seq![final(self).path@[final(self).win as int]]
            },
            !r ==> final(self).wedge@.len() == 0,
    {
        self.wedge = Vec::new();
        self.rewrite = Vec::new();
        if k >= self.cand.len() {
            return false;
        }
        if self.win >= self.path.len() || self.path.len() - self.win < 3 {
            return false;
        }
        let u = self.path[self.win];
        let mid = self.path[self.win + 1];
        let v = self.path[self.win + 2];
        let w = self.node_children_of_cand(k);
        if self.check_chain(&w, u, mid, v) {
            self.wedge = w;
            let mut rw: Vec<usize> = Vec::new();
            rw.push(u);
            self.rewrite = rw;
            proof {
                assert(self.rewrite@ =~= seq![self.path@[self.win as int]]);
            }
            true
        } else {
            false
        }
    }

    /// A copy of candidate wedge `k`.
    fn node_children_of_cand(&self, k: usize) -> (r: Vec<usize>)
        requires
            self.wf(),
            k < self.cand@.len(),
        ensures
            r@ == self.cand@[k as int]@,
            forall|j: int| 0 <= j < r@.len() ==> ((#[trigger] r@[j]) as int) < self.mesh.nodes@.len(),
    {
        let list = &self.cand[k];
        let mut out: Vec<usize> = Vec::new();
        let mut i: usize = 0;
        while i < list.len()
            invariant
                self.wf(),
                k < self.cand@.len(),
                list@ == self.cand@[k as int]@,
                0 <= i <= list@.len(),
                out@ == list@.subrange(0, i as int),
            decreases list@.len() - i,
        {
            out.push(list[i]);
            proof {
                assert(out@ =~= list@.subrange(0, i + 1));
            }
            i += 1;
        }
        proof {
            assert(out@ =~= list@);
        }
        out
    }

    /// Whether the selected two-node wedge qualifies for the thin-fan
    /// shortcut on its index side: both nodes were cut from parents, the
    /// first parent avoids the wedge's fan edge, the second parent avoids
    /// the outgoing vertex.  The caller still has to confirm that both
    /// triangles are small before taking the shortcut.
    pub fn thin_candidate(&self) -> (r: Option<(usize, usize, usize)>)
        requires
            self.wf(),
        ensures
            r is Some <==> thin_ok(self.mesh, self.wedge@),
            match r {
                Option::Some(tr) => {
                    &&& tr.0 == self.mesh.nodes@[self.wedge@[0] as int].v1
                    &&& tr.1 == self.mesh.nodes@[self.wedge@[0] as int].v2
                    &&& tr.2 == self.mesh.nodes@[self.wedge@[1] as int].v2
                },
                Option::None => true,
            },
    {
        if self.wedge.len() != 2 {
            return None;
        }
        let w0 = &self.mesh.nodes[self.wedge[0]];
        let a1 = w0.v0;
        let b1 = w0.v1;
        let x = w0.v2;
        let p0 = w0.parent;
        let w1 = &self.mesh.nodes[self.wedge[1]];
        let c2 = w1.v2;
        let p1 = w1.parent;
        match (p0, p1) {
            (Some(par0), Some(par1)) => {
                let pn0 = &self.mesh.nodes[par0];
                let pn1 = &self.mesh.nodes[par1];
                let par0_has_a1 = pn0.v0 == a1 || pn0.v1 == a1 || pn0.v2 == a1;
                let par0_has_b1 = pn0.v0 == b1 || pn0.v1 == b1 || pn0.v2 == b1;
                let par1_has_c2 = pn1.v0 == c2 || pn1.v1 == c2 || pn1.v2 == c2;
                if !par0_has_a1 && !par0_has_b1 && !par1_has_c2 {
                    Some((b1, x, c2))
                } else {
                    None
                }
            },
            _ => None,
        }
    }

    /// Take the thin-fan shortcut: replace the open window by the first
    /// vertex, the first node's outgoing vertex, and the last vertex.
    pub fn take_thin(&mut self) -> (r: bool)
        requires
            old(self).wf(),
        ensures
            final(self).wf(),
            final(self).mesh == old(self).mesh,
            final(self).start == old(self).start,
            final(self).end == old(self).end,
            r == (thin_ok(old(self).mesh, old(self).wedge@) && old(self).win + 2 < old(
                self,
            ).path@.len()),
            !r ==> final(self).path == old(self).path,
            r ==> {
                &&& final(self).path@ == old(self).path@.subrange(0, old(self).win as int) + seq![
                    old(self).path@[old(self).win as int],
                    old(self).mesh.nodes@[old(self).wedge@[0] as int].v2,
                    old(self).path@[old(self).win as int + 2],
                ] + old(self).path@.subrange(
                    old(self).win as int + 3,
                    old(self).path@.len() as int,
                )
                &&& final(self).path@.first() == old(self).path@.first()
                &&& final(self).path@.last() == old(self).path@.last()
            },
    {
        if self.thin_candidate().is_none() {
            return false;
        }
        if self.win >= self.path.len() || self.path.len() - self.win < 3 {
            return false;
        }
        let x = self.mesh.nodes[self.wedge[0]].v2;
        let mut repl: Vec<usize> = Vec::new();
        repl.push(self.path[self.win]);
        repl.push(x);
        repl.push(self.path[self.win + 2]);
        self.splice_window(repl);
        true
    }

    /// Replace the open window `path[win .. win+3]` by `repl`, which must
    /// begin and end with the window's first and last vertices, and close
    /// the window.
    fn splice_window(&mut self, repl: Vec<usize>)
        requires
            old(self).base_wf(),
            old(self).win + 2 < old(self).path@.len(),
            repl@.len() >= 2,
            repl@.first() == old(self).path@[old(self).win as int],
            repl@.last() == old(self).path@[old(self).win as int + 2],
            forall|i: int|
                0 <= i < repl@.len() ==> ((#[trigger] repl@[i]) as int)
                    < old(self).mesh.coords@.len(),
        ensures
            final(self).wf(),
            final(self).mesh == old(self).mesh,
            final(self).start == old(self).start,
            final(self).end == old(self).end,
            final(self).win == old(self).win,
            final(self).wedge@.len() == 0,
            final(self).path@ == old(self).path@.subrange(0, old(self).win as int) + repl@ + old(
                self,
            ).path@.subrange(old(self).win as int + 3, old(self).path@.len() as int),
            final(self).path@.first() == old(self).path@.first(),
            final(self).path@.last() == old(self).path@.last(),
    {
        let ghost p0 = self.path@;
        let ghost rp = repl@;
        let win = self.win;
        proof {
            assert(self.path@.len() == self.path.len());
        }
        let mut tail = self.path.split_off(win + 3);
        self.path.truncate(win);
        let mut repl = repl;
        self.path.append(&mut repl);
        self.path.append(&mut tail);
        self.cand = Vec::new();
        self.wedge = Vec::new();
        self.rewrite = Vec::new();
        proof {
            assert(self.path@ =~= p0.subrange(0, win as int) + rp + p0.subrange(
                win as int + 3,
                p0.len() as int,
            ));
            assert(self.path@.len() == p0.len() + rp.len() - 3);
            assert(self.path@.first() == p0.first()) by {
                if win == 0 {
                    assert(self.path@.first() == rp.first());
                } else {
                    assert(self.path@.first() == p0.subrange(0, win as int).first());
                }
            }
            assert(self.path@.last() == p0.last()) by {
                if win as int + 3 == p0.len() {
                    assert(self.path@.last() == rp.last());
                    assert(p0.last() == p0[win as int + 2]);
                } else {
                    assert(self.path@.last() == p0[p0.len() - 1]);
                }
            }
            assert forall|i: int| 0 <= i < self.path@.len() implies ((#[trigger] self.path@[
                i
            ]) as int) < self.mesh.coords@.len() by {
                if i < win as int {
                    assert(self.path@[i] == p0[i]);
                } else if i < win as int + rp.len() {
                    assert(self.path@[i] == rp[i - win as int]);
                } else {
                    assert(self.path@[i] == p0[i - rp.len() + 3]);
                }
            }
        }
    }
}

/// The vertex list that replaces the open window: the rewritten sub-path,
/// forced to end at the window's last vertex; where the rewrite never got
/// past its first vertex, just the window's two endpoints.
pub open spec fn window_replacement(rewrite: Seq<usize>, u: usize, v: usize) -> Seq<usize> {
    if rewrite.len() < 2 {
        seq![u, v]
    } else if rewrite.last() == v {
        rewrite
    } else {
        rewrite.push(v)
    }
}

impl Refiner {
    /// Whether the cut between wedge positions `j` and `j + 1` is skipped:
    /// both nodes were cut from the same parent, so the edge between them
    /// is an artifact of an earlier subdivision.
    pub fn cut_skip(&self, j: usize) -> (r: bool)
        requires
            self.wf(),
        ensures
            r == ((j as int) + 1 < self.wedge@.len()
                && self.mesh.nodes@[self.wedge@[j as int] as int].parent is Some
                && self.mesh.nodes@[self.wedge@[j as int] as int].parent == self.mesh.nodes@[
                self.wedge@[j as int + 1] as int
            ].parent),
    {
        if j >= self.wedge.len() || self.wedge.len() - j < 2 {
            return false;
        }
        let pa = self.mesh.nodes[self.wedge[j]].parent;
        let pb = self.mesh.nodes[self.wedge[j + 1]].parent;
        match (pa, pb) {
            (Some(x), Some(y)) => x == y,
            _ => false,
        }
    }

    /// The node a cut at wedge position `j` lands on: the node's parent
    /// where it has one.
    pub fn cut_target_at(&self, j: usize) -> (r: Option<usize>)
        requires
            self.wf(),
        ensures
            match r {
                Option::Some(h) => (j as int) < self.wedge@.len() && h == cut_target(
                    self.mesh,
                    self.wedge@[j as int],
                ) && (h as int) < self.mesh.nodes@.len(),
                Option::None => (j as int) >= self.wedge@.len(),
            },
    {
        if j >= self.wedge.len() {
            return None;
        }
        let h = self.wedge[j];
        match self.mesh.nodes[h].parent {
            Some(p) => Some(p),
            None => Some(h),
        }
    }

    /// Record a chord intersection at wedge position `j`: append the new
    /// point to the store and cut the target between the rewrite's last
    /// vertex and the new one, on the sides the caller located.  The new
    /// vertex joins the rewrite exactly when the cut produced children.
    pub fn cut_step_new(&mut self, j: usize, p: Coord3, side1: Option<u8>, side2: Option<u8>) -> (r:
        bool)
        requires
            old(self).wf(),
        ensures
            final(self).wf(),
            final(self).path == old(self).path,
            final(self).start == old(self).start,
            final(self).end == old(self).end,
            final(self).win == old(self).win,
            final(self).wedge == old(self).wedge,
            r == ((j as int) < old(self).wedge@.len() && old(self).rewrite@.len() >= 1),
            !r ==> final(self).mesh == old(self).mesh && final(self).rewrite == old(self).rewrite,
            r ==> {
                let tgt = cut_target(old(self).mesh, old(self).wedge@[j as int]);
                let k = old(self).mesh.coords@.len();
                let ks = cut_children_spec(
                    old(self).mesh.nodes@[tgt as int].v0,
                    old(self).mesh.nodes@[tgt as int].v1,
                    old(self).mesh.nodes@[tgt as int].v2,
                    old(self).rewrite@.last(),
                    k as usize,
                    side1,
                    side2,
                );
                &&& final(self).mesh.coords@ == old(self).mesh.coords@.push(p)
                &&& final(self).mesh.nodes@.len() == old(self).mesh.nodes@.len() + ks.len()
                &&& final(self).mesh.nodes@[tgt as int].children@.len() == ks.len()
                &&& forall|kk: int|
                    0 <= kk < ks.len() ==> #[trigger] final(self).mesh.nodes@[tgt as int].children@[
                        kk
                    ] == (old(self).mesh.nodes@.len() + kk) as usize
                &&& forall|kk: int|
                    0 <= kk < ks.len() ==> {
                        let nd = #[trigger] final(self).mesh.nodes@[old(self).mesh.nodes@.len()
                            + kk];
                        &&& nd.v0 == ks[kk].0
                        &&& nd.v1 == ks[kk].1
                        &&& nd.v2 == ks[kk].2
                        &&& nd.parent == Some(tgt)
                        &&& nd.children@.len() == 0
                    }
                &&& (ks.len() > 0 ==> final(self).rewrite@ == old(self).rewrite@.push(k as usize))
                &&& (ks.len() == 0 ==> final(self).rewrite == old(self).rewrite)
            },
    {
        if j >= self.wedge.len() || self.rewrite.len() == 0 {
            return false;
        }
        let h = self.wedge[j];
        let first = self.rewrite[self.rewrite.len() - 1];
        let k = self.mesh.push_vertex(p);
        let grew = self.mesh.apply_cut_at(h, first, k, side1, side2);
        if grew {
            self.rewrite.push(k);
        }
        true
    }

    /// Force the final cut of the wedge: from the rewrite's last vertex to
    /// the last node's outgoing vertex, which is the window's last vertex.
    /// That vertex joins the rewrite exactly when the cut produced
    /// children.
    pub fn cut_step_final(&mut self, side1: Option<u8>, side2: Option<u8>) -> (r: bool)
        requires
            old(self).wf(),
        ensures
            final(self).wf(),
            final(self).path == old(self).path,
            final(self).start == old(self).start,
            final(self).end == old(self).end,
            final(self).win == old(self).win,
            final(self).wedge == old(self).wedge,
            final(self).mesh.coords == old(self).mesh.coords,
            r == (old(self).wedge@.len() >= 1 && old(self).rewrite@.len() >= 1),
            !r ==> final(self).mesh == old(self).mesh && final(self).rewrite == old(self).rewrite,
            r ==> {
                let last = old(self).wedge@[old(self).wedge@.len() - 1];
                let second = old(self).mesh.nodes@[last as int].v2;
                let tgt = cut_target(old(self).mesh, last);
                let ks = cut_children_spec(
                    old(self).mesh.nodes@[tgt as int].v0,
                    old(self).mesh.nodes@[tgt as int].v1,
                    old(self).mesh.nodes@[tgt as int].v2,
                    old(self).rewrite@.last(),
                    second,
                    side1,
                    side2,
                );
                &&& final(self).mesh.nodes@.len() == old(self).mesh.nodes@.len() + ks.len()
                &&& final(self).mesh.nodes@[tgt as int].children@.len() == ks.len()
                &&& forall|kk: int|
                    0 <= kk < ks.len() ==> #[trigger] final(self).mesh.nodes@[tgt as int].children@[
                        kk
                    ] == (old(self).mesh.nodes@.len() + kk) as usize
                &&& forall|kk: int|
                    0 <= kk < ks.len() ==> {
                        let nd = #[trigger] final(self).mesh.nodes@[old(self).mesh.nodes@.len()
                            + kk];
                        &&& nd.v0 == ks[kk].0
                        &&& nd.v1 == ks[kk].1
                        &&& nd.v2 == ks[kk].2
                        &&& nd.parent == Some(tgt)
                        &&& nd.children@.len() == 0
                    }
                &&& (ks.len() > 0 ==> final(self).rewrite@ == old(self).rewrite@.push(second))
                &&& (ks.len() == 0 ==> final(self).rewrite == old(self).rewrite)
            },
    {
        if self.wedge.len() == 0 || self.rewrite.len() == 0 {
            return false;
        }
        let h = self.wedge[self.wedge.len() - 1];
        let second = self.mesh.nodes[h].v2;
        let first = self.rewrite[self.rewrite.len() - 1];
        let grew = self.mesh.apply_cut_at(h, first, second, side1, side2);
        if grew {
            self.rewrite.push(second);
        }
        true
    }

    /// Close the open window: splice the rewritten sub-path into the path.
    /// A rewrite that never got past the window's first vertex is replaced
    /// by the window's two endpoints, and the speculative subdivision of
    /// the first wedge node's parent is rolled back.  The spliced path
    /// keeps the working path's endpoints.
    pub fn finish_window(&mut self) -> (r: bool)
        requires
            old(self).wf(),
        ensures
            final(self).wf(),
            final(self).start == old(self).start,
            final(self).end == old(self).end,
            r == (old(self).wedge@.len() > 0),
            !r ==> *final(self) == *old(self),
            r ==> {
                let u = old(self).path@[old(self).win as int];
                let v = old(self).path@[old(self).win as int + 2];
                &&& final(self).path@ == old(self).path@.subrange(0, old(self).win as int)
                    + window_replacement(old(self).rewrite@, u, v) + old(self).path@.subrange(
                    old(self).win as int + 3,
                    old(self).path@.len() as int,
                )
                &&& final(self).path@.first() == old(self).path@.first()
                &&& final(self).path@.last() == old(self).path@.last()
                &&& final(self).wedge@.len() == 0
                &&& (old(self).rewrite@.len() >= 2 ==> final(self).mesh == old(self).mesh)
                &&& (old(self).rewrite@.len() < 2 ==> {
                    // the speculative subdivision is rolled back: the first
                    // wedge node's parent loses its children, the rest of
                    // the mesh stands
                    &&& final(self).mesh.coords == old(self).mesh.coords
                    &&& final(self).mesh.n_roots == old(self).mesh.n_roots
                    &&& final(self).mesh.nodes@.len() == old(self).mesh.nodes@.len()
                    &&& match old(self).mesh.nodes@[old(self).wedge@[0] as int].parent {
                        Option::Some(par) => {
                            &&& forall|ii: int|
                                0 <= ii < old(self).mesh.nodes@.len() && ii != par
                                    ==> final(self).mesh.nodes@[ii] == old(self).mesh.nodes@[ii]
                            &&& final(self).mesh.nodes@[par as int].v0 == old(
                                self,
                            ).mesh.nodes@[par as int].v0
                            &&& final(self).mesh.nodes@[par as int].v1 == old(
                                self,
                            ).mesh.nodes@[par as int].v1
                            &&& final(self).mesh.nodes@[par as int].v2 == old(
                                self,
                            ).mesh.nodes@[par as int].v2
                            &&& final(self).mesh.nodes@[par as int].parent == old(
                                self,
                            ).mesh.nodes@[par as int].parent
                            &&& final(self).mesh.nodes@[par as int].children@.len() == 0
                        },
                        Option::None => final(self).mesh == old(self).mesh,
                    }
                })
            },
    {
        if self.wedge.len() == 0 {
            return false;
        }
        proof {
            assert(self.path@.len() == self.path.len());
        }
        let u = self.path[self.win];
        let v = self.path[self.win + 2];
        let mut repl: Vec<usize> = Vec::new();
        if self.rewrite.len() < 2 {
            let w0 = self.wedge[0];
            match self.mesh.nodes[w0].parent {
                Some(par) => {
                    proof {
                        assert((par as int) < self.mesh.n_roots);
                    }
                    self.mesh.clear_children(par);
                },
                None => {},
            }
            repl.push(u);
            repl.push(v);
            proof {
                assert(repl@ =~= window_replacement(old(self).rewrite@, u, v));
            }
        } else {
            let mut taken: Vec<usize> = Vec::new();
            core::mem::swap(&mut taken, &mut self.rewrite);
            repl = taken;
            if repl[repl.len() - 1] != v {
                repl.push(v);
            }
            proof {
                assert(repl@ == window_replacement(old(self).rewrite@, u, v));
            }
        }
        self.splice_window(repl);
        true
    }
}

/// The output polyline begins at the start vertex's stored point and ends
/// at the end vertex's: every window replacement keeps the path's first
/// and last vertices, so the mapped points keep them too.
pub proof fn lemma_output_endpoints(r: Refiner, out: Seq<Coord3>)
    requires
        r.wf(),
        r.path@.len() >= 1,
        out.len() == r.path@.len(),
        forall|i: int| 0 <= i < out.len() ==> #[trigger] out[i] == r.mesh.coords@[r.path@[i] as int],
    ensures
        out.first() == r.mesh.coords@[r.start as int],
        out.last() == r.mesh.coords@[r.end as int],
{
    assert(out[0] == r.mesh.coords@[r.path@[0] as int]);
    assert(out[out.len() - 1] == r.mesh.coords@[r.path@[r.path@.len() - 1] as int]);
}

} // verus!
