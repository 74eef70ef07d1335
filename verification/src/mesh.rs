//! The vertex store and the arena of triangle nodes.
//!
//! A `TriNode` names three vertices of the store.  Top-level nodes come from
//! the input triangulation; cutting a node hangs fresh child nodes under a
//! top-level node.  Re-edging rewrites a node's index triple so a chosen
//! edge occupies the first two slots.

use vstd::prelude::*;

verus! {

/// A 3D point of the vertex store, held as the bit patterns of its three
/// coordinates.  The store never interprets them; equality of points is
/// equality of bits.
#[derive(Clone, Copy, Debug, PartialEq, Eq, Structural)]
pub struct Coord3 {
    pub x: u32,
    pub y: u32,
    pub z: u32,
}

/// One triangle of the arena: three vertex indices, the handle of the node
/// it was cut from, and the handles of the nodes cut from it.
#[derive(Debug)]
pub struct TriNode {
    pub v0: usize,
    pub v1: usize,
    pub v2: usize,
    pub parent: Option<usize>,
    pub children: Vec<usize>,
}

impl TriNode {
    /// Whether `v` is one of the node's three vertices.
    pub open spec fn has_vertex(self, v: usize) -> bool {
        self.v0 == v || self.v1 == v || self.v2 == v
    }
}

/// Whether `x` is one of the two edge endpoints `a`, `b`.
pub open spec fn in_pair(x: usize, a: usize, b: usize) -> bool {
    x == a || x == b
}

/// A node matches the edge `(a, b)` when exactly two of its three slots
/// hold an endpoint of that edge.
pub open spec fn edge_match(t: TriNode, a: usize, b: usize) -> bool {
    (if in_pair(t.v0, a, b) { 1int } else { 0int })
        + (if in_pair(t.v1, a, b) { 1int } else { 0int })
        + (if in_pair(t.v2, a, b) { 1int } else { 0int }) == 2
}

/// The vertex in the one slot that holds neither endpoint of `(a, b)`.
pub open spec fn third_vertex(t: TriNode, a: usize, b: usize) -> usize {
    if !in_pair(t.v0, a, b) {
        t.v0
    } else if !in_pair(t.v1, a, b) {
        t.v1
    } else {
        t.v2
    }
}

/// The node after re-edging along `(a, b)`: the edge takes the first two
/// slots, the remaining vertex the third; nothing else moves.
pub open spec fn re_edged(t: TriNode, a: usize, b: usize) -> TriNode {
    TriNode { v0: a, v1: b, v2: third_vertex(t, a, b), ..t }
}

/// The growing vertex store and the triangle-node arena.  The first
/// `n_roots` nodes are the input triangles; all later nodes are children
/// produced by cutting.
pub struct Mesh {
    pub coords: Vec<Coord3>,
    pub nodes: Vec<TriNode>,
    pub n_roots: usize,
}

impl Mesh {
    /// Structural soundness of the arena: vertex indices address the store;
    /// top-level nodes have no parent; every other node points at a
    /// top-level parent and carries no children of its own; child lists
    /// name valid, distinct, non-top-level nodes that point back.
    pub open spec fn wf(self) -> bool {
        &&& self.n_roots <= self.nodes@.len()
        &&& forall|i: int|
            0 <= i < self.nodes@.len() ==> {
                &&& (#[trigger] self.nodes@[i]).v0 < self.coords@.len()
                &&& self.nodes@[i].v1 < self.coords@.len()
                &&& self.nodes@[i].v2 < self.coords@.len()
            }
        &&& forall|i: int| 0 <= i < self.n_roots ==> (#[trigger] self.nodes@[i]).parent is None
        &&& forall|i: int|
            self.n_roots <= i < self.nodes@.len() ==> {
                &&& (#[trigger] self.nodes@[i]).parent matches Some(p) && p < self.n_roots
                &&& self.nodes@[i].children@.len() == 0
            }
        &&& forall|r: int, j: int|
            0 <= r < self.n_roots && 0 <= j < self.nodes@[r].children@.len() ==> {
                &&& self.n_roots <= #[trigger] self.nodes@[r].children@[j] < self.nodes@.len()
                &&& self.nodes@[self.nodes@[r].children@[j] as int].parent == Some(r as usize)
                &&& forall|k: int|
                    0 <= k < self.nodes@[r].children@.len() && k != j
                        ==> self.nodes@[r].children@[k] != self.nodes@[r].children@[j]
            }
    }

    /// Re-edge the node at `h` along `(a, b)`.
    pub fn re_edge_node(&mut self, h: usize, a: usize, b: usize)
        requires
            old(self).wf(),
            h < old(self).nodes@.len(),
            edge_match(old(self).nodes@[h as int], a, b),
            a < old(self).coords@.len(),
            b < old(self).coords@.len(),
        ensures
            final(self).wf(),
            final(self).coords == old(self).coords,
            final(self).n_roots == old(self).n_roots,
            final(self).nodes@ == old(self).nodes@.update(
                h as int,
                re_edged(old(self).nodes@[h as int], a, b),
            ),
    {
        let third: usize = if !(self.nodes[h].v0 == a || self.nodes[h].v0 == b) {
            self.nodes[h].v0
        } else if !(self.nodes[h].v1 == a || self.nodes[h].v1 == b) {
            self.nodes[h].v1
        } else {
            self.nodes[h].v2
        };
        self.nodes[h].v0 = a;
        self.nodes[h].v1 = b;
        self.nodes[h].v2 = third;
        assert(self.nodes@[h as int] == re_edged(old(self).nodes@[h as int], a, b));
        assert(self.nodes@ =~= old(self).nodes@.update(
            h as int,
            re_edged(old(self).nodes@[h as int], a, b),
        ));
    }
}

/// Whether `h` stands in the child list of some top-level node of `m`.
pub open spec fn is_child_of_root(m: Mesh, h: usize) -> bool {
    exists|r: int| 0 <= r < m.n_roots && (#[trigger] m.nodes@[r].children@).contains(h)
}

/// Whether no child of the top-level node `r` matches the edge `(a, b)`,
/// so that the edge query falls through to `r` itself.
pub open spec fn parent_fallback(m: Mesh, r: int, a: usize, b: usize) -> bool {
    forall|j: int|
        0 <= j < m.nodes@[r].children@.len()
            ==> !edge_match(m.nodes@[#[trigger] m.nodes@[r].children@[j] as int], a, b)
}

/// The nodes an edge query for `(a, b)` returns: a node other than
/// `exclude` that matches the edge, and is either a child of a top-level
/// node, or a top-level node none of whose children matches.
pub open spec fn pair_selected(m: Mesh, h: usize, a: usize, b: usize, exclude: Option<usize>)
    -> bool {
    &&& (h as int) < m.nodes@.len()
    &&& exclude != Some(h)
    &&& edge_match(m.nodes@[h as int], a, b)
    &&& if (h as int) < m.n_roots {
        parent_fallback(m, h as int, a, b)
    } else {
        is_child_of_root(m, h)
    }
}

/// Whether the edge query has already visited `h` once the first `r`
/// top-level nodes (and their children) are done.
pub open spec fn pair_visited(m: Mesh, h: usize, r: int) -> bool {
    if (h as int) < m.n_roots {
        (h as int) < r
    } else {
        exists|rr: int| 0 <= rr < r && (#[trigger] m.nodes@[rr].children@).contains(h)
    }
}

/// As `pair_visited`, with the first `j` children of node `r` also done.
pub open spec fn pair_visited_in(m: Mesh, h: usize, r: int, j: int) -> bool {
    pair_visited(m, h, r) || m.nodes@[r].children@.subrange(0, j).contains(h)
}

impl Mesh {
    /// A child handle stands in the list of at most one top-level node.
    proof fn lemma_child_unique_root(self, r1: int, r2: int, c: usize)
        requires
            self.wf(),
            0 <= r1 < self.n_roots,
            0 <= r2 < self.n_roots,
            self.nodes@[r1].children@.contains(c),
            self.nodes@[r2].children@.contains(c),
        ensures
            r1 == r2,
    {
        let j1 = choose|j: int| 0 <= j < self.nodes@[r1].children@.len()
            && self.nodes@[r1].children@[j] == c;
        let j2 = choose|j: int| 0 <= j < self.nodes@[r2].children@.len()
            && self.nodes@[r2].children@[j] == c;
        assert(self.nodes@[c as int].parent == Some(r1 as usize));
        assert(self.nodes@[c as int].parent == Some(r2 as usize));
    }

    /// Exact test for `edge_match`.
    fn edge_match_exec(&self, h: usize, a: usize, b: usize) -> (r: bool)
        requires
            h < self.nodes@.len(),
        ensures
            r == edge_match(self.nodes@[h as int], a, b),
    {
        let t = &self.nodes[h];
        let m0 = t.v0 == a || t.v0 == b;
        let m1 = t.v1 == a || t.v1 == b;
        let m2 = t.v2 == a || t.v2 == b;
        (m0 && m1 && !m2) || (m0 && !m1 && m2) || (!m0 && m1 && m2)
    }

    /// Find every node that holds the edge `(a, b)`, re-edged so the edge
    /// occupies the first two slots, skipping `exclude`.  A top-level node
    /// with children answers through its matching children; it answers
    /// itself only when none of its children matches.
    #[verifier::rlimit(50)]
    pub fn pair_by_edge(&mut self, a: usize, b: usize, exclude: Option<usize>) -> (res: Vec<
        usize,
    >)
        requires
            old(self).wf(),
            a < old(self).coords@.len(),
            b < old(self).coords@.len(),
        ensures
            final(self).wf(),
            final(self).coords == old(self).coords,
            final(self).n_roots == old(self).n_roots,
            final(self).nodes@.len() == old(self).nodes@.len(),
            res@.no_duplicates(),
            forall|h: usize|
                res@.contains(h) <==> pair_selected(*old(self), h, a, b, exclude),
            forall|h: usize|
                (h as int) < final(self).nodes@.len() ==> final(self).nodes@[h as int] == (
                if pair_selected(*old(self), h, a, b, exclude) {
                    re_edged(old(self).nodes@[h as int], a, b)
                } else {
                    old(self).nodes@[h as int]
                }),
            forall|i: int|
                0 <= i < res@.len() ==> pair_selected(*old(self), res@[i], a, b, exclude),
    {
        broadcast use vstd::seq_lib::lemma_seq_contains_after_push;

        let ghost m0 = *self;
        let mut res: Vec<usize> = Vec::new();
        let n_roots = self.n_roots;
        let mut r: usize = 0;
        while r < n_roots
            invariant
                self.wf(),
                m0.wf(),
                n_roots == m0.n_roots,
                self.coords == m0.coords,
                self.n_roots == m0.n_roots,
                self.nodes@.len() == m0.nodes@.len(),
                a < m0.coords@.len(),
                b < m0.coords@.len(),
                0 <= r <= n_roots,
                res@.no_duplicates(),
                forall|h: usize|
                    res@.contains(h) <==> (pair_visited(m0, h, r as int) && pair_selected(
                        m0,
                        h,
                        a,
                        b,
                        exclude,
                    )),
                forall|h: usize|
                    (h as int) < self.nodes@.len() ==> self.nodes@[h as int] == (
                    if pair_visited(m0, h, r as int) && pair_selected(m0, h, a, b, exclude) {
                        re_edged(m0.nodes@[h as int], a, b)
                    } else {
                        m0.nodes@[h as int]
                    }),
                r == n_roots ==> forall|h: usize|
                    (h as int) < self.nodes@.len() ==> self.nodes@[h as int] == (
                    if pair_selected(m0, h, a, b, exclude) {
                        re_edged(m0.nodes@[h as int], a, b)
                    } else {
                        m0.nodes@[h as int]
                    }),
            decreases n_roots - r,
        {
            proof {
                // in either branch of the state invariant the child list is kept
                assert(!pair_visited(m0, r, r as int));
                if pair_selected(m0, r, a, b, exclude) {
                    assert(self.nodes@[r as int] == m0.nodes@[r as int]);
                } else {
                    assert(self.nodes@[r as int] == m0.nodes@[r as int]);
                }
                assert(self.nodes@[r as int].children@ == m0.nodes@[r as int].children@);
                assert(m0.nodes@[r as int].children@.subrange(0, 0) =~= Seq::<usize>::empty());
                assert forall|h: usize|
                    (h as int) < self.nodes@.len() implies self.nodes@[h as int] == (
                if pair_visited_in(m0, h, r as int, 0) && pair_selected(m0, h, a, b, exclude) {
                    re_edged(m0.nodes@[h as int], a, b)
                } else {
                    m0.nodes@[h as int]
                }) by {
                    // mention the selection term so the state invariant applies to h
                    let ghost _t: int = if pair_selected(m0, h, a, b, exclude) {
                        0
                    } else {
                        1
                    };
                    assert(pair_visited_in(m0, h, r as int, 0) == pair_visited(m0, h, r as int));
                }
            }
            let clen = self.nodes[r].children.len();
            let ghost kids = m0.nodes@[r as int].children@;
            let mut try_parent: bool = true;
            let mut j: usize = 0;
            while j < clen
                invariant
                    self.wf(),
                    m0.wf(),
                    n_roots == m0.n_roots,
                    self.coords == m0.coords,
                    self.n_roots == m0.n_roots,
                    self.nodes@.len() == m0.nodes@.len(),
                    a < m0.coords@.len(),
                    b < m0.coords@.len(),
                    0 <= (r as int) < n_roots,
                    0 <= j <= clen,
                    kids == m0.nodes@[r as int].children@,
                    clen == kids.len(),
                    try_parent == (forall|jj: int|
                        0 <= jj < j ==> !edge_match(m0.nodes@[#[trigger] kids[jj] as int], a, b)),
                    res@.no_duplicates(),
                    forall|h: usize|
                        res@.contains(h) <==> (pair_visited_in(m0, h, r as int, j as int)
                            && pair_selected(m0, h, a, b, exclude)),
                    forall|h: usize|
                        (h as int) < self.nodes@.len() ==> self.nodes@[h as int] == (
                        if pair_visited_in(m0, h, r as int, j as int) && pair_selected(
                            m0,
                            h,
                            a,
                            b,
                            exclude,
                        ) {
                            re_edged(m0.nodes@[h as int], a, b)
                        } else {
                            m0.nodes@[h as int]
                        }),
                decreases clen - j,
            {
                proof {
                    if pair_visited_in(m0, r, r as int, j as int) && pair_selected(
                        m0,
                        r,
                        a,
                        b,
                        exclude,
                    ) {
                        assert(self.nodes@[r as int].children@ == kids);
                    } else {
                        assert(self.nodes@[r as int].children@ == kids);
                    }
                }
                let c = self.nodes[r].children[j];
                proof {
                    assert(kids[j as int] == c);
                    assert(m0.nodes@[r as int].children@.contains(c));
                    assert(m0.n_roots <= c < m0.nodes@.len());
                    // not visited yet: not under an earlier top-level node,
                    // and not an earlier child of this one
                    if pair_visited_in(m0, c, r as int, j as int) {
                        if pair_visited(m0, c, r as int) {
                            let rr = choose|rr: int|
                                0 <= rr < r && (#[trigger] m0.nodes@[rr].children@).contains(c);
                            m0.lemma_child_unique_root(rr, r as int, c);
                        } else {
                            let jj = choose|jj: int|
                                0 <= jj < j && kids.subrange(0, j as int)[jj] == c;
                            assert(kids[jj] == c);
                            assert(kids[j as int] == kids[jj]);
                            assert(false);
                        }
                    }
                    if pair_selected(m0, c, a, b, exclude) {
                        assert(self.nodes@[c as int] == m0.nodes@[c as int]);
                    } else {
                        assert(self.nodes@[c as int] == m0.nodes@[c as int]);
                    }
                }
                let matched = self.edge_match_exec(c, a, b);
                let is_excl = match exclude {
                    Some(e) => e == c,
                    None => false,
                };
                let ghost res_prev = res@;
                let ghost nodes_prev = self.nodes@;
                let pushed = matched && !is_excl;
                if pushed {
                    proof {
                        assert(is_child_of_root(m0, c)) by {
                            assert(m0.nodes@[r as int].children@.contains(c));
                        }
                        assert(pair_selected(m0, c, a, b, exclude));
                    }
                    self.re_edge_node(c, a, b);
                    res.push(c);
                    try_parent = false;
                } else if matched {
                    try_parent = false;
                }
                j += 1;
                proof {
                    assert(kids.subrange(0, j as int) =~= kids.subrange(0, j - 1).push(c));
                    assert forall|h: usize|
                        pair_visited_in(m0, h, r as int, j as int) == (pair_visited_in(
                            m0,
                            h,
                            r as int,
                            j - 1,
                        ) || h == c) by {
                        vstd::seq_lib::lemma_seq_contains_after_push(kids.subrange(0, j - 1), c, h);
                        assert(kids.subrange(0, j as int).contains(h) == (kids.subrange(
                            0,
                            j - 1,
                        ).contains(h) || h == c));
                    }
                    assert forall|h: usize|
                        (h as int) < self.nodes@.len() implies self.nodes@[h as int] == (
                        if pair_visited_in(m0, h, r as int, j as int) && pair_selected(
                            m0,
                            h,
                            a,
                            b,
                            exclude,
                        ) {
                            re_edged(m0.nodes@[h as int], a, b)
                        } else {
                            m0.nodes@[h as int]
                        }) by {
                        // mention the selection term so the state invariant applies to h
                        let ghost _t: int = if pair_selected(m0, h, a, b, exclude) {
                            0
                        } else {
                            1
                        };
                        if h != c {
                            assert(self.nodes@[h as int] == nodes_prev[h as int]);
                            assert(pair_visited_in(m0, h, r as int, j as int) == pair_visited_in(
                                m0,
                                h,
                                r as int,
                                j - 1,
                            ));
                        } else {
                            if pushed {
                                assert(self.nodes@[c as int] == re_edged(m0.nodes@[c as int], a, b));
                            } else {
                                assert(!pair_selected(m0, c, a, b, exclude));
                            }
                        }
                    }
                    if pushed {
                        assert(res@ == res_prev.push(c));
                        assert(!res_prev.contains(c)) by {
                            assert(!pair_visited_in(m0, c, r as int, j - 1));
                        }
                        assert(res@.no_duplicates()) by {
                            assert forall|x: int, y: int|
                                0 <= x < res@.len() && 0 <= y < res@.len() && x != y
                                    implies res@[x] != res@[y] by {
                                if x == res@.len() - 1 {
                                    assert(res@[y] == res_prev[y]);
                                    if res_prev[y] == c {
                                        assert(res_prev.contains(c));
                                    }
                                } else if y == res@.len() - 1 {
                                    assert(res@[x] == res_prev[x]);
                                    if res_prev[x] == c {
                                        assert(res_prev.contains(c));
                                    }
                                } else {
                                    assert(res@[x] == res_prev[x] && res@[y] == res_prev[y]);
                                }
                            }
                        }
                        assert forall|h: usize|
                            res@.contains(h) == (pair_visited_in(m0, h, r as int, j as int)
                                && pair_selected(m0, h, a, b, exclude)) by {
                            vstd::seq_lib::lemma_seq_contains_after_push(res_prev, c, h);
                            if h != c {
                                assert(res@.contains(h) == res_prev.contains(h));
                                assert(pair_visited_in(m0, h, r as int, j as int)
                                    == pair_visited_in(m0, h, r as int, j - 1));
                            } else {
                                assert(res@.contains(c));
                            }
                        }
                    } else {
                        assert forall|h: usize|
                            res@.contains(h) == (pair_visited_in(m0, h, r as int, j as int)
                                && pair_selected(m0, h, a, b, exclude)) by {
                            if h == c {
                                assert(!pair_visited_in(m0, c, r as int, j - 1));
                                assert(!res_prev.contains(c));
                                assert(!pair_selected(m0, c, a, b, exclude));
                            }
                        }
                    }
                }
            }
            proof {
                assert(kids.subrange(0, clen as int) =~= kids);
                assert(try_parent == parent_fallback(m0, r as int, a, b)) by {
                    assert(forall|jj: int| 0 <= jj < clen ==> kids.subrange(0, clen as int)[jj]
                        == kids[jj]);
                }
                assert(!pair_visited_in(m0, r, r as int, clen as int)) by {
                    if kids.subrange(0, clen as int).contains(r) {
                        let jj = choose|jj: int|
                            0 <= jj < clen && kids.subrange(0, clen as int)[jj] == r;
                        assert(m0.nodes@[r as int].children@[jj] == r);
                    }
                }
                if pair_selected(m0, r, a, b, exclude) {
                    assert(self.nodes@[r as int] == m0.nodes@[r as int]);
                } else {
                    assert(self.nodes@[r as int] == m0.nodes@[r as int]);
                }
            }
            let matched_root = self.edge_match_exec(r, a, b);
            let is_excl_root = match exclude {
                Some(e) => e == r,
                None => false,
            };
            let ghost res_prev2 = res@;
            let ghost nodes_prev2 = self.nodes@;
            let push_root = try_parent && matched_root && !is_excl_root;
            if push_root {
                proof {
                    assert(pair_selected(m0, r, a, b, exclude));
                }
                self.re_edge_node(r, a, b);
                res.push(r);
            }
            r += 1;
            proof {
                let rp = (r - 1) as usize;
                assert forall|h: usize|
                    pair_visited(m0, h, r as int) == (pair_visited_in(m0, h, r - 1, clen as int)
                        || h == rp) by {
                    if (h as int) < m0.n_roots {
                    } else {
                        assert(kids.subrange(0, clen as int) =~= kids);
                        if pair_visited(m0, h, r as int) {
                            let rr = choose|rr: int|
                                0 <= rr < r && (#[trigger] m0.nodes@[rr].children@).contains(h);
                            if rr == r - 1 {
                                assert(kids.contains(h));
                            } else {
                                assert(pair_visited(m0, h, r - 1));
                            }
                        }
                        if pair_visited_in(m0, h, r - 1, clen as int) {
                            if kids.subrange(0, clen as int).contains(h) {
                                assert(m0.nodes@[(r - 1) as int].children@.contains(h));
                            }
                        }
                        assert(h != rp);
                    }
                }
                assert forall|h: usize|
                    (h as int) < self.nodes@.len() implies self.nodes@[h as int] == (
                    if pair_visited(m0, h, r as int) && pair_selected(m0, h, a, b, exclude) {
                        re_edged(m0.nodes@[h as int], a, b)
                    } else {
                        m0.nodes@[h as int]
                    }) by {
                    // mention the selection term so the state invariant applies to h
                    let ghost _t: int = if pair_selected(m0, h, a, b, exclude) {
                        0
                    } else {
                        1
                    };
                    if h != rp {
                        assert(self.nodes@[h as int] == nodes_prev2[h as int]);
                        assert(pair_visited(m0, h, r as int) == pair_visited_in(
                            m0,
                            h,
                            r - 1,
                            clen as int,
                        ));
                    } else {
                        if push_root {
                            assert(self.nodes@[rp as int] == re_edged(m0.nodes@[rp as int], a, b));
                        } else {
                            if try_parent && pair_selected(m0, rp, a, b, exclude) {
                                assert(edge_match(m0.nodes@[(r - 1) as int], a, b));
                            }
                            assert(!(pair_visited(m0, rp, r as int) && pair_selected(
                                m0,
                                rp,
                                a,
                                b,
                                exclude,
                            )) || push_root);
                        }
                    }
                }
                if push_root {
                    assert(res@ == res_prev2.push(rp));
                    assert(!res_prev2.contains(rp)) by {
                        assert(!pair_visited_in(m0, rp, r - 1, clen as int));
                    }
                    assert(res@.no_duplicates()) by {
                        assert forall|x: int, y: int|
                            0 <= x < res@.len() && 0 <= y < res@.len() && x != y
                                implies res@[x] != res@[y] by {
                            if x == res@.len() - 1 {
                                assert(res@[y] == res_prev2[y]);
                                if res_prev2[y] == rp {
                                    assert(res_prev2.contains(rp));
                                }
                            } else if y == res@.len() - 1 {
                                assert(res@[x] == res_prev2[x]);
                                if res_prev2[x] == rp {
                                    assert(res_prev2.contains(rp));
                                }
                            } else {
                                assert(res@[x] == res_prev2[x] && res@[y] == res_prev2[y]);
                            }
                        }
                    }
                    assert forall|h: usize|
                        res@.contains(h) == (pair_visited(m0, h, r as int) && pair_selected(
                            m0,
                            h,
                            a,
                            b,
                            exclude,
                        )) by {
                        vstd::seq_lib::lemma_seq_contains_after_push(res_prev2, rp, h);
                        if h != rp {
                            assert(res@.contains(h) == res_prev2.contains(h));
                        } else {
                            assert(res@.contains(rp));
                        }
                    }
                } else {
                    assert forall|h: usize|
                        res@.contains(h) == (pair_visited(m0, h, r as int) && pair_selected(
                            m0,
                            h,
                            a,
                            b,
                            exclude,
                        )) by {
                        if h == rp {
                            assert(!res_prev2.contains(rp));
                            if try_parent && pair_selected(m0, rp, a, b, exclude) {
                                assert(edge_match(m0.nodes@[(r - 1) as int], a, b));
                                assert(false);
                            }
                        }
                    }
                }
                if r == n_roots {
                    assert forall|h: usize| (h as int) < self.nodes@.len()
                        implies self.nodes@[h as int] == (
                        if pair_selected(m0, h, a, b, exclude) {
                            re_edged(m0.nodes@[h as int], a, b)
                        } else {
                            m0.nodes@[h as int]
                        }) by {
                        // mention the selection term so the state invariant applies to h
                        let ghost _t: int = if pair_selected(m0, h, a, b, exclude) {
                            0
                        } else {
                            1
                        };
                        if pair_selected(m0, h, a, b, exclude) {
                            if (h as int) < m0.n_roots {
                            } else {
                                assert(is_child_of_root(m0, h));
                            }
                            assert(pair_visited(m0, h, r as int));
                        }
                        if h != rp {
                            assert(self.nodes@[h as int] == nodes_prev2[h as int]);
                            assert(pair_visited(m0, h, r as int) == pair_visited_in(
                                m0,
                                h,
                                r - 1,
                                clen as int,
                            ));
                        } else {
                            if push_root {
                                assert(self.nodes@[rp as int] == re_edged(
                                    m0.nodes@[rp as int],
                                    a,
                                    b,
                                ));
                            } else {
                                if try_parent && pair_selected(m0, rp, a, b, exclude) {
                                    assert(edge_match(m0.nodes@[(r - 1) as int], a, b));
                                }
                                assert(!(pair_visited(m0, rp, r as int) && pair_selected(
                                    m0,
                                    rp,
                                    a,
                                    b,
                                    exclude,
                                )) || push_root);
                            }
                        }
                    }
                }
            }
        }
        proof {
            assert forall|h: usize|
                res@.contains(h) == pair_selected(m0, h, a, b, exclude) by {
                if pair_selected(m0, h, a, b, exclude) {
                    if (h as int) < m0.n_roots {
                        assert(pair_visited(m0, h, n_roots as int));
                    } else {
                        assert(is_child_of_root(m0, h));
                        assert(pair_visited(m0, h, n_roots as int));
                    }
                }
            }
            assert forall|i: int| 0 <= i < res@.len() implies pair_selected(
                m0,
                res@[i],
                a,
                b,
                exclude,
            ) by {
                assert(res@.contains(res@[i]));
            }
        }
        res
    }
}

/// The corner permutation for a side of the triangle `(t0, t1, t2)`:
/// side 0 is the edge between the first two corners, side 1 the edge
/// between the first and last, side 2 the edge between the last two.
/// The result lists the two edge endpoints in query order, then the
/// opposite corner.
pub open spec fn side_tuple(t0: usize, t1: usize, t2: usize, s: int) -> (usize, usize, usize) {
    if s == 0 {
        (t1, t0, t2)
    } else if s == 1 {
        (t2, t0, t1)
    } else {
        (t2, t1, t0)
    }
}

/// The two triangles that partition `(t0, t1, t2)` along side `s` at the
/// vertex `first`.
pub open spec fn side_children(t0: usize, t1: usize, t2: usize, first: usize, s: int) -> Seq<
    (usize, usize, usize),
> {
    let (x, y, z) = side_tuple(t0, t1, t2, s);
    seq![(x, first, z), (first, y, z)]
}

/// Whether every corner of `k` comes from the four vertices that bound the
/// secondary subdivision.
pub open spec fn tri_covered(
    k: (usize, usize, usize),
    second: usize,
    first: usize,
    l: usize,
    m: usize,
) -> bool {
    &&& (k.0 == second || k.0 == first || k.0 == l || k.0 == m)
    &&& (k.1 == second || k.1 == first || k.1 == l || k.1 == m)
    &&& (k.2 == second || k.2 == first || k.2 == l || k.2 == m)
}

/// The index triples of the children a cut produces.  A found first side
/// splits the triangle in two at `first`; a found second side then replaces
/// the child that spans it by two triangles joining `first` and `second`.
/// With only the second side found, the split runs along that side at
/// `second`; with no side found there are no children.  Where no emitted
/// child spans the second side, the first subdivision stands alone.
pub open spec fn cut_children_spec(
    t0: usize,
    t1: usize,
    t2: usize,
    first: usize,
    second: usize,
    side1: Option<u8>,
    side2: Option<u8>,
) -> Seq<(usize, usize, usize)> {
    match (side1, side2) {
        (Option::None, Option::None) => Seq::empty(),
        (Option::Some(s1), Option::None) => side_children(t0, t1, t2, first, s1 as int),
        (Option::None, Option::Some(s2)) => {
            let (l, m, n) = side_tuple(t0, t1, t2, s2 as int);
            seq![(l, second, n), (second, m, n)]
        },
        (Option::Some(s1), Option::Some(s2)) => {
            let base = side_children(t0, t1, t2, first, s1 as int);
            let (l, m, n) = side_tuple(t0, t1, t2, s2 as int);
            let n0 = (second, first, l);
            let n1 = (second, m, first);
            if tri_covered(base[0], second, first, l, m) {
                seq![n0, n1, base[1]]
            } else if tri_covered(base[1], second, first, l, m) {
                seq![base[0], n0, n1]
            } else {
                base
            }
        },
    }
}

/// A cut yields no children, two, or three.
pub proof fn lemma_cut_children_len(
    t0: usize,
    t1: usize,
    t2: usize,
    first: usize,
    second: usize,
    side1: Option<u8>,
    side2: Option<u8>,
)
    ensures
        cut_children_spec(t0, t1, t2, first, second, side1, side2).len() == 0
            || cut_children_spec(t0, t1, t2, first, second, side1, side2).len() == 2
            || cut_children_spec(t0, t1, t2, first, second, side1, side2).len() == 3,
{
}

/// Every corner of every child names one of the five vertices in play.
pub proof fn lemma_cut_children_vertices(
    t0: usize,
    t1: usize,
    t2: usize,
    first: usize,
    second: usize,
    side1: Option<u8>,
    side2: Option<u8>,
)
    ensures
        forall|k: int|
            0 <= k < cut_children_spec(t0, t1, t2, first, second, side1, side2).len() ==> {
                let c = #[trigger] cut_children_spec(t0, t1, t2, first, second, side1, side2)[k];
                &&& (c.0 == t0 || c.0 == t1 || c.0 == t2 || c.0 == first || c.0 == second)
                &&& (c.1 == t0 || c.1 == t1 || c.1 == t2 || c.1 == first || c.1 == second)
                &&& (c.2 == t0 || c.2 == t1 || c.2 == t2 || c.2 == first || c.2 == second)
            },
{
}

/// Exact executable form of `cut_children_spec`.
fn cut_children(
    t0: usize,
    t1: usize,
    t2: usize,
    first: usize,
    second: usize,
    side1: Option<u8>,
    side2: Option<u8>,
) -> (res: Vec<(usize, usize, usize)>)
    ensures
        res@ == cut_children_spec(t0, t1, t2, first, second, side1, side2),
{
    let mut res: Vec<(usize, usize, usize)> = Vec::new();
    match (side1, side2) {
        (Option::None, Option::None) => {
            assert(res@ =~= cut_children_spec(t0, t1, t2, first, second, side1, side2));
        },
        (Option::Some(s1), Option::None) => {
            let (x, y, z) = side_tuple_exec(t0, t1, t2, s1);
            res.push((x, first, z));
            res.push((first, y, z));
            assert(res@ =~= cut_children_spec(t0, t1, t2, first, second, side1, side2));
        },
        (Option::None, Option::Some(s2)) => {
            let (l, m, n) = side_tuple_exec(t0, t1, t2, s2);
            res.push((l, second, n));
            res.push((second, m, n));
            assert(res@ =~= cut_children_spec(t0, t1, t2, first, second, side1, side2));
        },
        (Option::Some(s1), Option::Some(s2)) => {
            let (x, y, z) = side_tuple_exec(t0, t1, t2, s1);
            let b0 = (x, first, z);
            let b1 = (first, y, z);
            let (l, m, _n) = side_tuple_exec(t0, t1, t2, s2);
            let n0 = (second, first, l);
            let n1 = (second, m, first);
            if tri_covered_exec(b0, second, first, l, m) {
                res.push(n0);
                res.push(n1);
                res.push(b1);
            } else if tri_covered_exec(b1, second, first, l, m) {
                res.push(b0);
                res.push(n0);
                res.push(n1);
            } else {
                res.push(b0);
                res.push(b1);
            }
            assert(res@ =~= cut_children_spec(t0, t1, t2, first, second, side1, side2));
        },
    }
    res
}

fn side_tuple_exec(t0: usize, t1: usize, t2: usize, s: u8) -> (r: (usize, usize, usize))
    ensures
        r == side_tuple(t0, t1, t2, s as int),
{
    if s == 0 {
        (t1, t0, t2)
    } else if s == 1 {
        (t2, t0, t1)
    } else {
        (t2, t1, t0)
    }
}

fn tri_covered_exec(k: (usize, usize, usize), second: usize, first: usize, l: usize, m: usize) -> (r:
    bool)
    ensures
        r == tri_covered(k, second, first, l, m),
{
    (k.0 == second || k.0 == first || k.0 == l || k.0 == m) && (k.1 == second || k.1 == first
        || k.1 == l || k.1 == m) && (k.2 == second || k.2 == first || k.2 == l || k.2 == m)
}

/// The node a cut lands on: the parent where the node has one, else the
/// node itself.
pub open spec fn cut_target(m: Mesh, h: usize) -> usize {
    match m.nodes@[h as int].parent {
        Option::Some(p) => p,
        Option::None => h,
    }
}

impl Mesh {
    /// Append a point to the vertex store and hand back its index.
    pub fn push_vertex(&mut self, p: Coord3) -> (idx: usize)
        requires
            old(self).wf(),
        ensures
            final(self).wf(),
            final(self).coords@ == old(self).coords@.push(p),
            final(self).nodes@ == old(self).nodes@,
            final(self).n_roots == old(self).n_roots,
            idx == old(self).coords@.len(),
    {
        let idx = self.coords.len();
        self.coords.push(p);
        idx
    }

    /// Cut the node at `h` between the stored vertices `first` and
    /// `second`, the sides they lie on given as `side1` and `side2`.  The
    /// cut lands on the node's parent where it has one; the target's old
    /// children make way, the new ones are appended to the arena and wired
    /// to the target.  Returns whether any child was produced.
    pub fn apply_cut_at(
        &mut self,
        h: usize,
        first: usize,
        second: usize,
        side1: Option<u8>,
        side2: Option<u8>,
    ) -> (grew: bool)
        requires
            old(self).wf(),
            h < old(self).nodes@.len(),
            first < old(self).coords@.len(),
            second < old(self).coords@.len(),
        ensures
            final(self).wf(),
            final(self).coords == old(self).coords,
            final(self).n_roots == old(self).n_roots,
            ({
                let tgt = cut_target(*old(self), h);
                let ks = cut_children_spec(
                    old(self).nodes@[tgt as int].v0,
                    old(self).nodes@[tgt as int].v1,
                    old(self).nodes@[tgt as int].v2,
                    first,
                    second,
                    side1,
                    side2,
                );
                let base = old(self).nodes@.len();
                &&& grew == (ks.len() > 0)
                &&& final(self).nodes@.len() == base + ks.len()
                &&& forall|i: int|
                    0 <= i < base && i != tgt ==> final(self).nodes@[i] == old(self).nodes@[i]
                &&& final(self).nodes@[tgt as int].v0 == old(self).nodes@[tgt as int].v0
                &&& final(self).nodes@[tgt as int].v1 == old(self).nodes@[tgt as int].v1
                &&& final(self).nodes@[tgt as int].v2 == old(self).nodes@[tgt as int].v2
                &&& final(self).nodes@[tgt as int].parent == old(self).nodes@[tgt as int].parent
                &&& final(self).nodes@[tgt as int].children@.len() == ks.len()
                &&& forall|k: int|
                    0 <= k < ks.len() ==> #[trigger] final(self).nodes@[tgt as int].children@[k]
                        == (base + k) as usize
                &&& forall|k: int|
                    0 <= k < ks.len() ==> {
                        let nd = #[trigger] final(self).nodes@[base + k];
                        &&& nd.v0 == ks[k].0
                        &&& nd.v1 == ks[k].1
                        &&& nd.v2 == ks[k].2
                        &&& nd.parent == Some(tgt)
                        &&& nd.children@.len() == 0
                    }
            }),
    {
        let ghost m0 = *self;
        let target = match self.nodes[h].parent {
            Option::Some(p) => p,
            Option::None => h,
        };
        assert(target == cut_target(m0, h));
        assert(target < self.n_roots);
        let t0 = self.nodes[target].v0;
        let t1 = self.nodes[target].v1;
        let t2 = self.nodes[target].v2;
        let kids = cut_children(t0, t1, t2, first, second, side1, side2);
        proof {
            lemma_cut_children_vertices(t0, t1, t2, first, second, side1, side2);
            lemma_cut_children_len(t0, t1, t2, first, second, side1, side2);
        }
        let base = self.nodes.len();
        let ghost ks = kids@;
        let mut handles: Vec<usize> = Vec::new();

        // a cut yields at most three children, so the arena grows by plain pushes
        if kids.len() > 0 {
            let c0 = kids[0];
            let i0 = self.nodes.len();
            self.nodes.push(
                TriNode { v0: c0.0, v1: c0.1, v2: c0.2, parent: Some(target), children: Vec::new() },
            );
            handles.push(i0);
            let c1 = kids[1];
            let i1 = self.nodes.len();
            self.nodes.push(
                TriNode { v0: c1.0, v1: c1.1, v2: c1.2, parent: Some(target), children: Vec::new() },
            );
            handles.push(i1);
            if kids.len() == 3 {
                let c2 = kids[2];
                let i2 = self.nodes.len();
                self.nodes.push(
                    TriNode {
                        v0: c2.0,
                        v1: c2.1,
                        v2: c2.2,
                        parent: Some(target),
                        children: Vec::new(),
                    },
                );
                handles.push(i2);
            }
        }
        self.nodes[target].children = handles;
        proof {
            assert forall|i: int| 0 <= i < base + ks.len() && i != target implies self.nodes@[i]
                == (if i < base {
                m0.nodes@[i]
            } else {
                self.nodes@[i]
            }) by {}
            assert(self.wf()) by {
                assert forall|i: int| 0 <= i < self.nodes@.len() implies {
                    &&& (#[trigger] self.nodes@[i]).v0 < self.coords@.len()
                    &&& self.nodes@[i].v1 < self.coords@.len()
                    &&& self.nodes@[i].v2 < self.coords@.len()
                } by {
                    if i < base {
                        if i == target {
                            assert(self.nodes@[i].v0 == m0.nodes@[i].v0);
                            assert(self.nodes@[i].v1 == m0.nodes@[i].v1);
                            assert(self.nodes@[i].v2 == m0.nodes@[i].v2);
                        } else {
                            assert(self.nodes@[i] == m0.nodes@[i]);
                        }
                    } else {
                        assert(self.nodes@[base + (i - base)].v0 == ks[i - base].0);
                        assert(self.nodes@[base + (i - base)].v1 == ks[i - base].1);
                        assert(self.nodes@[base + (i - base)].v2 == ks[i - base].2);
                    }
                }
                assert forall|i: int|
                    self.n_roots <= i < self.nodes@.len() implies {
                    &&& (#[trigger] self.nodes@[i]).parent matches Some(p) && p < self.n_roots
                    &&& self.nodes@[i].children@.len() == 0
                } by {
                    if i < base {
                        assert(i != target);
                        assert(self.nodes@[i] == m0.nodes@[i]);
                    } else {
                        assert(self.nodes@[base + (i - base)].parent == Some(target));
                        assert(self.nodes@[base + (i - base)].children@.len() == 0);
                    }
                }
                assert forall|r: int, j: int|
                    0 <= r < self.n_roots && 0 <= j < self.nodes@[r].children@.len() implies {
                    &&& self.n_roots <= #[trigger] self.nodes@[r].children@[j] < self.nodes@.len()
                    &&& self.nodes@[self.nodes@[r].children@[j] as int].parent == Some(r as usize)
                    &&& forall|kk: int|
                        0 <= kk < self.nodes@[r].children@.len() && kk != j
                            ==> self.nodes@[r].children@[kk] != self.nodes@[r].children@[j]
                } by {
                    if r == target {
                        assert(self.nodes@[r].children@[j] == (base + j) as usize);
                        assert(self.nodes@[base + j].parent == Some(target));
                        assert(r as usize == target);
                        assert forall|kk: int|
                            0 <= kk < self.nodes@[r].children@.len() && kk != j
                                implies self.nodes@[r].children@[kk] != self.nodes@[
                            r
                        ].children@[j] by {
                            assert(self.nodes@[r].children@[kk] == (base + kk) as usize);
                        }
                    } else {
                        assert(self.nodes@[r] == m0.nodes@[r]);
                        assert(m0.n_roots <= m0.nodes@[r].children@[j] < m0.nodes@.len());
                        assert(self.nodes@[m0.nodes@[r].children@[j] as int] == m0.nodes@[
                            m0.nodes@[r].children@[j] as int
                        ]);
                    }
                }
            }
        }
        kids.len() > 0
    }
}

impl Mesh {
    /// Drop the children of the top-level node `h`: the rollback of a
    /// speculative subdivision.
    pub fn clear_children(&mut self, h: usize)
        requires
            old(self).wf(),
            h < old(self).n_roots,
        ensures
            final(self).wf(),
            final(self).coords == old(self).coords,
            final(self).n_roots == old(self).n_roots,
            final(self).nodes@.len() == old(self).nodes@.len(),
            forall|i: int|
                0 <= i < old(self).nodes@.len() && i != h ==> final(self).nodes@[i] == old(
                    self,
                ).nodes@[i],
            final(self).nodes@[h as int].v0 == old(self).nodes@[h as int].v0,
            final(self).nodes@[h as int].v1 == old(self).nodes@[h as int].v1,
            final(self).nodes@[h as int].v2 == old(self).nodes@[h as int].v2,
            final(self).nodes@[h as int].parent == old(self).nodes@[h as int].parent,
            final(self).nodes@[h as int].children@.len() == 0,
    {
        let ghost m0 = *self;
        self.nodes[h].children = Vec::new();
        proof {
            assert(self.wf()) by {
                assert forall|r: int, j: int|
                    0 <= r < self.n_roots && 0 <= j < self.nodes@[r].children@.len() implies {
                    &&& self.n_roots <= #[trigger] self.nodes@[r].children@[j] < self.nodes@.len()
                    &&& self.nodes@[self.nodes@[r].children@[j] as int].parent == Some(r as usize)
                    &&& forall|kk: int|
                        0 <= kk < self.nodes@[r].children@.len() && kk != j
                            ==> self.nodes@[r].children@[kk] != self.nodes@[r].children@[j]
                } by {
                    if r != h {
                        assert(self.nodes@[r] == m0.nodes@[r]);
                        assert(m0.n_roots <= m0.nodes@[r].children@[j] < m0.nodes@.len());
                        assert(self.nodes@[m0.nodes@[r].children@[j] as int] == m0.nodes@[
                            m0.nodes@[r].children@[j] as int
                        ]);
                    }
                }
            }
        }
    }
}

/// Whether some child triple of `ks` names the vertex `v`.
pub open spec fn children_name(ks: Seq<(usize, usize, usize)>, v: usize) -> bool {
    exists|k: int| 0 <= k < ks.len() && ((#[trigger] ks[k]).0 == v || ks[k].1 == v || ks[k].2 == v)
}

/// Where a cut produces children at all, they keep naming every corner of
/// the triangle that was cut: the subdivision tiles the parent's region.
pub proof fn lemma_cut_children_cover(
    t0: usize,
    t1: usize,
    t2: usize,
    first: usize,
    second: usize,
    side1: Option<u8>,
    side2: Option<u8>,
)
    requires
        side1 matches Some(s) ==> s < 3,
        side2 matches Some(s) ==> s < 3,
        cut_children_spec(t0, t1, t2, first, second, side1, side2).len() > 0,
    ensures
        children_name(cut_children_spec(t0, t1, t2, first, second, side1, side2), t0),
        children_name(cut_children_spec(t0, t1, t2, first, second, side1, side2), t1),
        children_name(cut_children_spec(t0, t1, t2, first, second, side1, side2), t2),
{
    let ks = cut_children_spec(t0, t1, t2, first, second, side1, side2);
    match (side1, side2) {
        (Option::None, Option::None) => {},
        (Option::Some(s1), Option::None) => {
            assert(ks[0].0 == t0 || ks[0].2 == t0 || ks[1].1 == t0);
            assert(children_name(ks, t0) && children_name(ks, t1) && children_name(ks, t2)) by {
                assert(0 <= 0 < ks.len() && 0 <= 1 < ks.len());
            }
        },
        (Option::None, Option::Some(s2)) => {
            assert(children_name(ks, t0) && children_name(ks, t1) && children_name(ks, t2)) by {
                assert(0 <= 0 < ks.len() && 0 <= 1 < ks.len());
            }
        },
        (Option::Some(s1), Option::Some(s2)) => {
            let base = side_children(t0, t1, t2, first, s1 as int);
            let (l, m, n) = side_tuple(t0, t1, t2, s2 as int);
            if tri_covered(base[0], second, first, l, m) {
                // the replaced child's corners reappear among the four
                // bounding vertices, which the new pair carries
                assert(children_name(ks, t0) && children_name(ks, t1) && children_name(ks, t2))
                    by {
                    assert(0 <= 0 < ks.len() && 0 <= 1 < ks.len() && 0 <= 2 < ks.len());
                }
            } else if tri_covered(base[1], second, first, l, m) {
                assert(children_name(ks, t0) && children_name(ks, t1) && children_name(ks, t2))
                    by {
                    assert(0 <= 0 < ks.len() && 0 <= 1 < ks.len() && 0 <= 2 < ks.len());
                }
            } else {
                assert(children_name(ks, t0) && children_name(ks, t1) && children_name(ks, t2))
                    by {
                    assert(0 <= 0 < ks.len() && 0 <= 1 < ks.len());
                }
            }
        },
    }
}

} // verus!
