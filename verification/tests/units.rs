//! Library-level tests: the edge graph and its symmetry, the search, the
//! edge query with re-edging, the cut table, and the window bookkeeping,
//! all on the index level.

use geodesic_refine::PathError;
use geodesic_refine::buffer_lengths_ok;
use geodesic_refine::mesh::Coord3;
use geodesic_refine::refine::Refiner;

fn pt(x: u32, y: u32, z: u32) -> Coord3 {
    Coord3 { x, y, z }
}

fn four_points() -> Vec<Coord3> {
    vec![pt(0, 0, 0), pt(1, 0, 0), pt(1, 1, 0), pt(0, 1, 0)]
}

fn quad_refiner() -> Refiner {
    // the quad split along its diagonal; weights are one per corner pair
    Refiner::new(
        four_points(),
        vec![0, 1, 2, 0, 2, 3],
        vec![10, 14, 10, 14, 10, 10],
    )
    .unwrap()
}

#[test]
fn buffer_lengths() {
    assert!(buffer_lengths_ok(6, 3));
    assert!(!buffer_lengths_ok(5, 3));
    assert!(!buffer_lengths_ok(6, 4));
}

#[test]
fn malformed_input_is_rejected() {
    let r = Refiner::new(four_points(), vec![0, 1], vec![10, 10]);
    assert!(matches!(r, Err(PathError::BadInput)));
    let r = Refiner::new(four_points(), vec![0, 1, 2], vec![10, 10]);
    assert!(matches!(r, Err(PathError::BadInput)));
    let r = Refiner::new(four_points(), vec![0, 1, 9], vec![10, 10, 10]);
    assert!(matches!(r, Err(PathError::BadInput)));
    let r = Refiner::new(four_points(), vec![0, 1, 2], vec![10, -1, 10]);
    assert!(matches!(r, Err(PathError::BadInput)));
}

#[test]
fn adjacency_is_symmetric() {
    let rf = quad_refiner();
    for (u, row) in rf.adj.iter().enumerate() {
        for &(x, w) in row.iter() {
            assert!(
                rf.adj[x].iter().any(|&(back, bw)| back == u && bw == w),
                "missing reverse of {}->{} weight {}",
                u,
                x,
                w
            );
        }
    }
    // and the entries are the triangle's pairs with the given weights
    assert!(rf.adj[0].contains(&(1, 10)));
    assert!(rf.adj[1].contains(&(0, 10)));
    assert!(rf.adj[0].contains(&(2, 14)));
    assert!(rf.adj[3].contains(&(2, 10)));
}

#[test]
fn search_picks_the_cheap_route() {
    // two triangles sharing the edge between the middle vertices; the
    // weights make the upper route much cheaper
    let points = vec![pt(0, 0, 0), pt(1, 0, 0), pt(2, 0, 0), pt(3, 0, 0)];
    let mut rf = Refiner::new(
        points,
        vec![0, 1, 2, 1, 2, 3],
        vec![1, 50, 50, 50, 1, 50],
    )
    .unwrap();
    rf.find_path(0, 3).unwrap();
    assert_eq!(rf.path, vec![0, 1, 3]);
}

#[test]
fn search_reports_missing_routes() {
    let mut rf = quad_refiner();
    assert_eq!(rf.find_path(0, 9), Err(PathError::NoPath));
    let points = vec![
        pt(0, 0, 0),
        pt(1, 0, 0),
        pt(1, 1, 0),
        pt(5, 0, 0),
        pt(6, 0, 0),
        pt(6, 1, 0),
    ];
    let mut rf = Refiner::new(
        points,
        vec![0, 1, 2, 3, 4, 5],
        vec![1, 1, 1, 1, 1, 1],
    )
    .unwrap();
    assert_eq!(rf.find_path(0, 3), Err(PathError::NoPath));
}

#[test]
fn edge_query_re_edges_both_triangles() {
    let mut rf = quad_refiner();
    let hits = rf.mesh.pair_by_edge(0, 2, None);
    assert_eq!(hits.len(), 2);
    for &h in hits.iter() {
        let node = &rf.mesh.nodes[h];
        assert_eq!(node.v0, 0);
        assert_eq!(node.v1, 2);
        assert!(node.v2 == 1 || node.v2 == 3);
    }
    // excluding one of them leaves the other
    let first = hits[0];
    let rest = rf.mesh.pair_by_edge(0, 2, Some(first));
    assert_eq!(rest.len(), 1);
    assert_ne!(rest[0], first);
}

#[test]
fn cut_with_one_side_splits_in_two() {
    let mut rf = quad_refiner();
    let k = rf.mesh.push_vertex(pt(7, 7, 7));
    assert_eq!(k, 4);
    // the new vertex sits on the side between the first and last corners
    let grew = rf.mesh.apply_cut_at(0, k, 1, Some(1), None);
    assert!(grew);
    assert_eq!(rf.mesh.nodes[0].children, vec![2, 3]);
    let c0 = &rf.mesh.nodes[2];
    assert_eq!((c0.v0, c0.v1, c0.v2), (2, 4, 1));
    assert_eq!(c0.parent, Some(0));
    let c1 = &rf.mesh.nodes[3];
    assert_eq!((c1.v0, c1.v1, c1.v2), (4, 0, 1));
    assert_eq!(c1.parent, Some(0));
    // a cut that finds no side clears the children again
    let grew = rf.mesh.apply_cut_at(0, 0, 1, None, None);
    assert!(!grew);
    assert_eq!(rf.mesh.nodes[0].children.len(), 0);
}

#[test]
fn cut_with_both_sides_splits_in_three() {
    let mut rf = quad_refiner();
    let f = rf.mesh.push_vertex(pt(7, 7, 7));
    let s = rf.mesh.push_vertex(pt(8, 8, 8));
    let grew = rf.mesh.apply_cut_at(0, f, s, Some(0), Some(1));
    assert!(grew);
    assert_eq!(rf.mesh.nodes[0].children, vec![2, 3, 4]);
    let kids: Vec<(usize, usize, usize)> = rf.mesh.nodes[0]
        .children
        .iter()
        .map(|&h| {
            let n = &rf.mesh.nodes[h];
            (n.v0, n.v1, n.v2)
        })
        .collect();
    assert_eq!(kids, vec![(1, 4, 2), (5, 4, 2), (5, 0, 4)]);
}

#[test]
fn empty_window_replacement_drops_the_middle_vertex() {
    let mut rf = quad_refiner();
    rf.find_path(1, 3).unwrap();
    let p = rf.path.clone();
    assert_eq!(p.len(), 3);
    assert_eq!(p[0], 1);
    assert_eq!(p[2], 3);
    let n = rf.open_window(0);
    assert!(n >= 1);
    assert!(rf.select_wedge(0));
    // wedge runs from the window's first vertex around its middle one
    assert_eq!(rf.mesh.nodes[rf.wedge[0]].v0, p[1]);
    assert_eq!(rf.mesh.nodes[rf.wedge[0]].v1, p[0]);
    assert_eq!(rf.mesh.nodes[rf.wedge[rf.wedge.len() - 1]].v2, p[2]);
    // no cut was recorded: closing the window falls back to the endpoints
    assert!(rf.finish_window());
    assert_eq!(rf.path, vec![1, 3]);
}

#[test]
fn recorded_cut_joins_the_replacement() {
    let mut rf = quad_refiner();
    rf.find_path(1, 3).unwrap();
    let p = rf.path.clone();
    assert!(rf.open_window(0) >= 1);
    assert!(rf.select_wedge(0));
    assert_eq!(rf.rewrite, vec![p[0]]);
    // report an intersection on the wedge's first node: the rewrite's
    // last vertex is a corner, the new point lies on the second side
    let grew = rf.cut_step_new(0, pt(9, 9, 9), None, Some(1));
    assert!(grew);
    assert_eq!(rf.rewrite, vec![p[0], 4]);
    assert!(rf.finish_window());
    assert_eq!(rf.path, vec![p[0], 4, p[2]]);
    // the new vertex is held by the cut node's children
    let held = rf
        .mesh
        .nodes
        .iter()
        .any(|n| n.v0 == 4 || n.v1 == 4 || n.v2 == 4);
    assert!(held);
}

#[test]
fn rollback_clears_the_speculative_children() {
    let mut rf = quad_refiner();
    rf.find_path(1, 3).unwrap();
    // refine the window once so both top-level nodes carry children
    assert!(rf.open_window(0) >= 1);
    assert!(rf.select_wedge(0));
    assert!(rf.cut_step_new(0, pt(9, 9, 9), None, Some(1)));
    assert!(rf.cut_step_final(Some(0), None));
    assert!(rf.finish_window());
    assert_eq!(rf.path.len(), 3);
    assert_eq!(rf.path[1], 4);
    assert_eq!(rf.mesh.nodes[0].children.len(), 2);
    assert_eq!(rf.mesh.nodes[1].children.len(), 2);
    // the next window runs over the children; closing it with an empty
    // rewrite rolls the first wedge node's parent back
    assert_eq!(rf.open_window(0), 2);
    assert!(rf.select_wedge(0));
    let parent = rf.mesh.nodes[rf.wedge[0]].parent.unwrap();
    assert!(rf.finish_window());
    assert_eq!(rf.path, vec![1, 3]);
    assert_eq!(rf.mesh.nodes[parent].children.len(), 0);
    let other = if parent == 0 { 1 } else { 0 };
    assert_eq!(rf.mesh.nodes[other].children.len(), 2);
}

#[test]
fn thin_shortcut_requires_parents() {
    let mut rf = quad_refiner();
    rf.find_path(1, 3).unwrap();
    assert!(rf.open_window(0) >= 1);
    assert!(rf.select_wedge(0));
    // top-level wedge nodes were never cut from anything
    assert!(rf.thin_candidate().is_none());
}
