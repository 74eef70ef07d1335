//! End-to-end scenarios: the numeric kernel (scaling, weights, wedge
//! scores, unfolding, chord intersection) drives the refiner exactly as a
//! host application would, and the outputs are checked against known
//! meshes.

use geodesic_refine::PathError;
use geodesic_refine::buffer_lengths_ok;
use geodesic_refine::mesh::Coord3;
use geodesic_refine::refine::Refiner;
use nalgebra::{Matrix4, Vector2, Vector3};

const SCALE: f32 = 50000.0;
const MAX_WEDGE_ANGLE: f32 = std::f32::consts::PI - 0.2;
const THIN_AREA: f32 = 2.0;
const CUT_SIDE_TOLERANCE: f32 = 0.1;
const SEGMENT_MARGIN: f32 = 0.01;

struct Line2 {
    start: Vector2<f32>,
    end: Vector2<f32>,
}

impl Line2 {
    fn new(start: Vector2<f32>, end: Vector2<f32>) -> Line2 {
        Line2 { start, end }
    }

    fn get_dir(&self) -> Vector2<f32> {
        self.end - self.start
    }

    fn is_collinear(&self, line: &Line2) -> bool {
        let a = self.get_dir();
        let b = line.get_dir();
        (a.x * b.y - a.y * b.x).abs() < f32::EPSILON
    }

    fn intersect(&self, line: &Line2) -> Option<Vector2<f32>> {
        if self.is_collinear(line) {
            return None;
        }
        let d1 = self.get_dir();
        let d2 = line.get_dir();
        let denom = d1.x * d2.y - d1.y * d2.x;
        let diff = line.start - self.start;
        let t = (diff.x * d2.y - diff.y * d2.x) / denom;
        let intersect = self.start + d1 * t;
        let sign_length = (intersect - self.start).dot(&d1.normalize());
        if sign_length < d1.magnitude() - SEGMENT_MARGIN && sign_length > SEGMENT_MARGIN {
            Some(intersect)
        } else {
            None
        }
    }
}

fn tri_sides(a: Vector3<f32>, b: Vector3<f32>, c: Vector3<f32>) -> [f32; 3] {
    [(b - c).magnitude(), (c - a).magnitude(), (a - b).magnitude()]
}

fn tri_area(a: Vector3<f32>, b: Vector3<f32>, c: Vector3<f32>) -> f32 {
    let [la, lb, lc] = tri_sides(a, b, c);
    let s = (la + lb + lc) / 2.0;
    (s * (s - la) * (s - lb) * (s - lc)).sqrt()
}

fn tri_angles(a: Vector3<f32>, b: Vector3<f32>, c: Vector3<f32>) -> Option<[f32; 3]> {
    if tri_area(a, b, c).eq(&0.0) {
        return None;
    }
    let [la, lb, lc] = tri_sides(a, b, c);
    let alpha = ((lb.powi(2) + lc.powi(2) - la.powi(2)) / (2.0 * lb * lc)).acos();
    let beta = ((la.powi(2) + lc.powi(2) - lb.powi(2)) / (2.0 * la * lc)).acos();
    let gamma = std::f32::consts::PI - alpha - beta;
    Some([alpha, beta, gamma])
}

fn to_bits(v: Vector3<f32>) -> Coord3 {
    Coord3 { x: v.x.to_bits(), y: v.y.to_bits(), z: v.z.to_bits() }
}

fn from_bits(c: Coord3) -> Vector3<f32> {
    Vector3::new(f32::from_bits(c.x), f32::from_bits(c.y), f32::from_bits(c.z))
}

fn xy(v: Vector3<f32>) -> Vector2<f32> {
    Vector2::new(v.x, v.y)
}

fn node_points(rf: &Refiner, h: usize) -> (Vector3<f32>, Vector3<f32>, Vector3<f32>) {
    let (a, b, c) = rf.node_indices(h);
    (
        from_bits(rf.coord_at(a)),
        from_bits(rf.coord_at(b)),
        from_bits(rf.coord_at(c)),
    )
}

fn basis_of(a: Vector3<f32>, b: Vector3<f32>, c: Vector3<f32>, toward_middle: bool) -> Matrix4<f32> {
    let x = (b - a).normalize();
    let z = if toward_middle {
        (c - a).cross(&x).normalize()
    } else {
        x.cross(&(c - a)).normalize()
    };
    let y = z.cross(&x);
    Matrix4::from_columns(&[
        x.to_homogeneous(),
        y.to_homogeneous(),
        z.to_homogeneous(),
        a.push(1.0),
    ])
}

fn transform_point(m: &Matrix4<f32>, p: Vector3<f32>) -> Vector3<f32> {
    let q = m * p.push(1.0);
    Vector3::new(q.x, q.y, q.z)
}

fn wedge_score(rf: &Refiner, k: usize) -> f32 {
    let mut score = 0.0f32;
    for j in 0..rf.cand_wedge_len(k) {
        let h = rf.cand_node(k, j);
        let (a, b, c) = node_points(rf, h);
        score += match tri_angles(a, b, c) {
            Some(v) => v[0].abs(),
            None => std::f32::consts::PI,
        };
    }
    score
}

fn locate_side(a: Vector3<f32>, b: Vector3<f32>, c: Vector3<f32>, p: Vector3<f32>) -> Option<u8> {
    if p == a || p == b || p == c {
        return None;
    }
    let tests = [(b, a), (c, a), (c, b)];
    for (s, (x, y)) in tests.iter().enumerate() {
        if (y - x).cross(&(p - x)).magnitude().abs() < CUT_SIDE_TOLERANCE {
            return Some(s as u8);
        }
    }
    None
}

fn locate_sides(
    rf: &Refiner,
    target: usize,
    first: Vector3<f32>,
    second: Vector3<f32>,
) -> (Option<u8>, Option<u8>) {
    let (a, b, c) = node_points(rf, target);
    (locate_side(a, b, c, first), locate_side(a, b, c, second))
}

fn process_window(rf: &mut Refiner, i: usize) -> bool {
    let n = rf.open_window(i);
    if n == 0 {
        return false;
    }
    let mut best = 0usize;
    let mut best_score = wedge_score(rf, 0);
    for k in 1..n {
        let score = wedge_score(rf, k);
        if score.abs() < best_score.abs() {
            best = k;
            best_score = score;
        }
    }
    if !(best_score.abs() < MAX_WEDGE_ANGLE) {
        return false;
    }
    if !rf.select_wedge(best) {
        return false;
    }
    if rf.thin_candidate().is_some() {
        let (a0, b0, c0) = node_points(rf, rf.wedge_node(0));
        let (a1, b1, c1) = node_points(rf, rf.wedge_node(1));
        if tri_area(a0, b0, c0) < THIN_AREA && tri_area(a1, b1, c1) < THIN_AREA {
            return rf.take_thin();
        }
    }
    let wlen = rf.wedge_len();
    let mut unfolded: Vec<[Vector3<f32>; 3]> = Vec::new();
    let mut basis_to = Matrix4::<f32>::identity();
    for j in 0..wlen {
        let (a, b, c) = node_points(rf, rf.wedge_node(j));
        let basis_from = basis_of(a, b, c, true);
        let m = basis_to * basis_from.try_inverse().unwrap();
        let ua = transform_point(&m, a);
        let ub = transform_point(&m, b);
        let uc = transform_point(&m, c);
        unfolded.push([ua, ub, uc]);
        basis_to = basis_of(ua, uc, ub, false);
    }
    let chord = Line2::new(xy(unfolded[0][1]), xy(unfolded[wlen - 1][2]));
    for j in 0..wlen {
        if j + 1 < wlen && rf.cut_skip(j) {
            continue;
        }
        let edge = Line2::new(xy(unfolded[j][0]), xy(unfolded[j][2]));
        match chord.intersect(&edge) {
            Some(q) => {
                let (i0, _, i2) = rf.node_indices(rf.wedge_node(j));
                let a = from_bits(rf.coord_at(i0));
                let b = from_bits(rf.coord_at(i2));
                let point = a + (b - a).normalize() * (q - edge.start).magnitude();
                let target = rf.cut_target_at(j).unwrap();
                let first_idx = rf.rewrite_last().unwrap();
                let first_pt = from_bits(rf.coord_at(first_idx));
                let (s1, s2) = locate_sides(rf, target, first_pt, point);
                rf.cut_step_new(j, to_bits(point), s1, s2);
            },
            None => {
                if j == wlen - 1 {
                    let (_, _, i2) = rf.node_indices(rf.wedge_node(j));
                    let second_pt = from_bits(rf.coord_at(i2));
                    let target = rf.cut_target_at(j).unwrap();
                    let first_idx = rf.rewrite_last().unwrap();
                    let first_pt = from_bits(rf.coord_at(first_idx));
                    let (s1, s2) = locate_sides(rf, target, first_pt, second_pt);
                    rf.cut_step_final(s1, s2);
                }
            },
        }
    }
    rf.finish_window()
}

fn get_path(
    start: usize,
    end: usize,
    raw_coordinates: Vec<f32>,
    indices: Vec<usize>,
) -> Result<Vec<f32>, PathError> {
    if !buffer_lengths_ok(raw_coordinates.len(), indices.len()) {
        return Err(PathError::BadInput);
    }
    let mut scaled: Vec<Vector3<f32>> = Vec::new();
    let mut points: Vec<Coord3> = Vec::new();
    for ch in raw_coordinates.chunks(3) {
        let p = Vector3::new(ch[0], ch[1], ch[2]) * SCALE;
        scaled.push(p);
        points.push(to_bits(p));
    }
    let mut weights: Vec<i32> = Vec::new();
    for ch in indices.chunks(3) {
        if ch[0] >= scaled.len() || ch[1] >= scaled.len() || ch[2] >= scaled.len() {
            return Err(PathError::BadInput);
        }
        let w = |u: usize, v: usize| ((scaled[u] - scaled[v]).magnitude() * 1000.0) as i32;
        weights.push(w(ch[0], ch[1]));
        weights.push(w(ch[0], ch[2]));
        weights.push(w(ch[1], ch[2]));
    }
    let mut rf = Refiner::new(points, indices, weights)?;
    rf.find_path(start, end)?;
    loop {
        let mut improved = false;
        let plen = rf.path_len();
        if plen >= 3 {
            let mut i = 0usize;
            while i + 2 < plen {
                if process_window(&mut rf, i) {
                    improved = true;
                    break;
                }
                i += 1;
            }
        }
        if !improved {
            break;
        }
    }
    let mut out: Vec<f32> = Vec::new();
    for c in rf.result_points() {
        let p = from_bits(c) / SCALE;
        out.push(p.x);
        out.push(p.y);
        out.push(p.z);
    }
    Ok(out)
}

fn polyline_length(buf: &[f32]) -> f32 {
    let mut total = 0.0f32;
    let mut i = 3;
    while i + 2 < buf.len() {
        let dx = buf[i] - buf[i - 3];
        let dy = buf[i + 1] - buf[i - 2];
        let dz = buf[i + 2] - buf[i - 1];
        total += (dx * dx + dy * dy + dz * dz).sqrt();
        i += 3;
    }
    total
}

fn consecutive_points_distinct(buf: &[f32]) {
    let mut i = 3;
    while i + 2 < buf.len() {
        let dx = buf[i] - buf[i - 3];
        let dy = buf[i + 1] - buf[i - 2];
        let dz = buf[i + 2] - buf[i - 1];
        let d = (dx * dx + dy * dy + dz * dz).sqrt();
        assert!(d > 1e-6, "consecutive output points coincide");
        i += 3;
    }
}

#[test]
fn single_triangle() {
    let out = get_path(
        0,
        2,
        vec![0.0, 0.0, 0.0, 1.0, 0.0, 0.0, 0.0, 1.0, 0.0],
        vec![0, 1, 2],
    )
    .unwrap();
    assert_eq!(out, vec![0.0, 0.0, 0.0, 0.0, 1.0, 0.0]);
}

fn quad_coords() -> Vec<f32> {
    vec![0.0, 0.0, 0.0, 1.0, 0.0, 0.0, 1.0, 1.0, 0.0, 0.0, 1.0, 0.0]
}

#[test]
fn two_coplanar_triangles_shared_edge() {
    let out = get_path(0, 2, quad_coords(), vec![0, 1, 2, 0, 2, 3]).unwrap();
    assert_eq!(out, vec![0.0, 0.0, 0.0, 1.0, 1.0, 0.0]);
}

#[test]
fn chord_crosses_interior_edge() {
    let out = get_path(1, 3, quad_coords(), vec![0, 1, 2, 0, 2, 3]).unwrap();
    assert!(out.len() >= 9, "expected an interior point, got {:?}", out);
    // endpoints are the requested corners, bit-exact after scale reversal
    assert_eq!(&out[..3], &[1.0, 0.0, 0.0]);
    assert_eq!(&out[out.len() - 3..], &[0.0, 1.0, 0.0]);
    // every interior point lies on the diagonal from (0,0,0) to (1,1,0)
    let mut i = 3;
    while i + 2 < out.len() - 3 {
        assert!((out[i] - out[i + 1]).abs() <= 1e-3, "off the diagonal: {:?}", out);
        assert!(out[i + 2].abs() <= 1e-3);
        assert!(out[i] >= -1e-3 && out[i] <= 1.0 + 1e-3);
        i += 3;
    }
    consecutive_points_distinct(&out);
    // the refined path is no longer than the edge-following one
    let direct = 2.0f32;
    assert!(polyline_length(&out) <= direct + 1e-4);
}

#[test]
fn folded_hinge_shortens_path() {
    // two triangles share the edge along the x axis; one lies in the z=0
    // plane, the other is turned thirty degrees about that axis
    let coords = vec![
        0.0, 0.0, 0.0, //
        1.0, 0.0, 0.0, //
        0.5, 1.0, 0.0, //
        0.5, -0.8660254, -0.5,
    ];
    let out = get_path(2, 3, coords, vec![0, 1, 2, 0, 1, 3]).unwrap();
    let refined = polyline_length(&out);
    let edge_following = 2.0f32 * (0.25f32 + 1.0f32).sqrt();
    assert!(
        refined < edge_following * 0.99,
        "refined {} not at least one percent under {}",
        refined,
        edge_following
    );
    assert!(refined <= edge_following + 1e-4);
    consecutive_points_distinct(&out);
    // every output point stays within a millimeter of one of the two
    // triangle planes
    let n2 = Vector3::new(0.0f32, -0.5, 0.8660254);
    let mut i = 0;
    while i + 2 < out.len() {
        let p = Vector3::new(out[i], out[i + 1], out[i + 2]);
        let d1 = p.z.abs();
        let d2 = p.dot(&n2).abs();
        assert!(d1 <= 1e-3 || d2 <= 1e-3, "point {:?} off both planes", p);
        i += 3;
    }
}

#[test]
fn disconnected_components_have_no_path() {
    let coords = vec![
        0.0, 0.0, 0.0, 1.0, 0.0, 0.0, 0.0, 1.0, 0.0, //
        5.0, 0.0, 0.0, 6.0, 0.0, 0.0, 5.0, 1.0, 0.0,
    ];
    let r = get_path(0, 3, coords, vec![0, 1, 2, 3, 4, 5]);
    assert_eq!(r, Err(PathError::NoPath));
}

#[test]
fn degenerate_triangle_is_tolerated() {
    // the quad plus a collinear triple along its bottom edge
    let mut coords = quad_coords();
    coords.extend_from_slice(&[0.5, 0.0, 0.0]);
    let out = get_path(1, 3, coords, vec![0, 1, 2, 0, 2, 3, 0, 1, 4]).unwrap();
    assert_eq!(&out[..3], &[1.0, 0.0, 0.0]);
    assert_eq!(&out[out.len() - 3..], &[0.0, 1.0, 0.0]);
    consecutive_points_distinct(&out);
}

#[test]
fn refined_triangulation_is_stable() {
    // refine the quad once, then hand the refined vertex to the
    // triangulation itself: the polyline must come back unchanged
    let first = get_path(1, 3, quad_coords(), vec![0, 1, 2, 0, 2, 3]).unwrap();
    assert!(first.len() >= 9);
    let mid = Vector3::new(first[3], first[4], first[5]);
    let mut coords = quad_coords();
    coords.extend_from_slice(&[mid.x, mid.y, mid.z]);
    let second = get_path(1, 3, coords, vec![0, 1, 4, 1, 2, 4, 2, 3, 4, 3, 0, 4]).unwrap();
    assert_eq!(second.len(), first.len());
    for (a, b) in first.iter().zip(second.iter()) {
        assert!((a - b).abs() <= 1e-4, "{:?} vs {:?}", first, second);
    }
}

#[test]
fn ragged_buffers_are_rejected() {
    assert_eq!(
        get_path(0, 1, vec![0.0, 0.0], vec![0, 1, 2]),
        Err(PathError::BadInput)
    );
    assert_eq!(
        get_path(0, 1, vec![0.0, 0.0, 0.0], vec![0, 1]),
        Err(PathError::BadInput)
    );
    assert_eq!(
        get_path(0, 1, vec![0.0, 0.0, 0.0], vec![0, 1, 7]),
        Err(PathError::BadInput)
    );
}

#[test]
fn out_of_range_endpoints_have_no_path() {
    let coords = vec![0.0, 0.0, 0.0, 1.0, 0.0, 0.0, 0.0, 1.0, 0.0];
    assert_eq!(get_path(0, 9, coords.clone(), vec![0, 1, 2]), Err(PathError::NoPath));
    assert_eq!(get_path(9, 0, coords, vec![0, 1, 2]), Err(PathError::NoPath));
}
