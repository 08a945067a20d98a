use mesh_to_svg::find_categorized_line_segments;
use mesh_to_svg::lines::{LineSegment2, LineSegment3, LineVisibility, ProjectedLine};
use mesh_to_svg::mesh::{mesh_edges, select_edges};

type P = (f64, f64);

fn same(a: P, b: P) -> bool {
    (a.0 - b.0).abs() < 1e-9 && (a.1 - b.1).abs() < 1e-9
}

fn left_of(a: P, b: P) -> bool {
    a.0 < b.0
}

fn within(a: P, b: P) -> bool {
    b.0 < a.0 + 0.001
}

fn closer(o: P, a: P, b: P) -> bool {
    let da = (a.0 - o.0).powi(2) + (a.1 - o.1).powi(2);
    let db = (b.0 - o.0).powi(2) + (b.1 - o.1).powi(2);
    da < db
}

fn solve(a: LineSegment2<P>, b: LineSegment2<P>) -> Option<P> {
    let (p0, p1, p2, p3) = (a.from, a.to, b.from, b.to);
    let (s1x, s1y) = (p1.0 - p0.0, p1.1 - p0.1);
    let (s2x, s2y) = (p3.0 - p2.0, p3.1 - p2.1);
    let d = -s2x * s1y + s1x * s2y;
    let s = (-s1y * (p0.0 - p2.0) + s1x * (p0.1 - p2.1)) / d;
    let t = (s2x * (p0.1 - p2.1) - s2y * (p0.0 - p2.0)) / d;
    if (0.0..=1.0).contains(&s) && (0.0..=1.0).contains(&t) {
        Some((p0.0 + t * s1x, p0.1 + t * s1y))
    } else {
        None
    }
}

/// View points are (x, y, depth); the screen drops the depth.
fn project(q: (f64, f64, f64)) -> P {
    (q.0, q.1)
}

fn edge(from: (f64, f64, f64), to: (f64, f64, f64)) -> LineSegment3<(f64, f64, f64)> {
    LineSegment3 { from, to }
}

#[test]
fn an_x_with_a_repeated_edge_becomes_four_pieces() {
    let edges = vec![
        edge((0.0, 0.0, 1.0), (10.0, 10.0, 1.0)),
        edge((0.0, 10.0, 2.0), (10.0, 0.0, 2.0)),
        edge((10.0, 10.0, 1.0), (0.0, 0.0, 1.0)),
    ];
    // the deeper edge is hidden past x = 5; of the two copies of the first
    // edge, the later one in sorted order stays
    let visibility = |s: LineSegment2<P>, parent: ProjectedLine<P, (f64, f64, f64)>| {
        if parent.view_space.from.2 > 1.5 && s.from.0.max(s.to.0) > 5.0 {
            LineVisibility::OBSCURED
        } else {
            LineVisibility::VISIBLE
        }
    };
    let r = find_categorized_line_segments(
        &edges, &project, &same, &left_of, &within, &solve, &closer, &visibility,
    );
    let pieces: Vec<(P, P, LineVisibility)> = r
        .iter()
        .map(|c| (c.line_segment.from, c.line_segment.to, c.visibility))
        .collect();
    assert_eq!(
        pieces,
        vec![
            ((0.0, 10.0), (5.0, 5.0), LineVisibility::VISIBLE),
            ((5.0, 5.0), (10.0, 0.0), LineVisibility::OBSCURED),
            ((0.0, 0.0), (5.0, 5.0), LineVisibility::VISIBLE),
            ((5.0, 5.0), (10.0, 10.0), LineVisibility::VISIBLE)
        ]
    );
}

#[test]
fn no_edges_give_no_segments() {
    let edges: Vec<LineSegment3<(f64, f64, f64)>> = vec![];
    let visibility = |_s: LineSegment2<P>, _p: ProjectedLine<P, (f64, f64, f64)>| LineVisibility::VISIBLE;
    let r = find_categorized_line_segments(
        &edges, &project, &same, &left_of, &within, &solve, &closer, &visibility,
    );
    assert!(r.is_empty());
}

type V = (f64, f64, f64);

fn sub(a: V, b: V) -> V {
    (a.0 - b.0, a.1 - b.1, a.2 - b.2)
}

fn cross(a: V, b: V) -> V {
    (a.1 * b.2 - a.2 * b.1, a.2 * b.0 - a.0 * b.2, a.0 * b.1 - a.1 * b.0)
}

fn dot(a: V, b: V) -> f64 {
    a.0 * b.0 + a.1 * b.1 + a.2 * b.2
}

/// Distance along the ray to the triangle, if the ray meets it.
fn ray_hits(origin: V, direction: V, length: f64, t: [V; 3]) -> Option<f64> {
    let e1 = sub(t[1], t[0]);
    let e2 = sub(t[2], t[0]);
    let p = cross(direction, e2);
    let det = dot(e1, p);
    if det.abs() < 1e-7 {
        return None;
    }
    let tv = sub(origin, t[0]);
    let u = dot(tv, p) / det;
    if !(0.0..=1.0).contains(&u) {
        return None;
    }
    let q = cross(tv, e1);
    let v = dot(direction, q) / det;
    if v < 0.0 || u + v > 1.0 {
        return None;
    }
    let d = dot(e2, q) / det;
    if d > length {
        None
    } else {
        Some(d)
    }
}

#[test]
fn a_cube_seen_face_on_shows_its_outline_visible() {
    let corners: [V; 8] = [
        (0.0, 0.0, 0.0),
        (1.0, 0.0, 0.0),
        (1.0, 1.0, 0.0),
        (0.0, 1.0, 0.0),
        (0.0, 0.0, 1.0),
        (1.0, 0.0, 1.0),
        (1.0, 1.0, 1.0),
        (0.0, 1.0, 1.0),
    ];
    let triangles: Vec<usize> = vec![
        0, 2, 1, 0, 3, 2, // front (z = 0), facing the camera at z < 0
        4, 5, 6, 4, 6, 7, // back
        0, 1, 5, 0, 5, 4, // bottom
        3, 7, 6, 3, 6, 2, // top
        0, 4, 7, 0, 7, 3, // left
        1, 2, 6, 1, 6, 5, // right
    ];
    let facets: Vec<[V; 3]> = triangles
        .chunks(3)
        .map(|t| [corners[t[0]], corners[t[1]], corners[t[2]]])
        .collect();
    let forward: V = (0.0, 0.0, 1.0);
    let faces_camera: Vec<bool> = facets
        .iter()
        .map(|f| dot(cross(sub(f[1], f[0]), sub(f[2], f[0])), forward) < 0.0)
        .collect();

    let edges = mesh_edges(&triangles);
    let drawn = select_edges(&edges, &faces_camera, &vec![false; edges.len()], false);
    let lines: Vec<LineSegment3<V>> = drawn
        .iter()
        .map(|e| LineSegment3 { from: corners[e.a], to: corners[e.b] })
        .collect();

    let visibility = |s: LineSegment2<P>, parent: ProjectedLine<P, V>| {
        // the sub-segment's middle, back in view space, looking at the camera
        let whole = parent.screen_space;
        let len = ((whole.to.0 - whole.from.0).powi(2) + (whole.to.1 - whole.from.1).powi(2)).sqrt();
        let at = |p: P| ((p.0 - whole.from.0).powi(2) + (p.1 - whole.from.1).powi(2)).sqrt() / len;
        let scale = (at(s.from) + at(s.to)) / 2.0;
        let (a, b) = (parent.view_space.from, parent.view_space.to);
        let origin = (a.0 + (b.0 - a.0) * scale, a.1 + (b.1 - a.1) * scale, a.2 + (b.2 - a.2) * scale);
        let hidden = facets.iter().any(|f| match ray_hits(origin, (0.0, 0.0, -1.0), 10.0, *f) {
            Some(d) => d > 0.01,
            None => false,
        });
        if hidden {
            LineVisibility::OBSCURED
        } else {
            LineVisibility::VISIBLE
        }
    };
    let r = find_categorized_line_segments(
        &lines,
        &|q: V| (q.0, q.1),
        &same,
        &left_of,
        &within,
        &solve,
        &closer,
        &visibility,
    );
    assert_eq!(r.len(), 4);
    assert!(r.iter().all(|c| c.visibility == LineVisibility::VISIBLE));
    let mut ends: Vec<(P, P)> = r
        .iter()
        .map(|c| {
            let (f, t) = (c.line_segment.from, c.line_segment.to);
            if (f.0, f.1) <= (t.0, t.1) { (f, t) } else { (t, f) }
        })
        .collect();
    ends.sort_by(|a, b| a.partial_cmp(b).unwrap());
    assert_eq!(
        ends,
        vec![
            ((0.0, 0.0), (0.0, 1.0)),
            ((0.0, 0.0), (1.0, 0.0)),
            ((0.0, 1.0), (1.0, 1.0)),
            ((1.0, 0.0), (1.0, 1.0))
        ]
    );
}
