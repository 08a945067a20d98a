use mesh_to_svg::mesh::{
    check_index_buffer, mesh_edges, mesh_triangle_indices, select_edges, wireframe_line_indices,
    MeshEdge, MeshError,
};

#[test]
fn missing_indices_are_taken_in_order() {
    assert_eq!(mesh_triangle_indices(None, 18, 18), Ok(vec![0, 1, 2, 3, 4, 5]));
}

#[test]
fn given_indices_are_kept() {
    assert_eq!(
        mesh_triangle_indices(Some(vec![0, 1, 2, 2, 1, 3]), 12, 12),
        Ok(vec![0, 1, 2, 2, 1, 3])
    );
}

#[test]
fn position_buffer_must_hold_whole_vertices() {
    assert_eq!(mesh_triangle_indices(None, 10, 9), Err(MeshError::BufferLength));
    assert_eq!(mesh_triangle_indices(None, 9, 10), Err(MeshError::BufferLength));
}

#[test]
fn index_buffer_must_hold_whole_triangles() {
    assert_eq!(
        mesh_triangle_indices(Some(vec![0, 1, 2, 0]), 9, 9),
        Err(MeshError::BufferLength)
    );
    assert_eq!(mesh_triangle_indices(None, 12, 12), Err(MeshError::BufferLength));
}

#[test]
fn an_index_past_the_vertices_is_refused() {
    assert_eq!(
        mesh_triangle_indices(Some(vec![0, 1, 3]), 9, 9),
        Err(MeshError::IndexOutOfRange)
    );
}

#[test]
fn wireframe_lines_take_two_indices() {
    assert_eq!(wireframe_line_indices(None, 12, 3), Ok(vec![0, 1, 2, 3]));
    assert_eq!(wireframe_line_indices(Some(vec![0, 1, 1]), 6, 3), Err(MeshError::BufferLength));
    assert_eq!(wireframe_line_indices(None, 7, 3), Err(MeshError::BufferLength));
    assert_eq!(wireframe_line_indices(Some(vec![0, 2]), 6, 3), Err(MeshError::IndexOutOfRange));
    assert_eq!(wireframe_line_indices(Some(vec![0, 2]), 6, 2), Ok(vec![0, 2]));
}

#[test]
fn empty_index_buffer_is_accepted() {
    assert_eq!(check_index_buffer(Some(vec![]), 0, 3), Ok(vec![]));
}

fn has_edge(edges: &[MeshEdge], a: usize, b: usize) -> Option<MeshEdge> {
    edges
        .iter()
        .find(|e| (e.a == a && e.b == b) || (e.a == b && e.b == a))
        .copied()
}

#[test]
fn two_triangles_share_their_diagonal() {
    let edges = mesh_edges(&vec![0, 1, 2, 2, 1, 3]);
    assert_eq!(edges.len(), 5);
    let diagonal = has_edge(&edges, 1, 2).unwrap();
    assert_eq!(diagonal.triangle_a, 0);
    assert_eq!(diagonal.triangle_b, Some(1));
    assert_eq!(has_edge(&edges, 0, 1).unwrap().triangle_b, None);
    assert_eq!(has_edge(&edges, 1, 3).unwrap().triangle_a, 1);
}

/// A unit cube: eight corners, twelve triangles, two per face.
fn cube_triangles() -> Vec<usize> {
    vec![
        0, 1, 2, 0, 2, 3, // front (z = 0)
        4, 6, 5, 4, 7, 6, // back (z = 1)
        0, 4, 5, 0, 5, 1, // bottom
        3, 2, 6, 3, 6, 7, // top
        0, 3, 7, 0, 7, 4, // left
        1, 5, 6, 1, 6, 2, // right
    ]
}

#[test]
fn a_closed_cube_has_eighteen_shared_edges() {
    let edges = mesh_edges(&cube_triangles());
    assert_eq!(edges.len(), 18);
    assert!(edges.iter().all(|e| e.triangle_b.is_some()));
}

#[test]
fn a_cube_seen_face_on_draws_its_outline() {
    let triangles = cube_triangles();
    let edges = mesh_edges(&triangles);
    // only the two front triangles face the camera
    let faces_camera: Vec<bool> = (0..12).map(|t| t < 2).collect();
    // every cube edge is a right angle; the face diagonals are flat
    let creased: Vec<bool> = edges
        .iter()
        .map(|e| e.triangle_a / 2 != e.triangle_b.unwrap() / 2)
        .collect();
    let silhouette = select_edges(&edges, &faces_camera, &vec![false; edges.len()], false);
    assert_eq!(silhouette.len(), 4);
    for (a, b) in [(0, 1), (1, 2), (2, 3), (3, 0)] {
        assert!(has_edge(&silhouette, a, b).is_some());
    }
    let with_creases = select_edges(&edges, &faces_camera, &creased, false);
    assert_eq!(with_creases.len(), 12);
    let all = select_edges(&edges, &faces_camera, &creased, true);
    assert_eq!(all.len(), 18);
}

#[test]
fn a_lone_triangle_draws_its_boundary() {
    let edges = mesh_edges(&vec![0, 1, 2]);
    let r = select_edges(&edges, &vec![true], &vec![false; 3], false);
    assert_eq!(r.len(), 3);
}
