use vstd::prelude::*;

verus! {

/// Why a mesh or wireframe could not be built from its buffers.
#[derive(Clone, Copy, Debug, PartialEq, Eq, Structural)]
pub enum MeshError {
    /// A buffer's length is not a whole number of its records.
    BufferLength,
    /// An index names a vertex that the position buffer does not hold.
    IndexOutOfRange,
}

/// The index buffer used when none is given: `0, 1, ..., count - 1`.
pub open spec fn sequential_indices(count: nat) -> Seq<usize> {
    Seq::new(count, |i: int| i as usize)
}

/// The indices given, or the sequential ones when none are.
pub open spec fn indices_or_sequential(indices: Option<Seq<usize>>, count: nat) -> Seq<usize> {
    match indices {
        Some(s) => s,
        None => sequential_indices(count),
    }
}

/// Every index of `s` is below `bound`.
pub open spec fn all_below(s: Seq<usize>, bound: nat) -> bool {
    forall|i: int| 0 <= i < s.len() ==> #[trigger] s[i] < bound
}

/// What an index buffer describes: `Ok` with the indices when its length is
/// a multiple of `group` and every index is below `vertex_count`.
pub open spec fn index_buffer_result(
    indices: Option<Seq<usize>>,
    vertex_count: nat,
    group: nat,
) -> Result<Seq<usize>, MeshError> {
    let s = indices_or_sequential(indices, vertex_count);
    if s.len() % group != 0 {
        Err(MeshError::BufferLength)
    } else if !all_below(s, vertex_count) {
        Err(MeshError::IndexOutOfRange)
    } else {
        Ok(s)
    }
}

/// The indices an optional buffer holds, as a sequence.
pub open spec fn view_indices(indices: Option<Vec<usize>>) -> Option<Seq<usize>> {
    match indices {
        Some(v) => Some(v@),
        None => None,
    }
}

/// A result with its indices as a sequence.
pub open spec fn view_result(r: Result<Vec<usize>, MeshError>) -> Result<Seq<usize>, MeshError> {
    match r {
        Ok(v) => Ok(v@),
        Err(e) => Err(e),
    }
}

/// Checks an index buffer whose records are `group` indices long; with no
/// buffer, the vertices are taken in order.
pub fn check_index_buffer(indices: Option<Vec<usize>>, vertex_count: usize, group: usize) -> (r:
    Result<Vec<usize>, MeshError>)
    requires
        group > 0,
    ensures
        view_result(r) == index_buffer_result(view_indices(indices), vertex_count as nat, group as nat),
{
    let ghost given = view_indices(indices);
    let s = match indices {
        Some(v) => v,
        None => {
            let mut v: Vec<usize> = Vec::new();
            let mut i: usize = 0;
            while i < vertex_count
                invariant
                    i <= vertex_count,
                    v@ == sequential_indices(i as nat),
                decreases vertex_count - i,
            {
                v.push(i);
                i = i + 1;
                assert(v@ =~= sequential_indices(i as nat));
            }
            v
        },
    };
    let ghost expected = indices_or_sequential(given, vertex_count as nat);
    assert(s@ == expected);
    if s.len() % group != 0 {
        return Err(MeshError::BufferLength);
    }
    let mut i: usize = 0;
    while i < s.len()
        invariant
            i <= s.len(),
            group > 0,
            s@ == expected,
            s.len() % group == 0,
            expected == indices_or_sequential(view_indices(indices), vertex_count as nat),
            forall|k: int| 0 <= k < i ==> #[trigger] s@[k] < vertex_count,
        decreases s.len() - i,
    {
        if s[i] >= vertex_count {
            assert(s@[i as int] >= vertex_count);
            return Err(MeshError::IndexOutOfRange);
        }
        i = i + 1;
    }
    Ok(s)
}

/// The triangles of a mesh, three vertex indices each, from its buffers: the
/// position and normal buffers hold three numbers per vertex.
pub open spec fn triangle_indices_result(
    indices: Option<Seq<usize>>,
    positions_len: nat,
    normals_len: nat,
) -> Result<Seq<usize>, MeshError> {
    if positions_len % 3 != 0 || normals_len % 3 != 0 {
        Err(MeshError::BufferLength)
    } else {
        index_buffer_result(indices, positions_len / 3, 3)
    }
}

/// Checks a mesh's buffers and returns its triangles' vertex indices.
pub fn mesh_triangle_indices(
    indices: Option<Vec<usize>>,
    positions_len: usize,
    normals_len: usize,
) -> (r: Result<Vec<usize>, MeshError>)
    ensures
        view_result(r) == triangle_indices_result(
            view_indices(indices),
            positions_len as nat,
            normals_len as nat,
        ),
{
    if positions_len % 3 != 0 || normals_len % 3 != 0 {
        return Err(MeshError::BufferLength);
    }
    check_index_buffer(indices, positions_len / 3, 3)
}

/// Checks a wireframe's buffers and returns its lines' vertex indices, two
/// for each line; the position buffer holds `stride` numbers per vertex.
pub fn wireframe_line_indices(indices: Option<Vec<usize>>, positions_len: usize, stride: usize) -> (r:
    Result<Vec<usize>, MeshError>)
    requires
        stride > 0,
    ensures
        positions_len % stride != 0 ==> r == Err::<Vec<usize>, MeshError>(MeshError::BufferLength),
        positions_len % stride == 0 ==> view_result(r) == index_buffer_result(
            view_indices(indices),
            (positions_len / stride) as nat,
            2,
        ),
{
    if positions_len % stride != 0 {
        return Err(MeshError::BufferLength);
    }
    check_index_buffer(indices, positions_len / stride, 2)
}

/// An undirected edge of the mesh, `a -> b` in the direction in which
/// `triangle_a` lists its vertices, with the triangles that share it.
#[derive(Clone, Copy, Debug, PartialEq, Eq, Structural)]
pub struct MeshEdge {
    pub a: usize,
    pub b: usize,
    pub triangle_a: usize,
    /// `None` for an edge on the boundary of the mesh.
    pub triangle_b: Option<usize>,
}

/// The position, within its triangle, of the corner after corner `o`.
pub open spec fn next_corner(o: int) -> int {
    if o % 3 == 2 {
        o - 2
    } else {
        o + 1
    }
}

/// `{x, y}` and `{u, v}` are the same pair of vertices.
pub open spec fn same_edge(x: usize, y: usize, u: usize, v: usize) -> bool {
    (x == u && y == v) || (x == v && y == u)
}

/// Corner `o` of the triangle list starts the edge `{x, y}`.
pub open spec fn corner_on_edge(t: Seq<usize>, o: int, x: usize, y: usize) -> bool {
    same_edge(t[o], t[next_corner(o)], x, y)
}

/// The edge that corner `o` starts has a record in `r`.
pub open spec fn edge_recorded(t: Seq<usize>, r: Seq<MeshEdge>, o: int) -> bool {
    exists|i: int| 0 <= i < r.len() && #[trigger] corner_on_edge(t, o, r[i].a, r[i].b)
}

/// `r` records the edges that the first `k` corners of `t` start.
pub open spec fn edge_table_upto(t: Seq<usize>, k: int, r: Seq<MeshEdge>) -> bool {
    // each record is an edge of `triangle_a`, in that triangle's direction
    &&& forall|i: int|
        0 <= i < r.len() ==> exists|o: int|
            0 <= o < k && o / 3 == (#[trigger] r[i]).triangle_a && t[o] == r[i].a && t[
                next_corner(o)
            ] == r[i].b
    // no edge is recorded twice
    &&& forall|i: int, j: int|
        0 <= i < j < r.len() ==> !same_edge(
            (#[trigger] r[i]).a,
            r[i].b,
            (#[trigger] r[j]).a,
            r[j].b,
        )
    // every edge is recorded
    &&& forall|o: int| 0 <= o < k ==> #[trigger] edge_recorded(t, r, o)
    // a boundary edge belongs to its one triangle alone
    &&& forall|i: int, o: int|
        0 <= i < r.len() && 0 <= o < k && (#[trigger] r[i]).triangle_b is None
            && #[trigger] corner_on_edge(t, o, r[i].a, r[i].b) ==> o / 3 == r[i].triangle_a
    // a second triangle is another triangle that holds the edge
    &&& forall|i: int|
        0 <= i < r.len() && (#[trigger] r[i]).triangle_b is Some ==> {
            let tb = r[i].triangle_b->0;
            &&& tb != r[i].triangle_a
            &&& exists|o: int|
                0 <= o < k && o / 3 == tb && #[trigger] corner_on_edge(t, o, r[i].a, r[i].b)
        }
}

/// What `mesh_edges` returns for the triangle list `t`.
pub open spec fn edge_table(t: Seq<usize>, r: Seq<MeshEdge>) -> bool {
    edge_table_upto(t, t.len() as int, r)
}

/// Collects the edges of a triangle list, three indices per triangle, each
/// edge once, with the two triangles that meet at it. Where more than two
/// triangles share an edge, two of them are recorded.
pub fn mesh_edges(triangles: &Vec<usize>) -> (r: Vec<MeshEdge>)
    requires
        triangles.len() % 3 == 0,
    ensures
        edge_table(triangles@, r@),
{
    let t = triangles;
    let mut r: Vec<MeshEdge> = Vec::new();
    let mut o: usize = 0;
    while o < t.len()
        invariant
            o <= t.len(),
            t.len() % 3 == 0,
            edge_table_upto(t@, o as int, r@),
        decreases t.len() - o,
    {
        let x = t[o];
        let y = if o % 3 == 2 {
            t[o - 2]
        } else {
            t[o + 1]
        };
        let tri = o / 3;
        let mut i: usize = 0;
        let mut found = false;
        while i < r.len()
            invariant_except_break
                !found,
            invariant
                i <= r.len(),
                forall|k: int| 0 <= k < i ==> !same_edge(#[trigger] r@[k].a, r@[k].b, x, y),
            ensures
                found ==> i < r.len() && same_edge(r@[i as int].a, r@[i as int].b, x, y),
                !found ==> forall|k: int|
                    0 <= k < r.len() ==> !same_edge(#[trigger] r@[k].a, r@[k].b, x, y),
            decreases r.len() - i,
        {
            if (r[i].a == x && r[i].b == y) || (r[i].a == y && r[i].b == x) {
                found = true;
                break;
            }
            i = i + 1;
        }
        let ghost before = r@;
        assert(t@[o as int] == x && t@[next_corner(o as int)] == y);
        if found {
            let e = r[i];
            if e.triangle_b.is_none() && e.triangle_a != tri {
                r.set(i, MeshEdge { a: e.a, b: e.b, triangle_a: e.triangle_a, triangle_b: Some(tri) });
            }
            proof {
                lemma_match_step(t@, o as int, before, r@, i as int);
            }
        } else {
            r.push(MeshEdge { a: x, b: y, triangle_a: tri, triangle_b: None });
            proof {
                lemma_new_edge_step(t@, o as int, before, r@);
            }
        }
        o = o + 1;
    }
    r
}

proof fn lemma_match_step(t: Seq<usize>, o: int, before: Seq<MeshEdge>, after: Seq<MeshEdge>, i: int)
    requires
        0 <= o < t.len(),
        o <= usize::MAX,
        0 <= next_corner(o) < t.len(),
        edge_table_upto(t, o, before),
        0 <= i < before.len(),
        same_edge(before[i].a, before[i].b, t[o], t[next_corner(o)]),
        after.len() == before.len(),
        forall|j: int| 0 <= j < before.len() && j != i ==> after[j] == before[j],
        after[i].a == before[i].a && after[i].b == before[i].b && after[i].triangle_a == before[i].triangle_a,
        before[i].triangle_b is Some ==> after[i] == before[i],
        before[i].triangle_b is None && before[i].triangle_a == o / 3 ==> after[i] == before[i],
        before[i].triangle_b is None && before[i].triangle_a != o / 3 ==> after[i].triangle_b == Some((o / 3) as usize),
    ensures
        edge_table_upto(t, o + 1, after),
{
    assert(corner_on_edge(t, o, after[i].a, after[i].b));
    assert forall|c: int| 0 <= c < o + 1 implies #[trigger] edge_recorded(t, after, c) by {
        if c < o {
            assert(edge_recorded(t, before, c));
            let j = choose|j: int| 0 <= j < before.len() && #[trigger] corner_on_edge(t, c, before[j].a, before[j].b);
            assert(corner_on_edge(t, c, after[j].a, after[j].b));
        } else {
            assert(corner_on_edge(t, c, after[i].a, after[i].b));
        }
    }
    assert forall|j: int, c: int|
        0 <= j < after.len() && 0 <= c < o + 1 && (#[trigger] after[j]).triangle_b is None
            && #[trigger] corner_on_edge(t, c, after[j].a, after[j].b) implies c / 3 == after[j].triangle_a by {
        if c == o && j != i {
            if j < i {
                assert(!same_edge(before[j].a, before[j].b, before[i].a, before[i].b));
            } else {
                assert(!same_edge(before[i].a, before[i].b, before[j].a, before[j].b));
            }
        }
    }
    assert forall|j: int| 0 <= j < after.len() implies exists|c: int|
            0 <= c < o + 1 && c / 3 == (#[trigger] after[j]).triangle_a && t[c] == after[j].a && t[
                next_corner(c)
            ] == after[j].b by {
        let c = choose|c: int|
            0 <= c < o && c / 3 == before[j].triangle_a && t[c] == before[j].a && t[next_corner(c)] == before[j].b;
    }
    assert forall|j: int|
        0 <= j < after.len() && (#[trigger] after[j]).triangle_b is Some implies {
            let tb = after[j].triangle_b->0;
            &&& tb != after[j].triangle_a
            &&& exists|c: int|
                0 <= c < o + 1 && c / 3 == tb && #[trigger] corner_on_edge(t, c, after[j].a, after[j].b)
        } by {
        if j == i && before[i].triangle_b is None {
            assert(0 <= o / 3 <= o);
            assert(corner_on_edge(t, o, after[j].a, after[j].b));
        } else {
            let tb = before[j].triangle_b->0;
            let c = choose|c: int|
                0 <= c < o && c / 3 == tb && #[trigger] corner_on_edge(t, c, before[j].a, before[j].b);
            assert(corner_on_edge(t, c, after[j].a, after[j].b));
        }
    }
}

proof fn lemma_new_edge_step(t: Seq<usize>, o: int, before: Seq<MeshEdge>, after: Seq<MeshEdge>)
    requires
        0 <= o < t.len(),
        o <= usize::MAX,
        0 <= next_corner(o) < t.len(),
        edge_table_upto(t, o, before),
        forall|k: int|
            0 <= k < before.len() ==> !same_edge(#[trigger] before[k].a, before[k].b, t[o], t[next_corner(o)]),
        after == before.push(MeshEdge { a: t[o], b: t[next_corner(o)], triangle_a: (o / 3) as usize, triangle_b: None }),
    ensures
        edge_table_upto(t, o + 1, after),
{
    let n = before.len() as int;
    assert(0 <= o / 3 <= o);
    assert(corner_on_edge(t, o, after[n].a, after[n].b));
    assert forall|c: int| 0 <= c < o + 1 implies #[trigger] edge_recorded(t, after, c) by {
        if c < o {
            assert(edge_recorded(t, before, c));
            let j = choose|j: int| 0 <= j < before.len() && #[trigger] corner_on_edge(t, c, before[j].a, before[j].b);
            assert(corner_on_edge(t, c, after[j].a, after[j].b));
        } else {
            assert(corner_on_edge(t, c, after[n].a, after[n].b));
        }
    }
    assert forall|j: int, c: int|
        0 <= j < after.len() && 0 <= c < o + 1 && (#[trigger] after[j]).triangle_b is None
            && #[trigger] corner_on_edge(t, c, after[j].a, after[j].b) implies c / 3 == after[j].triangle_a by {
        if j == n && c < o {
            assert(edge_recorded(t, before, c));
            let k = choose|k: int| 0 <= k < before.len() && #[trigger] corner_on_edge(t, c, before[k].a, before[k].b);
            assert(!same_edge(before[k].a, before[k].b, t[o], t[next_corner(o)]));
        }
        if j < n && c == o {
            assert(!same_edge(before[j].a, before[j].b, t[o], t[next_corner(o)]));
        }
    }
    assert forall|j: int| 0 <= j < after.len() implies exists|c: int|
            0 <= c < o + 1 && c / 3 == (#[trigger] after[j]).triangle_a && t[c] == after[j].a && t[
                next_corner(c)
            ] == after[j].b by {
        if j < n {
            let c = choose|c: int|
                0 <= c < o && c / 3 == before[j].triangle_a && t[c] == before[j].a && t[next_corner(c)] == before[j].b;
        } else {
            assert(o / 3 == after[j].triangle_a);
        }
    }
    assert forall|j: int|
        0 <= j < after.len() && (#[trigger] after[j]).triangle_b is Some implies {
            let tb = after[j].triangle_b->0;
            &&& tb != after[j].triangle_a
            &&& exists|c: int|
                0 <= c < o + 1 && c / 3 == tb && #[trigger] corner_on_edge(t, c, after[j].a, after[j].b)
        } by {
        let tb = before[j].triangle_b->0;
        let c = choose|c: int|
            0 <= c < o && c / 3 == tb && #[trigger] corner_on_edge(t, c, before[j].a, before[j].b);
        assert(corner_on_edge(t, c, after[j].a, after[j].b));
    }
    assert forall|i: int, j: int| 0 <= i < j < after.len() implies !same_edge(
            (#[trigger] after[i]).a,
            after[i].b,
            (#[trigger] after[j]).a,
            after[j].b,
        ) by {
        if j == n {
            assert(!same_edge(before[i].a, before[i].b, t[o], t[next_corner(o)]));
        }
    }
}

/// An edge is drawn when every edge is asked for, when it bounds the mesh,
/// when one of its triangles faces the camera and the other does not (a
/// silhouette), or when its triangles meet at a crease.
pub open spec fn edge_drawn(e: MeshEdge, faces_camera: Seq<bool>, creased: bool, force_all: bool) -> bool {
    force_all || match e.triangle_b {
        None => true,
        Some(tb) => faces_camera[e.triangle_a as int] != faces_camera[tb as int] || creased,
    }
}

/// The drawn edges among the first `k`, in order.
pub open spec fn drawn_edges(
    edges: Seq<MeshEdge>,
    faces_camera: Seq<bool>,
    creased: Seq<bool>,
    force_all: bool,
    k: int,
) -> Seq<MeshEdge>
    decreases k,
{
    if k <= 0 {
        Seq::empty()
    } else if edge_drawn(edges[k - 1], faces_camera, creased[k - 1], force_all) {
        drawn_edges(edges, faces_camera, creased, force_all, k - 1).push(edges[k - 1])
    } else {
        drawn_edges(edges, faces_camera, creased, force_all, k - 1)
    }
}

/// Every triangle that an edge names has an entry in `faces_camera`.
pub open spec fn triangles_in(edges: Seq<MeshEdge>, faces_camera: Seq<bool>) -> bool {
    forall|i: int|
        0 <= i < edges.len() ==> (#[trigger] edges[i]).triangle_a < faces_camera.len() && match edges[i].triangle_b {
            Some(tb) => tb < faces_camera.len(),
            None => true,
        }
}

/// Keeps the edges that the drawing shows. `faces_camera` tells, for each
/// triangle, whether it faces the camera; `creased` tells, for each edge,
/// whether its two triangles meet at a sharp enough angle.
pub fn select_edges(
    edges: &Vec<MeshEdge>,
    faces_camera: &Vec<bool>,
    creased: &Vec<bool>,
    force_all: bool,
) -> (r: Vec<MeshEdge>)
    requires
        creased.len() == edges.len(),
        triangles_in(edges@, faces_camera@),
    ensures
        r@ == drawn_edges(edges@, faces_camera@, creased@, force_all, edges.len() as int),
{
    let mut r: Vec<MeshEdge> = Vec::new();
    let mut i: usize = 0;
    while i < edges.len()
        invariant
            i <= edges.len(),
            creased.len() == edges.len(),
            triangles_in(edges@, faces_camera@),
            r@ == drawn_edges(edges@, faces_camera@, creased@, force_all, i as int),
        decreases edges.len() - i,
    {
        let e = edges[i];
        let drawn = force_all || match e.triangle_b {
            None => true,
            Some(tb) => faces_camera[e.triangle_a] != faces_camera[tb] || creased[i],
        };
        if drawn {
            r.push(e);
        }
        i = i + 1;
    }
    r
}

} // verus!
