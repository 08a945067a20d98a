//! Segments in screen and view space, and the stages that build and tag them.
use vstd::prelude::*;

pub use crate::dedupe::{dedupe_lines, dedupe_lines_faster};
pub use crate::intersections::{find_intersection, split_lines_by_intersection};

verus! {

/// Whether a screen-space segment can be seen or is hidden behind the mesh.
#[derive(Clone, Copy, Debug, PartialEq, Eq, Structural)]
pub enum LineVisibility {
    VISIBLE,
    OBSCURED,
}

/// A segment in screen space, between two points of type `P`.
#[derive(Clone, Copy, Debug)]
pub struct LineSegment2<P> {
    pub from: P,
    pub to: P,
}

/// A screen-space segment tagged with its visibility.
#[derive(Clone, Copy, Debug)]
pub struct LineSegmentCategorized<P> {
    pub line_segment: LineSegment2<P>,
    pub visibility: LineVisibility,
}

/// A segment in view space, between two points of type `Q`.
#[derive(Clone, Copy, Debug)]
pub struct LineSegment3<Q> {
    pub from: Q,
    pub to: Q,
}

/// A mesh edge together with the normals of the two triangles that meet at it.
#[derive(Clone, Copy, Debug)]
pub struct EdgeCandidate<Q, V> {
    pub edge: LineSegment3<Q>,
    pub adjacent_triangle_a_normal: V,
    pub adjacent_triangle_b_normal: V,
}

/// A screen-space segment paired with the view-space segment it was projected from.
#[derive(Clone, Copy, Debug)]
pub struct ProjectedLine<P, Q> {
    pub screen_space: LineSegment2<P>,
    pub view_space: LineSegment3<Q>,
}

/// A projected line with the sub-segments it was cut into at its crossings.
#[derive(Clone, Debug)]
pub struct ProjectedSplitLine<P, Q> {
    pub projected_line: ProjectedLine<P, Q>,
    pub split_screen_space_lines: Vec<LineSegment2<P>>,
}

/// The segments `from -> points[0] -> ... -> points[k-1] -> to`.
pub open spec fn chain<P>(from: P, points: Seq<P>, to: P) -> Seq<LineSegment2<P>> {
    Seq::new(
        points.len() + 1,
        |i: int|
            LineSegment2 {
                from: if i == 0 {
                    from
                } else {
                    points[i - 1]
                },
                to: if i == points.len() {
                    to
                } else {
                    points[i]
                },
            },
    )
}

/// Cuts the segment `from -> to` at each of `points`, in the order given.
pub fn chain_segments<P: Copy>(from: P, points: &Vec<P>, to: P) -> (r: Vec<LineSegment2<P>>)
    ensures
        r@ == chain(from, points@, to),
{
    let mut r: Vec<LineSegment2<P>> = Vec::new();
    let mut last = from;
    let mut i: usize = 0;
    while i < points.len()
        invariant
            i <= points.len(),
            r@ == chain(from, points@.take(i as int), last).take(i as int),
            last == (if i == 0 {
                from
            } else {
                points@[i - 1]
            }),
        decreases points.len() - i,
    {
        let p = points[i];
        r.push(LineSegment2 { from: last, to: p });
        last = p;
        i = i + 1;
        assert(r@ =~= chain(from, points@.take(i as int), last).take(i as int));
    }
    r.push(LineSegment2 { from: last, to });
    assert(points@.take(i as int) =~= points@);
    assert(r@ =~= chain(from, points@, to));
    r
}

/// The screen segment of `l` is the projection of its view segment.
pub open spec fn projected_by<P, Q, F: Fn(Q) -> P>(project: F, l: ProjectedLine<P, Q>) -> bool {
    &&& project.ensures((l.view_space.from,), l.screen_space.from)
    &&& project.ensures((l.view_space.to,), l.screen_space.to)
}

/// `r` pairs each of `lines` with its projection by `project`.
pub open spec fn projects<P, Q, F: Fn(Q) -> P>(
    project: F,
    lines: Seq<LineSegment3<Q>>,
    r: Seq<ProjectedLine<P, Q>>,
) -> bool {
    &&& r.len() == lines.len()
    &&& forall|i: int|
        0 <= i < lines.len() ==> {
            &&& (#[trigger] r[i]).view_space == lines[i]
            &&& project.ensures((lines[i].from,), r[i].screen_space.from)
            &&& project.ensures((lines[i].to,), r[i].screen_space.to)
        }
}

/// Pairs each view-space line with its projection, which `project` makes
/// point by point.
pub fn project_lines<P: Copy, Q: Copy, F: Fn(Q) -> P>(lines: &Vec<LineSegment3<Q>>, project: &F) -> (r:
    Vec<ProjectedLine<P, Q>>)
    requires
        forall|q: Q| #[trigger] project.requires((q,)),
    ensures
        projects(*project, lines@, r@),
{
    let mut r: Vec<ProjectedLine<P, Q>> = Vec::new();
    let mut i: usize = 0;
    while i < lines.len()
        invariant
            i <= lines.len(),
            r.len() == i,
            forall|q: Q| #[trigger] project.requires((q,)),
            forall|k: int|
                0 <= k < i ==> {
                    &&& (#[trigger] r@[k]).view_space == lines@[k]
                    &&& project.ensures((lines@[k].from,), r@[k].screen_space.from)
                    &&& project.ensures((lines@[k].to,), r@[k].screen_space.to)
                },
        decreases lines.len() - i,
    {
        let line = lines[i];
        let from = project(line.from);
        let to = project(line.to);
        r.push(ProjectedLine { screen_space: LineSegment2 { from, to }, view_space: line });
        i = i + 1;
    }
    r
}

/// Every sub-segment of the split lines, in order, with the line it was cut from.
pub open spec fn sub_segments<P, Q>(split_lines: Seq<ProjectedSplitLine<P, Q>>) -> Seq<
    (LineSegment2<P>, ProjectedLine<P, Q>),
>
    decreases split_lines.len(),
{
    if split_lines.len() == 0 {
        Seq::empty()
    } else {
        let last = split_lines.last();
        sub_segments(split_lines.drop_last()) + last.split_screen_space_lines@.map_values(
            |s: LineSegment2<P>| (s, last.projected_line),
        )
    }
}

/// `r` tags each sub-segment of `split_lines`, in order, with what
/// `visibility` says of it.
pub open spec fn categorizes<P, Q, V: Fn(LineSegment2<P>, ProjectedLine<P, Q>) -> LineVisibility>(
    visibility: V,
    split_lines: Seq<ProjectedSplitLine<P, Q>>,
    r: Seq<LineSegmentCategorized<P>>,
) -> bool {
    &&& r.len() == sub_segments(split_lines).len()
    &&& forall|k: int|
        0 <= k < r.len() ==> {
            let (s, l) = sub_segments(split_lines)[k];
            &&& (#[trigger] r[k]).line_segment == s
            &&& visibility.ensures((s, l), r[k].visibility)
        }
}

/// Tags every sub-segment with what `visibility` says of it, keeping the
/// sub-segments of each line together and in order.
pub fn partition_visibility<
    P: Copy,
    Q: Copy,
    V: Fn(LineSegment2<P>, ProjectedLine<P, Q>) -> LineVisibility,
>(split_lines: &Vec<ProjectedSplitLine<P, Q>>, visibility: &V) -> (r: Vec<
    LineSegmentCategorized<P>,
>)
    requires
        forall|s: LineSegment2<P>, l: ProjectedLine<P, Q>| #[trigger] visibility.requires((s, l)),
    ensures
        categorizes(*visibility, split_lines@, r@),
{
    let mut r: Vec<LineSegmentCategorized<P>> = Vec::new();
    let mut i: usize = 0;
    while i < split_lines.len()
        invariant
            i <= split_lines.len(),
            forall|s: LineSegment2<P>, l: ProjectedLine<P, Q>|
                #[trigger] visibility.requires((s, l)),
            r.len() == sub_segments(split_lines@.take(i as int)).len(),
            forall|k: int|
                0 <= k < r.len() ==> {
                    let (s, l) = sub_segments(split_lines@.take(i as int))[k];
                    &&& (#[trigger] r@[k]).line_segment == s
                    &&& visibility.ensures((s, l), r@[k].visibility)
                },
        decreases split_lines.len() - i,
    {
        let line = &split_lines[i];
        let ghost before = sub_segments(split_lines@.take(i as int));
        let ghost added = line.split_screen_space_lines@.map_values(
            |s: LineSegment2<P>| (s, line.projected_line),
        );
        assert(split_lines@.take(i + 1).drop_last() =~= split_lines@.take(i as int));
        assert(sub_segments(split_lines@.take(i + 1)) == before + added);
        let mut k: usize = 0;
        while k < line.split_screen_space_lines.len()
            invariant
                i < split_lines.len(),
                line == split_lines@[i as int],
                k <= line.split_screen_space_lines.len(),
                forall|s: LineSegment2<P>, l: ProjectedLine<P, Q>|
                    #[trigger] visibility.requires((s, l)),
                r.len() == before.len() + k,
                added.len() == line.split_screen_space_lines.len(),
                forall|j: int|
                    0 <= j < added.len() ==> #[trigger] added[j] == (
                        line.split_screen_space_lines@[j],
                        line.projected_line,
                    ),
                forall|m: int|
                    0 <= m < r.len() ==> {
                        let (s, l) = (before + added)[m];
                        &&& (#[trigger] r@[m]).line_segment == s
                        &&& visibility.ensures((s, l), r@[m].visibility)
                    },
            decreases line.split_screen_space_lines.len() - k,
        {
            let segment = line.split_screen_space_lines[k];
            let v = visibility(segment, line.projected_line);
            r.push(LineSegmentCategorized { line_segment: segment, visibility: v });
            assert((before + added)[before.len() + k] == added[k as int]);
            k = k + 1;
        }
        i = i + 1;
    }
    assert(split_lines@.take(i as int) =~= split_lines@);
    r
}

} // verus!
