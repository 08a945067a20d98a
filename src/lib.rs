//! Hidden-line removal for triangulated meshes: the combinatorial core.
//!
//! The geometry that needs floating point (projection, intersection tests,
//! ray casting) is supplied by the caller as closures; this crate owns the
//! structure of the pipeline built around those tests, and proves it.
pub mod dedupe;
pub mod intersections;
pub mod lines;
pub mod mesh;
pub mod svg_renderer;

use vstd::prelude::*;

use crate::dedupe::{dedupe_lines_faster, strict_left_order, window_dedupes};
use crate::intersections::{
    crossing_outcome, crossings, cut_points, deterministic_test, pair_outcomes, point_comparison,
    split_lines_by_intersection, splits, splits_at, strict_closeness,
};
use crate::lines::{
    categorizes, partition_visibility, project_lines, projects, sub_segments, LineSegment2,
    LineSegment3, LineSegmentCategorized, LineVisibility, ProjectedLine, ProjectedSplitLine,
};

verus! {

/// `r` is what the pipeline makes of `edges`: their projections, less
/// coinciding lines, cut at their crossings, each piece tagged.
pub open spec fn pipeline_result<
    P,
    Q,
    Pr: Fn(Q) -> P,
    E: Fn(P, P) -> bool,
    L: Fn(P, P) -> bool,
    W: Fn(P, P) -> bool,
    S: Fn(LineSegment2<P>, LineSegment2<P>) -> Option<P>,
    F: Fn(P, P, P) -> bool,
    V: Fn(LineSegment2<P>, ProjectedLine<P, Q>) -> LineVisibility,
>(
    edges: Seq<LineSegment3<Q>>,
    project: Pr,
    same: E,
    left_of: L,
    within: W,
    solve: S,
    closer: F,
    visibility: V,
    r: Seq<LineSegmentCategorized<P>>,
) -> bool {
    exists|
        projected: Seq<ProjectedLine<P, Q>>,
        deduped: Seq<ProjectedLine<P, Q>>,
        split: Seq<ProjectedSplitLine<P, Q>>,
    |
        {
            &&& #[trigger] projects(project, edges, projected)
            &&& #[trigger] window_dedupes(same, left_of, within, projected, deduped)
            &&& #[trigger] splits(same, solve, closer, deduped, split)
            &&& categorizes(visibility, split, r)
        }
}

/// Turns the edges of a drawing into tagged screen-space segments: the
/// edges are projected, coinciding ones dropped, each is cut where it
/// crosses another, and every piece is tagged visible or hidden. The
/// segments of one edge come out together, in order along it.
pub fn find_categorized_line_segments<
    P: Copy,
    Q: Copy,
    Pr: Fn(Q) -> P,
    E: Fn(P, P) -> bool,
    L: Fn(P, P) -> bool,
    W: Fn(P, P) -> bool,
    S: Fn(LineSegment2<P>, LineSegment2<P>) -> Option<P>,
    F: Fn(P, P, P) -> bool,
    V: Fn(LineSegment2<P>, ProjectedLine<P, Q>) -> LineVisibility,
>(
    edges: &Vec<LineSegment3<Q>>,
    project: &Pr,
    same: &E,
    left_of: &L,
    within: &W,
    solve: &S,
    closer: &F,
    visibility: &V,
) -> (r: Vec<LineSegmentCategorized<P>>)
    requires
        forall|q: Q| #[trigger] project.requires((q,)),
        point_comparison(*same),
        strict_left_order(*left_of),
        deterministic_test(*within),
        forall|x: LineSegment2<P>, y: LineSegment2<P>| #[trigger] solve.requires((x, y)),
        strict_closeness(*closer),
        forall|s: LineSegment2<P>, l: ProjectedLine<P, Q>| #[trigger] visibility.requires((s, l)),
    ensures
        pipeline_result(
            edges@,
            *project,
            *same,
            *left_of,
            *within,
            *solve,
            *closer,
            *visibility,
            r@,
        ),
{
    let projected = project_lines(edges, project);
    let deduped = dedupe_lines_faster(projected, same, left_of, within);
    let split = split_lines_by_intersection(&deduped, same, solve, closer);
    let r = partition_visibility(&split, visibility);
    assert(projects(*project, edges@, projected@) && window_dedupes(
        *same,
        *left_of,
        *within,
        projected@,
        deduped@,
    ) && splits(*same, *solve, *closer, deduped@, split@));
    r
}

/// `f` gives one result for each argument.
pub open spec fn single_valued<A, B, G: Fn(A) -> B>(f: G) -> bool {
    forall|a: A, b1: B, b2: B|
        #[trigger] f.ensures((a,), b1) && #[trigger] f.ensures((a,), b2) ==> b1 == b2
}

/// `f` gives one result for each pair of arguments.
pub open spec fn single_valued2<A, C, B, G: Fn(A, C) -> B>(f: G) -> bool {
    forall|a: A, c: C, b1: B, b2: B|
        #[trigger] f.ensures((a, c), b1) && #[trigger] f.ensures((a, c), b2) ==> b1 == b2
}

proof fn lemma_sub_segments_agree<P, Q>(
    s1: Seq<ProjectedSplitLine<P, Q>>,
    s2: Seq<ProjectedSplitLine<P, Q>>,
)
    requires
        s1.len() == s2.len(),
        forall|i: int|
            0 <= i < s1.len() ==> (#[trigger] s1[i]).projected_line == s2[i].projected_line
                && s1[i].split_screen_space_lines@ == s2[i].split_screen_space_lines@,
    ensures
        sub_segments(s1) == sub_segments(s2),
    decreases s1.len(),
{
    if s1.len() > 0 {
        lemma_sub_segments_agree(s1.drop_last(), s2.drop_last());
        assert(s1.last() == s1[s1.len() - 1]);
    }
}

/// With a projection, a crossing test and a visibility test that each give
/// one answer, the pipeline's result is fixed by its inputs.
pub proof fn lemma_pipeline_result_is_determined<
    P,
    Q,
    Pr: Fn(Q) -> P,
    E: Fn(P, P) -> bool,
    L: Fn(P, P) -> bool,
    W: Fn(P, P) -> bool,
    S: Fn(LineSegment2<P>, LineSegment2<P>) -> Option<P>,
    F: Fn(P, P, P) -> bool,
    V: Fn(LineSegment2<P>, ProjectedLine<P, Q>) -> LineVisibility,
>(
    edges: Seq<LineSegment3<Q>>,
    project: Pr,
    same: E,
    left_of: L,
    within: W,
    solve: S,
    closer: F,
    visibility: V,
    r1: Seq<LineSegmentCategorized<P>>,
    r2: Seq<LineSegmentCategorized<P>>,
)
    requires
        single_valued(project),
        single_valued2(solve),
        single_valued2(visibility),
        pipeline_result(edges, project, same, left_of, within, solve, closer, visibility, r1),
        pipeline_result(edges, project, same, left_of, within, solve, closer, visibility, r2),
    ensures
        r1 == r2,
{
    let (pa, da, sa) = choose|
        projected: Seq<ProjectedLine<P, Q>>,
        deduped: Seq<ProjectedLine<P, Q>>,
        split: Seq<ProjectedSplitLine<P, Q>>,
    |
        {
            &&& #[trigger] projects(project, edges, projected)
            &&& #[trigger] window_dedupes(same, left_of, within, projected, deduped)
            &&& #[trigger] splits(same, solve, closer, deduped, split)
            &&& categorizes(visibility, split, r1)
        };
    let (pb, db, sb) = choose|
        projected: Seq<ProjectedLine<P, Q>>,
        deduped: Seq<ProjectedLine<P, Q>>,
        split: Seq<ProjectedSplitLine<P, Q>>,
    |
        {
            &&& #[trigger] projects(project, edges, projected)
            &&& #[trigger] window_dedupes(same, left_of, within, projected, deduped)
            &&& #[trigger] splits(same, solve, closer, deduped, split)
            &&& categorizes(visibility, split, r2)
        };
    assert forall|i: int| 0 <= i < pa.len() implies #[trigger] pa[i] == pb[i] by {
        assert(pb[i].view_space == edges[i]);
        assert(project.ensures((edges[i].from,), pa[i].screen_space.from));
        assert(project.ensures((edges[i].from,), pb[i].screen_space.from));
        assert(project.ensures((edges[i].to,), pa[i].screen_space.to));
        assert(project.ensures((edges[i].to,), pb[i].screen_space.to));
    }
    assert(pa =~= pb);
    assert(da == db);
    let n = da.len() as int;
    let ua = choose|u: Seq<Seq<Option<P>>>|
        #[trigger] pair_outcomes(same, solve, da, u) && forall|i: int|
            0 <= i < n ==> splits_at(same, closer, da[i], crossings(same, u, i, n), #[trigger] sa[i]);
    let ub = choose|u: Seq<Seq<Option<P>>>|
        #[trigger] pair_outcomes(same, solve, da, u) && forall|i: int|
            0 <= i < n ==> splits_at(same, closer, da[i], crossings(same, u, i, n), #[trigger] sb[i]);
    assert forall|i: int| 0 <= i < n implies #[trigger] ua[i] == ub[i] by {
        assert forall|m: int| 0 <= m < ua[i].len() implies #[trigger] ua[i][m] == ub[i][m] by {
            let j = i + m + 1;
            assert(crossing_outcome(same, solve, da[i].screen_space, da[j].screen_space, ua[i][j - i - 1]));
            assert(crossing_outcome(same, solve, da[i].screen_space, da[j].screen_space, ub[i][j - i - 1]));
        }
        assert(ua[i] =~= ub[i]);
    }
    assert(ua =~= ub);
    assert forall|i: int| 0 <= i < n implies (#[trigger] sa[i]).projected_line == sb[i].projected_line
        && sa[i].split_screen_space_lines@ == sb[i].split_screen_space_lines@ by {
        assert(splits_at(same, closer, da[i], crossings(same, ua, i, n), sa[i]));
        assert(splits_at(same, closer, da[i], crossings(same, ub, i, n), sb[i]));
        let ca = cut_points(sa[i].split_screen_space_lines@);
        let cb = cut_points(sb[i].split_screen_space_lines@);
        assert(ca == cb);
    }
    lemma_sub_segments_agree(sa, sb);
    let subs = sub_segments(sa);
    assert forall|k: int| 0 <= k < r1.len() implies #[trigger] r1[k] == r2[k] by {
        let (s, l) = subs[k];
        assert(r1[k].line_segment == s && r2[k].line_segment == s);
        assert(visibility.ensures((s, l), r1[k].visibility));
        assert(visibility.ensures((s, l), r2[k].visibility));
    }
    assert(r1 =~= r2);
}

} // verus!
