//! Where screen-space lines cross, and cutting them there.
use vstd::prelude::*;

use crate::lines::{chain, chain_segments, LineSegment2, ProjectedLine, ProjectedSplitLine};

verus! {

broadcast use vstd::seq_lib::group_to_multiset_ensures;

/// What `closer` answers when asked whether `a` lies closer to `origin` than `b`.
pub open spec fn is_closer<P, F: Fn(P, P, P) -> bool>(closer: F, origin: P, a: P, b: P) -> bool {
    closer.ensures((origin, a, b), true)
}

/// `closer` may be called on any points, answers the same on the same
/// points, and never says both that `a` is closer than `b` and the reverse.
pub open spec fn strict_closeness<P, F: Fn(P, P, P) -> bool>(closer: F) -> bool {
    &&& forall|o: P, a: P, b: P| #[trigger] closer.requires((o, a, b))
    &&& forall|o: P, a: P, b: P, r: bool|
        #[trigger] closer.ensures((o, a, b), r) ==> r == is_closer(closer, o, a, b)
    &&& forall|o: P, a: P, b: P|
        #[trigger] is_closer(closer, o, a, b) ==> !is_closer(closer, o, b, a)
}

/// No point of `s` is closer to `origin` than the point before it.
pub open spec fn sorted_by_distance<P, F: Fn(P, P, P) -> bool>(
    closer: F,
    origin: P,
    s: Seq<P>,
) -> bool {
    forall|k: int|
        0 <= k < s.len() - 1 ==> !#[trigger] is_closer(closer, origin, s[k + 1], s[k])
}

/// `output` takes its points from `input` through `perm`, each input point
/// once, and of two points the one later in `input` comes first only when
/// it is closer to `origin`.
pub open spec fn stable_arrangement<P, F: Fn(P, P, P) -> bool>(
    closer: F,
    origin: P,
    input: Seq<P>,
    output: Seq<P>,
    perm: Seq<int>,
) -> bool {
    &&& perm.len() == output.len() == input.len()
    &&& forall|k: int|
        0 <= k < perm.len() ==> 0 <= #[trigger] perm[k] < input.len() && output[k] == input[perm[k]]
    &&& forall|k: int, m: int| 0 <= k < m < perm.len() ==> #[trigger] perm[k] != #[trigger] perm[m]
    &&& forall|k: int, m: int|
        0 <= k < m < perm.len() && #[trigger] perm[k] > #[trigger] perm[m] ==> is_closer(
            closer,
            origin,
            output[k],
            output[m],
        )
}

/// Where `x` goes among the first `j` points of the sorted `r`: after the
/// last of them that `x` is not closer to `origin` than.
pub open spec fn distance_insert_pos<P, F: Fn(P, P, P) -> bool>(
    closer: F,
    origin: P,
    r: Seq<P>,
    x: P,
    j: int,
) -> int
    decreases j,
{
    if j > 0 && is_closer(closer, origin, x, r[j - 1]) {
        distance_insert_pos(closer, origin, r, x, j - 1)
    } else {
        j
    }
}

/// `s` sorted by distance from `origin`: each point in turn is placed after
/// the last point already placed that it is not closer than.
pub open spec fn sorted_points<P, F: Fn(P, P, P) -> bool>(closer: F, origin: P, s: Seq<P>) -> Seq<P>
    decreases s.len(),
{
    if s.len() == 0 {
        Seq::empty()
    } else {
        let r = sorted_points(closer, origin, s.drop_last());
        r.insert(distance_insert_pos(closer, origin, r, s.last(), r.len() as int), s.last())
    }
}

/// `output` is `input` ordered by distance from `origin`, nearest first, with
/// points at equal distance in their order in `input`.
pub open spec fn stable_sort_by_distance<P, F: Fn(P, P, P) -> bool>(
    closer: F,
    origin: P,
    input: Seq<P>,
    output: Seq<P>,
) -> bool {
    &&& output == sorted_points(closer, origin, input)
    &&& output.to_multiset() == input.to_multiset()
    &&& sorted_by_distance(closer, origin, output)
    &&& exists|perm: Seq<int>| stable_arrangement(closer, origin, input, output, perm)
}

/// Orders `points` by their distance from `origin`, nearest first, as
/// `closer` compares them; points at equal distance keep their order.
pub fn sort_by_distance_from<P: Copy, F: Fn(P, P, P) -> bool>(
    origin: P,
    points: Vec<P>,
    closer: &F,
) -> (r: Vec<P>)
    requires
        strict_closeness(*closer),
    ensures
        stable_sort_by_distance(*closer, origin, points@, r@),
{
    let mut r: Vec<P> = Vec::new();
    let ghost mut perm: Seq<int> = Seq::empty();
    let mut i: usize = 0;
    while i < points.len()
        invariant
            i <= points.len(),
            strict_closeness(*closer),
            r@ == sorted_points(*closer, origin, points@.take(i as int)),
            r@.to_multiset() == points@.take(i as int).to_multiset(),
            sorted_by_distance(*closer, origin, r@),
            stable_arrangement(*closer, origin, points@.take(i as int), r@, perm),
        decreases points.len() - i,
    {
        let x = points[i];
        let mut j: usize = r.len();
        loop
            invariant
                j <= r.len(),
                strict_closeness(*closer),
                distance_insert_pos(*closer, origin, r@, x, j as int) == distance_insert_pos(
                    *closer,
                    origin,
                    r@,
                    x,
                    r.len() as int,
                ),
                forall|t: int| j <= t < r.len() ==> is_closer(*closer, origin, x, #[trigger] r@[t]),
            ensures
                j <= r.len(),
                j == distance_insert_pos(*closer, origin, r@, x, r.len() as int),
                forall|t: int| j <= t < r.len() ==> is_closer(*closer, origin, x, #[trigger] r@[t]),
                j > 0 ==> !is_closer(*closer, origin, x, r@[j - 1]),
            decreases j,
        {
            if j == 0 {
                break;
            }
            if !closer(origin, x, r[j - 1]) {
                break;
            }
            j = j - 1;
        }
        let ghost before = r@;
        let ghost perm0 = perm;
        r.insert(j, x);
        proof {
            perm = perm0.insert(j as int, i as int);
        }
        assert(points@.take(i + 1) =~= points@.take(i as int).push(x));
        assert(points@.take(i + 1).drop_last() =~= points@.take(i as int));
        assert forall|k: int| 0 <= k < r@.len() - 1 implies !#[trigger] is_closer(
            *closer,
            origin,
            r@[k + 1],
            r@[k],
        ) by {
            if k + 1 < j {
                assert(r@[k] == before[k] && r@[k + 1] == before[k + 1]);
            } else if k + 1 == j {
                assert(r@[k] == before[k] && r@[k + 1] == x);
            } else if k == j {
                assert(r@[k] == x && r@[k + 1] == before[k]);
            } else {
                assert(r@[k] == before[k - 1] && r@[k + 1] == before[k]);
                let kk = k - 1;
                assert(!is_closer(*closer, origin, before[kk + 1], before[kk]));
            }
        }
        proof {
            let inp = points@.take(i + 1);
            let old_inp = points@.take(i as int);
            assert forall|k: int| 0 <= k < perm.len() implies 0 <= #[trigger] perm[k] < inp.len()
                && r@[k] == inp[perm[k]] by {
                if k < j {
                    assert(perm[k] == perm0[k]);
                } else if k > j {
                    assert(perm[k] == perm0[k - 1]);
                }
            }
            assert forall|k: int, m: int| 0 <= k < m < perm.len() implies #[trigger] perm[k]
                != #[trigger] perm[m] by {
                if k != j && m != j {
                    let k0 = if k < j { k } else { k - 1 };
                    let m0 = if m < j { m } else { m - 1 };
                    assert(perm[k] == perm0[k0] && perm[m] == perm0[m0]);
                } else if k == j {
                    let m0 = m - 1;
                    assert(perm[m] == perm0[m0]);
                } else {
                    assert(perm[k] == perm0[k]);
                }
            }
            assert forall|k: int, m: int|
                0 <= k < m < perm.len() && #[trigger] perm[k] > #[trigger] perm[m] implies is_closer(
                *closer,
                origin,
                r@[k],
                r@[m],
            ) by {
                if k != j && m != j {
                    let k0 = if k < j { k } else { k - 1 };
                    let m0 = if m < j { m } else { m - 1 };
                    assert(perm[k] == perm0[k0] && perm[m] == perm0[m0]);
                    assert(r@[k] == before[k0] && r@[m] == before[m0]);
                } else if k == j {
                    let m0 = m - 1;
                    assert(r@[m] == before[m0]);
                } else {
                    assert(perm[k] == perm0[k]);
                }
            }
        }
        i = i + 1;
    }
    assert(points@.take(i as int) =~= points@);
    r
}

/// What `same` answers when asked whether `a` and `b` are the same point.
pub open spec fn is_same_point<P, E: Fn(P, P) -> bool>(same: E, a: P, b: P) -> bool {
    same.ensures((a, b), true)
}

/// `test` may be called on any two points and answers the same on the same points.
pub open spec fn deterministic_test<P, E: Fn(P, P) -> bool>(test: E) -> bool {
    &&& forall|a: P, b: P| #[trigger] test.requires((a, b))
    &&& forall|a: P, b: P, r: bool|
        #[trigger] test.ensures((a, b), r) ==> r == is_same_point(test, a, b)
}

/// `same` may be called on any points, answers the same on the same points,
/// and does not depend on the order of the two points.
pub open spec fn point_comparison<P, E: Fn(P, P) -> bool>(same: E) -> bool {
    &&& deterministic_test(same)
    &&& forall|a: P, b: P| #[trigger] is_same_point(same, a, b) ==> is_same_point(same, b, a)
}

/// Some point of `s` is the same as `p`.
pub open spec fn already_held<P, E: Fn(P, P) -> bool>(same: E, s: Seq<P>, p: P) -> bool {
    exists|w: int| 0 <= w < s.len() && #[trigger] is_same_point(same, s[w], p)
}

/// No two points of `s` are the same.
pub open spec fn distinct_points<P, E: Fn(P, P) -> bool>(same: E, s: Seq<P>) -> bool {
    forall|m: int, w: int|
        0 <= m < s.len() && 0 <= w < s.len() && m != w ==> !#[trigger] is_same_point(
            same,
            s[m],
            s[w],
        )
}

/// The two segments have an endpoint in common.
pub open spec fn shares_endpoint<P, E: Fn(P, P) -> bool>(
    same: E,
    a: LineSegment2<P>,
    b: LineSegment2<P>,
) -> bool {
    ||| is_same_point(same, a.from, b.from)
    ||| is_same_point(same, a.from, b.to)
    ||| is_same_point(same, a.to, b.from)
    ||| is_same_point(same, a.to, b.to)
}

/// `o` is a crossing of `a` and `b` as `find_intersection` may report it.
pub open spec fn crossing_outcome<
    P,
    E: Fn(P, P) -> bool,
    S: Fn(LineSegment2<P>, LineSegment2<P>) -> Option<P>,
>(same: E, solve: S, a: LineSegment2<P>, b: LineSegment2<P>, o: Option<P>) -> bool {
    &&& shares_endpoint(same, a, b) ==> o is None
    &&& !shares_endpoint(same, a, b) ==> solve.ensures((a, b), o)
}

/// The crossing of two segments. Segments that meet at an endpoint do not
/// cross; otherwise `solve` finds the point where both segment parameters
/// lie in `[0, 1]`, if there is one.
pub fn find_intersection<
    P: Copy,
    E: Fn(P, P) -> bool,
    S: Fn(LineSegment2<P>, LineSegment2<P>) -> Option<P>,
>(a: &LineSegment2<P>, b: &LineSegment2<P>, same: &E, solve: &S) -> (r: Option<P>)
    requires
        point_comparison(*same),
        forall|x: LineSegment2<P>, y: LineSegment2<P>| #[trigger] solve.requires((x, y)),
    ensures
        shares_endpoint(*same, *a, *b) ==> r is None,
        !shares_endpoint(*same, *a, *b) ==> solve.ensures((*a, *b), r),
{
    if same(a.from, b.from) || same(a.from, b.to) || same(a.to, b.from) || same(a.to, b.to) {
        return None;
    }
    solve(*a, *b)
}

/// The crossing of lines `i` and `j` in a table that holds, for each `i`,
/// the outcomes against the lines after it.
pub open spec fn outcome<P>(u: Seq<Seq<Option<P>>>, i: int, j: int) -> Option<P> {
    if i < j {
        u[i][j - i - 1]
    } else if j < i {
        u[j][i - j - 1]
    } else {
        None
    }
}

/// `u[i][j - i - 1]` is the crossing found for lines `i < j`, each pair tested once.
pub open spec fn pair_outcomes<
    P,
    Q,
    E: Fn(P, P) -> bool,
    S: Fn(LineSegment2<P>, LineSegment2<P>) -> Option<P>,
>(same: E, solve: S, lines: Seq<ProjectedLine<P, Q>>, u: Seq<Seq<Option<P>>>) -> bool {
    &&& u.len() == lines.len()
    &&& forall|i: int| 0 <= i < lines.len() ==> #[trigger] u[i].len() == lines.len() - i - 1
    &&& forall|i: int, j: int|
        0 <= i < j < lines.len() ==> crossing_outcome(
            same,
            solve,
            lines[i].screen_space,
            lines[j].screen_space,
            #[trigger] u[i][j - i - 1],
        )
}

/// The distinct crossings of line `i` with lines `0 .. k`, in the order of
/// those lines: a crossing that is the same as one already found is not
/// taken again.
pub open spec fn crossings<P, E: Fn(P, P) -> bool>(
    same: E,
    u: Seq<Seq<Option<P>>>,
    i: int,
    k: int,
) -> Seq<P>
    decreases k,
{
    if k <= 0 {
        Seq::empty()
    } else {
        let prev = crossings(same, u, i, k - 1);
        match outcome(u, i, k - 1) {
            Some(p) => if already_held(same, prev, p) {
                prev
            } else {
                prev.push(p)
            },
            None => prev,
        }
    }
}

proof fn lemma_crossings_distinct<P, E: Fn(P, P) -> bool>(
    same: E,
    u: Seq<Seq<Option<P>>>,
    i: int,
    k: int,
)
    requires
        point_comparison(same),
    ensures
        distinct_points(same, crossings(same, u, i, k)),
    decreases k,
{
    if k > 0 {
        lemma_crossings_distinct(same, u, i, k - 1);
        let prev = crossings(same, u, i, k - 1);
        let c = crossings(same, u, i, k);
        if let Some(p) = outcome(u, i, k - 1) {
            if !already_held(same, prev, p) {
                assert forall|m: int, w: int|
                    0 <= m < c.len() && 0 <= w < c.len() && m != w implies !#[trigger] is_same_point(
                    same,
                    c[m],
                    c[w],
                ) by {
                    if m == prev.len() {
                        assert(c[w] == prev[w]);
                        if is_same_point(same, p, prev[w]) {
                            assert(is_same_point(same, prev[w], p));
                        }
                    } else if w == prev.len() {
                        assert(c[m] == prev[m]);
                    } else {
                        assert(c[m] == prev[m] && c[w] == prev[w]);
                    }
                }
            }
        }
    }
}

/// A stable sort of distinct points holds distinct points.
proof fn lemma_sorted_points_distinct<P, E: Fn(P, P) -> bool, F: Fn(P, P, P) -> bool>(
    same: E,
    closer: F,
    origin: P,
    input: Seq<P>,
    output: Seq<P>,
)
    requires
        stable_sort_by_distance(closer, origin, input, output),
        distinct_points(same, input),
    ensures
        distinct_points(same, output),
{
    let perm = choose|perm: Seq<int>| stable_arrangement(closer, origin, input, output, perm);
    assert forall|m: int, w: int|
        0 <= m < output.len() && 0 <= w < output.len() && m != w implies !#[trigger] is_same_point(
        same,
        output[m],
        output[w],
    ) by {
        assert(output[m] == input[perm[m]] && output[w] == input[perm[w]]);
        if m < w {
            assert(perm[m] != perm[w]);
        } else {
            assert(perm[w] != perm[m]);
        }
    }
}

/// The points where consecutive sub-segments meet.
pub open spec fn cut_points<P>(s: Seq<LineSegment2<P>>) -> Seq<P> {
    Seq::new((s.len() - 1) as nat, |k: int| s[k].to)
}

/// `s` is `line` cut at each of `found`, ordered by distance from the
/// line's start; crossings at equal distance keep their order in `found`.
/// No two cut points are the same.
pub open spec fn splits_at<P, Q, E: Fn(P, P) -> bool, F: Fn(P, P, P) -> bool>(
    same: E,
    closer: F,
    line: ProjectedLine<P, Q>,
    found: Seq<P>,
    s: ProjectedSplitLine<P, Q>,
) -> bool {
    let subs = s.split_screen_space_lines@;
    &&& s.projected_line == line
    &&& subs.len() == found.len() + 1
    &&& subs == chain(line.screen_space.from, cut_points(subs), line.screen_space.to)
    &&& stable_sort_by_distance(closer, line.screen_space.from, found, cut_points(subs))
    &&& distinct_points(same, cut_points(subs))
}

proof fn lemma_cut_points_of_chain<P>(from: P, points: Seq<P>, to: P)
    ensures
        cut_points(chain(from, points, to)) == points,
{
    assert(cut_points(chain(from, points, to)) =~= points);
}

/// A line cut at `k` distinct crossings becomes `k + 1` sub-segments that
/// run from the line's start to its end, each one starting where the one
/// before it ended, and meeting at exactly the crossings.
pub proof fn lemma_split_line_is_chain<P, Q, E: Fn(P, P) -> bool, F: Fn(P, P, P) -> bool>(
    same: E,
    closer: F,
    line: ProjectedLine<P, Q>,
    found: Seq<P>,
    s: ProjectedSplitLine<P, Q>,
)
    requires
        splits_at(same, closer, line, found, s),
    ensures
        s.split_screen_space_lines@.len() == found.len() + 1,
        s.split_screen_space_lines@[0].from == line.screen_space.from,
        s.split_screen_space_lines@.last().to == line.screen_space.to,
        forall|k: int|
            0 <= k < found.len() ==> (#[trigger] s.split_screen_space_lines@[k]).to
                == s.split_screen_space_lines@[k + 1].from,
        cut_points(s.split_screen_space_lines@).to_multiset() == found.to_multiset(),
        distinct_points(same, cut_points(s.split_screen_space_lines@)),
{
    let subs = s.split_screen_space_lines@;
    let c = chain(line.screen_space.from, cut_points(subs), line.screen_space.to);
    assert(subs[0] == c[0]);
    assert(subs.last() == c[subs.len() - 1]);
    assert forall|k: int| 0 <= k < found.len() implies (#[trigger] subs[k]).to == subs[k + 1].from by {
        assert(subs[k + 1] == c[k + 1]);
    }
}

/// `s` holds `p`, or a point that is the same as `p`.
pub open spec fn holds_point<P, E: Fn(P, P) -> bool>(same: E, s: Seq<P>, p: P) -> bool {
    s.contains(p) || already_held(same, s, p)
}

proof fn lemma_crossings_contain<P, E: Fn(P, P) -> bool>(
    same: E,
    u: Seq<Seq<Option<P>>>,
    i: int,
    j: int,
    k: int,
    p: P,
)
    requires
        0 <= j < k,
        outcome(u, i, j) == Some(p),
    ensures
        holds_point(same, crossings(same, u, i, k), p),
    decreases k,
{
    let prev = crossings(same, u, i, k - 1);
    let c = crossings(same, u, i, k);
    if j < k - 1 {
        lemma_crossings_contain(same, u, i, j, k - 1, p);
        assert(forall|w: int| 0 <= w < prev.len() ==> c[w] == prev[w]);
        if prev.contains(p) {
            let w = choose|w: int| 0 <= w < prev.len() && prev[w] == p;
            assert(c[w] == p);
        } else {
            let w = choose|w: int| 0 <= w < prev.len() && #[trigger] is_same_point(same, prev[w], p);
            assert(is_same_point(same, c[w], p));
        }
    } else if !already_held(same, prev, p) {
        assert(c[prev.len() as int] == p);
    }
}

proof fn lemma_holds_point_permuted<P, E: Fn(P, P) -> bool>(same: E, a: Seq<P>, b: Seq<P>, p: P)
    requires
        a.to_multiset() == b.to_multiset(),
        holds_point(same, a, p),
    ensures
        holds_point(same, b, p),
{
    if a.contains(p) {
        assert(a.to_multiset().contains(p));
    } else {
        let w = choose|w: int| 0 <= w < a.len() && #[trigger] is_same_point(same, a[w], p);
        assert(a.to_multiset().contains(a[w]));
        assert(b.contains(a[w]));
        let w2 = choose|w2: int| 0 <= w2 < b.len() && b[w2] == a[w];
        assert(is_same_point(same, b[w2], p));
    }
}

/// Where two lines cross, both are cut there: each holds the crossing, or
/// a cut point that is the same as it.
pub proof fn lemma_crossing_cuts_both_lines<
    P,
    Q,
    E: Fn(P, P) -> bool,
    F: Fn(P, P, P) -> bool,
>(
    same: E,
    closer: F,
    lines: Seq<ProjectedLine<P, Q>>,
    u: Seq<Seq<Option<P>>>,
    r: Seq<ProjectedSplitLine<P, Q>>,
    i: int,
    j: int,
    p: P,
)
    requires
        r.len() == lines.len(),
        forall|k: int|
            0 <= k < lines.len() ==> splits_at(
                same,
                closer,
                lines[k],
                crossings(same, u, k, lines.len() as int),
                #[trigger] r[k],
            ),
        0 <= i < lines.len(),
        0 <= j < lines.len(),
        outcome(u, i, j) == Some(p),
    ensures
        holds_point(same, cut_points(r[i].split_screen_space_lines@), p),
        holds_point(same, cut_points(r[j].split_screen_space_lines@), p),
{
    let n = lines.len() as int;
    assert(outcome(u, j, i) == Some(p));
    lemma_crossings_contain(same, u, i, j, n, p);
    lemma_crossings_contain(same, u, j, i, n, p);
    assert(splits_at(same, closer, lines[i], crossings(same, u, i, n), r[i]));
    assert(splits_at(same, closer, lines[j], crossings(same, u, j, n), r[j]));
    lemma_holds_point_permuted(
        same,
        crossings(same, u, i, n),
        cut_points(r[i].split_screen_space_lines@),
        p,
    );
    lemma_holds_point_permuted(
        same,
        crossings(same, u, j, n),
        cut_points(r[j].split_screen_space_lines@),
        p,
    );
}

/// `r` holds each of `lines` cut at its crossings with the others.
pub open spec fn splits<
    P,
    Q,
    E: Fn(P, P) -> bool,
    S: Fn(LineSegment2<P>, LineSegment2<P>) -> Option<P>,
    F: Fn(P, P, P) -> bool,
>(
    same: E,
    solve: S,
    closer: F,
    lines: Seq<ProjectedLine<P, Q>>,
    r: Seq<ProjectedSplitLine<P, Q>>,
) -> bool {
    &&& r.len() == lines.len()
    &&& exists|u: Seq<Seq<Option<P>>>|
        #[trigger] pair_outcomes(same, solve, lines, u) && forall|i: int|
            0 <= i < lines.len() ==> splits_at(
                same,
                closer,
                lines[i],
                crossings(same, u, i, lines.len() as int),
                #[trigger] r[i],
            )
}

/// Cuts every line at each point where it crosses another line. Each pair
/// of lines is tested once, and both lines are cut at the point found; a
/// crossing that is the same as one already found on the line is not cut
/// again.
pub fn split_lines_by_intersection<
    P: Copy,
    Q: Copy,
    E: Fn(P, P) -> bool,
    S: Fn(LineSegment2<P>, LineSegment2<P>) -> Option<P>,
    F: Fn(P, P, P) -> bool,
>(lines: &Vec<ProjectedLine<P, Q>>, same: &E, solve: &S, closer: &F) -> (r: Vec<
    ProjectedSplitLine<P, Q>,
>)
    requires
        point_comparison(*same),
        forall|x: LineSegment2<P>, y: LineSegment2<P>| #[trigger] solve.requires((x, y)),
        strict_closeness(*closer),
    ensures
        splits(*same, *solve, *closer, lines@, r@),
{
    let n = lines.len();
    let mut upper: Vec<Vec<Option<P>>> = Vec::new();
    let mut i: usize = 0;
    while i < n
        invariant
            n == lines.len(),
            i <= n,
            upper.len() == i,
            point_comparison(*same),
            forall|x: LineSegment2<P>, y: LineSegment2<P>| #[trigger] solve.requires((x, y)),
            forall|a: int| 0 <= a < i ==> #[trigger] upper@[a]@.len() == n - a - 1,
            forall|a: int, b: int|
                0 <= a < i && a < b < n ==> crossing_outcome(
                    *same,
                    *solve,
                    lines@[a].screen_space,
                    lines@[b].screen_space,
                    #[trigger] upper@[a]@[b - a - 1],
                ),
        decreases n - i,
    {
        let mut row: Vec<Option<P>> = Vec::new();
        let mut j: usize = i + 1;
        while j < n
            invariant
                n == lines.len(),
                i < n,
                i + 1 <= j <= n,
                row.len() == j - i - 1,
                point_comparison(*same),
                forall|x: LineSegment2<P>, y: LineSegment2<P>| #[trigger] solve.requires((x, y)),
                forall|b: int|
                    i < b < j ==> crossing_outcome(
                        *same,
                        *solve,
                        lines@[i as int].screen_space,
                        lines@[b].screen_space,
                        #[trigger] row@[b - i - 1],
                    ),
            decreases n - j,
        {
            let o = find_intersection(&lines[i].screen_space, &lines[j].screen_space, same, solve);
            row.push(o);
            j = j + 1;
        }
        upper.push(row);
        i = i + 1;
    }
    let ghost u: Seq<Seq<Option<P>>> = upper@.map_values(|v: Vec<Option<P>>| v@);
    assert(pair_outcomes(*same, *solve, lines@, u)) by {
        assert forall|a: int, b: int| 0 <= a < b < n implies crossing_outcome(
            *same,
            *solve,
            lines@[a].screen_space,
            lines@[b].screen_space,
            #[trigger] u[a][b - a - 1],
        ) by {
            assert(u[a] == upper@[a]@);
        }
    }
    let mut r: Vec<ProjectedSplitLine<P, Q>> = Vec::new();
    let mut i: usize = 0;
    while i < n
        invariant
            n == lines.len(),
            i <= n,
            r.len() == i,
            u.len() == n,
            upper.len() == n,
            forall|a: int| 0 <= a < n ==> #[trigger] u[a] == upper@[a]@,
            pair_outcomes(*same, *solve, lines@, u),
            strict_closeness(*closer),
            point_comparison(*same),
            forall|a: int|
                0 <= a < i ==> splits_at(
                    *same,
                    *closer,
                    lines@[a],
                    crossings(*same, u, a, n as int),
                    #[trigger] r@[a],
                ),
        decreases n - i,
    {
        let line = lines[i];
        let mut found: Vec<P> = Vec::new();
        let mut j: usize = 0;
        while j < n
            invariant
                n == lines.len(),
                i < n,
                j <= n,
                u.len() == n,
                upper.len() == n,
                forall|a: int| 0 <= a < n ==> #[trigger] u[a] == upper@[a]@,
                pair_outcomes(*same, *solve, lines@, u),
                point_comparison(*same),
                found@ == crossings(*same, u, i as int, j as int),
            decreases n - j,
        {
            let o = if j < i {
                assert(u[j as int] == upper@[j as int]@);
                upper[j][i - j - 1]
            } else if j > i {
                assert(u[i as int] == upper@[i as int]@);
                upper[i][j - i - 1]
            } else {
                None
            };
            if let Some(p) = o {
                let mut held = false;
                let mut w: usize = 0;
                while w < found.len()
                    invariant_except_break
                        !held,
                    invariant
                        w <= found.len(),
                        point_comparison(*same),
                        forall|m: int|
                            0 <= m < w ==> !#[trigger] is_same_point(*same, found@[m], p),
                    ensures
                        held == already_held(*same, found@, p),
                    decreases found.len() - w,
                {
                    if same(found[w], p) {
                        held = true;
                        break;
                    }
                    w = w + 1;
                }
                if !held {
                    found.push(p);
                }
            }
            j = j + 1;
        }
        let ghost found_seq = found@;
        let sorted = sort_by_distance_from(line.screen_space.from, found, closer);
        let subs = chain_segments(line.screen_space.from, &sorted, line.screen_space.to);
        proof {
            lemma_crossings_distinct(*same, u, i as int, n as int);
            lemma_sorted_points_distinct(*same, *closer, line.screen_space.from, found_seq, sorted@);
            lemma_cut_points_of_chain(line.screen_space.from, sorted@, line.screen_space.to);
            assert(sorted@.len() == found_seq.len()) by {
                assert(sorted@.to_multiset().len() == found_seq.to_multiset().len());
            }
        }
        r.push(ProjectedSplitLine { projected_line: line, split_screen_space_lines: subs });
        i = i + 1;
    }
    r
}

} // verus!
