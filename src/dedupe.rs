//! Dropping lines that coincide on screen.
use vstd::prelude::*;

use crate::intersections::{deterministic_test, is_same_point, point_comparison};
use crate::lines::{projected_by, LineSegment2, LineSegment3, ProjectedLine};

verus! {

broadcast use vstd::seq_lib::group_to_multiset_ensures;

/// The two segments join the same two points, in either direction.
pub open spec fn coincide<P, E: Fn(P, P) -> bool>(
    same: E,
    a: LineSegment2<P>,
    b: LineSegment2<P>,
) -> bool {
    ||| is_same_point(same, a.to, b.to) && is_same_point(same, a.from, b.from)
    ||| is_same_point(same, a.to, b.from) && is_same_point(same, a.from, b.to)
}

/// Some line after line `i` coincides with it on screen.
pub open spec fn has_later_duplicate<P, Q, E: Fn(P, P) -> bool>(
    same: E,
    lines: Seq<ProjectedLine<P, Q>>,
    i: int,
) -> bool {
    exists|j: int|
        i < j < lines.len() && coincide(same, lines[i].screen_space, #[trigger] lines[j].screen_space)
}

/// The lines among the first `k` that no later line coincides with, in their order.
pub open spec fn deduped<P, Q, E: Fn(P, P) -> bool>(
    same: E,
    lines: Seq<ProjectedLine<P, Q>>,
    k: int,
) -> Seq<ProjectedLine<P, Q>>
    decreases k,
{
    if k <= 0 {
        Seq::empty()
    } else if has_later_duplicate(same, lines, k - 1) {
        deduped(same, lines, k - 1)
    } else {
        deduped(same, lines, k - 1).push(lines[k - 1])
    }
}

fn segments_coincide<P: Copy, E: Fn(P, P) -> bool>(
    a: &LineSegment2<P>,
    b: &LineSegment2<P>,
    same: &E,
) -> (r: bool)
    requires
        point_comparison(*same),
    ensures
        r == coincide(*same, *a, *b),
{
    (same(a.to, b.to) && same(a.from, b.from)) || (same(a.to, b.from) && same(a.from, b.to))
}

/// Drops each line that a later line coincides with on screen, comparing
/// every pair; the lines kept stay in their order.
pub fn dedupe_lines<P: Copy, Q: Copy, E: Fn(P, P) -> bool>(
    lines: Vec<ProjectedLine<P, Q>>,
    same: &E,
) -> (r: Vec<ProjectedLine<P, Q>>)
    requires
        point_comparison(*same),
    ensures
        r@ == deduped(*same, lines@, lines.len() as int),
        no_two_coincide(*same, r@),
{
    let n = lines.len();
    let mut r: Vec<ProjectedLine<P, Q>> = Vec::new();
    let mut i: usize = 0;
    while i < n
        invariant
            n == lines.len(),
            i <= n,
            point_comparison(*same),
            r@ == deduped(*same, lines@, i as int),
        decreases n - i,
    {
        let mut duplicate = false;
        let mut j: usize = i + 1;
        while j < n
            invariant_except_break
                !duplicate,
            invariant
                n == lines.len(),
                i < n,
                i + 1 <= j <= n,
                point_comparison(*same),
                forall|b: int|
                    i < b < j ==> !coincide(
                        *same,
                        lines@[i as int].screen_space,
                        #[trigger] lines@[b].screen_space,
                    ),
            ensures
                duplicate == has_later_duplicate(*same, lines@, i as int),
            decreases n - j,
        {
            if segments_coincide(&lines[i].screen_space, &lines[j].screen_space, same) {
                duplicate = true;
                break;
            }
            j = j + 1;
        }
        if !duplicate {
            r.push(lines[i]);
        }
        i = i + 1;
    }
    proof {
        lemma_deduped_has_no_duplicates(*same, lines@);
    }
    r
}

/// Without coinciding lines, deduplication keeps every line, in order.
pub proof fn lemma_dedupe_keeps_distinct_lines<P, Q, E: Fn(P, P) -> bool>(
    same: E,
    lines: Seq<ProjectedLine<P, Q>>,
)
    requires
        forall|i: int, j: int|
            0 <= i < j < lines.len() ==> !coincide(
                same,
                #[trigger] lines[i].screen_space,
                #[trigger] lines[j].screen_space,
            ),
    ensures
        deduped(same, lines, lines.len() as int) == lines,
{
    assert forall|k: int| 0 <= k <= lines.len() implies #[trigger] deduped(same, lines, k)
        == lines.take(k) by {
        lemma_deduped_prefix(same, lines, k);
    }
    assert(lines.take(lines.len() as int) =~= lines);
}

proof fn lemma_deduped_prefix<P, Q, E: Fn(P, P) -> bool>(
    same: E,
    lines: Seq<ProjectedLine<P, Q>>,
    k: int,
)
    requires
        0 <= k <= lines.len(),
        forall|i: int, j: int|
            0 <= i < j < lines.len() ==> !coincide(
                same,
                #[trigger] lines[i].screen_space,
                #[trigger] lines[j].screen_space,
            ),
    ensures
        deduped(same, lines, k) == lines.take(k),
    decreases k,
{
    if k > 0 {
        lemma_deduped_prefix(same, lines, k - 1);
        assert(!has_later_duplicate(same, lines, k - 1));
        assert(lines.take(k) =~= lines.take(k - 1).push(lines[k - 1]));
    }
}

/// Of a line and a copy of it drawn the other way round, deduplication
/// keeps one: the copy.
pub proof fn lemma_dedupe_drops_reversed_copy<P, Q, E: Fn(P, P) -> bool>(
    same: E,
    line: ProjectedLine<P, Q>,
    reversed: ProjectedLine<P, Q>,
)
    requires
        forall|p: P| #[trigger] is_same_point(same, p, p),
        reversed.screen_space.from == line.screen_space.to,
        reversed.screen_space.to == line.screen_space.from,
    ensures
        deduped(same, seq![line, reversed], 2) == seq![reversed],
{
    let lines = seq![line, reversed];
    assert(coincide(same, lines[0].screen_space, lines[1].screen_space));
    assert(has_later_duplicate(same, lines, 0));
    assert(!has_later_duplicate(same, lines, 1));
    assert(deduped(same, lines, 0) == Seq::<ProjectedLine<P, Q>>::empty());
    assert(deduped(same, lines, 1) == Seq::<ProjectedLine<P, Q>>::empty());
    assert(deduped(same, lines, 2) =~= seq![reversed]);
}

/// What `left_of` answers when asked whether `a` lies left of `b`.
pub open spec fn is_left<P, L: Fn(P, P) -> bool>(left_of: L, a: P, b: P) -> bool {
    left_of.ensures((a, b), true)
}

/// `left_of` may be called on any points, answers the same on the same
/// points, and never puts each of two points left of the other.
pub open spec fn strict_left_order<P, L: Fn(P, P) -> bool>(left_of: L) -> bool {
    &&& forall|a: P, b: P| #[trigger] left_of.requires((a, b))
    &&& forall|a: P, b: P, r: bool|
        #[trigger] left_of.ensures((a, b), r) ==> r == is_left(left_of, a, b)
    &&& forall|a: P, b: P| #[trigger] is_left(left_of, a, b) ==> !is_left(left_of, b, a)
}

/// The line drawn the other way round, in screen and in view space alike.
pub open spec fn reversed<P, Q>(l: ProjectedLine<P, Q>) -> ProjectedLine<P, Q> {
    ProjectedLine {
        screen_space: LineSegment2 { from: l.screen_space.to, to: l.screen_space.from },
        view_space: LineSegment3 { from: l.view_space.to, to: l.view_space.from },
    }
}

/// Each line turned, where needed, so that its end does not lie left of its start.
pub open spec fn left_to_right<P, Q, L: Fn(P, P) -> bool>(
    left_of: L,
    lines: Seq<ProjectedLine<P, Q>>,
) -> Seq<ProjectedLine<P, Q>> {
    lines.map_values(
        |l: ProjectedLine<P, Q>|
            if is_left(left_of, l.screen_space.to, l.screen_space.from) {
                reversed(l)
            } else {
                l
            },
    )
}

/// No line of `s` starts left of the start of the line before it.
pub open spec fn sorted_by_start<P, Q, L: Fn(P, P) -> bool>(
    left_of: L,
    s: Seq<ProjectedLine<P, Q>>,
) -> bool {
    forall|k: int|
        0 <= k < s.len() - 1 ==> !#[trigger] is_left(
            left_of,
            s[k + 1].screen_space.from,
            s[k].screen_space.from,
        )
}

/// Where `x` goes among the first `j` lines of the sorted `r`: after the
/// last of them whose start `x` does not lie left of.
pub open spec fn start_insert_pos<P, Q, L: Fn(P, P) -> bool>(
    left_of: L,
    r: Seq<ProjectedLine<P, Q>>,
    x: ProjectedLine<P, Q>,
    j: int,
) -> int
    decreases j,
{
    if j > 0 && is_left(left_of, x.screen_space.from, r[j - 1].screen_space.from) {
        start_insert_pos(left_of, r, x, j - 1)
    } else {
        j
    }
}

/// `s` sorted by start: each line in turn is placed after the last line
/// already placed whose start it does not lie left of.
pub open spec fn sorted_lines<P, Q, L: Fn(P, P) -> bool>(
    left_of: L,
    s: Seq<ProjectedLine<P, Q>>,
) -> Seq<ProjectedLine<P, Q>>
    decreases s.len(),
{
    if s.len() == 0 {
        Seq::empty()
    } else {
        let r = sorted_lines(left_of, s.drop_last());
        r.insert(start_insert_pos(left_of, r, s.last(), r.len() as int), s.last())
    }
}

/// `output` takes its lines from `input` through `perm`, each input line
/// once, and of two lines the one later in `input` comes first only when it
/// starts left of the other.
pub open spec fn stable_by_start<P, Q, L: Fn(P, P) -> bool>(
    left_of: L,
    input: Seq<ProjectedLine<P, Q>>,
    output: Seq<ProjectedLine<P, Q>>,
    perm: Seq<int>,
) -> bool {
    &&& perm.len() == output.len() == input.len()
    &&& forall|k: int|
        0 <= k < perm.len() ==> 0 <= #[trigger] perm[k] < input.len() && output[k] == input[perm[k]]
    &&& forall|k: int, m: int| 0 <= k < m < perm.len() ==> #[trigger] perm[k] != #[trigger] perm[m]
    &&& forall|k: int, m: int|
        0 <= k < m < perm.len() && #[trigger] perm[k] > #[trigger] perm[m] ==> is_left(
            left_of,
            output[k].screen_space.from,
            output[m].screen_space.from,
        )
}

/// Orders lines by their start, leftmost first, as `left_of` compares them;
/// lines that start level keep their order.
pub fn sort_lines_by_start<P: Copy, Q: Copy, L: Fn(P, P) -> bool>(
    lines: Vec<ProjectedLine<P, Q>>,
    left_of: &L,
) -> (r: Vec<ProjectedLine<P, Q>>)
    requires
        strict_left_order(*left_of),
    ensures
        r@ == sorted_lines(*left_of, lines@),
        r@.to_multiset() == lines@.to_multiset(),
        sorted_by_start(*left_of, r@),
        exists|perm: Seq<int>| stable_by_start(*left_of, lines@, r@, perm),
{
    let mut r: Vec<ProjectedLine<P, Q>> = Vec::new();
    let ghost mut perm: Seq<int> = Seq::empty();
    let mut i: usize = 0;
    while i < lines.len()
        invariant
            i <= lines.len(),
            strict_left_order(*left_of),
            r@ == sorted_lines(*left_of, lines@.take(i as int)),
            r@.to_multiset() == lines@.take(i as int).to_multiset(),
            sorted_by_start(*left_of, r@),
            stable_by_start(*left_of, lines@.take(i as int), r@, perm),
        decreases lines.len() - i,
    {
        let x = lines[i];
        let mut j: usize = r.len();
        loop
            invariant
                j <= r.len(),
                strict_left_order(*left_of),
                start_insert_pos(*left_of, r@, x, j as int) == start_insert_pos(
                    *left_of,
                    r@,
                    x,
                    r.len() as int,
                ),
                forall|t: int|
                    j <= t < r.len() ==> is_left(
                        *left_of,
                        x.screen_space.from,
                        (#[trigger] r@[t]).screen_space.from,
                    ),
            ensures
                j <= r.len(),
                j == start_insert_pos(*left_of, r@, x, r.len() as int),
                forall|t: int|
                    j <= t < r.len() ==> is_left(
                        *left_of,
                        x.screen_space.from,
                        (#[trigger] r@[t]).screen_space.from,
                    ),
                j > 0 ==> !is_left(*left_of, x.screen_space.from, r@[j - 1].screen_space.from),
            decreases j,
        {
            if j == 0 {
                break;
            }
            if !left_of(x.screen_space.from, r[j - 1].screen_space.from) {
                break;
            }
            j = j - 1;
        }
        let ghost before = r@;
        let ghost perm0 = perm;
        r.insert(j, x);
        proof {
            perm = perm0.insert(j as int, i as int);
        }
        assert(lines@.take(i + 1) =~= lines@.take(i as int).push(x));
        assert(lines@.take(i + 1).drop_last() =~= lines@.take(i as int));
        assert forall|k: int| 0 <= k < r@.len() - 1 implies !#[trigger] is_left(
            *left_of,
            r@[k + 1].screen_space.from,
            r@[k].screen_space.from,
        ) by {
            if k + 1 < j {
                assert(r@[k] == before[k] && r@[k + 1] == before[k + 1]);
            } else if k + 1 == j {
                assert(r@[k] == before[k] && r@[k + 1] == x);
            } else if k == j {
                assert(r@[k] == x && r@[k + 1] == before[k]);
                assert(is_left(*left_of, x.screen_space.from, before[k].screen_space.from));
            } else {
                assert(r@[k] == before[k - 1] && r@[k + 1] == before[k]);
                let kk = k - 1;
                assert(!is_left(*left_of, before[kk + 1].screen_space.from, before[kk].screen_space.from));
            }
        }
        proof {
            let inp = lines@.take(i + 1);
            assert forall|k: int| 0 <= k < perm.len() implies 0 <= #[trigger] perm[k] < inp.len()
                && r@[k] == inp[perm[k]] by {
                if k < j {
                    assert(perm[k] == perm0[k]);
                } else if k > j {
                    assert(perm[k] == perm0[k - 1]);
                }
            }
            assert forall|k: int, m: int| 0 <= k < m < perm.len() implies #[trigger] perm[k]
                != #[trigger] perm[m] by {
                if k != j && m != j {
                    let k0 = if k < j { k } else { k - 1 };
                    let m0 = if m < j { m } else { m - 1 };
                    assert(perm[k] == perm0[k0] && perm[m] == perm0[m0]);
                } else if k == j {
                    let m0 = m - 1;
                    assert(perm[m] == perm0[m0]);
                } else {
                    assert(perm[k] == perm0[k]);
                }
            }
            assert forall|k: int, m: int|
                0 <= k < m < perm.len() && #[trigger] perm[k] > #[trigger] perm[m] implies is_left(
                *left_of,
                r@[k].screen_space.from,
                r@[m].screen_space.from,
            ) by {
                if k != j && m != j {
                    let k0 = if k < j { k } else { k - 1 };
                    let m0 = if m < j { m } else { m - 1 };
                    assert(perm[k] == perm0[k0] && perm[m] == perm0[m0]);
                    assert(r@[k] == before[k0] && r@[m] == before[m0]);
                } else if k == j {
                    let m0 = m - 1;
                    assert(r@[m] == before[m0]);
                } else {
                    assert(perm[k] == perm0[k]);
                }
            }
        }
        i = i + 1;
    }
    assert(lines@.take(i as int) =~= lines@);
    r
}

/// What `within` answers when asked whether `b` starts close enough to `a`
/// to be compared with it.
pub open spec fn is_within<P, W: Fn(P, P) -> bool>(within: W, a: P, b: P) -> bool {
    within.ensures((a, b), true)
}

/// Moves the end of line `i`'s window past every line from `e` on that
/// starts within reach of line `i`'s start.
pub open spec fn advance<P, Q, W: Fn(P, P) -> bool>(
    within: W,
    s: Seq<ProjectedLine<P, Q>>,
    i: int,
    e: int,
) -> int
    decreases s.len() - e,
{
    if 0 <= e < s.len() && is_within(within, s[i].screen_space.from, s[e].screen_space.from) {
        advance(within, s, i, e + 1)
    } else {
        e
    }
}

/// Where the window of lines compared with line `i` ends; windows only grow.
pub open spec fn window_end<P, Q, W: Fn(P, P) -> bool>(
    within: W,
    s: Seq<ProjectedLine<P, Q>>,
    i: int,
) -> int
    decreases i + 1,
{
    if i < 0 {
        0
    } else {
        advance(within, s, i, window_end(within, s, i - 1))
    }
}

/// A later line in line `i`'s window joins the same two points.
pub open spec fn has_window_duplicate<P, Q, E: Fn(P, P) -> bool, W: Fn(P, P) -> bool>(
    same: E,
    within: W,
    s: Seq<ProjectedLine<P, Q>>,
    i: int,
) -> bool {
    exists|j: int|
        i < j < window_end(within, s, i) && coincide(
            same,
            s[i].screen_space,
            (#[trigger] s[j]).screen_space,
        )
}

/// The lines among the first `k` of `s` without a duplicate in their window.
pub open spec fn window_deduped<P, Q, E: Fn(P, P) -> bool, W: Fn(P, P) -> bool>(
    same: E,
    within: W,
    s: Seq<ProjectedLine<P, Q>>,
    k: int,
) -> Seq<ProjectedLine<P, Q>>
    decreases k,
{
    if k <= 0 {
        Seq::empty()
    } else if has_window_duplicate(same, within, s, k - 1) {
        window_deduped(same, within, s, k - 1)
    } else {
        window_deduped(same, within, s, k - 1).push(s[k - 1])
    }
}

proof fn lemma_window_end_bounds<P, Q, W: Fn(P, P) -> bool>(
    within: W,
    s: Seq<ProjectedLine<P, Q>>,
    i: int,
    e: int,
)
    requires
        0 <= e <= s.len(),
    ensures
        e <= advance(within, s, i, e) <= s.len(),
    decreases s.len() - e,
{
    if e < s.len() && is_within(within, s[i].screen_space.from, s[e].screen_space.from) {
        lemma_window_end_bounds(within, s, i, e + 1);
    }
}

/// No two lines of `s` coincide.
pub open spec fn no_two_coincide<P, Q, E: Fn(P, P) -> bool>(
    same: E,
    s: Seq<ProjectedLine<P, Q>>,
) -> bool {
    forall|a: int, b: int|
        0 <= a < b < s.len() ==> !coincide(
            same,
            (#[trigger] s[a]).screen_space,
            (#[trigger] s[b]).screen_space,
        )
}

/// Pairwise deduplication leaves no two coinciding lines.
pub proof fn lemma_deduped_has_no_duplicates<P, Q, E: Fn(P, P) -> bool>(
    same: E,
    lines: Seq<ProjectedLine<P, Q>>,
)
    ensures
        no_two_coincide(same, deduped(same, lines, lines.len() as int)),
{
    lemma_deduped_kept(same, lines, lines.len() as int);
}

proof fn lemma_deduped_kept<P, Q, E: Fn(P, P) -> bool>(
    same: E,
    lines: Seq<ProjectedLine<P, Q>>,
    k: int,
)
    requires
        0 <= k <= lines.len(),
    ensures
        no_two_coincide(same, deduped(same, lines, k)),
        forall|a: int|
            0 <= a < deduped(same, lines, k).len() ==> exists|x: int|
                0 <= x < k && #[trigger] deduped(same, lines, k)[a] == lines[x]
                    && !has_later_duplicate(same, lines, x),
    decreases k,
{
    if k > 0 {
        lemma_deduped_kept(same, lines, k - 1);
        let prev = deduped(same, lines, k - 1);
        let d = deduped(same, lines, k);
        if !has_later_duplicate(same, lines, k - 1) {
            assert forall|a: int|
                0 <= a < d.len() implies exists|x: int|
                0 <= x < k && #[trigger] d[a] == lines[x] && !has_later_duplicate(same, lines, x) by {
                if a < prev.len() {
                    assert(d[a] == prev[a]);
                    let x = choose|x: int|
                        0 <= x < k - 1 && #[trigger] prev[a] == lines[x] && !has_later_duplicate(
                            same,
                            lines,
                            x,
                        );
                } else {
                    assert(d[a] == lines[k - 1]);
                }
            }
            assert forall|a: int, b: int| 0 <= a < b < d.len() implies !coincide(
                same,
                (#[trigger] d[a]).screen_space,
                (#[trigger] d[b]).screen_space,
            ) by {
                assert(d[a] == prev[a]);
                if b < prev.len() {
                    assert(d[b] == prev[b]);
                } else {
                    let x = choose|x: int|
                        0 <= x < k - 1 && #[trigger] prev[a] == lines[x] && !has_later_duplicate(
                            same,
                            lines,
                            x,
                        );
                    assert(d[b] == lines[k - 1]);
                    if coincide(same, lines[x].screen_space, lines[k - 1].screen_space) {
                        assert(has_later_duplicate(same, lines, x));
                    }
                }
            }
        }
    }
}

/// Every pair of coinciding lines of `s` lies in the window of the first.
pub open spec fn windows_cover_duplicates<P, Q, E: Fn(P, P) -> bool, W: Fn(P, P) -> bool>(
    same: E,
    within: W,
    s: Seq<ProjectedLine<P, Q>>,
) -> bool {
    forall|i: int, j: int|
        0 <= i < j < s.len() && coincide(
            same,
            (#[trigger] s[i]).screen_space,
            (#[trigger] s[j]).screen_space,
        ) ==> j < window_end(within, s, i)
}

/// Without coinciding lines, the fast deduplication keeps every line: each
/// line of the result is a line of the input, as given or turned round,
/// and each input line appears once.
pub proof fn lemma_faster_dedupe_keeps_distinct_lines<
    P,
    Q,
    E: Fn(P, P) -> bool,
    L: Fn(P, P) -> bool,
    W: Fn(P, P) -> bool,
>(
    same: E,
    left_of: L,
    within: W,
    lines: Seq<ProjectedLine<P, Q>>,
    r: Seq<ProjectedLine<P, Q>>,
)
    requires
        window_dedupes(same, left_of, within, lines, r),
        forall|i: int, j: int|
            0 <= i < lines.len() && 0 <= j < lines.len() && i != j ==> !coincide(
                same,
                #[trigger] lines[i].screen_space,
                #[trigger] lines[j].screen_space,
            ),
    ensures
        r.len() == lines.len(),
        exists|perm: Seq<int>|
            {
                &&& perm.len() == r.len()
                &&& forall|k: int|
                    0 <= k < r.len() ==> 0 <= #[trigger] perm[k] < lines.len() && (r[k]
                        == lines[perm[k]] || r[k] == reversed(lines[perm[k]]))
                &&& forall|k: int, m: int|
                    0 <= k < m < r.len() ==> #[trigger] perm[k] != #[trigger] perm[m]
            },
{
    let t = left_to_right(left_of, lines);
    let s = turned_and_sorted(left_of, lines);
    let perm = choose|perm: Seq<int>| stable_by_start(left_of, t, s, perm);
    assert forall|k: int, m: int| 0 <= k < m < s.len() implies !coincide(
        same,
        #[trigger] s[k].screen_space,
        #[trigger] s[m].screen_space,
    ) by {
        let (x, y) = (perm[k], perm[m]);
        assert(s[k] == t[x] && s[m] == t[y]);
        assert(x != y);
        assert(!coincide(same, lines[x].screen_space, lines[y].screen_space));
    }
    lemma_window_dedupe_keeps_distinct_lines(same, within, s);
    assert forall|k: int| 0 <= k < r.len() implies 0 <= #[trigger] perm[k] < lines.len() && (r[k]
        == lines[perm[k]] || r[k] == reversed(lines[perm[k]])) by {
        assert(s[k] == t[perm[k]]);
    }
}

proof fn lemma_window_deduped_from<P, Q, E: Fn(P, P) -> bool, W: Fn(P, P) -> bool>(
    same: E,
    within: W,
    s: Seq<ProjectedLine<P, Q>>,
    k: int,
)
    requires
        0 <= k <= s.len(),
    ensures
        forall|a: int|
            0 <= a < window_deduped(same, within, s, k).len() ==> exists|x: int|
                0 <= x < k && #[trigger] window_deduped(same, within, s, k)[a] == s[x],
    decreases k,
{
    if k > 0 {
        lemma_window_deduped_from(same, within, s, k - 1);
        let prev = window_deduped(same, within, s, k - 1);
        let d = window_deduped(same, within, s, k);
        assert forall|a: int| 0 <= a < d.len() implies exists|x: int|
            0 <= x < k && #[trigger] d[a] == s[x] by {
            if a < prev.len() {
                assert(d[a] == prev[a]);
                let x = choose|x: int| 0 <= x < k - 1 && #[trigger] prev[a] == s[x];
            } else {
                assert(d[a] == s[k - 1]);
            }
        }
    }
}

/// Deduplication keeps screen and view space paired: where each input
/// line's screen segment is the projection of its view segment, so is each
/// line of the result, turned or not.
pub proof fn lemma_faster_dedupe_keeps_projection<
    P,
    Q,
    E: Fn(P, P) -> bool,
    L: Fn(P, P) -> bool,
    W: Fn(P, P) -> bool,
    F: Fn(Q) -> P,
>(
    same: E,
    left_of: L,
    within: W,
    project: F,
    lines: Seq<ProjectedLine<P, Q>>,
    r: Seq<ProjectedLine<P, Q>>,
)
    requires
        window_dedupes(same, left_of, within, lines, r),
        forall|x: int| 0 <= x < lines.len() ==> projected_by(project, #[trigger] lines[x]),
    ensures
        forall|k: int| 0 <= k < r.len() ==> projected_by(project, #[trigger] r[k]),
{
    let t = left_to_right(left_of, lines);
    let s = turned_and_sorted(left_of, lines);
    let perm = choose|perm: Seq<int>| stable_by_start(left_of, t, s, perm);
    lemma_window_deduped_from(same, within, s, s.len() as int);
    assert forall|k: int| 0 <= k < r.len() implies projected_by(project, #[trigger] r[k]) by {
        let x = choose|x: int| 0 <= x < s.len() && #[trigger] r[k] == s[x];
        assert(s[x] == t[perm[x]]);
        assert(projected_by(project, lines[perm[x]]));
    }
}

proof fn lemma_deduped_holds_kept<P, Q, E: Fn(P, P) -> bool>(
    same: E,
    lines: Seq<ProjectedLine<P, Q>>,
    x: int,
    k: int,
)
    requires
        0 <= x < k <= lines.len(),
        !has_later_duplicate(same, lines, x),
    ensures
        deduped(same, lines, k).contains(lines[x]),
    decreases k,
{
    let d = deduped(same, lines, k);
    if x == k - 1 {
        assert(d[d.len() - 1] == lines[x]);
    } else {
        lemma_deduped_holds_kept(same, lines, x, k - 1);
        let prev = deduped(same, lines, k - 1);
        let w = choose|w: int| 0 <= w < prev.len() && prev[w] == lines[x];
        assert(d[w] == prev[w]);
    }
}

/// Of a line and its exact reverse, where no other line coincides with
/// them and the windows hold every coinciding pair, the fast deduplication
/// keeps exactly one line that coincides with them.
pub proof fn lemma_faster_dedupe_keeps_one_of_reversed_pair<
    P,
    Q,
    E: Fn(P, P) -> bool,
    L: Fn(P, P) -> bool,
    W: Fn(P, P) -> bool,
>(
    same: E,
    left_of: L,
    within: W,
    lines: Seq<ProjectedLine<P, Q>>,
    r: Seq<ProjectedLine<P, Q>>,
    a: int,
    b: int,
)
    requires
        point_comparison(same),
        forall|p: P| #[trigger] is_same_point(same, p, p),
        window_dedupes(same, left_of, within, lines, r),
        windows_cover_duplicates(same, within, turned_and_sorted(left_of, lines)),
        0 <= a < lines.len(),
        0 <= b < lines.len(),
        a != b,
        lines[b].screen_space.from == lines[a].screen_space.to,
        lines[b].screen_space.to == lines[a].screen_space.from,
        forall|x: int|
            0 <= x < lines.len() && x != a && x != b ==> !coincide(
                same,
                #[trigger] lines[x].screen_space,
                lines[a].screen_space,
            ),
    ensures
        exists|k: int|
            0 <= k < r.len() && coincide(same, r[k].screen_space, lines[a].screen_space) && forall|
                k2: int,
            |
                0 <= k2 < r.len() && coincide(same, #[trigger] r[k2].screen_space, lines[a].screen_space)
                    ==> k2 == k,
{
    let l = lines[a].screen_space;
    let t = left_to_right(left_of, lines);
    let s = turned_and_sorted(left_of, lines);
    let n = s.len() as int;
    let perm = choose|perm: Seq<int>| stable_by_start(left_of, t, s, perm);
    lemma_window_dedupe_is_pairwise(same, within, s, n);
    lemma_deduped_kept(same, s, n);
    // a line of `s` coincides with `l` exactly when it comes from line `a` or `b`
    assert forall|y: int| 0 <= y < n implies (coincide(same, #[trigger] s[y].screen_space, l) <==> (
    perm[y] == a || perm[y] == b)) && (forall|z: LineSegment2<P>|
        coincide(same, s[y].screen_space, z) == coincide(same, lines[perm[y]].screen_space, z)) by {
        assert(s[y] == t[perm[y]]);
    }
    // some line of `s` comes from line `a`
    assert(t.to_multiset().contains(t[a]));
    assert(s.contains(t[a]));
    let y0 = choose|y: int| 0 <= y < n && s[y] == t[a];
    assert(coincide(same, s[y0].screen_space, l));
    // the last line of `s` that coincides with `l`
    let ymax = if exists|y: int| y0 < y < n && coincide(same, #[trigger] s[y].screen_space, l) {
        choose|y: int| y0 < y < n && coincide(same, #[trigger] s[y].screen_space, l)
    } else {
        y0
    };
    assert forall|y: int| ymax < y < n implies !coincide(same, #[trigger] s[y].screen_space, l) by {
        if coincide(same, s[y].screen_space, l) && ymax != y0 {
            assert(perm[y] != perm[ymax] && perm[y] != perm[y0] && perm[ymax] != perm[y0]);
        }
    }
    assert(!has_later_duplicate(same, s, ymax)) by {
        if has_later_duplicate(same, s, ymax) {
            let y = choose|y: int|
                ymax < y < n && coincide(same, s[ymax].screen_space, #[trigger] s[y].screen_space);
            assert(coincide(same, lines[perm[ymax]].screen_space, s[y].screen_space));
            assert(coincide(same, s[y].screen_space, l));
        }
    }
    lemma_deduped_holds_kept(same, s, ymax, n);
    let k = choose|k: int| 0 <= k < r.len() && r[k] == s[ymax];
    assert forall|k2: int|
        0 <= k2 < r.len() && coincide(same, #[trigger] r[k2].screen_space, l) implies k2 == k by {
        let x = choose|x: int|
            0 <= x < n && #[trigger] r[k2] == s[x] && !has_later_duplicate(same, s, x);
        if x != ymax {
            if x < ymax {
                assert(coincide(same, lines[perm[ymax]].screen_space, l));
                assert(coincide(same, s[x].screen_space, s[ymax].screen_space));
                assert(has_later_duplicate(same, s, x));
            } else {
                assert(!coincide(same, s[x].screen_space, l));
            }
        }
        if k2 != k {
            assert(coincide(same, lines[perm[ymax]].screen_space, s[ymax].screen_space));
            if k2 < k {
                assert(!coincide(same, r[k2].screen_space, r[k].screen_space));
            } else {
                assert(!coincide(same, r[k].screen_space, r[k2].screen_space));
            }
        }
    }
}

/// Where the windows hold every coinciding pair, the windowed
/// deduplication is the pairwise one.
pub proof fn lemma_window_dedupe_is_pairwise<P, Q, E: Fn(P, P) -> bool, W: Fn(P, P) -> bool>(
    same: E,
    within: W,
    s: Seq<ProjectedLine<P, Q>>,
    k: int,
)
    requires
        windows_cover_duplicates(same, within, s),
        0 <= k <= s.len(),
    ensures
        window_deduped(same, within, s, k) == deduped(same, s, k),
    decreases k,
{
    if k > 0 {
        lemma_window_dedupe_is_pairwise(same, within, s, k - 1);
        let i = k - 1;
        lemma_window_end_at_most_len(within, s, i);
        if has_window_duplicate(same, within, s, i) {
            let j = choose|j: int|
                i < j < window_end(within, s, i) && coincide(
                    same,
                    s[i].screen_space,
                    (#[trigger] s[j]).screen_space,
                );
            assert(has_later_duplicate(same, s, i));
        }
        if has_later_duplicate(same, s, i) {
            let j = choose|j: int|
                i < j < s.len() && coincide(same, s[i].screen_space, #[trigger] s[j].screen_space);
            assert(j < window_end(within, s, i));
            assert(has_window_duplicate(same, within, s, i));
        }
    }
}

/// `lines` turned left to right, then sorted by their start.
pub open spec fn turned_and_sorted<P, Q, L: Fn(P, P) -> bool>(
    left_of: L,
    lines: Seq<ProjectedLine<P, Q>>,
) -> Seq<ProjectedLine<P, Q>> {
    sorted_lines(left_of, left_to_right(left_of, lines))
}

/// `r` is what the windowed deduplication leaves of `lines`: the lines,
/// turned left to right and stably sorted by their start, less each one
/// with a coinciding line in its window.
pub open spec fn window_dedupes<
    P,
    Q,
    E: Fn(P, P) -> bool,
    L: Fn(P, P) -> bool,
    W: Fn(P, P) -> bool,
>(
    same: E,
    left_of: L,
    within: W,
    lines: Seq<ProjectedLine<P, Q>>,
    r: Seq<ProjectedLine<P, Q>>,
) -> bool {
    let s = turned_and_sorted(left_of, lines);
    &&& s.to_multiset() == left_to_right(left_of, lines).to_multiset()
    &&& sorted_by_start(left_of, s)
    &&& exists|perm: Seq<int>| stable_by_start(left_of, left_to_right(left_of, lines), s, perm)
    &&& r == window_deduped(same, within, s, s.len() as int)
}

/// Drops coinciding lines without comparing every pair: each line is turned
/// to run left to right (in screen and view space together), the lines are sorted by their start, and each line
/// is compared only with the later lines in its window, those that start
/// within reach of it as `within` tells. A line is dropped when a line in
/// its window joins the same two points, in either direction.
pub fn dedupe_lines_faster<
    P: Copy,
    Q: Copy,
    E: Fn(P, P) -> bool,
    L: Fn(P, P) -> bool,
    W: Fn(P, P) -> bool,
>(lines: Vec<ProjectedLine<P, Q>>, same: &E, left_of: &L, within: &W) -> (r: Vec<
    ProjectedLine<P, Q>,
>)
    requires
        point_comparison(*same),
        deterministic_test(*within),
        strict_left_order(*left_of),
    ensures
        window_dedupes(*same, *left_of, *within, lines@, r@),
        windows_cover_duplicates(*same, *within, turned_and_sorted(*left_of, lines@)) ==> {
            let s = turned_and_sorted(*left_of, lines@);
            &&& r@ == deduped(*same, s, s.len() as int)
            &&& no_two_coincide(*same, r@)
        },
{
    let mut turned: Vec<ProjectedLine<P, Q>> = Vec::new();
    let mut i: usize = 0;
    while i < lines.len()
        invariant
            i <= lines.len(),
            strict_left_order(*left_of),
            turned@ == left_to_right(*left_of, lines@).take(i as int),
        decreases lines.len() - i,
    {
        let l = lines[i];
        if left_of(l.screen_space.to, l.screen_space.from) {
            turned.push(
                ProjectedLine {
                    screen_space: LineSegment2 { from: l.screen_space.to, to: l.screen_space.from },
                    view_space: LineSegment3 { from: l.view_space.to, to: l.view_space.from },
                },
            );
        } else {
            turned.push(l);
        }
        i = i + 1;
        assert(turned@ =~= left_to_right(*left_of, lines@).take(i as int));
    }
    assert(turned@ =~= left_to_right(*left_of, lines@));
    let s = sort_lines_by_start(turned, left_of);
    let n = s.len();
    let mut r: Vec<ProjectedLine<P, Q>> = Vec::new();
    let mut lookup_end: usize = 0;
    let mut curr: usize = 0;
    while curr < n
        invariant
            n == s.len(),
            curr <= n,
            point_comparison(*same),
            deterministic_test(*within),
            lookup_end == window_end(*within, s@, curr - 1),
            lookup_end <= n,
            r@ == window_deduped(*same, *within, s@, curr as int),
        decreases n - curr,
    {
        proof {
            lemma_window_end_bounds(*within, s@, curr as int, lookup_end as int);
        }
        while lookup_end < n && within(s[curr].screen_space.from, s[lookup_end].screen_space.from)
            invariant
                n == s.len(),
                curr < n,
                lookup_end <= n,
                deterministic_test(*within),
                advance(*within, s@, curr as int, lookup_end as int) == window_end(
                    *within,
                    s@,
                    curr as int,
                ),
            decreases n - lookup_end,
        {
            lookup_end = lookup_end + 1;
        }
        let mut match_found = false;
        let mut comp: usize = curr + 1;
        while comp < lookup_end
            invariant_except_break
                !match_found,
            invariant
                n == s.len(),
                curr < n,
                lookup_end <= n,
                curr + 1 <= comp,
                point_comparison(*same),
                forall|j: int|
                    curr < j < comp ==> !coincide(
                        *same,
                        s@[curr as int].screen_space,
                        (#[trigger] s@[j]).screen_space,
                    ),
            ensures
                match_found ==> comp < lookup_end && curr < comp && coincide(
                    *same,
                    s@[curr as int].screen_space,
                    s@[comp as int].screen_space,
                ),
                !match_found ==> forall|j: int|
                    curr < j < lookup_end ==> !coincide(
                        *same,
                        s@[curr as int].screen_space,
                        (#[trigger] s@[j]).screen_space,
                    ),
            decreases lookup_end - comp,
        {
            if segments_coincide(&s[curr].screen_space, &s[comp].screen_space, same) {
                match_found = true;
                break;
            }
            comp = comp + 1;
        }
        if !match_found {
            r.push(s[curr]);
        }
        curr = curr + 1;
    }
    proof {
        let t = turned_and_sorted(*left_of, lines@);
        if windows_cover_duplicates(*same, *within, t) {
            lemma_window_dedupe_is_pairwise(*same, *within, t, t.len() as int);
            lemma_deduped_has_no_duplicates(*same, t);
        }
    }
    r
}

/// Without coinciding lines, the windowed deduplication keeps every line.
pub proof fn lemma_window_dedupe_keeps_distinct_lines<
    P,
    Q,
    E: Fn(P, P) -> bool,
    W: Fn(P, P) -> bool,
>(same: E, within: W, s: Seq<ProjectedLine<P, Q>>)
    requires
        forall|i: int, j: int|
            0 <= i < j < s.len() ==> !coincide(
                same,
                #[trigger] s[i].screen_space,
                #[trigger] s[j].screen_space,
            ),
    ensures
        window_deduped(same, within, s, s.len() as int) == s,
{
    lemma_window_deduped_prefix(same, within, s, s.len() as int);
    assert(s.take(s.len() as int) =~= s);
}

proof fn lemma_window_deduped_prefix<P, Q, E: Fn(P, P) -> bool, W: Fn(P, P) -> bool>(
    same: E,
    within: W,
    s: Seq<ProjectedLine<P, Q>>,
    k: int,
)
    requires
        0 <= k <= s.len(),
        forall|i: int, j: int|
            0 <= i < j < s.len() ==> !coincide(
                same,
                #[trigger] s[i].screen_space,
                #[trigger] s[j].screen_space,
            ),
    ensures
        window_deduped(same, within, s, k) == s.take(k),
    decreases k,
{
    if k > 0 {
        lemma_window_deduped_prefix(same, within, s, k - 1);
        lemma_window_end_at_most_len(within, s, k - 1);
        assert(!has_window_duplicate(same, within, s, k - 1)) by {
            if has_window_duplicate(same, within, s, k - 1) {
                let j = choose|j: int|
                    k - 1 < j < window_end(within, s, k - 1) && coincide(
                        same,
                        s[k - 1].screen_space,
                        (#[trigger] s[j]).screen_space,
                    );
                assert(!coincide(same, s[k - 1].screen_space, s[j].screen_space));
            }
        }
        assert(s.take(k) =~= s.take(k - 1).push(s[k - 1]));
    }
}

proof fn lemma_window_end_at_most_len<P, Q, W: Fn(P, P) -> bool>(
    within: W,
    s: Seq<ProjectedLine<P, Q>>,
    i: int,
)
    ensures
        0 <= window_end(within, s, i) <= s.len(),
    decreases i + 1,
{
    if i >= 0 {
        lemma_window_end_at_most_len(within, s, i - 1);
        lemma_window_end_bounds(within, s, i, window_end(within, s, i - 1));
    }
}

/// Two coinciding lines side by side in the sorted order, the second within
/// reach of the first, leave one line: the second.
pub proof fn lemma_window_dedupe_drops_first_copy<
    P,
    Q,
    E: Fn(P, P) -> bool,
    W: Fn(P, P) -> bool,
>(same: E, within: W, first: ProjectedLine<P, Q>, second: ProjectedLine<P, Q>)
    requires
        coincide(same, first.screen_space, second.screen_space),
        is_within(within, first.screen_space.from, first.screen_space.from),
        is_within(within, first.screen_space.from, second.screen_space.from),
    ensures
        window_deduped(same, within, seq![first, second], 2) == seq![second],
{
    let s = seq![first, second];
    assert(window_end(within, s, -1) == 0);
    assert(advance(within, s, 0, 2) == 2);
    assert(advance(within, s, 0, 1) == 2);
    assert(advance(within, s, 0, 0) == 2);
    assert(window_end(within, s, 0) == 2);
    assert(has_window_duplicate(same, within, s, 0)) by {
        assert(coincide(same, s[0].screen_space, s[1].screen_space));
    }
    lemma_window_end_bounds(within, s, 1, 2);
    assert(window_end(within, s, 1) == 2);
    assert(!has_window_duplicate(same, within, s, 1));
    assert(window_deduped(same, within, s, 0) == Seq::<ProjectedLine<P, Q>>::empty());
    assert(window_deduped(same, within, s, 1) == Seq::<ProjectedLine<P, Q>>::empty());
    assert(window_deduped(same, within, s, 2) =~= seq![second]);
}

} // verus!
