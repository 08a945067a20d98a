use mesh_to_svg::dedupe::sort_lines_by_start;
use mesh_to_svg::intersections::sort_by_distance_from;
use mesh_to_svg::lines::{
    chain_segments, dedupe_lines, dedupe_lines_faster, find_intersection, partition_visibility,
    project_lines, split_lines_by_intersection, LineSegment2, LineSegment3, LineVisibility,
    ProjectedLine, ProjectedSplitLine,
};

type P = (f64, f64);

fn seg(from: P, to: P) -> LineSegment2<P> {
    LineSegment2 { from, to }
}

fn projected(from: P, to: P) -> ProjectedLine<P, u32> {
    ProjectedLine {
        screen_space: seg(from, to),
        view_space: LineSegment3 { from: 0, to: 1 },
    }
}

fn same(a: P, b: P) -> bool {
    (a.0 - b.0).abs() < 1e-9 && (a.1 - b.1).abs() < 1e-9
}

fn closer(o: P, a: P, b: P) -> bool {
    let da = (a.0 - o.0).powi(2) + (a.1 - o.1).powi(2);
    let db = (b.0 - o.0).powi(2) + (b.1 - o.1).powi(2);
    da < db
}

fn solve(a: LineSegment2<P>, b: LineSegment2<P>) -> Option<P> {
    let (p0, p1, p2, p3) = (a.from, a.to, b.from, b.to);
    let (s1x, s1y) = (p1.0 - p0.0, p1.1 - p0.1);
    let (s2x, s2y) = (p3.0 - p2.0, p3.1 - p2.1);
    let d = -s2x * s1y + s1x * s2y;
    let s = (-s1y * (p0.0 - p2.0) + s1x * (p0.1 - p2.1)) / d;
    let t = (s2x * (p0.1 - p2.1) - s2y * (p0.0 - p2.0)) / d;
    if (0.0..=1.0).contains(&s) && (0.0..=1.0).contains(&t) {
        Some((p0.0 + t * s1x, p0.1 + t * s1y))
    } else {
        None
    }
}

fn intersect(a: LineSegment2<P>, b: LineSegment2<P>) -> Option<P> {
    find_intersection(&a, &b, &same, &solve)
}

#[test]
fn chain_without_points_is_the_segment() {
    let r = chain_segments((0.0, 0.0), &vec![], (4.0, 0.0));
    assert_eq!(r.len(), 1);
    assert_eq!(r[0].from, (0.0, 0.0));
    assert_eq!(r[0].to, (4.0, 0.0));
}

#[test]
fn chain_through_two_points() {
    let r = chain_segments((0.0, 0.0), &vec![(1.0, 0.0), (3.0, 0.0)], (4.0, 0.0));
    let ends: Vec<(P, P)> = r.iter().map(|s| (s.from, s.to)).collect();
    assert_eq!(
        ends,
        vec![
            ((0.0, 0.0), (1.0, 0.0)),
            ((1.0, 0.0), (3.0, 0.0)),
            ((3.0, 0.0), (4.0, 0.0))
        ]
    );
}

#[test]
fn sort_orders_by_distance_and_keeps_ties() {
    let points = vec![(3.0, 0.0), (0.0, 1.0), (1.0, 0.0), (-3.0, 0.0)];
    let r = sort_by_distance_from((0.0, 0.0), points, &closer);
    assert_eq!(r, vec![(0.0, 1.0), (1.0, 0.0), (3.0, 0.0), (-3.0, 0.0)]);
}

#[test]
fn sort_of_nothing_is_nothing() {
    let r = sort_by_distance_from((0.0, 0.0), Vec::<P>::new(), &closer);
    assert!(r.is_empty());
}

#[test]
fn crossing_segments_meet_in_the_middle() {
    let r = intersect(seg((0.0, 0.0), (10.0, 10.0)), seg((0.0, 10.0), (10.0, 0.0)));
    assert_eq!(r, Some((5.0, 5.0)));
}

#[test]
fn segments_sharing_an_endpoint_do_not_cross() {
    let a = seg((0.0, 0.0), (10.0, 10.0));
    assert_eq!(intersect(a, seg((10.0, 10.0), (20.0, 0.0))), None);
    assert_eq!(intersect(a, seg((0.0, 0.0), (10.0, 0.0))), None);
    assert_eq!(intersect(a, seg((5.0, -5.0), (0.0, 0.0))), None);
    assert_eq!(intersect(a, seg((10.0, 10.0), (0.0, 0.0))), None);
}

#[test]
fn separate_segments_do_not_cross() {
    let r = intersect(seg((0.0, 0.0), (1.0, 1.0)), seg((5.0, 0.0), (6.0, -1.0)));
    assert_eq!(r, None);
}

#[test]
fn crossing_point_lies_on_both_segments() {
    let a = seg((0.0, 0.0), (4.0, 2.0));
    let b = seg((1.0, 3.0), (3.0, -1.0));
    let p = intersect(a, b).unwrap();
    let on = |s: LineSegment2<P>| {
        let cross = (s.to.0 - s.from.0) * (p.1 - s.from.1) - (s.to.1 - s.from.1) * (p.0 - s.from.0);
        cross.abs() < 1e-9
    };
    assert!(on(a) && on(b));
    assert!((p.0 - 2.0).abs() < 1e-9 && (p.1 - 1.0).abs() < 1e-9);
}

#[test]
fn an_x_splits_into_four_segments_at_the_centre() {
    let lines = vec![
        projected((0.0, 0.0), (10.0, 10.0)),
        projected((0.0, 10.0), (10.0, 0.0)),
    ];
    let split = split_lines_by_intersection(&lines, &same, &solve, &closer);
    assert_eq!(split.len(), 2);
    let subs: Vec<(P, P)> = split
        .iter()
        .flat_map(|l| l.split_screen_space_lines.iter().map(|s| (s.from, s.to)))
        .collect();
    assert_eq!(
        subs,
        vec![
            ((0.0, 0.0), (5.0, 5.0)),
            ((5.0, 5.0), (10.0, 10.0)),
            ((0.0, 10.0), (5.0, 5.0)),
            ((5.0, 5.0), (10.0, 0.0))
        ]
    );
}

#[test]
fn a_line_crossed_twice_is_cut_in_order_of_distance() {
    let lines = vec![
        projected((0.0, 0.0), (10.0, 0.0)),
        projected((7.0, -1.0), (7.0, 1.0)),
        projected((2.0, -1.0), (2.0, 1.0)),
    ];
    let split = split_lines_by_intersection(&lines, &same, &solve, &closer);
    let first: Vec<(P, P)> = split[0]
        .split_screen_space_lines
        .iter()
        .map(|s| (s.from, s.to))
        .collect();
    assert_eq!(
        first,
        vec![
            ((0.0, 0.0), (2.0, 0.0)),
            ((2.0, 0.0), (7.0, 0.0)),
            ((7.0, 0.0), (10.0, 0.0))
        ]
    );
    assert_eq!(split[1].split_screen_space_lines.len(), 2);
    assert_eq!(split[2].split_screen_space_lines.len(), 2);
    let total: f64 = split[0]
        .split_screen_space_lines
        .iter()
        .map(|s| ((s.to.0 - s.from.0).powi(2) + (s.to.1 - s.from.1).powi(2)).sqrt())
        .sum();
    assert!((total - 10.0).abs() < 1e-9);
}

#[test]
fn a_line_without_crossings_stays_whole() {
    let lines = vec![projected((0.0, 0.0), (1.0, 0.0)), projected((0.0, 1.0), (1.0, 1.0))];
    let split = split_lines_by_intersection(&lines, &same, &solve, &closer);
    for (line, s) in lines.iter().zip(split.iter()) {
        assert_eq!(s.split_screen_space_lines.len(), 1);
        assert_eq!(s.split_screen_space_lines[0].from, line.screen_space.from);
        assert_eq!(s.split_screen_space_lines[0].to, line.screen_space.to);
    }
}

#[test]
fn dedupe_keeps_one_of_a_line_and_its_reverse() {
    let lines = vec![projected((0.0, 0.0), (3.0, 4.0)), projected((3.0, 4.0), (0.0, 0.0))];
    let r = dedupe_lines(lines, &same);
    assert_eq!(r.len(), 1);
    assert_eq!(r[0].screen_space.from, (3.0, 4.0));
}

#[test]
fn dedupe_drops_an_exact_copy() {
    let lines = vec![
        projected((0.0, 0.0), (1.0, 0.0)),
        projected((5.0, 5.0), (6.0, 6.0)),
        projected((0.0, 0.0), (1.0, 0.0)),
    ];
    let r = dedupe_lines(lines, &same);
    let ends: Vec<(P, P)> = r.iter().map(|l| (l.screen_space.from, l.screen_space.to)).collect();
    assert_eq!(ends, vec![((5.0, 5.0), (6.0, 6.0)), ((0.0, 0.0), (1.0, 0.0))]);
}

#[test]
fn dedupe_without_duplicates_changes_nothing() {
    let lines = vec![
        projected((0.0, 0.0), (1.0, 0.0)),
        projected((0.0, 0.0), (0.0, 1.0)),
        projected((1.0, 0.0), (0.0, 1.0)),
    ];
    let r = dedupe_lines(lines.clone(), &same);
    assert_eq!(r.len(), 3);
    for (a, b) in lines.iter().zip(r.iter()) {
        assert_eq!(a.screen_space.from, b.screen_space.from);
        assert_eq!(a.screen_space.to, b.screen_space.to);
    }
}

#[test]
fn dedupe_of_nothing_is_nothing() {
    let r = dedupe_lines(Vec::<ProjectedLine<P, u32>>::new(), &same);
    assert!(r.is_empty());
}

#[test]
fn visibility_is_asked_for_every_sub_segment_in_order() {
    let line_a = projected((0.0, 0.0), (10.0, 0.0));
    let line_b = projected((0.0, 5.0), (0.0, 9.0));
    let split = vec![
        ProjectedSplitLine {
            projected_line: line_a,
            split_screen_space_lines: vec![seg((0.0, 0.0), (4.0, 0.0)), seg((4.0, 0.0), (10.0, 0.0))],
        },
        ProjectedSplitLine {
            projected_line: line_b,
            split_screen_space_lines: vec![seg((0.0, 5.0), (0.0, 9.0))],
        },
    ];
    let hidden_right_of_three = |s: LineSegment2<P>, _parent: ProjectedLine<P, u32>| {
        if s.from.0 >= 3.0 {
            LineVisibility::OBSCURED
        } else {
            LineVisibility::VISIBLE
        }
    };
    let r = partition_visibility(&split, &hidden_right_of_three);
    assert_eq!(r.len(), 3);
    assert_eq!(r[0].visibility, LineVisibility::VISIBLE);
    assert_eq!(r[1].visibility, LineVisibility::OBSCURED);
    assert_eq!(r[1].line_segment.from, (4.0, 0.0));
    assert_eq!(r[2].visibility, LineVisibility::VISIBLE);
    assert_eq!(r[2].line_segment.to, (0.0, 9.0));
}

fn left_of(a: P, b: P) -> bool {
    a.0 < b.0
}

fn within(a: P, b: P) -> bool {
    b.0 < a.0 + 0.001
}

#[test]
fn lines_sort_by_their_start() {
    let lines = vec![
        projected((3.0, 0.0), (4.0, 0.0)),
        projected((1.0, 0.0), (2.0, 0.0)),
        projected((3.0, 1.0), (4.0, 1.0)),
        projected((0.0, 0.0), (1.0, 1.0)),
    ];
    let r = sort_lines_by_start(lines, &left_of);
    let starts: Vec<P> = r.iter().map(|l| l.screen_space.from).collect();
    assert_eq!(starts, vec![(0.0, 0.0), (1.0, 0.0), (3.0, 0.0), (3.0, 1.0)]);
}

#[test]
fn faster_dedupe_keeps_one_of_a_line_and_its_reverse() {
    let lines = vec![
        projected((3.0, 4.0), (0.0, 0.0)),
        projected((9.0, 9.0), (8.0, 8.0)),
        projected((0.0, 0.0), (3.0, 4.0)),
    ];
    let r = dedupe_lines_faster(lines, &same, &left_of, &within);
    let ends: Vec<(P, P)> = r.iter().map(|l| (l.screen_space.from, l.screen_space.to)).collect();
    assert_eq!(ends, vec![((0.0, 0.0), (3.0, 4.0)), ((8.0, 8.0), (9.0, 9.0))]);
}

#[test]
fn faster_dedupe_without_duplicates_keeps_every_line() {
    let lines = vec![
        projected((2.0, 0.0), (3.0, 0.0)),
        projected((0.0, 0.0), (1.0, 0.0)),
        projected((0.0, 0.0), (0.0, 1.0)),
    ];
    let r = dedupe_lines_faster(lines, &same, &left_of, &within);
    assert_eq!(r.len(), 3);
    assert_eq!(r[2].screen_space.from, (2.0, 0.0));
}

#[test]
fn faster_dedupe_matches_the_pairwise_dedupe() {
    let lines = vec![
        projected((0.0, 0.0), (1.0, 0.0)),
        projected((1.0, 0.0), (0.0, 0.0)),
        projected((1.0, 0.0), (1.0, 1.0)),
        projected((1.0, 1.0), (1.0, 0.0)),
        projected((5.0, 5.0), (6.0, 5.0)),
    ];
    let fast = dedupe_lines_faster(lines.clone(), &same, &left_of, &within);
    let slow = dedupe_lines(lines, &same);
    assert_eq!(fast.len(), 3);
    assert_eq!(slow.len(), 3);
}

#[test]
fn projection_pairs_each_line_with_its_image() {
    let lines = vec![LineSegment3 { from: 1u32, to: 2u32 }, LineSegment3 { from: 3u32, to: 5u32 }];
    let r = project_lines(&lines, &|q: u32| (q as f64 * 2.0, -(q as f64)));
    assert_eq!(r.len(), 2);
    assert_eq!(r[1].view_space.from, 3);
    assert_eq!(r[1].view_space.to, 5);
    assert_eq!(r[0].screen_space.from, (2.0, -1.0));
    assert_eq!(r[1].screen_space.to, (10.0, -5.0));
}

#[test]
fn turning_a_line_turns_its_view_segment_too() {
    let line = ProjectedLine {
        screen_space: seg((10.0, 0.0), (0.0, 0.0)),
        view_space: LineSegment3 { from: 10u32, to: 0u32 },
    };
    let r = dedupe_lines_faster(vec![line], &same, &left_of, &within);
    assert_eq!(r.len(), 1);
    assert_eq!(r[0].screen_space.from, (0.0, 0.0));
    assert_eq!(r[0].screen_space.to, (10.0, 0.0));
    assert_eq!(r[0].view_space.from, 0);
    assert_eq!(r[0].view_space.to, 10);
}

#[test]
fn three_lines_through_one_point_cut_each_line_once() {
    let lines = vec![
        projected((0.0, 0.0), (10.0, 10.0)),
        projected((0.0, 10.0), (10.0, 0.0)),
        projected((5.0, 0.0), (5.0, 10.0)),
    ];
    let split = split_lines_by_intersection(&lines, &same, &solve, &closer);
    for s in &split {
        assert_eq!(s.split_screen_space_lines.len(), 2);
        assert_eq!(s.split_screen_space_lines[0].to, (5.0, 5.0));
        assert_eq!(s.split_screen_space_lines[1].from, (5.0, 5.0));
    }
}
