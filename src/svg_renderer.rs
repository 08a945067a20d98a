use vstd::prelude::*;

use crate::intersections::{is_same_point, point_comparison};
use crate::lines::{LineSegmentCategorized, LineVisibility};

verus! {

/// Stroke settings of one class of lines.
pub struct SvgLineConfig {
    pub stroke_width: i32,
    pub stroke: String,
}

/// Settings of the SVG document that a drawing is written to.
pub struct SvgConfig {
    pub width: i32,
    pub height: i32,
    pub margin: i32,
    pub visible: SvgLineConfig,
    /// `None` when hidden lines are left out of the drawing.
    pub obscured: Option<SvgLineConfig>,
    pub fit_lines: bool,
    pub source_canvas_width: i32,
    pub source_canvas_height: i32,
}

pub const DEFAULT_MARGIN: i32 = 100;
pub const DEFAULT_VISIBLE_STROKE_WIDTH: i32 = 4;
pub const DEFAULT_OBSCURED_STROKE_WIDTH: i32 = 2;

pub open spec fn or_default<T>(o: Option<T>, d: T) -> T {
    match o {
        Some(v) => v,
        None => d,
    }
}

pub open spec fn or_default_str(o: Option<String>, d: Seq<char>) -> Seq<char> {
    match o {
        Some(s) => s@,
        None => d,
    }
}

fn string_or(o: Option<String>, d: &str) -> (r: String)
    ensures
        r@ == or_default_str(o, d@),
{
    match o {
        Some(s) => s,
        None => d.to_string(),
    }
}

impl SvgConfig {
    /// The configuration with every optional setting at its default.
    pub fn new_default(source_canvas_width: i32, source_canvas_height: i32) -> (r: SvgConfig)
        ensures
            r.source_canvas_width == source_canvas_width,
            r.source_canvas_height == source_canvas_height,
            r.width == source_canvas_width,
            r.height == source_canvas_height,
            r.fit_lines,
            r.margin == DEFAULT_MARGIN,
            r.visible.stroke_width == DEFAULT_VISIBLE_STROKE_WIDTH,
            r.visible.stroke@ == "black"@,
            r.obscured matches Some(o) && o.stroke_width == DEFAULT_OBSCURED_STROKE_WIDTH
                && o.stroke@ == "grey"@,
    {
        SvgConfig::new(
            source_canvas_width,
            source_canvas_height,
            None,
            None,
            None,
            None,
            None,
            None,
            None,
            None,
            None,
        )
    }

    /// Builds a configuration; each setting left `None` takes its default.
    /// The margin is zero unless the lines are fitted to the document, and
    /// the hidden lines' stroke is dropped when `svg_config_hide_obscured`
    /// is `Some(true)`.
    pub fn new(
        source_canvas_width: i32,
        source_canvas_height: i32,
        svg_config_width: Option<i32>,
        svg_config_height: Option<i32>,
        svg_config_margin: Option<i32>,
        svg_config_visible_stroke_width: Option<i32>,
        svg_config_visible_stroke: Option<String>,
        svg_config_hide_obscured: Option<bool>,
        svg_config_obscured_stroke_width: Option<i32>,
        svg_config_obscured_stroke: Option<String>,
        svg_config_fit_lines: Option<bool>,
    ) -> (r: SvgConfig)
        ensures
            r.source_canvas_width == source_canvas_width,
            r.source_canvas_height == source_canvas_height,
            r.width == or_default(svg_config_width, source_canvas_width),
            r.height == or_default(svg_config_height, source_canvas_height),
            r.fit_lines == or_default(svg_config_fit_lines, true),
            r.margin == (if r.fit_lines {
                or_default(svg_config_margin, DEFAULT_MARGIN)
            } else {
                0
            }),
            r.visible.stroke_width == or_default(
                svg_config_visible_stroke_width,
                DEFAULT_VISIBLE_STROKE_WIDTH,
            ),
            r.visible.stroke@ == or_default_str(svg_config_visible_stroke, "black"@),
            svg_config_hide_obscured == Some(true) ==> r.obscured is None,
            svg_config_hide_obscured != Some(true) ==> (r.obscured matches Some(o)
                && o.stroke_width == or_default(
                svg_config_obscured_stroke_width,
                DEFAULT_OBSCURED_STROKE_WIDTH,
            ) && o.stroke@ == or_default_str(svg_config_obscured_stroke, "grey"@)),
    {
        let fit_lines = match svg_config_fit_lines {
            Some(f) => f,
            None => true,
        };
        let margin = if fit_lines {
            match svg_config_margin {
                Some(m) => m,
                None => DEFAULT_MARGIN,
            }
        } else {
            0
        };
        let width = match svg_config_width {
            Some(w) => w,
            None => source_canvas_width,
        };
        let height = match svg_config_height {
            Some(h) => h,
            None => source_canvas_height,
        };
        let visible = SvgLineConfig {
            stroke_width: match svg_config_visible_stroke_width {
                Some(w) => w,
                None => DEFAULT_VISIBLE_STROKE_WIDTH,
            },
            stroke: string_or(svg_config_visible_stroke, "black"),
        };
        let obscured = match svg_config_hide_obscured {
            Some(true) => None,
            _ => Some(
                SvgLineConfig {
                    stroke_width: match svg_config_obscured_stroke_width {
                        Some(w) => w,
                        None => DEFAULT_OBSCURED_STROKE_WIDTH,
                    },
                    stroke: string_or(svg_config_obscured_stroke, "grey"),
                },
            ),
        };
        SvgConfig {
            width,
            height,
            margin,
            visible,
            obscured,
            fit_lines,
            source_canvas_width,
            source_canvas_height,
        }
    }
}

pub open spec fn has_visibility<P>(v: LineVisibility) -> spec_fn(LineSegmentCategorized<P>) -> bool {
    |s: LineSegmentCategorized<P>| s.visibility == v
}

/// Separates the visible segments from the hidden ones, each group in the
/// order given.
pub fn partition_by_visibility<P: Copy>(segments: &Vec<LineSegmentCategorized<P>>) -> (r: (
    Vec<LineSegmentCategorized<P>>,
    Vec<LineSegmentCategorized<P>>,
))
    ensures
        r.0@ == segments@.filter(has_visibility(LineVisibility::VISIBLE)),
        r.1@ == segments@.filter(has_visibility(LineVisibility::OBSCURED)),
{
    let mut visible: Vec<LineSegmentCategorized<P>> = Vec::new();
    let mut obscured: Vec<LineSegmentCategorized<P>> = Vec::new();
    let mut i: usize = 0;
    while i < segments.len()
        invariant
            i <= segments.len(),
            visible@ == segments@.take(i as int).filter(has_visibility(LineVisibility::VISIBLE)),
            obscured@ == segments@.take(i as int).filter(has_visibility(LineVisibility::OBSCURED)),
        decreases segments.len() - i,
    {
        let s = segments[i];
        assert(segments@.take(i + 1) == segments@.take(i as int).push(s));
        proof {
            segments@.take(i as int).lemma_filter_push(s, has_visibility(LineVisibility::VISIBLE));
            segments@.take(i as int).lemma_filter_push(s, has_visibility(LineVisibility::OBSCURED));
        }
        match s.visibility {
            LineVisibility::VISIBLE => visible.push(s),
            LineVisibility::OBSCURED => obscured.push(s),
        }
        i = i + 1;
    }
    assert(segments@.take(i as int) =~= segments@);
    (visible, obscured)
}

/// One step of an SVG path.
#[derive(Clone, Copy, Debug, PartialEq, Eq, Structural)]
pub enum PathStep<P> {
    /// Lift the pen to `from`, then draw to `to`.
    MoveTo { from: P, to: P },
    /// Draw on from where the pen is to `to`.
    LineTo { to: P },
}

/// The path that draws `lines` in order: a segment that starts where the one
/// before it ended continues the stroke, any other lifts the pen.
pub open spec fn path_steps_of<P, E: Fn(P, P) -> bool>(
    same: E,
    lines: Seq<LineSegmentCategorized<P>>,
) -> Seq<PathStep<P>> {
    Seq::new(
        lines.len(),
        |k: int|
            if k > 0 && is_same_point(same, lines[k - 1].line_segment.to, lines[k].line_segment.from) {
                PathStep::LineTo { to: lines[k].line_segment.to }
            } else {
                PathStep::MoveTo { from: lines[k].line_segment.from, to: lines[k].line_segment.to }
            },
    )
}

/// The steps of one SVG path through `lines`; `same` tells whether two
/// points are the same.
pub fn path_steps<P: Copy, E: Fn(P, P) -> bool>(
    lines: &Vec<LineSegmentCategorized<P>>,
    same: &E,
) -> (r: Vec<PathStep<P>>)
    requires
        point_comparison(*same),
    ensures
        r@ == path_steps_of(*same, lines@),
{
    let mut r: Vec<PathStep<P>> = Vec::new();
    let mut i: usize = 0;
    while i < lines.len()
        invariant
            i <= lines.len(),
            point_comparison(*same),
            r@ == path_steps_of(*same, lines@).take(i as int),
        decreases lines.len() - i,
    {
        let segment = lines[i].line_segment;
        let continues = i > 0 && same(lines[i - 1].line_segment.to, segment.from);
        if continues {
            r.push(PathStep::LineTo { to: segment.to });
        } else {
            r.push(PathStep::MoveTo { from: segment.from, to: segment.to });
        }
        i = i + 1;
        assert(r@ =~= path_steps_of(*same, lines@).take(i as int));
    }
    assert(path_steps_of(*same, lines@).take(i as int) =~= path_steps_of(*same, lines@));
    r
}

} // verus!
