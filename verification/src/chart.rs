//! Chart assembly: resolving axis ranges from the records and the caller's
//! display policies, and turning each run into a colored drawable series,
//! ready to hand to a rendering backend.

use vstd::prelude::*;
use crate::record::{DataLine, State};
use crate::segment::{
    filter_state, runs_in_bounds, runs_view, spec_segment, split_slices, ChartError, GRun, Run,
};

verus! {

/// Policy for the chart's upper y-axis bound: the maximum value observed
/// across the records (never below zero), or a fixed constant.
#[derive(Clone, Copy, Debug, PartialEq, Eq, Structural)]
pub enum MaxStyle {
    Max,
    Constant(i64),
}

/// Policy for rendering y-axis tick labels: the numeric value unchanged, or
/// the value read as a count of seconds and rendered as hours and minutes.
#[derive(Clone, Copy, Debug, PartialEq, Eq, Structural)]
pub enum YStyle {
    Unchanged,
    Hours,
}

/// A display color, one byte per channel.
#[derive(Clone, Copy, Debug, PartialEq, Eq, Structural)]
pub struct Rgb {
    pub r: u8,
    pub g: u8,
    pub b: u8,
}

/// The fixed color of each mode: green for charging, red for discharging.
pub open spec fn spec_color(st: State) -> Rgb {
    match st {
        State::Charging => Rgb { r: 0xa6, g: 0xe3, b: 0xa1 },
        State::Discharging => Rgb { r: 0xf3, g: 0x8b, b: 0xa8 },
    }
}

/// Maps a mode to its display color.
pub fn color_of(st: State) -> (c: Rgb)
    ensures
        c == spec_color(st),
{
    match st {
        State::Charging => Rgb { r: 0xa6, g: 0xe3, b: 0xa1 },
        State::Discharging => Rgb { r: 0xf3, g: 0x8b, b: 0xa8 },
    }
}

/// The maximum value observed across the records, never below zero.
pub open spec fn spec_observed_max(data: Seq<DataLine>) -> int
    decreases data.len(),
{
    if data.len() == 0 {
        0
    } else {
        let m = spec_observed_max(data.drop_last());
        if data.last().value > m {
            data.last().value as int
        } else {
            m
        }
    }
}

/// The resolved upper y-axis bound under the given policy.
pub open spec fn spec_y_max(data: Seq<DataLine>, style: MaxStyle) -> int {
    match style {
        MaxStyle::Constant(c) => c as int,
        MaxStyle::Max => spec_observed_max(data),
    }
}

/// Resolves the upper y-axis bound: the given constant regardless of the
/// records, or the maximum value observed across all of them (at least zero).
pub fn resolve_y_max(data: &Vec<DataLine>, style: MaxStyle) -> (m: i64)
    ensures
        m as int == spec_y_max(data@, style),
{
    match style {
        MaxStyle::Constant(c) => c,
        MaxStyle::Max => {
            let mut m: i64 = 0;
            let mut i: usize = 0;
            proof {
                assert(data@.take(0) =~= Seq::<DataLine>::empty());
            }
            while i < data.len()
                invariant
                    0 <= i <= data@.len(),
                    m as int == spec_observed_max(data@.take(i as int)),
                decreases data@.len() - i,
            {
                proof {
                    assert(data@.take(i as int + 1).drop_last() =~= data@.take(i as int));
                    assert(data@.take(i as int + 1).last() == data@[i as int]);
                }
                if data[i].value > m {
                    m = data[i].value;
                }
                i = i + 1;
            }
            proof {
                assert(data@.take(data@.len() as int) =~= data@);
            }
            m
        },
    }
}

/// Resolved display configuration for one chart: the title, the x-axis range
/// taken from the first and last record's timestamps, the y-axis range from
/// zero up to the resolved bound, and the tick-label style.
#[derive(Clone, Debug)]
pub struct ChartOptions {
    pub title: String,
    pub x_min: i64,
    pub x_max: i64,
    pub y_min: i64,
    pub y_max: i64,
    pub y_style: YStyle,
}

/// Builds the chart options for a non-empty, time-ordered record sequence.
pub fn build_options(
    data: &Vec<DataLine>,
    title: String,
    max_style: MaxStyle,
    y_style: YStyle,
) -> (o: ChartOptions)
    requires
        data@.len() > 0,
    ensures
        o.title@ == title@,
        o.x_min == data@[0].date,
        o.x_max == data@.last().date,
        o.y_min == 0,
        o.y_max as int == spec_y_max(data@, max_style),
        o.y_style == y_style,
{
    let y_max = resolve_y_max(data, max_style);
    let x_max = data[data.len() - 1].date;
    ChartOptions { title, x_min: data[0].date, x_max, y_min: 0, y_max, y_style }
}

/// The `(timestamp, value)` points of the records that run `g` covers, in
/// record order.
pub open spec fn spec_points(data: Seq<DataLine>, g: GRun) -> Seq<(i64, i64)> {
    data.subrange(g.start, g.end).map_values(|d: DataLine| (d.date, d.value))
}

/// A drawable polyline: one run's points, in record order, in the color of
/// the run's mode.
#[derive(Clone, Debug)]
pub struct Series {
    pub color: Rgb,
    pub points: Vec<(i64, i64)>,
}

/// Copies the points of one run out of the record sequence.
fn run_points(data: &Vec<DataLine>, run: &Run) -> (p: Vec<(i64, i64)>)
    requires
        run.start <= run.end,
        run.end <= data@.len(),
    ensures
        p@ == spec_points(data@, run@),
{
    let mut p: Vec<(i64, i64)> = Vec::new();
    let mut j: usize = run.start;
    proof {
        assert(p@ =~= spec_points(
            data@,
            GRun { start: run@.start, end: run@.start, state: run@.state },
        ));
    }
    while j < run.end
        invariant
            run.start <= j <= run.end,
            run.end <= data@.len(),
            p@ == spec_points(data@, GRun { start: run@.start, end: j as int, state: run@.state }),
        decreases run.end - j,
    {
        let ghost old_p = p@;
        p.push((data[j].date, data[j].value));
        proof {
            assert(p@ =~= spec_points(
                data@,
                GRun { start: run@.start, end: j as int + 1, state: run@.state },
            ));
        }
        j = j + 1;
    }
    p
}

/// A fully assembled chart: resolved options plus one colored series per
/// run — all discharging runs first, then all charging runs, each group in
/// its chronological order.
#[derive(Clone, Debug)]
pub struct ChartSpec {
    pub options: ChartOptions,
    pub series: Vec<Series>,
}

/// Everything chart assembly promises of its output for the given input:
/// the resolved options, and one series per run of the decomposition —
/// discharging first, then charging, each in order, each series carrying its
/// run's points and its mode's color.
pub open spec fn chart_ok(
    data: Seq<DataLine>,
    title: Seq<char>,
    max_style: MaxStyle,
    y_style: YStyle,
    c: ChartSpec,
) -> bool {
    &&& c.options.title@ == title
    &&& c.options.x_min == data[0].date
    &&& c.options.x_max == data.last().date
    &&& c.options.y_min == 0
    &&& c.options.y_max as int == spec_y_max(data, max_style)
    &&& c.options.y_style == y_style
    &&& {
        let d = filter_state(spec_segment(data), State::Discharging);
        let g = filter_state(spec_segment(data), State::Charging);
        &&& c.series@.len() == d.len() + g.len()
        &&& forall|i: int|
            0 <= i < d.len() ==> (#[trigger] c.series@[i]).color == spec_color(
                State::Discharging,
            ) && c.series@[i].points@ == spec_points(data, d[i])
        &&& forall|i: int|
            0 <= i < g.len() ==> (#[trigger] c.series@[d.len() + i]).color == spec_color(
                State::Charging,
            ) && c.series@[d.len() + i].points@ == spec_points(data, g[i])
    }
}

/// Assembles the chart for a non-empty, time-ordered record sequence:
/// resolves the axis ranges and label style, segments the records, and
/// produces one colored series per run.
pub fn assemble_chart(
    data: &Vec<DataLine>,
    title: String,
    max_style: MaxStyle,
    y_style: YStyle,
) -> (c: ChartSpec)
    requires
        data@.len() > 0,
    ensures
        chart_ok(data@, title@, max_style, y_style, c),
{
    let options = build_options(data, title, max_style, y_style);
    let sliced = split_slices(data);
    let ghost druns = filter_state(spec_segment(data@), State::Discharging);
    let ghost gruns = filter_state(spec_segment(data@), State::Charging);
    let mut series: Vec<Series> = Vec::new();
    let red = color_of(State::Discharging);
    let green = color_of(State::Charging);
    let nd = sliced.discharging.len();
    let mut i: usize = 0;
    while i < nd
        invariant
            0 <= i <= nd,
            nd == sliced.discharging@.len(),
            runs_view(sliced.discharging@) == druns,
            runs_in_bounds(sliced.discharging@, data@.len() as int),
            red == spec_color(State::Discharging),
            series@.len() == i,
            forall|k: int|
                0 <= k < i ==> (#[trigger] series@[k]).color == spec_color(State::Discharging)
                    && series@[k].points@ == spec_points(data@, druns[k]),
        decreases nd - i,
    {
        let run = sliced.discharging[i];
        proof {
            assert(runs_view(sliced.discharging@)[i as int] == run@);
            assert(sliced.discharging@[i as int].start < sliced.discharging@[i as int].end);
        }
        let p = run_points(data, &run);
        series.push(Series { color: red, points: p });
        i = i + 1;
    }
    let ng = sliced.charging.len();
    let mut j: usize = 0;
    while j < ng
        invariant
            0 <= j <= ng,
            nd == sliced.discharging@.len(),
            ng == sliced.charging@.len(),
            runs_view(sliced.charging@) == gruns,
            runs_in_bounds(sliced.charging@, data@.len() as int),
            green == spec_color(State::Charging),
            series@.len() == nd + j,
            nd == druns.len(),
            forall|k: int|
                0 <= k < nd ==> (#[trigger] series@[k]).color == spec_color(State::Discharging)
                    && series@[k].points@ == spec_points(data@, druns[k]),
            forall|k: int|
                0 <= k < j ==> (#[trigger] series@[nd + k]).color == spec_color(State::Charging)
                    && series@[nd + k].points@ == spec_points(data@, gruns[k]),
        decreases ng - j,
    {
        let run = sliced.charging[j];
        proof {
            assert(runs_view(sliced.charging@)[j as int] == run@);
            assert(sliced.charging@[j as int].start < sliced.charging@[j as int].end);
        }
        let p = run_points(data, &run);
        series.push(Series { color: green, points: p });
        j = j + 1;
    }
    ChartSpec { options, series }
}

/// Checked entry point to chart assembly: rejects an empty record sequence
/// with an explicit error, and otherwise behaves exactly as `assemble_chart`.
pub fn try_assemble_chart(
    data: &Vec<DataLine>,
    title: String,
    max_style: MaxStyle,
    y_style: YStyle,
) -> (r: Result<ChartSpec, ChartError>)
    ensures
        r is Err <==> data@.len() == 0,
        r is Err ==> r->Err_0 == ChartError::EmptyInput,
        r is Ok ==> chart_ok(data@, title@, max_style, y_style, r->Ok_0),
{
    if data.len() == 0 {
        Err(ChartError::EmptyInput)
    } else {
        Ok(assemble_chart(data, title, max_style, y_style))
    }
}

} // verus!
