use battery_chart::chart::{
    assemble_chart, build_options, color_of, resolve_y_max, try_assemble_chart, MaxStyle, Rgb,
    YStyle,
};
use battery_chart::record::{DataLine, State};
use battery_chart::segment::ChartError;

fn rec(date: i64, value: i64, state: State) -> DataLine {
    DataLine { date, value, state }
}

#[test]
fn observed_maximum_resolves_to_largest_value() {
    let data = vec![
        rec(0, 10, State::Charging),
        rec(1, 55, State::Charging),
        rec(2, 30, State::Charging),
    ];
    assert_eq!(resolve_y_max(&data, MaxStyle::Max), 55);
}

#[test]
fn constant_maximum_ignores_observed_values() {
    let data = vec![
        rec(0, 10, State::Charging),
        rec(1, 55, State::Charging),
        rec(2, 30, State::Charging),
    ];
    assert_eq!(resolve_y_max(&data, MaxStyle::Constant(100)), 100);
}

#[test]
fn observed_maximum_is_never_below_zero() {
    let data = vec![rec(0, -7, State::Discharging), rec(1, -3, State::Discharging)];
    assert_eq!(resolve_y_max(&data, MaxStyle::Max), 0);
}

#[test]
fn options_take_axis_ranges_from_records() {
    let data = vec![
        rec(100, 10, State::Charging),
        rec(200, 20, State::Discharging),
        rec(300, 15, State::Charging),
    ];
    let o = build_options(&data, String::from("Charge"), MaxStyle::Max, YStyle::Unchanged);
    assert_eq!(o.title, "Charge");
    assert_eq!(o.x_min, 100);
    assert_eq!(o.x_max, 300);
    assert_eq!(o.y_min, 0);
    assert_eq!(o.y_max, 20);
    assert_eq!(o.y_style, YStyle::Unchanged);
}

#[test]
fn mode_colors_are_fixed() {
    assert_eq!(color_of(State::Charging), Rgb { r: 0xa6, g: 0xe3, b: 0xa1 });
    assert_eq!(color_of(State::Discharging), Rgb { r: 0xf3, g: 0x8b, b: 0xa8 });
}

#[test]
fn chart_draws_discharging_runs_first_then_charging() {
    let data = vec![
        rec(0, 1, State::Charging),
        rec(1, 2, State::Charging),
        rec(2, 3, State::Discharging),
        rec(3, 4, State::Charging),
    ];
    let c = assemble_chart(&data, String::from("Rate"), MaxStyle::Constant(100), YStyle::Hours);
    assert_eq!(c.options.title, "Rate");
    assert_eq!(c.options.x_min, 0);
    assert_eq!(c.options.x_max, 3);
    assert_eq!(c.options.y_min, 0);
    assert_eq!(c.options.y_max, 100);
    assert_eq!(c.options.y_style, YStyle::Hours);
    // One discharging run, then two charging runs, in chronological order.
    assert_eq!(c.series.len(), 3);
    assert_eq!(c.series[0].color, color_of(State::Discharging));
    assert_eq!(c.series[0].points, vec![(2, 3)]);
    assert_eq!(c.series[1].color, color_of(State::Charging));
    assert_eq!(c.series[1].points, vec![(0, 1), (1, 2)]);
    assert_eq!(c.series[2].color, color_of(State::Charging));
    assert_eq!(c.series[2].points, vec![(3, 4)]);
}

#[test]
fn single_mode_chart_has_one_series() {
    let data = vec![rec(0, 1, State::Charging), rec(1, 2, State::Charging)];
    let c = assemble_chart(&data, String::from("Charge"), MaxStyle::Max, YStyle::Unchanged);
    assert_eq!(c.series.len(), 1);
    assert_eq!(c.series[0].color, color_of(State::Charging));
    assert_eq!(c.series[0].points, vec![(0, 1), (1, 2)]);
    assert_eq!(c.options.y_max, 2);
}

#[test]
fn assembling_an_empty_chart_is_rejected() {
    let data: Vec<DataLine> = Vec::new();
    match try_assemble_chart(&data, String::from("Charge"), MaxStyle::Max, YStyle::Unchanged) {
        Err(e) => assert_eq!(e, ChartError::EmptyInput),
        Ok(_) => panic!("empty input must be rejected"),
    }
}
