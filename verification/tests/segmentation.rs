use battery_chart::record::{filter_after_time, DataLine, State};
use battery_chart::segment::{segment, split_slices, try_split_slices, ChartError, Run};

fn rec(date: i64, value: i64, state: State) -> DataLine {
    DataLine { date, value, state }
}

#[test]
fn single_mode_one_run() {
    let data = vec![
        rec(0, 1, State::Charging),
        rec(1, 2, State::Charging),
        rec(2, 3, State::Charging),
    ];
    let sliced = split_slices(&data);
    assert_eq!(sliced.charging.len(), 1);
    assert_eq!(sliced.discharging.len(), 0);
    assert_eq!(sliced.charging[0], Run { start: 0, end: 3, state: State::Charging });
}

#[test]
fn full_alternation_unit_runs() {
    let data = vec![
        rec(0, 1, State::Charging),
        rec(1, 2, State::Discharging),
        rec(2, 3, State::Charging),
    ];
    let sliced = split_slices(&data);
    assert_eq!(sliced.charging.len(), 2);
    assert_eq!(sliced.discharging.len(), 1);
    assert_eq!(sliced.charging[0], Run { start: 0, end: 1, state: State::Charging });
    assert_eq!(sliced.charging[1], Run { start: 2, end: 3, state: State::Charging });
    assert_eq!(sliced.discharging[0], Run { start: 1, end: 2, state: State::Discharging });
}

#[test]
fn concatenating_runs_reproduces_input() {
    let data = vec![
        rec(10, 5, State::Discharging),
        rec(11, 4, State::Discharging),
        rec(12, 6, State::Charging),
        rec(13, 7, State::Charging),
        rec(14, 2, State::Discharging),
        rec(15, 9, State::Charging),
    ];
    let runs = segment(&data);
    let mut rebuilt: Vec<DataLine> = Vec::new();
    for run in &runs {
        for j in run.start..run.end {
            rebuilt.push(data[j]);
        }
    }
    assert_eq!(rebuilt, data);
}

#[test]
fn runs_are_maximal_and_contiguous() {
    let data = vec![
        rec(0, 1, State::Discharging),
        rec(1, 2, State::Discharging),
        rec(2, 3, State::Charging),
        rec(3, 4, State::Discharging),
        rec(4, 5, State::Discharging),
        rec(5, 6, State::Discharging),
    ];
    let runs = segment(&data);
    assert_eq!(runs.len(), 3);
    assert_eq!(runs[0].start, 0);
    assert_eq!(runs[runs.len() - 1].end, data.len());
    for k in 1..runs.len() {
        assert_eq!(runs[k].start, runs[k - 1].end);
        assert_ne!(runs[k].state, runs[k - 1].state);
    }
    for run in &runs {
        for j in run.start..run.end {
            assert_eq!(data[j].state, run.state);
        }
    }
}

#[test]
fn segmenting_twice_gives_same_runs() {
    let data = vec![
        rec(0, 1, State::Charging),
        rec(1, 2, State::Charging),
        rec(2, 3, State::Discharging),
        rec(3, 4, State::Charging),
    ];
    // An order-preserving rebuild of the input is segmented identically.
    let once = segment(&data);
    let rebuilt: Vec<DataLine> = data.clone();
    let twice = segment(&rebuilt);
    assert_eq!(once, twice);
    let s1 = split_slices(&data);
    let s2 = split_slices(&rebuilt);
    assert_eq!(s1.charging, s2.charging);
    assert_eq!(s1.discharging, s2.discharging);
}

#[test]
fn empty_input_is_rejected() {
    let data: Vec<DataLine> = Vec::new();
    match try_split_slices(&data) {
        Err(e) => assert_eq!(e, ChartError::EmptyInput),
        Ok(_) => panic!("empty input must be rejected"),
    }
}

#[test]
fn non_empty_input_is_accepted() {
    let data = vec![rec(0, 1, State::Discharging)];
    let sliced = try_split_slices(&data).unwrap();
    assert_eq!(sliced.discharging.len(), 1);
    assert_eq!(sliced.discharging[0], Run { start: 0, end: 1, state: State::Discharging });
    assert_eq!(sliced.charging.len(), 0);
}

#[test]
fn filter_drops_only_leading_old_records() {
    let data = vec![
        rec(0, 1, State::Charging),
        rec(5, 2, State::Charging),
        rec(10, 3, State::Discharging),
        rec(7, 4, State::Charging),
    ];
    let kept = filter_after_time(&data, 10);
    // The first record at or after the cutoff opens the kept suffix; a later
    // record older than the cutoff stays.
    assert_eq!(kept, vec![rec(10, 3, State::Discharging), rec(7, 4, State::Charging)]);
}

#[test]
fn filter_keeps_everything_when_cutoff_is_early() {
    let data = vec![rec(3, 1, State::Charging), rec(4, 2, State::Discharging)];
    let kept = filter_after_time(&data, 3);
    assert_eq!(kept, data);
}

#[test]
fn filter_can_drop_everything() {
    let data = vec![rec(3, 1, State::Charging), rec(4, 2, State::Discharging)];
    let kept = filter_after_time(&data, 100);
    assert_eq!(kept, Vec::new());
}
