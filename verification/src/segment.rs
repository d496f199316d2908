//! Run segmentation: partitioning an ordered record sequence into maximal
//! contiguous runs of constant mode. Runs are index ranges into the original
//! sequence, so the records themselves are never copied or reordered.

use vstd::prelude::*;
use crate::record::{DataLine, State};

verus! {

/// Spec-level run: the half-open index range `[start, end)` of a contiguous
/// block of records that all share `state`.
pub ghost struct GRun {
    pub start: int,
    pub end: int,
    pub state: State,
}

/// Executable run: a half-open index range into the segmented record
/// sequence, together with the mode shared by every record in the range.
#[derive(Clone, Copy, Debug, PartialEq, Eq, Structural)]
pub struct Run {
    pub start: usize,
    pub end: usize,
    pub state: State,
}

impl View for Run {
    type V = GRun;

    open spec fn view(&self) -> GRun {
        GRun { start: self.start as int, end: self.end as int, state: self.state }
    }
}

/// The sequence of spec-level runs described by a sequence of executable runs.
pub open spec fn runs_view(rs: Seq<Run>) -> Seq<GRun> {
    rs.map_values(|r: Run| r@)
}

/// What it means for `runs` to be the run decomposition of `data`:
/// the runs are nonempty, contiguous, cover all of `data` in order, each is
/// constant in mode, and no two adjacent runs share a mode (maximality).
pub open spec fn wf_runs(data: Seq<DataLine>, runs: Seq<GRun>) -> bool {
    &&& runs.len() > 0
    &&& runs[0].start == 0
    &&& runs.last().end == data.len()
    &&& forall|k: int|
        0 <= k < runs.len() ==> 0 <= (#[trigger] runs[k]).start < runs[k].end <= data.len()
    &&& forall|k1: int, k2: int|
        #![trigger runs[k1], runs[k2]]
        0 <= k1 < k2 < runs.len() ==> runs[k1].end <= runs[k2].start
    &&& forall|k1: int, k2: int|
        #![trigger runs[k1], runs[k2]]
        0 <= k1 && k2 == k1 + 1 && k2 < runs.len() ==> runs[k2].start == runs[k1].end
            && runs[k2].state != runs[k1].state
    &&& forall|k: int, j: int|
        #![trigger runs[k], data[j]]
        0 <= k < runs.len() && runs[k].start <= j < runs[k].end ==> data[j].state
            == runs[k].state
}

/// The run decomposition of `data`, built one record at a time: each new
/// record either extends the final run (same mode) or opens a new run of
/// length one (mode change).
pub open spec fn spec_segment(data: Seq<DataLine>) -> Seq<GRun>
    decreases data.len(),
{
    if data.len() == 0 {
        Seq::empty()
    } else {
        let n = data.len() as int;
        let prev = spec_segment(data.drop_last());
        if n == 1 || data[n - 2].state != data[n - 1].state {
            prev.push(GRun { start: n - 1, end: n, state: data[n - 1].state })
        } else {
            prev.update(
                prev.len() - 1,
                GRun { start: prev.last().start, end: n, state: prev.last().state },
            )
        }
    }
}

/// The run decomposition really is one: `spec_segment` yields a
/// well-formed decomposition of every non-empty record sequence.
pub proof fn lemma_spec_segment_wf(data: Seq<DataLine>)
    requires
        data.len() > 0,
    ensures
        wf_runs(data, spec_segment(data)),
    decreases data.len(),
{
    let n = data.len() as int;
    let runs = spec_segment(data);
    if n == 1 {
        assert(data.drop_last().len() == 0);
        assert(spec_segment(data.drop_last()) =~= Seq::<GRun>::empty());
        assert(runs =~= seq![GRun { start: 0, end: 1, state: data[0].state }]);
    } else {
        let prev_data = data.drop_last();
        lemma_spec_segment_wf(prev_data);
        let prev = spec_segment(prev_data);
        assert(forall|j: int| 0 <= j < n - 1 ==> prev_data[j] == data[j]);
        let last = prev.last();
        assert(last.start <= n - 2 < last.end) by {
            assert(prev[prev.len() - 1].end == n - 1);
        }
        assert(data[n - 2].state == last.state) by {
            assert(prev_data[n - 2].state == prev[prev.len() - 1].state);
        }
        if data[n - 2].state != data[n - 1].state {
            let g = GRun { start: n - 1, end: n, state: data[n - 1].state };
            assert(runs == prev.push(g));
            assert(forall|k: int| 0 <= k < prev.len() ==> runs[k] == prev[k]);
            assert(runs.last() == g);
        } else {
            let g = GRun { start: last.start, end: n, state: last.state };
            assert(runs == prev.update(prev.len() - 1, g));
            assert(forall|k: int| 0 <= k < prev.len() - 1 ==> runs[k] == prev[k]);
            assert(runs.last() == g);
            assert forall|k: int, j: int|
                #![trigger runs[k], data[j]]
                0 <= k < runs.len() && runs[k].start <= j < runs[k].end implies data[j].state
                == runs[k].state by {
                if k == runs.len() - 1 && j == n - 1 {
                    assert(data[j].state == data[n - 2].state);
                } else {
                    assert(prev_data[j].state == prev[k].state);
                }
            }
        }
    }
}

/// A non-empty record sequence has exactly one run decomposition: any
/// well-formed decomposition is the one `spec_segment` yields. Segmentation
/// is therefore a function of the record sequence alone — two decompositions
/// of equal sequences are equal.
pub proof fn lemma_wf_runs_unique(data: Seq<DataLine>, runs: Seq<GRun>)
    requires
        wf_runs(data, runs),
    ensures
        runs == spec_segment(data),
    decreases data.len(),
{
    let n = data.len() as int;
    let m = runs.len() as int;
    let last = runs[m - 1];
    assert(last.end == n && last.start < last.end);
    if n == 1 {
        if m >= 2 {
            assert(runs[m - 2].end <= runs[m - 1].start);
            assert(0 <= runs[m - 2].start < runs[m - 2].end);
            assert(false);
        }
        assert(data[0].state == runs[0].state);
        assert(runs =~= seq![GRun { start: 0, end: 1, state: data[0].state }]);
        assert(data.drop_last().len() == 0);
        assert(spec_segment(data.drop_last()) =~= Seq::<GRun>::empty());
        assert(runs =~= spec_segment(data));
    } else {
        let prev_data = data.drop_last();
        assert(forall|j: int| 0 <= j < n - 1 ==> prev_data[j] == data[j]);
        if last.start == n - 1 {
            if m == 1 {
                assert(runs[0].start == 0);
                assert(false);
            }
            let prev = runs.drop_last();
            assert(forall|k: int| 0 <= k < m - 1 ==> prev[k] == runs[k]);
            assert(prev.last() == runs[m - 2]);
            assert(runs[m - 2].end == last.start && runs[m - 2].state != last.state);
            assert forall|k: int| 0 <= k < prev.len() implies 0 <= (#[trigger] prev[k]).start
                < prev[k].end <= prev_data.len() by {
                if k < m - 2 {
                    assert(runs[k].end <= runs[m - 2].start);
                    assert(0 <= runs[m - 2].start < runs[m - 2].end);
                }
            }
            assert forall|k: int, j: int|
                #![trigger prev[k], prev_data[j]]
                0 <= k < prev.len() && prev[k].start <= j < prev[k].end implies prev_data[j].state
                == prev[k].state by {
                assert(data[j].state == runs[k].state);
            }
            assert(wf_runs(prev_data, prev));
            lemma_wf_runs_unique(prev_data, prev);
            assert(runs[m - 2].start <= n - 2 < runs[m - 2].end);
            assert(data[n - 2].state == runs[m - 2].state);
            assert(data[n - 1].state == last.state);
            assert(data[n - 2].state != data[n - 1].state);
            assert(spec_segment(data) == spec_segment(prev_data).push(
                GRun { start: n - 1, end: n, state: data[n - 1].state },
            ));
            assert(runs =~= spec_segment(data));
        } else {
            assert(last.start <= n - 2 < last.end);
            assert(data[n - 2].state == last.state && data[n - 1].state == last.state);
            let shr = GRun { start: last.start, end: n - 1, state: last.state };
            let prev = runs.update(m - 1, shr);
            assert(forall|k: int| 0 <= k < m - 1 ==> prev[k] == runs[k]);
            assert(prev[m - 1] == shr && prev.last() == shr);
            assert forall|k: int, j: int|
                #![trigger prev[k], prev_data[j]]
                0 <= k < prev.len() && prev[k].start <= j < prev[k].end implies prev_data[j].state
                == prev[k].state by {
                assert(data[j].state == runs[k].state);
            }
            assert forall|k: int| 0 <= k < prev.len() implies 0 <= (#[trigger] prev[k]).start
                < prev[k].end <= prev_data.len() by {
                if k < m - 1 {
                    assert(runs[k].end <= runs[m - 1].start);
                }
            }
            assert(wf_runs(prev_data, prev));
            lemma_wf_runs_unique(prev_data, prev);
            assert(spec_segment(data) == spec_segment(prev_data).update(
                spec_segment(prev_data).len() - 1,
                GRun {
                    start: spec_segment(prev_data).last().start,
                    end: n,
                    state: spec_segment(prev_data).last().state,
                },
            ));
            assert(runs =~= spec_segment(data));
        }
    }
}

/// The record blocks that `runs` denote, concatenated in run order.
pub open spec fn concat_runs(data: Seq<DataLine>, runs: Seq<GRun>) -> Seq<DataLine>
    decreases runs.len(),
{
    if runs.len() == 0 {
        Seq::empty()
    } else {
        data.subrange(runs[0].start, runs[0].end) + concat_runs(data, runs.drop_first())
    }
}

proof fn lemma_concat_runs_window(data: Seq<DataLine>, runs: Seq<GRun>, lo: int)
    requires
        0 <= lo <= data.len(),
        runs.len() == 0 ==> lo == data.len(),
        runs.len() > 0 ==> runs[0].start == lo && runs.last().end == data.len(),
        forall|k: int|
            0 <= k < runs.len() ==> 0 <= (#[trigger] runs[k]).start < runs[k].end <= data.len(),
        forall|k1: int, k2: int|
            #![trigger runs[k1], runs[k2]]
            0 <= k1 && k2 == k1 + 1 && k2 < runs.len() ==> runs[k2].start == runs[k1].end,
    ensures
        concat_runs(data, runs) == data.subrange(lo, data.len() as int),
    decreases runs.len(),
{
    if runs.len() == 0 {
        assert(data.subrange(lo, lo) =~= Seq::<DataLine>::empty());
    } else {
        let rest = runs.drop_first();
        let hi0 = runs[0].end;
        assert(forall|k: int| 0 <= k < rest.len() ==> rest[k] == runs[k + 1]);
        if rest.len() > 0 {
            assert(rest[0] == runs[1] && runs[1].start == runs[0].end);
            assert(rest.last() == runs[runs.len() - 1]);
            assert forall|k1: int, k2: int|
                #![trigger rest[k1], rest[k2]]
                0 <= k1 && k2 == k1 + 1 && k2 < rest.len() implies rest[k2].start
                == rest[k1].end by {
                assert(runs[k1 + 1].end == runs[k2 + 1].start);
            }
        } else {
            assert(runs.last() == runs[0]);
        }
        lemma_concat_runs_window(data, rest, hi0);
        assert(data.subrange(lo, data.len() as int) =~= data.subrange(lo, hi0) + data.subrange(
            hi0,
            data.len() as int,
        ));
    }
}

/// Segmentation loses nothing and adds nothing: concatenating all runs of a
/// well-formed decomposition, in their original order, reproduces the input
/// record sequence exactly — order and content preserved, no duplication, no
/// omission.
pub proof fn lemma_concat_runs_reconstructs(data: Seq<DataLine>, runs: Seq<GRun>)
    requires
        wf_runs(data, runs),
    ensures
        concat_runs(data, runs) == data,
{
    lemma_concat_runs_window(data, runs, 0);
    assert(data.subrange(0, data.len() as int) =~= data);
}

/// Segmenting is idempotent: segmenting the sequence reassembled from a
/// well-formed decomposition (an order-preserving rebuild of the input)
/// yields that same decomposition again.
pub proof fn lemma_segment_idempotent(data: Seq<DataLine>, runs: Seq<GRun>)
    requires
        wf_runs(data, runs),
    ensures
        spec_segment(concat_runs(data, runs)) == runs,
{
    lemma_concat_runs_reconstructs(data, runs);
    lemma_wf_runs_unique(data, runs);
}

/// Finds the run of a well-formed decomposition that contains record index
/// `j`, walking forward from run `k`.
proof fn lemma_cover_from(data: Seq<DataLine>, runs: Seq<GRun>, j: int, k: int) -> (r: int)
    requires
        wf_runs(data, runs),
        0 <= k < runs.len(),
        runs[k].start <= j < data.len(),
    ensures
        0 <= r < runs.len(),
        runs[r].start <= j < runs[r].end,
    decreases runs.len() - k,
{
    if j < runs[k].end {
        k
    } else {
        assert(k < runs.len() - 1) by {
            if k == runs.len() - 1 {
                assert(runs[k].end == data.len());
            }
        }
        assert(runs[k + 1].start == runs[k].end);
        lemma_cover_from(data, runs, j, k + 1)
    }
}

/// A maximal same-mode contiguous span of the input: every record in
/// `[s, e)` shares the mode of `data[s]`, and the span can be extended in
/// neither direction.
pub open spec fn is_maximal_span(data: Seq<DataLine>, s: int, e: int) -> bool {
    &&& 0 <= s < e <= data.len()
    &&& forall|j: int| s <= j < e ==> (#[trigger] data[j]).state == data[s].state
    &&& (s == 0 || data[s - 1].state != data[s].state)
    &&& (e == data.len() || data[e].state != data[s].state)
}

/// Run maximality, both directions: every run of a well-formed decomposition
/// is a maximal same-mode span of the input, and every maximal same-mode span
/// of the input appears among the runs — exactly once, as the runs are
/// pairwise distinct.
pub proof fn lemma_run_maximality(data: Seq<DataLine>, runs: Seq<GRun>)
    requires
        wf_runs(data, runs),
    ensures
        forall|k: int|
            0 <= k < runs.len() ==> is_maximal_span(
                data,
                (#[trigger] runs[k]).start,
                runs[k].end,
            ),
        forall|s: int, e: int|
            is_maximal_span(data, s, e) ==> #[trigger] runs.contains(
                GRun { start: s, end: e, state: data[s].state },
            ),
        forall|k1: int, k2: int|
            #![trigger runs[k1], runs[k2]]
            0 <= k1 < k2 < runs.len() ==> runs[k1] != runs[k2],
{
    assert forall|k1: int, k2: int|
        #![trigger runs[k1], runs[k2]]
        0 <= k1 < k2 < runs.len() implies runs[k1] != runs[k2] by {
        assert(runs[k1].end <= runs[k2].start && runs[k2].start < runs[k2].end);
    }
    let m = runs.len() as int;
    assert forall|k: int| 0 <= k < m implies is_maximal_span(
        data,
        (#[trigger] runs[k]).start,
        runs[k].end,
    ) by {
        let s = runs[k].start;
        let e = runs[k].end;
        assert(data[s].state == runs[k].state);
        if k > 0 {
            assert(runs[k - 1].end == s && runs[k - 1].state != runs[k].state);
            assert(0 <= runs[k - 1].start < runs[k - 1].end);
            assert(data[s - 1].state == runs[k - 1].state);
        }
        if k < m - 1 {
            assert(runs[k + 1].start == e && runs[k + 1].state != runs[k].state);
            assert(runs[k + 1].start < runs[k + 1].end);
            assert(data[e].state == runs[k + 1].state);
        } else {
            assert(runs.last() == runs[k]);
        }
    }
    assert forall|s: int, e: int| is_maximal_span(data, s, e) implies #[trigger] runs.contains(
        GRun { start: s, end: e, state: data[s].state },
    ) by {
        assert(runs[0].start == 0 <= s);
        let k = lemma_cover_from(data, runs, s, 0);
        assert(data[s].state == runs[k].state);
        if runs[k].start < s {
            assert(runs[k].start <= s - 1 < runs[k].end);
            assert(data[s - 1].state == runs[k].state);
            assert(false);
        }
        if runs[k].end < e {
            assert(k < m - 1) by {
                if k == m - 1 {
                    assert(runs[k].end == data.len());
                }
            }
            assert(runs[k + 1].start == runs[k].end && runs[k + 1].state != runs[k].state);
            assert(runs[k + 1].start < runs[k + 1].end);
            assert(s <= runs[k].end < e);
            assert(data[runs[k].end].state == data[s].state);
            assert(data[runs[k].end].state == runs[k + 1].state);
            assert(false);
        }
        if runs[k].end > e {
            assert(runs[k].start <= e < runs[k].end);
            assert(data[e].state == runs[k].state);
            assert(e < data.len());
            assert(data[e].state != data[s].state);
            assert(false);
        }
        assert(runs[k] == GRun { start: s, end: e, state: data[s].state });
    }
}

/// Partitions `data` into maximal runs of constant mode, scanning once and
/// recording only index ranges. Returns exactly the run decomposition that
/// `spec_segment` describes.
pub fn segment(data: &Vec<DataLine>) -> (runs: Vec<Run>)
    requires
        data@.len() > 0,
    ensures
        runs_view(runs@) == spec_segment(data@),
        wf_runs(data@, runs_view(runs@)),
{
    let n = data.len();
    let mut closed: Vec<Run> = Vec::new();
    let mut start: usize = 0;
    let mut state: State = data[0].state;
    let mut i: usize = 1;
    proof {
        assert(data@.take(1).drop_last() =~= Seq::<DataLine>::empty());
        assert(spec_segment(Seq::<DataLine>::empty()) =~= Seq::<GRun>::empty());
        assert(runs_view(closed@) =~= Seq::<GRun>::empty());
        assert(spec_segment(data@.take(1)) =~= runs_view(closed@).push(
            GRun { start: 0, end: 1, state: data@[0].state },
        ));
    }
    while i < n
        invariant
            1 <= i <= n,
            n == data@.len(),
            start < i,
            state == data@[i - 1].state,
            spec_segment(data@.take(i as int)) == runs_view(closed@).push(
                GRun { start: start as int, end: i as int, state: state },
            ),
        decreases n - i,
    {
        let ghost pre = data@.take(i as int);
        let ghost post = data@.take(i as int + 1);
        proof {
            assert(post.drop_last() =~= pre);
            assert(post.last() == data@[i as int]);
        }
        if data[i].state != state {
            let ghost old_closed = closed@;
            closed.push(Run { start, end: i, state });
            proof {
                assert(runs_view(closed@) =~= runs_view(old_closed).push(
                    GRun { start: start as int, end: i as int, state: state },
                ));
                assert(spec_segment(post) == spec_segment(pre).push(
                    GRun { start: i as int, end: i as int + 1, state: data@[i as int].state },
                ));
            }
            start = i;
            state = data[i].state;
        } else {
            proof {
                let prev = spec_segment(pre);
                assert(spec_segment(post) == prev.update(
                    prev.len() - 1,
                    GRun { start: prev.last().start, end: i as int + 1, state: prev.last().state },
                ));
                assert(prev.last() == GRun { start: start as int, end: i as int, state: state });
                assert(prev.update(
                    prev.len() - 1,
                    GRun { start: start as int, end: i as int + 1, state: state },
                ) =~= runs_view(closed@).push(
                    GRun { start: start as int, end: i as int + 1, state: state },
                ));
            }
        }
        i = i + 1;
    }
    let ghost old_closed = closed@;
    closed.push(Run { start, end: n, state });
    proof {
        assert(data@.take(n as int) =~= data@);
        assert(runs_view(closed@) =~= runs_view(old_closed).push(
            GRun { start: start as int, end: n as int, state: state },
        ));
        lemma_spec_segment_wf(data@);
    }
    closed
}

/// The runs among `runs` whose mode is `st`, in their original order.
pub open spec fn filter_state(runs: Seq<GRun>, st: State) -> Seq<GRun> {
    runs.filter(|g: GRun| g.state == st)
}

proof fn lemma_filter_state_push(runs: Seq<GRun>, g: GRun, st: State)
    ensures
        filter_state(runs.push(g), st) == if g.state == st {
            filter_state(runs, st).push(g)
        } else {
            filter_state(runs, st)
        },
{
    reveal(Seq::filter);
    assert(runs.push(g).drop_last() =~= runs);
    assert(runs.push(g).last() == g);
}

/// The two modes partition any run sequence: every run lands in exactly one
/// of the two per-mode collections, so together they hold the whole run
/// decomposition.
pub proof fn lemma_modes_partition_runs(runs: Seq<GRun>)
    ensures
        filter_state(runs, State::Charging).len() + filter_state(runs, State::Discharging).len()
            == runs.len(),
    decreases runs.len(),
{
    reveal(Seq::filter);
    if runs.len() > 0 {
        lemma_modes_partition_runs(runs.drop_last());
    }
}

/// Every run in `rs` is a nonempty index range that lies inside a record
/// sequence of length `len`.
pub open spec fn runs_in_bounds(rs: Seq<Run>, len: int) -> bool {
    forall|k: int| 0 <= k < rs.len() ==> (#[trigger] rs[k]).start < rs[k].end <= len
}

/// The segmenter's output: the runs of each mode, each collection keeping
/// the chronological order in which its runs occur in the input.
pub struct SlicedData {
    pub charging: Vec<Run>,
    pub discharging: Vec<Run>,
}

/// Pipeline precondition violations.
#[derive(Clone, Copy, Debug, PartialEq, Eq, Structural)]
pub enum ChartError {
    /// The record sequence was empty; segmentation and charting need at
    /// least one record.
    EmptyInput,
}

/// Segments `data` and sorts the resulting runs into one collection per
/// mode, each in chronological order. Together the two collections hold the
/// whole run decomposition of `data`.
pub fn split_slices(data: &Vec<DataLine>) -> (r: SlicedData)
    requires
        data@.len() > 0,
    ensures
        runs_view(r.charging@) == filter_state(spec_segment(data@), State::Charging),
        runs_view(r.discharging@) == filter_state(spec_segment(data@), State::Discharging),
        runs_in_bounds(r.charging@, data@.len() as int),
        runs_in_bounds(r.discharging@, data@.len() as int),
{
    let runs = segment(data);
    let ghost all = runs_view(runs@);
    let mut charging: Vec<Run> = Vec::new();
    let mut discharging: Vec<Run> = Vec::new();
    let n = runs.len();
    let mut i: usize = 0;
    proof {
        reveal(Seq::filter);
        assert(all.take(0) =~= Seq::<GRun>::empty());
        assert(filter_state(Seq::<GRun>::empty(), State::Charging) =~= Seq::<GRun>::empty());
        assert(filter_state(Seq::<GRun>::empty(), State::Discharging) =~= Seq::<GRun>::empty());
        assert(runs_view(charging@) =~= Seq::<GRun>::empty());
        assert(runs_view(discharging@) =~= Seq::<GRun>::empty());
    }
    while i < n
        invariant
            0 <= i <= n,
            n == runs@.len(),
            all == runs_view(runs@),
            wf_runs(data@, all),
            runs_view(charging@) == filter_state(all.take(i as int), State::Charging),
            runs_view(discharging@) == filter_state(all.take(i as int), State::Discharging),
            runs_in_bounds(charging@, data@.len() as int),
            runs_in_bounds(discharging@, data@.len() as int),
        decreases n - i,
    {
        let run = runs[i];
        proof {
            assert(run@ == all[i as int]);
            assert(all.take(i as int + 1) =~= all.take(i as int).push(all[i as int]));
            lemma_filter_state_push(all.take(i as int), all[i as int], State::Charging);
            lemma_filter_state_push(all.take(i as int), all[i as int], State::Discharging);
            assert(0 <= all[i as int].start < all[i as int].end <= data@.len());
        }
        match run.state {
            State::Charging => {
                let ghost old_c = charging@;
                charging.push(run);
                proof {
                    assert(runs_view(charging@) =~= runs_view(old_c).push(run@));
                }
            },
            State::Discharging => {
                let ghost old_d = discharging@;
                discharging.push(run);
                proof {
                    assert(runs_view(discharging@) =~= runs_view(old_d).push(run@));
                }
            },
        }
        i = i + 1;
    }
    proof {
        assert(all.take(n as int) =~= all);
    }
    SlicedData { charging, discharging }
}

/// Checked entry point to the segmenter: rejects an empty record sequence
/// with an explicit error instead of silently returning an empty run set,
/// and otherwise behaves exactly as `split_slices`.
pub fn try_split_slices(data: &Vec<DataLine>) -> (r: Result<SlicedData, ChartError>)
    ensures
        r is Err <==> data@.len() == 0,
        r is Err ==> r->Err_0 == ChartError::EmptyInput,
        r is Ok ==> {
            let s = r->Ok_0;
            &&& runs_view(s.charging@) == filter_state(spec_segment(data@), State::Charging)
            &&& runs_view(s.discharging@) == filter_state(spec_segment(data@), State::Discharging)
            &&& runs_in_bounds(s.charging@, data@.len() as int)
            &&& runs_in_bounds(s.discharging@, data@.len() as int)
        },
{
    if data.len() == 0 {
        Err(ChartError::EmptyInput)
    } else {
        Ok(split_slices(data))
    }
}

} // verus!
