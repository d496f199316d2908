//! Input records: a timestamped sample tagged with a charging mode, and the
//! time-window filter applied to a sequence of such records.

use vstd::prelude::*;

verus! {

/// The categorical mode of a sample: the battery is either charging or
/// discharging. The mode drives both run segmentation and display color.
#[derive(Clone, Copy, Debug, PartialEq, Eq, Structural)]
pub enum State {
    Charging,
    Discharging,
}

/// One sample of the time series: a timestamp (seconds since the epoch),
/// a numeric value (in caller-chosen integer units), and a mode tag.
/// The pipeline assumes records are already ordered by ascending timestamp.
#[derive(Clone, Copy, Debug, PartialEq, Eq, Structural)]
pub struct DataLine {
    pub date: i64,
    pub value: i64,
    pub state: State,
}

/// The suffix of `data` that remains after dropping every leading record
/// whose timestamp is strictly before `remove_before`.
pub open spec fn spec_drop_before(data: Seq<DataLine>, remove_before: i64) -> Seq<DataLine>
    decreases data.len(),
{
    if data.len() == 0 {
        data
    } else if data[0].date >= remove_before {
        data
    } else {
        spec_drop_before(data.drop_first(), remove_before)
    }
}

/// Drops the leading records older than `remove_before`; the first kept
/// record and everything after it (even if older) is returned unchanged.
pub fn filter_after_time(data: &Vec<DataLine>, remove_before: i64) -> (r: Vec<DataLine>)
    ensures
        r@ == spec_drop_before(data@, remove_before),
{
    let n = data.len();
    let mut i: usize = 0;
    proof {
        assert(data@.skip(0) =~= data@);
    }
    while i < n && data[i].date < remove_before
        invariant
            0 <= i <= n,
            n == data@.len(),
            spec_drop_before(data@, remove_before) == spec_drop_before(
                data@.skip(i as int),
                remove_before,
            ),
        decreases n - i,
    {
        proof {
            assert(data@.skip(i as int)[0] == data@[i as int]);
            assert(data@.skip(i as int).drop_first() =~= data@.skip(i as int + 1));
        }
        i = i + 1;
    }
    let mut r: Vec<DataLine> = Vec::new();
    let mut j: usize = i;
    while j < n
        invariant
            i <= j <= n,
            n == data@.len(),
            r@ =~= data@.subrange(i as int, j as int),
        decreases n - j,
    {
        r.push(data[j]);
        j = j + 1;
    }
    proof {
        if i < n {
            assert(data@.skip(i as int)[0] == data@[i as int]);
        }
        assert(data@.skip(i as int) =~= data@.subrange(i as int, n as int));
    }
    r
}

} // verus!
