//! Zone maps: statistics per SSTable, with which whole files are skipped when a
//! query asks for a range of time.

use vstd::prelude::*;

verus! {

/// Statistics of one column; the two values are JSON texts.
#[derive(Debug)]
pub struct ColumnStats {
    pub min_value: Option<String>,
    pub max_value: Option<String>,
    pub null_count: u64,
    pub row_count: u64,
}

/// Column statistics as mathematical values.
pub struct ColumnStatsModel {
    pub min_value: Option<Seq<char>>,
    pub max_value: Option<Seq<char>>,
    pub null_count: u64,
    pub row_count: u64,
}

/// An optional text as a mathematical value.
pub open spec fn opt_text(s: Option<String>) -> Option<Seq<char>> {
    match s {
        Some(t) => Some(t@),
        None => None,
    }
}

impl View for ColumnStats {
    type V = ColumnStatsModel;

    open spec fn view(&self) -> ColumnStatsModel {
        ColumnStatsModel {
            min_value: opt_text(self.min_value),
            max_value: opt_text(self.max_value),
            null_count: self.null_count,
            row_count: self.row_count,
        }
    }
}

impl ColumnStats {
    /// A copy of these statistics.
    pub fn duplicate(&self) -> (out: ColumnStats)
        ensures
            out@ == self@,
    {
        ColumnStats {
            min_value: match &self.min_value {
                Some(t) => Some(t.clone()),
                None => None,
            },
            max_value: match &self.max_value {
                Some(t) => Some(t.clone()),
                None => None,
            },
            null_count: self.null_count,
            row_count: self.row_count,
        }
    }
}

/// The time range and the number of rows of an SSTable, and statistics of columns by
/// name. Before the first row the range is empty: its minimum is above its maximum.
#[derive(Debug)]
pub struct ZoneMap {
    pub min_timestamp_ns: u64,
    pub max_timestamp_ns: u64,
    pub row_count: u64,
    pub columns: Vec<(String, ColumnStats)>,
}

/// A zone map as mathematical values.
pub struct ZoneModel {
    pub min_timestamp_ns: u64,
    pub max_timestamp_ns: u64,
    pub row_count: u64,
    pub columns: Seq<(Seq<char>, ColumnStatsModel)>,
}

/// The zone map of no rows.
pub open spec fn empty_zone() -> ZoneModel {
    ZoneModel {
        min_timestamp_ns: u64::MAX,
        max_timestamp_ns: 0,
        row_count: 0,
        columns: Seq::empty(),
    }
}

/// A zone map after one more row with the given timestamp.
pub open spec fn observe(z: ZoneModel, ts: u64) -> ZoneModel {
    ZoneModel {
        min_timestamp_ns: if ts < z.min_timestamp_ns {
            ts
        } else {
            z.min_timestamp_ns
        },
        max_timestamp_ns: if ts > z.max_timestamp_ns {
            ts
        } else {
            z.max_timestamp_ns
        },
        row_count: (z.row_count + 1) as u64,
        columns: z.columns,
    }
}

/// The zone map of rows with the given timestamps.
pub open spec fn zone_of(timestamps: Seq<u64>) -> ZoneModel
    decreases timestamps.len(),
{
    if timestamps.len() == 0 {
        empty_zone()
    } else {
        observe(zone_of(timestamps.drop_last()), timestamps.last())
    }
}

/// Whether the range of a zone map meets the closed range from `start` to `end`.
pub open spec fn zone_overlaps(z: ZoneModel, start: u64, end: u64) -> bool {
    z.min_timestamp_ns <= end && start <= z.max_timestamp_ns
}

impl View for ZoneMap {
    type V = ZoneModel;

    open spec fn view(&self) -> ZoneModel {
        ZoneModel {
            min_timestamp_ns: self.min_timestamp_ns,
            max_timestamp_ns: self.max_timestamp_ns,
            row_count: self.row_count,
            columns: self.columns@.map_values(|c: (String, ColumnStats)| (c.0@, c.1@)),
        }
    }
}

impl ZoneMap {
    /// The zone map of no rows.
    pub fn new() -> (z: ZoneMap)
        ensures
            z@ == empty_zone(),
    {
        let z = ZoneMap {
            min_timestamp_ns: u64::MAX,
            max_timestamp_ns: 0,
            row_count: 0,
            columns: Vec::new(),
        };
        assert(z@.columns =~= Seq::empty());
        z
    }

    /// Extends the time range to a row's timestamp, and counts the row.
    pub fn observe_timestamp(&mut self, ts_ns: u64)
        requires
            old(self).row_count < u64::MAX,
        ensures
            final(self)@ == observe(old(self)@, ts_ns),
    {
        if ts_ns < self.min_timestamp_ns {
            self.min_timestamp_ns = ts_ns;
        }
        if ts_ns > self.max_timestamp_ns {
            self.max_timestamp_ns = ts_ns;
        }
        self.row_count = self.row_count + 1;
    }

    /// Whether the time range meets the closed range from `start_ns` to `end_ns`.
    pub fn overlaps_time_range(&self, start_ns: u64, end_ns: u64) -> (yes: bool)
        ensures
            yes == zone_overlaps(self@, start_ns, end_ns),
    {
        self.min_timestamp_ns <= end_ns && self.max_timestamp_ns >= start_ns
    }

    /// A copy of this zone map.
    pub fn duplicate(&self) -> (out: ZoneMap)
        ensures
            out@ == self@,
    {
        let mut columns: Vec<(String, ColumnStats)> = Vec::new();
        for i in 0..self.columns.len()
            invariant
                columns@.len() == i,
                forall|j: int|
                    0 <= j < i ==> (#[trigger] columns@[j]).0@ == self.columns@[j].0@
                        && columns@[j].1@ == self.columns@[j].1@,
        {
            columns.push((self.columns[i].0.clone(), self.columns[i].1.duplicate()));
        }
        let out = ZoneMap {
            min_timestamp_ns: self.min_timestamp_ns,
            max_timestamp_ns: self.max_timestamp_ns,
            row_count: self.row_count,
            columns,
        };
        assert(out@.columns =~= self@.columns);
        out
    }
}

impl Default for ZoneMap {
    fn default() -> (z: Self)
        ensures
            z@ == empty_zone(),
    {
        ZoneMap::new()
    }
}

/// The range of a zone map is the least that holds all its rows' timestamps, and it
/// counts them.
pub proof fn zone_is_tight(timestamps: Seq<u64>)
    requires
        timestamps.len() <= u64::MAX,
    ensures
        zone_of(timestamps).row_count == timestamps.len(),
        forall|i: int|
            0 <= i < timestamps.len() ==> zone_of(timestamps).min_timestamp_ns <= #[trigger] timestamps[i]
                <= zone_of(timestamps).max_timestamp_ns,
        timestamps.len() > 0 ==> timestamps.contains(zone_of(timestamps).min_timestamp_ns)
            && timestamps.contains(zone_of(timestamps).max_timestamp_ns),
    decreases timestamps.len(),
{
    if timestamps.len() > 0 {
        let front = timestamps.drop_last();
        zone_is_tight(front);
        let n = timestamps.len() as int;
        assert(timestamps[n - 1] == timestamps.last());
        assert forall|i: int| 0 <= i < n implies zone_of(timestamps).min_timestamp_ns
            <= #[trigger] timestamps[i] <= zone_of(timestamps).max_timestamp_ns by {
            if i < n - 1 {
                assert(front[i] == timestamps[i]);
            }
        }
        if front.len() > 0 {
            let lo = front.index_of(zone_of(front).min_timestamp_ns);
            let hi = front.index_of(zone_of(front).max_timestamp_ns);
            assert(front.contains(zone_of(front).min_timestamp_ns));
            assert(front.contains(zone_of(front).max_timestamp_ns));
            assert(timestamps[lo] == zone_of(front).min_timestamp_ns);
            assert(timestamps[hi] == zone_of(front).max_timestamp_ns);
        } else {
            assert(zone_of(timestamps).min_timestamp_ns == timestamps.last());
            assert(zone_of(timestamps).max_timestamp_ns == timestamps.last());
        }
    }
}

/// Skipping is safe: a file that holds a row inside the asked range overlaps it.
pub proof fn pruning_keeps_matching_rows(timestamps: Seq<u64>, i: int, start: u64, end: u64)
    requires
        timestamps.len() <= u64::MAX,
        0 <= i < timestamps.len(),
        start <= timestamps[i] <= end,
    ensures
        zone_overlaps(zone_of(timestamps), start, end),
{
    zone_is_tight(timestamps);
}

} // verus!
