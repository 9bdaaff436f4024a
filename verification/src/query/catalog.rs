//! Catalog: the tables, their columns, and statistics of their partitions.

use crate::common::schema::{
    log_fields, log_schema, metric_fields, metric_schema, span_fields, span_schema, DataType,
    FieldModel, Schema,
};
use crate::query::error::QueryError;
use crate::storage::zone_map::{ZoneMap, ZoneModel};
use crate::text::str_eq;
use vstd::prelude::*;

verus! {

/// A column of a table.
#[derive(Debug)]
pub struct ColumnDesc {
    pub name: String,
    pub data_type: DataType,
    pub nullable: bool,
}

impl View for ColumnDesc {
    type V = FieldModel;

    open spec fn view(&self) -> FieldModel {
        FieldModel { name: self.name@, data_type: self.data_type, nullable: self.nullable }
    }
}

/// The time range and the number of rows of one partition of a table.
#[derive(Debug, Clone, Copy, PartialEq, Eq, Structural)]
pub struct TableStats {
    pub partition_key: u64,
    pub min_timestamp_ns: u64,
    pub max_timestamp_ns: u64,
    pub row_count: u64,
}

/// A table.
#[derive(Debug)]
pub struct TableDesc {
    pub name: String,
    pub schema: Schema,
    pub columns: Vec<ColumnDesc>,
    /// Statistics of the partitions, for skipping them.
    pub stats: Vec<TableStats>,
}

/// A table as mathematical values.
pub struct DescModel {
    pub name: Seq<char>,
    pub schema: Seq<FieldModel>,
    pub columns: Seq<FieldModel>,
    pub stats: Seq<TableStats>,
}

/// The columns of a list.
pub open spec fn column_views(v: Seq<ColumnDesc>) -> Seq<FieldModel> {
    v.map_values(|c: ColumnDesc| c@)
}

impl View for TableDesc {
    type V = DescModel;

    open spec fn view(&self) -> DescModel {
        DescModel {
            name: self.name@,
            schema: self.schema@,
            columns: column_views(self.columns@),
            stats: self.stats@,
        }
    }
}

/// The table with a schema and no statistics yet.
pub open spec fn fresh_table(name: Seq<char>, schema: Seq<FieldModel>) -> DescModel {
    DescModel { name, schema, columns: schema, stats: Seq::empty() }
}

impl TableDesc {
    fn from_schema(name: &str, schema: Schema) -> (t: TableDesc)
        ensures
            t@ == fresh_table(name@, schema@),
    {
        let mut columns: Vec<ColumnDesc> = Vec::new();
        for i in 0..schema.fields.len()
            invariant
                columns@.len() == i,
                column_views(columns@) == schema@.take(i as int),
        {
            let f = &schema.fields[i];
            columns.push(
                ColumnDesc {
                    name: f.name.clone(),
                    data_type: f.data_type,
                    nullable: f.nullable,
                },
            );
            assert(column_views(columns@) =~= schema@.take(i + 1));
        }
        assert(schema@.take(schema@.len() as int) =~= schema@);
        let t = TableDesc { name: name.to_string(), schema, columns, stats: Vec::new() };
        assert(t@.stats =~= Seq::empty());
        t
    }

    /// The first column with a name.
    pub fn column(&self, name: &str) -> (out: Option<&ColumnDesc>)
        ensures
            match out {
                Some(c) => exists|i: int|
                    0 <= i < self@.columns.len() && #[trigger] self@.columns[i] == c@
                        && self@.columns[i].name == name@ && forall|j: int|
                        0 <= j < i ==> (#[trigger] self@.columns[j]).name != name@,
                None => forall|j: int|
                    0 <= j < self@.columns.len() ==> (#[trigger] self@.columns[j]).name != name@,
            },
    {
        let ghost all = column_views(self.columns@);
        for i in 0..self.columns.len()
            invariant
                all == column_views(self.columns@),
                forall|j: int| 0 <= j < i ==> (#[trigger] all[j]).name != name@,
        {
            assert(all[i as int] == self.columns@[i as int]@);
            if str_eq(self.columns[i].name.as_str(), name) {
                assert(self@.columns[i as int] == self.columns@[i as int]@);
                return Some(&self.columns[i]);
            }
        }
        None
    }

    /// A copy of this table.
    pub fn duplicate(&self) -> (out: TableDesc)
        ensures
            out@ == self@,
    {
        let mut columns: Vec<ColumnDesc> = Vec::new();
        let ghost all = column_views(self.columns@);
        for i in 0..self.columns.len()
            invariant
                all == column_views(self.columns@),
                columns@.len() == i,
                column_views(columns@) == all.take(i as int),
        {
            let c = &self.columns[i];
            columns.push(
                ColumnDesc {
                    name: c.name.clone(),
                    data_type: c.data_type,
                    nullable: c.nullable,
                },
            );
            assert(column_views(columns@) =~= all.take(i + 1));
        }
        assert(all.take(all.len() as int) =~= all);
        let mut stats: Vec<TableStats> = Vec::new();
        for i in 0..self.stats.len()
            invariant
                stats@ == self.stats@.take(i as int),
        {
            stats.push(self.stats[i]);
            assert(stats@ =~= self.stats@.take(i + 1));
        }
        assert(self.stats@.take(self.stats@.len() as int) =~= self.stats@);
        TableDesc { name: self.name.clone(), schema: self.schema.duplicate(), columns, stats }
    }
}

// ── Catalog ─────────────────────────────────────────────────────────────────

/// The tables of a list.
pub open spec fn desc_views(v: Seq<TableDesc>) -> Seq<DescModel> {
    v.map_values(|t: TableDesc| t@)
}

/// The first table with a name.
pub open spec fn table_named(tables: Seq<DescModel>, name: Seq<char>) -> Option<DescModel>
    decreases tables.len(),
{
    if tables.len() == 0 {
        None
    } else if tables[0].name == name {
        Some(tables[0])
    } else {
        table_named(tables.skip(1), name)
    }
}

/// The tables with the statistics of the first one named `name` replaced.
pub open spec fn with_stats(
    tables: Seq<DescModel>,
    name: Seq<char>,
    stats: Seq<TableStats>,
) -> Seq<DescModel>
    decreases tables.len(),
{
    if tables.len() == 0 {
        tables
    } else if tables[0].name == name {
        seq![DescModel { stats, ..tables[0] }] + tables.skip(1)
    } else {
        seq![tables[0]] + with_stats(tables.skip(1), name, stats)
    }
}

/// The statistics that a zone map gives a partition.
pub open spec fn stats_of(key: u64, z: ZoneModel) -> TableStats {
    TableStats {
        partition_key: key,
        min_timestamp_ns: z.min_timestamp_ns,
        max_timestamp_ns: z.max_timestamp_ns,
        row_count: z.row_count,
    }
}

/// The statistics that zone maps give their partitions.
pub open spec fn all_stats(zone_maps: Seq<(u64, ZoneMap)>) -> Seq<TableStats> {
    zone_maps.map_values(|p: (u64, ZoneMap)| stats_of(p.0, p.1@))
}

/// Whether a partition's time range meets the closed range from `start` to `end`.
pub open spec fn partition_overlaps(s: TableStats, start: u64, end: u64) -> bool {
    s.min_timestamp_ns <= end && s.max_timestamp_ns >= start
}

/// The keys of the partitions that meet the closed range from `start` to `end`.
pub open spec fn overlapping(stats: Seq<TableStats>, start: u64, end: u64) -> Seq<u64> {
    stats.filter(|s: TableStats| partition_overlaps(s, start, end)).map_values(
        |s: TableStats| s.partition_key,
    )
}

/// The text that says that a table is not known.
pub open spec fn unknown_table_text(name: Seq<char>) -> Seq<char> {
    "unknown table '"@ + name + "'"@
}

/// The error that says that a table is not known.
pub fn unknown_table(name: &str) -> (e: QueryError)
    ensures
        e matches QueryError::Bind(m) && m@ == unknown_table_text(name@),
{
    let mut m = "unknown table '".to_string();
    m.append(name);
    m.append("'");
    QueryError::Bind(m)
}

/// The tables of a new catalog.
pub open spec fn builtin_tables() -> Seq<DescModel> {
    seq![
        fresh_table("logs"@, log_fields()),
        fresh_table("metrics"@, metric_fields()),
        fresh_table("traces"@, span_fields()),
    ]
}

/// The known tables.
#[derive(Debug)]
pub struct Catalog {
    tables: Vec<TableDesc>,
}

impl View for Catalog {
    type V = Seq<DescModel>;

    closed spec fn view(&self) -> Seq<DescModel> {
        desc_views(self.tables@)
    }
}

impl Catalog {
    /// A catalog with the tables of logs, metrics and traces.
    pub fn new() -> (c: Catalog)
        ensures
            c@ == builtin_tables(),
    {
        let mut tables: Vec<TableDesc> = Vec::new();
        tables.push(TableDesc::from_schema("logs", log_schema()));
        tables.push(TableDesc::from_schema("metrics", metric_schema()));
        tables.push(TableDesc::from_schema("traces", span_schema()));
        let c = Catalog { tables };
        assert(c@ =~= builtin_tables());
        c
    }

    fn position(&self, name: &str) -> (out: Option<usize>)
        ensures
            match out {
                Some(i) => i < self.tables@.len() && table_named(self@, name@) == Some(
                    self.tables@[i as int]@,
                ) && self@[i as int].name == name@ && forall|j: int|
                    0 <= j < i ==> (#[trigger] self@[j]).name != name@,
                None => table_named(self@, name@) is None && forall|j: int|
                    0 <= j < self@.len() ==> (#[trigger] self@[j]).name != name@,
            },
    {
        let ghost all = self@;
        assert(all.skip(0) =~= all);
        for i in 0..self.tables.len()
            invariant
                all == self@,
                table_named(all, name@) == table_named(all.skip(i as int), name@),
                forall|j: int| 0 <= j < i ==> (#[trigger] all[j]).name != name@,
        {
            assert(all.skip(i as int)[0] == all[i as int]);
            assert(all[i as int] == self.tables@[i as int]@);
            if str_eq(self.tables[i].name.as_str(), name) {
                return Some(i);
            }
            assert(all.skip(i as int).skip(1) =~= all.skip(i + 1));
        }
        None
    }

    /// A copy of a table; an error if it is not known.
    pub fn get_table(&self, name: &str) -> (out: Result<TableDesc, QueryError>)
        ensures
            match out {
                Ok(t) => table_named(self@, name@) == Some(t@),
                Err(e) => table_named(self@, name@) is None && (e matches QueryError::Bind(m)
                    && m@ == unknown_table_text(name@)),
            },
    {
        match self.position(name) {
            Some(i) => Ok(self.tables[i].duplicate()),
            None => Err(unknown_table(name)),
        }
    }

    /// Replaces the statistics of a table; nothing happens if it is not known.
    pub fn update_stats(&mut self, table: &str, zone_maps: Vec<(u64, ZoneMap)>)
        ensures
            final(self)@ == with_stats(old(self)@, table@, all_stats(zone_maps@)),
    {
        let mut stats: Vec<TableStats> = Vec::new();
        let ghost want = all_stats(zone_maps@);
        for i in 0..zone_maps.len()
            invariant
                want == all_stats(zone_maps@),
                stats@ == want.take(i as int),
        {
            let z = &zone_maps[i].1;
            stats.push(
                TableStats {
                    partition_key: zone_maps[i].0,
                    min_timestamp_ns: z.min_timestamp_ns,
                    max_timestamp_ns: z.max_timestamp_ns,
                    row_count: z.row_count,
                },
            );
            assert(stats@ =~= want.take(i + 1));
        }
        assert(want.take(want.len() as int) =~= want);
        match self.position(table) {
            Some(i) => {
                let ghost before = self@;
                self.tables[i].stats = stats;
                proof {
                    lemma_with_stats(before, table@, want, i as int);
                    assert(self@ =~= with_stats(before, table@, want));
                }
            },
            None => {
                proof {
                    lemma_without(self@, table@, want);
                }
            },
        }
    }

    /// Whether there are statistics of a table.
    pub fn has_stats(&self, table: &str) -> (yes: bool)
        ensures
            yes == (table_named(self@, table@) matches Some(t) && t.stats.len() > 0),
    {
        match self.position(table) {
            Some(i) => self.tables[i].stats.len() > 0,
            None => false,
        }
    }

    /// The keys of a table's partitions that meet the closed range from `start_ns` to
    /// `end_ns`; none if the table is not known.
    pub fn overlapping_partitions(&self, table: &str, start_ns: u64, end_ns: u64) -> (out: Vec<u64>)
        ensures
            out@ == match table_named(self@, table@) {
                Some(t) => overlapping(t.stats, start_ns, end_ns),
                None => Seq::empty(),
            },
    {
        let mut out: Vec<u64> = Vec::new();
        match self.position(table) {
            Some(t) => {
                let stats = &self.tables[t].stats;
                assert(out@ =~= overlapping(stats@.take(0), start_ns, end_ns));
                for i in 0..stats.len()
                    invariant
                        out@ == overlapping(stats@.take(i as int), start_ns, end_ns),
                {
                    let ghost keep = |s: TableStats| partition_overlaps(s, start_ns, end_ns);
                    let ghost front = stats@.take(i as int).filter(keep);
                    assert(stats@.take(i + 1).drop_last() =~= stats@.take(i as int));
                    assert(stats@.take(i + 1).last() == stats@[i as int]);
                    reveal(Seq::filter);
                    let s = stats[i];
                    if s.min_timestamp_ns <= end_ns && s.max_timestamp_ns >= start_ns {
                        out.push(s.partition_key);
                        assert(stats@.take(i + 1).filter(keep) =~= front.push(s));
                        assert(out@ =~= overlapping(stats@.take(i + 1), start_ns, end_ns));
                    } else {
                        assert(stats@.take(i + 1).filter(keep) =~= front);
                    }
                }
                assert(stats@.take(stats@.len() as int) =~= stats@);
            },
            None => {
                assert(out@ =~= Seq::empty());
            },
        }
        out
    }
}

impl Default for Catalog {
    fn default() -> (c: Self)
        ensures
            c@ == builtin_tables(),
    {
        Catalog::new()
    }
}

proof fn lemma_with_stats(
    tables: Seq<DescModel>,
    name: Seq<char>,
    stats: Seq<TableStats>,
    i: int,
)
    requires
        0 <= i < tables.len(),
        tables[i].name == name,
        forall|j: int| 0 <= j < i ==> (#[trigger] tables[j]).name != name,
    ensures
        with_stats(tables, name, stats) == tables.update(i, DescModel { stats, ..tables[i] }),
    decreases tables.len(),
{
    if i > 0 {
        let rest = tables.skip(1);
        assert forall|j: int| 0 <= j < i - 1 implies (#[trigger] rest[j]).name != name by {
            assert(rest[j] == tables[j + 1]);
        }
        lemma_with_stats(rest, name, stats, i - 1);
        assert(tables[0].name != name);
    }
    assert(with_stats(tables, name, stats) =~= tables.update(
        i,
        DescModel { stats, ..tables[i] },
    ));
}

proof fn lemma_without(tables: Seq<DescModel>, name: Seq<char>, stats: Seq<TableStats>)
    requires
        forall|j: int| 0 <= j < tables.len() ==> (#[trigger] tables[j]).name != name,
    ensures
        with_stats(tables, name, stats) == tables,
    decreases tables.len(),
{
    if tables.len() > 0 {
        let rest = tables.skip(1);
        assert forall|j: int| 0 <= j < rest.len() implies (#[trigger] rest[j]).name != name by {
            assert(rest[j] == tables[j + 1]);
        }
        assert(tables[0].name != name);
        lemma_without(rest, name, stats);
        assert(with_stats(tables, name, stats) =~= tables);
    }
}

/// Replacing the statistics of a table replaces them and nothing else: the table keeps
/// its columns, and other tables stay as they are.
pub proof fn update_changes_one_table(
    tables: Seq<DescModel>,
    name: Seq<char>,
    other: Seq<char>,
    stats: Seq<TableStats>,
)
    ensures
        table_named(with_stats(tables, name, stats), name) == match table_named(tables, name) {
            Some(t) => Some(DescModel { stats, ..t }),
            None => None,
        },
        other != name ==> table_named(with_stats(tables, name, stats), other) == table_named(
            tables,
            other,
        ),
    decreases tables.len(),
{
    if tables.len() > 0 {
        let after = with_stats(tables, name, stats);
        update_changes_one_table(tables.skip(1), name, other, stats);
        assert(after.skip(1) =~= if tables[0].name == name {
            tables.skip(1)
        } else {
            with_stats(tables.skip(1), name, stats)
        });
    }
}

/// Pruning keeps every partition that can hold a row of the asked range.
pub proof fn pruning_keeps_overlapping(stats: Seq<TableStats>, i: int, start: u64, end: u64)
    requires
        0 <= i < stats.len(),
    ensures
        partition_overlaps(stats[i], start, end) ==> overlapping(stats, start, end).contains(
            stats[i].partition_key,
        ),
{
    let keep = |s: TableStats| partition_overlaps(s, start, end);
    if partition_overlaps(stats[i], start, end) {
        stats.lemma_filter_contains(keep, i);
        let kept = stats.filter(keep);
        let j = choose|j: int| 0 <= j < kept.len() && kept[j] == stats[i];
        assert(overlapping(stats, start, end)[j] == stats[i].partition_key);
    }
}

/// Only partitions that meet the asked range are kept.
pub proof fn overlapping_partitions_overlap(stats: Seq<TableStats>, start: u64, end: u64, key: u64)
    requires
        overlapping(stats, start, end).contains(key),
    ensures
        exists|i: int|
            0 <= i < stats.len() && (#[trigger] stats[i]).partition_key == key
                && partition_overlaps(stats[i], start, end),
{
    let keep = |s: TableStats| partition_overlaps(s, start, end);
    let kept = stats.filter(keep);
    let j = choose|j: int|
        0 <= j < overlapping(stats, start, end).len() && overlapping(stats, start, end)[j] == key;
    stats.lemma_filter_pred(keep, j);
    assert(kept.contains(kept[j]));
    stats.lemma_filter_contains_rev(keep, kept[j]);
    let i = choose|i: int| 0 <= i < stats.len() && stats[i] == kept[j];
    assert(stats[i].partition_key == key);
}

/// The statistics of a partition are those of its zone map, under its own key, in order.
pub proof fn statistics_are_those_of_the_zone_maps(zone_maps: Seq<(u64, ZoneMap)>, i: int)
    requires
        0 <= i < zone_maps.len(),
    ensures
        all_stats(zone_maps).len() == zone_maps.len(),
        ({
            let s = all_stats(zone_maps)[i];
            let z = zone_maps[i].1@;
            &&& s.partition_key == zone_maps[i].0
            &&& s.min_timestamp_ns == z.min_timestamp_ns
            &&& s.max_timestamp_ns == z.max_timestamp_ns
            &&& s.row_count == z.row_count
        }),
{
}

/// A partition meets a range if and only if a time lies in both.
pub proof fn overlap_is_a_common_time(s: TableStats, start: u64, end: u64)
    requires
        s.min_timestamp_ns <= s.max_timestamp_ns,
        start <= end,
    ensures
        partition_overlaps(s, start, end) <==> exists|t: u64|
            #[trigger] is_within(t, s.min_timestamp_ns, s.max_timestamp_ns) && is_within(t, start, end),
{
    if partition_overlaps(s, start, end) {
        let t = if s.min_timestamp_ns >= start {
            s.min_timestamp_ns
        } else {
            start
        };
        assert(is_within(t, s.min_timestamp_ns, s.max_timestamp_ns) && is_within(t, start, end));
    }
}

/// Whether a time lies in a closed range.
pub open spec fn is_within(t: u64, start: u64, end: u64) -> bool {
    start <= t <= end
}

/// The tables that are known from the start: those of the three signals, with their columns
/// and without statistics.
pub proof fn known_tables_have_their_columns()
    ensures
        table_named(builtin_tables(), "logs"@) matches Some(t) && t.name == "logs"@ && t.schema
            == log_fields() && t.columns == log_fields() && t.stats.len() == 0,
        table_named(builtin_tables(), "metrics"@) matches Some(t) && t.name == "metrics"@ && t.schema
            == metric_fields() && t.columns == metric_fields() && t.stats.len() == 0,
        table_named(builtin_tables(), "traces"@) matches Some(t) && t.name == "traces"@ && t.schema
            == span_fields() && t.columns == span_fields() && t.stats.len() == 0,
{
    reveal_strlit("logs");
    reveal_strlit("metrics");
    reveal_strlit("traces");
    assert("logs"@.len() == 4 && "metrics"@.len() == 7 && "traces"@.len() == 6);
    let all = builtin_tables();
    assert(all.skip(1)[0] == all[1]);
    assert(all.skip(1).skip(1)[0] == all[2]);
    reveal_with_fuel(table_named, 4);
}

} // verus!
