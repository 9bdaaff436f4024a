//! Names and metadata of SSTables.
//!
//! An SSTable is three files, named by its sequence number: `{seq:06}.parquet` with
//! the columns, `{seq:06}.bloom` with the Bloom filter and `{seq:06}.zonemap` with the
//! zone map.

use crate::common::model::SignalType;
use crate::storage::path::{join, path_join};
use crate::storage::zone_map::{ZoneMap, ZoneModel};
use crate::text::{chars_of, padded_decimal, parse_u64, push_padded, str_eq, string_of_range, u64_of};
use vstd::prelude::*;

verus! {

/// The digits that a sequence number has at least in a file name.
pub const SEQ_WIDTH: usize = 6;

/// The name of a file of SSTable `seq`.
pub open spec fn sstable_file(seq: u64, suffix: Seq<char>) -> Seq<char> {
    padded_decimal(seq as nat, SEQ_WIDTH as nat) + suffix
}

/// The path of the column file of SSTable `seq` in `dir`.
pub open spec fn parquet_path_of(dir: Seq<char>, seq: u64) -> Seq<char> {
    path_join(dir, sstable_file(seq, ".parquet"@))
}

/// The path of the Bloom filter of SSTable `seq` in `dir`.
pub open spec fn bloom_path_of(dir: Seq<char>, seq: u64) -> Seq<char> {
    path_join(dir, sstable_file(seq, ".bloom"@))
}

/// The path of the zone map of SSTable `seq` in `dir`.
pub open spec fn zonemap_path_of(dir: Seq<char>, seq: u64) -> Seq<char> {
    path_join(dir, sstable_file(seq, ".zonemap"@))
}

fn file_path(dir: &str, seq: u64, suffix: &str) -> (out: String)
    ensures
        out@ == path_join(dir@, sstable_file(seq, suffix@)),
{
    let mut name = String::new();
    push_padded(&mut name, seq, SEQ_WIDTH);
    name.append(suffix);
    assert(name@ =~= sstable_file(seq, suffix@));
    join(dir, name.as_str())
}

/// The path of the column file of SSTable `seq` in `dir`.
pub fn parquet_path(dir: &str, seq: u64) -> (out: String)
    ensures
        out@ == parquet_path_of(dir@, seq),
{
    file_path(dir, seq, ".parquet")
}

/// The path of the Bloom filter of SSTable `seq` in `dir`.
pub fn bloom_path(dir: &str, seq: u64) -> (out: String)
    ensures
        out@ == bloom_path_of(dir@, seq),
{
    file_path(dir, seq, ".bloom")
}

/// The path of the zone map of SSTable `seq` in `dir`.
pub fn zonemap_path(dir: &str, seq: u64) -> (out: String)
    ensures
        out@ == zonemap_path_of(dir@, seq),
{
    file_path(dir, seq, ".zonemap")
}

/// What is known of an SSTable without opening its column file.
#[derive(Debug)]
pub struct SSTableMeta {
    pub seq: u64,
    pub signal_type: SignalType,
    pub dir: String,
    pub zone_map: ZoneMap,
}

/// SSTable metadata as mathematical values.
pub struct MetaModel {
    pub seq: u64,
    pub signal_type: SignalType,
    pub dir: Seq<char>,
    pub zone_map: ZoneModel,
}

impl View for SSTableMeta {
    type V = MetaModel;

    open spec fn view(&self) -> MetaModel {
        MetaModel {
            seq: self.seq,
            signal_type: self.signal_type,
            dir: self.dir@,
            zone_map: self.zone_map@,
        }
    }
}

/// The views of a list of metadata.
pub open spec fn meta_views(v: Seq<SSTableMeta>) -> Seq<MetaModel> {
    v.map_values(|m: SSTableMeta| m@)
}

impl SSTableMeta {
    /// The path of the column file.
    pub fn parquet_path(&self) -> (out: String)
        ensures
            out@ == parquet_path_of(self.dir@, self.seq),
    {
        parquet_path(self.dir.as_str(), self.seq)
    }

    /// The path of the Bloom filter.
    pub fn bloom_path(&self) -> (out: String)
        ensures
            out@ == bloom_path_of(self.dir@, self.seq),
    {
        bloom_path(self.dir.as_str(), self.seq)
    }

    /// The path of the zone map.
    pub fn zonemap_path(&self) -> (out: String)
        ensures
            out@ == zonemap_path_of(self.dir@, self.seq),
    {
        zonemap_path(self.dir.as_str(), self.seq)
    }

    /// A copy of this metadata.
    pub fn duplicate(&self) -> (out: SSTableMeta)
        ensures
            out@ == self@,
    {
        SSTableMeta {
            seq: self.seq,
            signal_type: self.signal_type,
            dir: self.dir.clone(),
            zone_map: self.zone_map.duplicate(),
        }
    }
}

/// The position of the last dot of a file name, or -1.
pub open spec fn last_dot(name: Seq<char>) -> int
    decreases name.len(),
{
    if name.len() == 0 {
        -1
    } else if name.last() == '.' {
        name.len() - 1
    } else {
        last_dot(name.drop_last())
    }
}

/// The sequence number that the name of a zone-map file gives: the number in front of
/// the extension, 0 where that is no number. `None` for other files.
pub open spec fn zonemap_seq_of(name: Seq<char>) -> Option<u64> {
    let p = last_dot(name);
    if p > 0 && name.skip(p + 1) == "zonemap"@ {
        match u64_of(name.take(p)) {
            Some(n) => Some(n),
            None => Some(0),
        }
    } else {
        None
    }
}

/// The sequence number that the name of a zone-map file gives.
pub fn zonemap_seq(name: &str) -> (out: Option<u64>)
    ensures
        out == zonemap_seq_of(name@),
{
    let chars = chars_of(name);
    let mut p: usize = chars.len();
    assert(name@.take(name@.len() as int) =~= name@);
    while p > 0 && chars[p - 1] != '.'
        invariant
            chars@ == name@,
            p <= chars@.len(),
            last_dot(name@) == last_dot(name@.take(p as int)),
        decreases p,
    {
        assert(name@.take(p as int).drop_last() =~= name@.take(p - 1));
        p = p - 1;
    }
    assert(last_dot(name@) == p - 1);
    if p <= 1 {
        return None;
    }
    let ext = string_of_range(&chars, p, chars.len());
    assert(ext@ =~= name@.skip(p as int));
    if !str_eq(ext.as_str(), "zonemap") {
        return None;
    }
    let stem = string_of_range(&chars, 0, p - 1);
    assert(stem@ =~= name@.take(p - 1));
    match parse_u64(stem.as_str()) {
        Some(n) => Some(n),
        None => Some(0),
    }
}

proof fn lemma_last_dot(stem: Seq<char>, ext: Seq<char>)
    requires
        forall|i: int| 0 <= i < ext.len() ==> ext[i] != '.',
    ensures
        last_dot(stem.push('.') + ext) == stem.len(),
    decreases ext.len(),
{
    let whole = stem.push('.') + ext;
    if ext.len() > 0 {
        lemma_last_dot(stem, ext.drop_last());
        assert(whole.last() == ext[ext.len() - 1]);
        assert(whole.drop_last() =~= stem.push('.') + ext.drop_last());
    } else {
        assert(whole =~= stem.push('.'));
    }
}

/// The sequence number of an SSTable can be read off the name of its zone map.
pub proof fn zonemap_name_gives_sequence(seq: u64)
    ensures
        zonemap_seq_of(sstable_file(seq, ".zonemap"@)) == Some(seq),
{
    reveal_strlit(".zonemap");
    reveal_strlit("zonemap");
    let stem = padded_decimal(seq as nat, SEQ_WIDTH as nat);
    let name = sstable_file(seq, ".zonemap"@);
    assert(name =~= stem.push('.') + "zonemap"@);
    lemma_last_dot(stem, "zonemap"@);
    assert(name.skip((stem.len() + 1) as int) =~= "zonemap"@);
    assert(name.take(stem.len() as int) =~= stem);
    crate::text::padded_decimal_reads_back(seq, SEQ_WIDTH as nat);
}

/// The files of a table differ from each other and from those of any other table in the same
/// directory.
pub proof fn files_are_told_apart(dir: Seq<char>, a: u64, b: u64)
    ensures
        parquet_path_of(dir, a) == parquet_path_of(dir, b) ==> a == b,
        bloom_path_of(dir, a) == bloom_path_of(dir, b) ==> a == b,
        zonemap_path_of(dir, a) == zonemap_path_of(dir, b) ==> a == b,
        parquet_path_of(dir, a) != bloom_path_of(dir, b),
        parquet_path_of(dir, a) != zonemap_path_of(dir, b),
        bloom_path_of(dir, a) != zonemap_path_of(dir, b),
{
    reveal_strlit(".parquet");
    reveal_strlit(".bloom");
    reveal_strlit(".zonemap");
    crate::text::padded_decimal_reads_back(a, SEQ_WIDTH as nat);
    crate::text::padded_decimal_reads_back(b, SEQ_WIDTH as nat);
    lemma_same_suffix(dir, a, b, ".parquet"@);
    lemma_same_suffix(dir, a, b, ".bloom"@);
    lemma_same_suffix(dir, a, b, ".zonemap"@);
    lemma_last_char(dir, a, ".parquet"@);
    lemma_last_char(dir, a, ".bloom"@);
    lemma_last_char(dir, b, ".bloom"@);
    lemma_last_char(dir, b, ".zonemap"@);
}

proof fn lemma_last_char(dir: Seq<char>, seq: u64, suffix: Seq<char>)
    requires
        suffix.len() > 0,
    ensures
        path_join(dir, sstable_file(seq, suffix)).last() == suffix.last(),
{
}

proof fn lemma_same_suffix(dir: Seq<char>, a: u64, b: u64, suffix: Seq<char>)
    requires
        crate::text::u64_of(padded_decimal(a as nat, SEQ_WIDTH as nat)) == Some(a),
        crate::text::u64_of(padded_decimal(b as nat, SEQ_WIDTH as nat)) == Some(b),
    ensures
        path_join(dir, sstable_file(a, suffix)) == path_join(dir, sstable_file(b, suffix)) ==> a == b,
{
    let x = padded_decimal(a as nat, SEQ_WIDTH as nat);
    let y = padded_decimal(b as nat, SEQ_WIDTH as nat);
    let p = path_join(dir, x + suffix);
    let q = path_join(dir, y + suffix);
    let before = if dir.len() == 0 || dir.last() == '/' {
        dir.len() as int
    } else {
        (dir.len() + 1) as int
    };
    assert(p.len() == before + x.len() + suffix.len());
    assert(q.len() == before + y.len() + suffix.len());
    if p == q {
        assert(p.subrange(before, before + x.len()) =~= x);
        assert(q.subrange(before, before + x.len()) =~= y);
    }
}

} // verus!
