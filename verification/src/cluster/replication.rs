//! Replication of writes to other nodes.
//!
//! The owner of a shard hands each write to a bounded queue per replica. A queue is opened
//! when its replica is first needed, and again after it was closed; where a queue is full the
//! write goes on without that replica.

use crate::cluster::config::ClusterConfig;
use crate::cluster::error::ClusterError;
use crate::cluster::membership::{addr_of, find_addr, node_views, NodeMeta};
use crate::cluster::router::other_than;
use crate::common::model::SignalType;
use crate::storage::wal::{ENTRY_LOG, ENTRY_METRIC, ENTRY_SPAN};
use crate::text::{str_eq, views};
use vstd::prelude::*;

verus! {

/// How many entries the queue of a replica holds.
pub const BUFFER_PER_REPLICA: usize = 4096;

pub const WAL_ENTRY_LOG: u8 = 0x01;

pub const WAL_ENTRY_METRIC: u8 = 0x02;

pub const WAL_ENTRY_SPAN: u8 = 0x03;

/// A write on its way to a replica.
#[derive(Debug)]
pub struct ReplicationEntry {
    pub sequence: u64,
    pub partition_key: String,
    pub signal: String,
    pub wal_bytes: Vec<u8>,
}

/// Where an entry goes next.
pub struct Delivery {
    pub addr: String,
    /// Whether the queue of the replica has to be opened first.
    pub connect: bool,
}

/// What has become of an entry that was put into a queue.
#[derive(Clone, Copy, PartialEq, Eq, Debug)]
pub enum SendOutcome {
    Queued,
    Full,
    Closed,
}

/// The replicas that have an open queue, and the number of the next entry.
pub struct ReplicationEngine {
    pub config: ClusterConfig,
    pub senders: Vec<String>,
    pub sequence: u64,
}

/// The names of a list without a name.
pub open spec fn without_name(names: Seq<Seq<char>>, name: Seq<char>) -> Seq<Seq<char>> {
    names.filter(other_than(name))
}

impl ReplicationEngine {
    /// An engine with no open queue.
    pub fn new(config: ClusterConfig) -> (e: ReplicationEngine)
        ensures
            e.config == config,
            views(e.senders@) == Seq::<Seq<char>>::empty(),
            e.sequence == 0,
    {
        let senders: Vec<String> = Vec::new();
        assert(views(senders@) =~= Seq::<Seq<char>>::empty());
        ReplicationEngine { config, senders, sequence: 0 }
    }

    /// The entry for a write. Entries are numbered in turn.
    pub fn replicate(&mut self, partition_key: &str, signal: &str, wal_bytes: Vec<u8>) -> (out:
        ReplicationEntry)
        ensures
            out.sequence == old(self).sequence,
            out.partition_key@ == partition_key@,
            out.signal@ == signal@,
            out.wal_bytes == wal_bytes,
            final(self).sequence == (old(self).sequence + 1) % 0x1_0000_0000_0000_0000,
            final(self).senders == old(self).senders,
            final(self).config == old(self).config,
    {
        let sequence: u64 = self.sequence;
        self.sequence = sequence.wrapping_add(1);
        ReplicationEntry {
            sequence,
            partition_key: partition_key.to_string(),
            signal: signal.to_string(),
            wal_bytes,
        }
    }

    /// Where an entry for a replica goes. A replica whose address is not known is passed
    /// over; otherwise its queue is open after the call.
    pub fn get_or_create_sender(&mut self, nodes: &Vec<NodeMeta>, node_id: &str) -> (out: Option<
        Delivery,
    >)
        ensures
            match out {
                Some(d) => {
                    &&& addr_of(node_views(nodes@), node_id@, 0) == Some(d.addr@)
                    &&& d.connect == !views(old(self).senders@).contains(node_id@)
                    &&& views(final(self).senders@) == if d.connect {
                        views(old(self).senders@).push(node_id@)
                    } else {
                        views(old(self).senders@)
                    }
                },
                None => {
                    &&& addr_of(node_views(nodes@), node_id@, 0) is None
                    &&& final(self).senders == old(self).senders
                },
            },
            final(self).sequence == old(self).sequence,
            final(self).config == old(self).config,
    {
        match find_addr(nodes, node_id) {
            Some(addr) => {
                let connect: bool = !crate::text::contains_string(&self.senders, node_id);
                if connect {
                    let ghost before = views(self.senders@);
                    self.senders.push(node_id.to_string());
                    assert(views(self.senders@) =~= before.push(node_id@));
                }
                Some(Delivery { addr, connect })
            },
            None => None,
        }
    }

    /// Takes note of what has become of an entry, and counts it if it was queued. A queue
    /// that was closed is opened again with the next entry.
    pub fn record(&mut self, node_id: &str, outcome: SendOutcome, acks: u32) -> (out: u32)
        requires
            acks < u32::MAX,
        ensures
            out == acks + (if outcome is Queued {
                1int
            } else {
                0
            }),
            views(final(self).senders@) == if outcome is Closed {
                without_name(views(old(self).senders@), node_id@)
            } else {
                views(old(self).senders@)
            },
            final(self).sequence == old(self).sequence,
            final(self).config == old(self).config,
    {
        match outcome {
            SendOutcome::Queued => acks + 1,
            SendOutcome::Full => acks,
            SendOutcome::Closed => {
                let ghost all = views(self.senders@);
                let ghost keep = other_than(node_id@);
                let mut kept: Vec<String> = Vec::new();
                assert(views(kept@) =~= all.take(0).filter(keep));
                for i in 0..self.senders.len()
                    invariant
                        all == views(self.senders@),
                        keep == other_than(node_id@),
                        views(kept@) == all.take(i as int).filter(keep),
                        self.sequence == old(self).sequence,
                        self.config == old(self).config,
                {
                    let ghost before = views(kept@);
                    assert(all.take(i + 1).drop_last() =~= all.take(i as int));
                    assert(all.take(i + 1).last() == all[i as int]);
                    reveal(Seq::filter);
                    if !str_eq(self.senders[i].as_str(), node_id) {
                        kept.push(self.senders[i].clone());
                        assert(views(kept@) =~= before.push(all[i as int]));
                    }
                }
                assert(all.take(all.len() as int) =~= all);
                self.senders = kept;
                acks
            },
        }
    }

    /// Whether fewer replicas took an entry than were asked for.
    pub fn is_degraded(&self, acks: u32) -> (yes: bool)
        ensures
            yes == (acks < self.config.min_ack_replicas),
    {
        acks < self.config.min_ack_replicas
    }
}

/// The signal that a log entry of a type belongs to.
pub open spec fn signal_of_entry(entry_type: u8) -> Option<SignalType> {
    if entry_type == ENTRY_LOG {
        Some(SignalType::Log)
    } else if entry_type == ENTRY_METRIC {
        Some(SignalType::Metric)
    } else if entry_type == ENTRY_SPAN {
        Some(SignalType::Span)
    } else {
        None
    }
}

/// What an entry that was received asks to be written: the signal and the encoded record
/// behind the type byte, and nothing where the entry is empty or of another type.
pub fn apply_replica_entry(entry: &ReplicationEntry) -> (out: Option<(SignalType, Vec<u8>)>)
    ensures
        match out {
            Some(w) => {
                &&& entry.wal_bytes@.len() > 0
                &&& signal_of_entry(entry.wal_bytes@[0]) == Some(w.0)
                &&& w.1@ == entry.wal_bytes@.skip(1)
            },
            None => entry.wal_bytes@.len() == 0 || signal_of_entry(entry.wal_bytes@[0]) is None,
        },
{
    if entry.wal_bytes.len() == 0 {
        return None;
    }
    let entry_type: u8 = entry.wal_bytes[0];
    let signal: SignalType = if entry_type == WAL_ENTRY_LOG {
        SignalType::Log
    } else if entry_type == WAL_ENTRY_METRIC {
        SignalType::Metric
    } else if entry_type == WAL_ENTRY_SPAN {
        SignalType::Span
    } else {
        return None;
    };
    let data = crate::bytes::copy_range(&entry.wal_bytes, 1, entry.wal_bytes.len());
    assert(data@ =~= entry.wal_bytes@.skip(1));
    Some((signal, data))
}

/// The error where a received entry could not be written, for the given reason.
pub fn replica_failure(reason: String) -> (e: ClusterError)
    ensures
        e matches ClusterError::ReplicationFailed { node, reason: r } && node@ == "local"@ && r
            == reason,
{
    ClusterError::ReplicationFailed { node: "local".to_string(), reason }
}

// ── Laws ────────────────────────────────────────────────────────────────────

/// A queue that was closed is no longer open, and no other queue is concerned.
pub proof fn closing_concerns_one_replica(names: Seq<Seq<char>>, name: Seq<char>, other: Seq<char>)
    ensures
        !without_name(names, name).contains(name),
        other != name ==> (without_name(names, name).contains(other) <==> names.contains(other)),
{
    let keep = other_than(name);
    let kept = without_name(names, name);
    if kept.contains(name) {
        let i = choose|i: int| 0 <= i < kept.len() && kept[i] == name;
        names.lemma_filter_pred(keep, i);
    }
    if other != name {
        if names.contains(other) {
            let i = choose|i: int| 0 <= i < names.len() && names[i] == other;
            names.lemma_filter_contains(keep, i);
        }
        if kept.contains(other) {
            names.lemma_filter_contains_rev(keep, other);
        }
    }
}

/// The type bytes of entries: each of the three signals has one, and no other byte names a
/// signal.
pub proof fn entries_name_their_signals(entry_type: u8)
    ensures
        signal_of_entry(entry_type) == Some(SignalType::Log) <==> entry_type == 1,
        signal_of_entry(entry_type) == Some(SignalType::Metric) <==> entry_type == 2,
        signal_of_entry(entry_type) == Some(SignalType::Span) <==> entry_type == 3,
{
}

} // verus!
