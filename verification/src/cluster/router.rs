//! Shard router: which node a write belongs to, and which nodes get copies.

use crate::cluster::membership::ClusterView;
use crate::cluster::ring::{
    holders, holders_are_distinct, owner, str_views, Ring, ShardId,
};
use crate::hash::hash_of;
use crate::text::{push_signed, signed_decimal, str_eq, views};
use vstd::prelude::*;
use vstd::utf8::encode_utf8;

verus! {

/// Where a write goes.
#[derive(Debug)]
pub struct RoutingDecision {
    /// The node that owns the shard.
    pub primary: String,
    /// Further nodes that get a copy.
    pub replicas: Vec<String>,
    /// Whether this node owns the shard.
    pub is_local: bool,
}

/// The node that a shard belongs to; the local one if the ring is empty.
pub open spec fn primary_of(ring: Ring, shard: u64, local: Seq<char>) -> Seq<char> {
    if ring.len() > 0 {
        owner(ring, shard)
    } else {
        local
    }
}

/// That a node is another than the given one.
pub open spec fn other_than(node: Seq<char>) -> spec_fn(Seq<char>) -> bool {
    |n: Seq<char>| n != node
}

/// The nodes that get a copy: the holders of the shard but for its owner, one fewer than
/// there are copies in all.
pub open spec fn replicas_of(ring: Ring, shard: u64, local: Seq<char>, factor: nat) -> Seq<
    Seq<char>,
> {
    if ring.len() > 0 {
        let primary = primary_of(ring, shard, local);
        let others = holders(ring, shard, factor).filter(other_than(primary));
        if others.len() <= factor - 1 {
            others
        } else {
            others.take(factor - 1)
        }
    } else {
        Seq::empty()
    }
}

/// Routes writes from a node.
pub struct ShardRouter {
    pub local_id: String,
    pub rep_factor: u32,
}

impl ShardRouter {
    /// A router for a node, with the number of copies that are kept of each write.
    pub fn new(local_id: String, rep_factor: u32) -> (r: ShardRouter)
        ensures
            r.local_id == local_id,
            r.rep_factor == rep_factor,
    {
        ShardRouter { local_id, rep_factor }
    }

    /// Where the writes of a series go.
    pub fn route(&self, view: &ClusterView, series_key: &str) -> (out: RoutingDecision)
        requires
            view.ring.wf(),
            self.rep_factor >= 1,
        ensures
            ({
                let shard = hash_of(encode_utf8(series_key@));
                &&& out.primary@ == primary_of(view@.ring, shard, self.local_id@)
                &&& views(out.replicas@) == replicas_of(
                    view@.ring,
                    shard,
                    self.local_id@,
                    self.rep_factor as nat,
                )
                &&& out.is_local == (out.primary@ == self.local_id@)
            }),
    {
        let shard = ShardId::for_key(series_key);
        let ghost ring = view@.ring;
        let primary: String = match view.ring.primary_for(shard) {
            Ok(s) => s.to_string(),
            Err(_) => self.local_id.clone(),
        };
        let mut replicas: Vec<String> = Vec::new();
        assert(views(replicas@) =~= Seq::empty());
        match view.ring.replica_nodes(shard, self.rep_factor as usize) {
            Ok(nodes) => {
                let ghost all = str_views(nodes@);
                let ghost keep = other_than(primary@);
                let limit: usize = (self.rep_factor - 1) as usize;
                assert(all.take(0).filter(keep) =~= Seq::empty());
                let n: usize = nodes.len();
                for i in 0..n
                    invariant
                        n == nodes@.len(),
                        all == str_views(nodes@),
                        keep == other_than(primary@),
                        ({
                            let seen = all.take(i as int).filter(keep);
                            views(replicas@) == if seen.len() <= limit {
                                seen
                            } else {
                                seen.take(limit as int)
                            }
                        }),
                {
                    let ghost seen = all.take(i as int).filter(keep);
                    let ghost before = views(replicas@);
                    assert(all.take(i + 1).drop_last() =~= all.take(i as int));
                    assert(all.take(i + 1).last() == nodes@[i as int]@);
                    reveal(Seq::filter);
                    assert(views(replicas@).len() == replicas@.len());
                    if !str_eq(nodes[i], primary.as_str()) {
                        if replicas.len() < limit {
                            replicas.push(nodes[i].to_string());
                            assert(views(replicas@) =~= before.push(nodes@[i as int]@));
                        } else {
                            assert(seen.push(nodes@[i as int]@).take(limit as int)
                                =~= seen.take(limit as int));
                        }
                    }
                }
                assert(all.take(all.len() as int) =~= all);
                assert(views(replicas@) =~= replicas_of(
                    ring,
                    shard.0,
                    self.local_id@,
                    self.rep_factor as nat,
                ));
            },
            Err(_) => {},
        }
        let is_local: bool = str_eq(primary.as_str(), self.local_id.as_str());
        RoutingDecision { primary, replicas, is_local }
    }

    /// The series of a log record.
    pub fn log_series_key(partition: &str, severity: i32) -> (out: String)
        ensures
            out@ == "logs|"@ + partition@ + "|sev="@ + signed_decimal(severity as int),
    {
        let mut out = "logs|".to_string();
        out.append(partition);
        out.append("|sev=");
        push_signed(&mut out, severity as i64);
        out
    }

    /// The series of a metric point.
    pub fn metric_series_key(partition: &str, name: &str) -> (out: String)
        ensures
            out@ == "metrics|"@ + partition@ + "|"@ + name@,
    {
        let mut out = "metrics|".to_string();
        out.append(partition);
        out.append("|");
        out.append(name);
        out
    }

    /// The series of a span.
    pub fn span_series_key(partition: &str, service: &str) -> (out: String)
        ensures
            out@ == "traces|"@ + partition@ + "|"@ + service@,
    {
        let mut out = "traces|".to_string();
        out.append(partition);
        out.append("|");
        out.append(service);
        out
    }
}

// ── Laws ────────────────────────────────────────────────────────────────────

/// The owner and the nodes that get a copy are together the holders of the shard: different
/// nodes, the owner among them once.
pub proof fn copies_go_to_the_other_holders(ring: Ring, shard: u64, local: Seq<char>, factor: nat)
    requires
        ring.len() > 0,
        factor > 0,
    ensures
        seq![primary_of(ring, shard, local)] + replicas_of(ring, shard, local, factor) == holders(
            ring,
            shard,
            factor,
        ),
        holders(ring, shard, factor).no_duplicates(),
        replicas_of(ring, shard, local, factor).len() < factor,
{
    holders_are_distinct(ring, shard, factor);
    let primary = primary_of(ring, shard, local);
    let h = holders(ring, shard, factor);
    lemma_filter_rest(h);
    assert(h =~= seq![primary] + h.skip(1));
}

/// What is left of a list of different names without the first is the rest of the list.
proof fn lemma_filter_rest(s: Seq<Seq<char>>)
    requires
        s.len() > 0,
        s.no_duplicates(),
    ensures
        s.filter(other_than(s[0])) == s.skip(1),
    decreases s.len(),
{
    reveal(Seq::filter);
    let front = s.drop_last();
    if s.len() == 1 {
        assert(front.filter(other_than(s[0])) =~= Seq::empty());
        assert(s.skip(1) =~= Seq::empty());
    } else {
        assert(front.no_duplicates()) by {
            assert forall|i: int, j: int| 0 <= i < front.len() && 0 <= j < front.len() && i
                != j implies front[i] != front[j] by {
                assert(s[i] != s[j]);
            }
        }
        lemma_filter_rest(front);
        assert(s.last() != s[0]);
        assert(front.skip(1).push(s.last()) =~= s.skip(1));
    }
}

} // verus!
