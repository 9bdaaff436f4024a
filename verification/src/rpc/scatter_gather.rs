//! Scatter and gather: a query goes to every node that holds a shard, and the replies are
//! merged.

use crate::cluster::membership::{addr_of, find_addr, node_views, ClusterView};
use crate::columnar::batch::Batch;
use crate::text::views;
use crate::common::lists::{adds, lists_stand_in_order, total};
use vstd::prelude::*;

verus! {

/// A query for the shards of one node.
#[derive(Debug)]
pub struct ShardQueryRequest {
    pub query_id: String,
    pub plan_bytes: Vec<u8>,
    pub start_ns: u64,
    pub end_ns: u64,
    pub signal: String,
    /// The most rows to return; 0 for all.
    pub max_rows: u64,
}

/// A part of a node's answer: batches in Arrow's stream format, or an error.
#[derive(Debug)]
pub struct ShardQueryResponse {
    pub record_batch_ipc: Vec<u8>,
    pub is_last: bool,
    pub rows_returned: u64,
    pub error: String,
}

/// A request on its way to a node.
pub struct ShardCall {
    pub node_id: String,
    pub uri: String,
    pub request: ShardQueryRequest,
}

/// What came of the request to a node.
pub enum ShardOutcome {
    Answered(String, Vec<Batch>),
    Failed(String, String),
    /// The call ended without a result.
    Lost,
}

/// What came of a query.
pub struct ScatterResult {
    pub batches: Vec<Batch>,
    pub error_nodes: Vec<String>,
}

/// The nodes among the targets that are in the view, each with its address.
pub open spec fn reachable(
    nodes: Seq<crate::cluster::membership::NodeModel>,
    targets: Seq<Seq<char>>,
) -> Seq<(Seq<char>, Seq<char>)>
    decreases targets.len(),
{
    if targets.len() == 0 {
        Seq::empty()
    } else {
        let front = reachable(nodes, targets.drop_last());
        match addr_of(nodes, targets.last(), 0) {
            Some(addr) => front.push((targets.last(), addr)),
            None => front,
        }
    }
}

/// Whether a call takes a query to a node.
pub open spec fn asks(c: ShardCall, target: (Seq<char>, Seq<char>), q: ShardQueryRequest) -> bool {
    &&& c.node_id@ == target.0
    &&& c.uri@ == "http://"@ + target.1
    &&& same_request(c.request, q)
}

/// Whether two requests are equal.
pub open spec fn same_request(a: ShardQueryRequest, b: ShardQueryRequest) -> bool {
    &&& a.query_id@ == b.query_id@
    &&& a.plan_bytes@ == b.plan_bytes@
    &&& a.start_ns == b.start_ns
    &&& a.end_ns == b.end_ns
    &&& a.signal@ == b.signal@
    &&& a.max_rows == b.max_rows
}

/// The batches of the nodes that answered, in the order in which they did.
pub open spec fn answered(outcomes: Seq<ShardOutcome>) -> Seq<Batch>
    decreases outcomes.len(),
{
    if outcomes.len() == 0 {
        Seq::empty()
    } else {
        let front = answered(outcomes.drop_last());
        match outcomes.last() {
            ShardOutcome::Answered(_, batches) => front + batches@,
            _ => front,
        }
    }
}

/// The nodes that failed.
pub open spec fn failed(outcomes: Seq<ShardOutcome>) -> Seq<Seq<char>>
    decreases outcomes.len(),
{
    if outcomes.len() == 0 {
        Seq::empty()
    } else {
        let front = failed(outcomes.drop_last());
        match outcomes.last() {
            ShardOutcome::Failed(node, _) => front.push(node@),
            _ => front,
        }
    }
}

/// A copy of a request.
fn clone_request(r: &ShardQueryRequest) -> (out: ShardQueryRequest)
    ensures
        same_request(out, *r),
{
    let plan_bytes = crate::bytes::copy_range(&r.plan_bytes, 0, r.plan_bytes.len());
    assert(plan_bytes@ =~= r.plan_bytes@);
    ShardQueryRequest {
        query_id: r.query_id.clone(),
        plan_bytes,
        start_ns: r.start_ns,
        end_ns: r.end_ns,
        signal: r.signal.clone(),
        max_rows: r.max_rows,
    }
}

/// The address of a node as a URI.
pub fn shard_uri(addr: &str) -> (out: String)
    ensures
        out@ == "http://"@ + addr@,
{
    let mut out = "http://".to_string();
    out.append(addr);
    out
}

/// Sends queries to the nodes of a view.
pub struct ScatterGather {
    pub view: ClusterView,
}

impl ScatterGather {
    /// A coordinator for the nodes of a view.
    pub fn new(view: ClusterView) -> (s: ScatterGather)
        ensures
            s.view == view,
    {
        ScatterGather { view }
    }

    /// The calls that a query takes: one for each target that is in the view, in order, for
    /// all rows.
    pub fn execute(
        &self,
        query_id: String,
        plan_bytes: Vec<u8>,
        start_ns: u64,
        end_ns: u64,
        signal: String,
        target_nodes: &Vec<String>,
    ) -> (out: Vec<ShardCall>)
        ensures
            out@.len() == reachable(self.view@.nodes, views(target_nodes@)).len(),
            forall|i: int|
                0 <= i < out@.len() ==> asks(
                    #[trigger] out@[i],
                    reachable(self.view@.nodes, views(target_nodes@))[i],
                    ShardQueryRequest { query_id, plan_bytes, start_ns, end_ns, signal, max_rows: 0 },
                ),
    {
        let ghost nodes = self.view@.nodes;
        let ghost all = views(target_nodes@);
        let request = ShardQueryRequest {
            query_id,
            plan_bytes,
            start_ns,
            end_ns,
            signal,
            max_rows: 0,
        };
        let mut out: Vec<ShardCall> = Vec::new();
        for i in 0..target_nodes.len()
            invariant
                nodes == node_views(self.view.nodes@),
                all == views(target_nodes@),
                out@.len() == reachable(nodes, all.take(i as int)).len(),
                forall|j: int|
                    0 <= j < out@.len() ==> asks(
                        #[trigger] out@[j],
                        reachable(nodes, all.take(i as int))[j],
                        request,
                    ),
        {
            assert(all.take(i + 1).drop_last() =~= all.take(i as int));
            assert(all.take(i + 1).last() == target_nodes@[i as int]@);
            match find_addr(&self.view.nodes, target_nodes[i].as_str()) {
                Some(addr) => {
                    out.push(
                        ShardCall {
                            node_id: target_nodes[i].clone(),
                            uri: shard_uri(addr.as_str()),
                            request: clone_request(&request),
                        },
                    );
                },
                None => {},
            }
        }
        assert(all.take(all.len() as int) =~= all);
        out
    }
}

/// Merges what came of the calls of a query.
pub fn gather(outcomes: Vec<ShardOutcome>) -> (out: ScatterResult)
    ensures
        out.batches@ == answered(outcomes@),
        views(out.error_nodes@) == failed(outcomes@),
{
    let ghost all = outcomes@;
    let mut rest = outcomes;
    let mut batches: Vec<Batch> = Vec::new();
    let mut error_nodes: Vec<String> = Vec::new();
    let n: usize = rest.len();
    assert(all.take(0) =~= Seq::empty());
    assert(rest@ =~= all.skip(0));
    assert(views(error_nodes@) =~= Seq::empty());
    for i in 0..n
        invariant
            n == all.len(),
            rest@ == all.skip(i as int),
            batches@ == answered(all.take(i as int)),
            views(error_nodes@) == failed(all.take(i as int)),
    {
        assert(all.take(i + 1).drop_last() =~= all.take(i as int));
        let outcome = rest.remove(0);
        assert(rest@ =~= all.skip(i + 1));
        assert(all.take(i + 1).last() == outcome);
        match outcome {
            ShardOutcome::Answered(_, more) => {
                let mut more = more;
                batches.append(&mut more);
            },
            ShardOutcome::Failed(node, _) => {
                let ghost before = views(error_nodes@);
                let ghost name = node@;
                error_nodes.push(node);
                assert(views(error_nodes@) =~= before.push(name));
            },
            ShardOutcome::Lost => {},
        }
    }
    assert(all.take(n as int) =~= all);
    ScatterResult { batches, error_nodes }
}

/// Whether a part of an answer holds batches that have to be read.
pub fn holds_batches(reply: &ShardQueryResponse) -> (yes: bool)
    ensures
        yes == (reply.error@.len() == 0 && reply.record_batch_ipc@.len() > 0),
{
    reply.error.as_str().unicode_len() == 0 && reply.record_batch_ipc.len() > 0
}

/// Takes in a part of an answer, with what its batches were read as, where it holds some.
/// Tells whether the answer is complete; an error in the part, or in reading it, ends it.
pub fn take_reply(
    batches: &mut Vec<Batch>,
    reply: ShardQueryResponse,
    read: Result<Vec<Batch>, String>,
) -> (out: Result<bool, String>)
    ensures
        ({
            let reads = reply.record_batch_ipc@.len() > 0;
            match out {
                Ok(last) => {
                    &&& reply.error@.len() == 0
                    &&& reads ==> read is Ok
                    &&& last == reply.is_last
                    &&& final(batches)@ == if reads {
                        old(batches)@ + read->Ok_0@
                    } else {
                        old(batches)@
                    }
                },
                Err(e) => {
                    &&& final(batches)@ == old(batches)@
                    &&& if reply.error@.len() > 0 {
                        e == reply.error
                    } else {
                        reads && read == Err::<Vec<Batch>, String>(e)
                    }
                },
            }
        }),
{
    if reply.error.as_str().unicode_len() > 0 {
        return Err(reply.error);
    }
    if reply.record_batch_ipc.len() > 0 {
        match read {
            Ok(more) => {
                let mut more = more;
                batches.append(&mut more);
            },
            Err(e) => {
                return Err(e);
            },
        }
    }
    Ok(reply.is_last)
}

// ── Laws ────────────────────────────────────────────────────────────────────

/// A query goes to a target exactly if the target is in the view.
pub proof fn every_known_target_is_asked(
    nodes: Seq<crate::cluster::membership::NodeModel>,
    targets: Seq<Seq<char>>,
    node: Seq<char>,
)
    ensures
        (exists|i: int|
            0 <= i < reachable(nodes, targets).len() && (#[trigger] reachable(nodes, targets)[i]).0
                == node) <==> (targets.contains(node) && addr_of(nodes, node, 0) is Some),
    decreases targets.len(),
{
    if targets.len() > 0 {
        let front = targets.drop_last();
        let before = reachable(nodes, front);
        let now = reachable(nodes, targets);
        every_known_target_is_asked(nodes, front, node);
        if targets.contains(node) && addr_of(nodes, node, 0) is Some {
            if targets.last() == node {
                assert(now[now.len() - 1].0 == node);
            } else {
                let k = choose|k: int| 0 <= k < targets.len() && targets[k] == node;
                assert(front[k] == node);
                let i = choose|i: int| 0 <= i < before.len() && (#[trigger] before[i]).0 == node;
                assert(now[i] == before[i]);
            }
        }
        if exists|i: int| 0 <= i < now.len() && (#[trigger] now[i]).0 == node {
            let i = choose|i: int| 0 <= i < now.len() && (#[trigger] now[i]).0 == node;
            if i < before.len() {
                assert(before[i] == now[i]);
                let k = choose|k: int| 0 <= k < front.len() && front[k] == node;
                assert(targets[k] == node);
            } else {
                assert(targets[targets.len() - 1] == node);
            }
        }
    }
}

/// How many batches came of a call.
pub open spec fn batches_in() -> spec_fn(ShardOutcome) -> nat {
    |o: ShardOutcome|
        match o {
            ShardOutcome::Answered(_, batches) => batches@.len(),
            _ => 0,
        }
}

/// Every batch of every node that answered is given, in the order of the answers, and no
/// other.
pub proof fn every_answer_is_given(outcomes: Seq<ShardOutcome>, i: int, j: int)
    requires
        0 <= i < outcomes.len(),
        outcomes[i] matches ShardOutcome::Answered(_, b) && 0 <= j < b@.len(),
    ensures
        ({
            let at = total(outcomes, batches_in(), i as nat) + j;
            &&& answered(outcomes).len() == total(outcomes, batches_in(), outcomes.len())
            &&& at < answered(outcomes).len()
            &&& answered(outcomes)[at] == outcomes[i]->Answered_1@[j]
        }),
{
    let all = |m: nat| answered(outcomes.take(m as int));
    let own = |o: ShardOutcome|
        match o {
            ShardOutcome::Answered(_, batches) => batches@,
            _ => Seq::empty(),
        };
    assert forall|m: nat| 0 < m <= outcomes.len() implies #[trigger] adds(
        outcomes,
        all,
        own,
        batches_in(),
        m,
    ) by {
        assert(outcomes.take(m as int).drop_last() =~= outcomes.take(m - 1));
        assert(outcomes.take(m as int).last() == outcomes[m - 1]);
        assert(all(m) =~= all((m - 1) as nat) + own(outcomes[m - 1]));
    }
    lists_stand_in_order(outcomes, all, own, batches_in(), outcomes.len(), i, j);
    assert(outcomes.take(outcomes.len() as int) =~= outcomes);
}

/// A node counts as failed if and only if its call failed.
pub proof fn failed_nodes_are_those_that_failed(outcomes: Seq<ShardOutcome>, node: Seq<char>)
    ensures
        failed(outcomes).contains(node) <==> exists|i: int|
            0 <= i < outcomes.len() && ((#[trigger] outcomes[i]) matches ShardOutcome::Failed(n, _)
                && n@ == node),
    decreases outcomes.len(),
{
    if outcomes.len() > 0 {
        let front = outcomes.drop_last();
        let n = outcomes.len();
        failed_nodes_are_those_that_failed(front, node);
        assert(forall|i: int| 0 <= i < n - 1 ==> front[i] == outcomes[i]);
        assert(outcomes.last() == outcomes[n - 1]);
        let before = failed(front);
        let now = failed(outcomes);
        if before.contains(node) {
            let k = choose|k: int| 0 <= k < before.len() && before[k] == node;
            assert(now[k] == node);
        }
        if now.contains(node) {
            let k = choose|k: int| 0 <= k < now.len() && now[k] == node;
            if k < before.len() {
                assert(before[k] == node);
            }
        }
        if outcomes.last() is Failed && outcomes.last()->Failed_0@ == node {
            assert(now[before.len() as int] == node);
        }
        if exists|i: int|
            0 <= i < n && ((#[trigger] outcomes[i]) matches ShardOutcome::Failed(x, _) && x@ == node) {
            let i = choose|i: int|
                0 <= i < n && ((#[trigger] outcomes[i]) matches ShardOutcome::Failed(x, _) && x@
                    == node);
            if i < n - 1 {
                assert(front[i] == outcomes[i]);
            }
        }
    }
}

/// A target that is asked is asked at its address.
pub proof fn targets_are_asked_at_their_addresses(
    nodes: Seq<crate::cluster::membership::NodeModel>,
    targets: Seq<Seq<char>>,
    i: int,
)
    requires
        0 <= i < reachable(nodes, targets).len(),
    ensures
        addr_of(nodes, reachable(nodes, targets)[i].0, 0) == Some(reachable(nodes, targets)[i].1),
    decreases targets.len(),
{
    if targets.len() > 0 && i < reachable(nodes, targets.drop_last()).len() {
        targets_are_asked_at_their_addresses(nodes, targets.drop_last(), i);
    }
}

} // verus!
