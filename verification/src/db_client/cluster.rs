//! Decisions of the cluster dispatcher: how a write is split by endpoint, and
//! what the answers of the endpoints add up to.

use crate::db_client::pool::StandalonePool;
use crate::errors::{
    failures, lemma_rows_grow, ok_failed, ok_names, ok_success, ClusterWriteError, Error,
    PartOutcome,
};
use crate::model::{
    distinct_names, entry_names, Endpoint, QueryRequest, WriteRequest, WriteResponse,
};
use std::sync::Arc;
use vstd::prelude::*;

verus! {

/// Message of the failure of a query that names no metric.
pub const NO_METRICS: &'static str = "Metrics in query request can't be empty in cluster mode";

/// Message of the failure of a query whose metric no endpoint is known for.
pub const NO_ENDPOINT: &'static str = "Metric doesn't have corresponding endpoint";

/// Message of the failure recorded for the names of a write that no endpoint
/// is known for.
pub const NO_ENDPOINTS: &'static str = "Metrics don't have corresponding endpoints";

/// The node that the router named for the entry at position `at`; none where
/// the router named none or gave no answer for that position.
pub open spec fn node_of(routed: Seq<Option<Endpoint>>, at: int) -> Option<Seq<char>> {
    if 0 <= at < routed.len() {
        match routed[at] {
            Some(ep) => Some(ep@),
            None => None,
        }
    } else {
        None
    }
}

/// The nodes named for the first `n` entries, each once, in the order in
/// which they first occur.
pub open spec fn nodes(routed: Seq<Option<Endpoint>>, n: nat) -> Seq<Seq<char>>
    decreases n,
{
    if n == 0 {
        Seq::empty()
    } else {
        let before = nodes(routed, (n - 1) as nat);
        match node_of(routed, n - 1) {
            Some(node) => if before.contains(node) {
                before
            } else {
                before.push(node)
            },
            None => before,
        }
    }
}

/// The entries that go to `node`, in request order.
pub open spec fn entries_for<E>(
    entries: Seq<(String, E)>,
    routed: Seq<Option<Endpoint>>,
    node: Seq<char>,
) -> Seq<(String, E)>
    decreases entries.len(),
{
    if entries.len() == 0 {
        Seq::empty()
    } else {
        let before = entries_for(entries.drop_last(), routed, node);
        if node_of(routed, entries.len() - 1) == Some(node) {
            before.push(entries.last())
        } else {
            before
        }
    }
}

/// The names that no node was named for, in request order.
pub open spec fn unrouted<E>(entries: Seq<(String, E)>, routed: Seq<Option<Endpoint>>) -> Seq<
    String,
>
    decreases entries.len(),
{
    if entries.len() == 0 {
        Seq::empty()
    } else {
        let before = unrouted(entries.drop_last(), routed);
        if node_of(routed, entries.len() - 1) is None {
            before.push(entries.last().0)
        } else {
            before
        }
    }
}

/// The part of a write that goes to one endpoint.
#[derive(Debug)]
pub struct SubWrite<E> {
    pub endpoint: Endpoint,
    pub request: WriteRequest<E>,
}

/// The names of a write while its parts are under way: `parts[g]` are the
/// names sent in the `g`-th sub-write, `unroutable` those that were sent
/// nowhere because no endpoint is known for them.
#[derive(Debug)]
pub struct PendingWrite {
    pub parts: Vec<Vec<String>>,
    pub unroutable: Vec<String>,
}

/// A write split by endpoint.
#[derive(Debug)]
pub struct WritePlan<E> {
    pub sub_writes: Vec<SubWrite<E>>,
    pub pending: PendingWrite,
}

/// The nodes are distinct, and they are exactly the nodes that the router
/// named for one of the first `n` entries.
pub proof fn lemma_nodes_distinct(routed: Seq<Option<Endpoint>>, n: nat)
    ensures
        nodes(routed, n).no_duplicates(),
        forall|k: int|
            0 <= k < n ==> (#[trigger] node_of(routed, k) matches Some(node) ==> nodes(
                routed,
                n,
            ).contains(node)),
        forall|node: Seq<char>| #[trigger]
            nodes(routed, n).contains(node) ==> exists|k: int|
                0 <= k < n && node_of(routed, k) == Some(node),
    decreases n,
{
    if n > 0 {
        lemma_nodes_distinct(routed, (n - 1) as nat);
        let before = nodes(routed, (n - 1) as nat);
        let after = nodes(routed, n);
        match node_of(routed, n - 1) {
            Some(node) => {
                if !before.contains(node) {
                    assert(after == before.push(node));
                    assert(after[after.len() - 1] == node);
                    assert forall|x: Seq<char>| before.contains(x) implies after.contains(x) by {
                        let j = choose|j: int| 0 <= j < before.len() && before[j] == x;
                        assert(after[j] == x);
                    }
                    assert forall|x: Seq<char>| #[trigger] after.contains(x) implies exists|k: int|
                        0 <= k < n && node_of(routed, k) == Some(x) by {
                        if x != node {
                            let j = choose|j: int| 0 <= j < after.len() && after[j] == x;
                            assert(before[j] == x);
                            assert(before.contains(x));
                        }
                    }
                }
            },
            None => {},
        }
    }
}

/// What one more entry adds to the entries of a node.
proof fn lemma_entries_for_step<E>(
    entries: Seq<(String, E)>,
    routed: Seq<Option<Endpoint>>,
    node: Seq<char>,
    i: int,
)
    requires
        0 <= i < entries.len(),
    ensures
        entries_for(entries.take(i + 1), routed, node) == if node_of(routed, i) == Some(node) {
            entries_for(entries.take(i), routed, node).push(entries[i])
        } else {
            entries_for(entries.take(i), routed, node)
        },
        unrouted(entries.take(i + 1), routed) == if node_of(routed, i) is None {
            unrouted(entries.take(i), routed).push(entries[i].0)
        } else {
            unrouted(entries.take(i), routed)
        },
{
    assert(entries.take(i + 1).drop_last() == entries.take(i));
    assert(entries.take(i + 1).last() == entries[i]);
}

/// Every entry of a node is an entry of the request.
proof fn lemma_entries_for_within<E>(
    entries: Seq<(String, E)>,
    routed: Seq<Option<Endpoint>>,
    node: Seq<char>,
)
    ensures
        forall|j: int|
            0 <= j < entries_for(entries, routed, node).len() ==> entries.contains(
                #[trigger] entries_for(entries, routed, node)[j],
            ),
    decreases entries.len(),
{
    if entries.len() > 0 {
        let shorter = entries.drop_last();
        lemma_entries_for_within(shorter, routed, node);
        let before = entries_for(shorter, routed, node);
        let all = entries_for(entries, routed, node);
        assert forall|j: int| 0 <= j < all.len() implies entries.contains(#[trigger] all[j]) by {
            if j < before.len() {
                assert(all[j] == before[j]);
                assert(shorter.contains(before[j]));
                let k = choose|k: int| 0 <= k < shorter.len() && shorter[k] == before[j];
                assert(entries[k] == all[j]);
            } else {
                assert(all == before.push(entries.last()));
                assert(entries[entries.len() - 1] == all[j]);
            }
        }
    }
}

impl<E> WritePlan<E> {
    /// Whether this plan is the split of `entries` that the routing answers
    /// `routed` call for: one sub-write per node, in the order in which the
    /// nodes first occur, with the entries of that node in request order;
    /// the names sent with each sub-write; and the names left without a node.
    pub open spec fn splits(self, entries: Seq<(String, E)>, routed: Seq<Option<Endpoint>>) -> bool {
        let nodes = nodes(routed, entries.len());
        &&& self.sub_writes@.len() == nodes.len()
        &&& self.pending.parts@.len() == nodes.len()
        &&& forall|g: int|
            0 <= g < nodes.len() ==> {
                &&& (#[trigger] self.sub_writes@[g]).endpoint@ == nodes[g]
                &&& self.sub_writes@[g].request@ == entries_for(entries, routed, nodes[g])
            }
        &&& forall|g: int|
            0 <= g < nodes.len() ==> (#[trigger] self.pending.parts@[g])@ == entry_names(
                entries_for(entries, routed, nodes[g]),
            )
        &&& self.pending.unroutable@ == unrouted(entries, routed)
    }

    /// Splits a write by endpoint. `routed[i]` is the router's answer for the
    /// `i`-th name of the request; a name whose answer is missing or empty
    /// goes to no endpoint.
    pub fn new(req: WriteRequest<E>, routed: &Vec<Option<Endpoint>>) -> (plan: Self)
        ensures
            plan.splits(req@, routed@),
    {
        let entries = req.into_entries();
        let ghost es = entries@;
        assert(es.len() == entries.len());
        let mut sub_writes: Vec<SubWrite<E>> = Vec::new();
        let mut unroutable: Vec<String> = Vec::new();
        let mut i: usize = 0;
        assert(es.take(0) == Seq::<(String, E)>::empty());
        for entry in it: entries
            invariant
                it.seq() == es,
                es.len() <= usize::MAX,
                distinct_names(es),
                i == it.index(),
                sub_writes@.len() == nodes(routed@, i as nat).len(),
                forall|g: int|
                    0 <= g < sub_writes@.len() ==> {
                        &&& (#[trigger] sub_writes@[g]).endpoint@ == nodes(routed@, i as nat)[g]
                        &&& sub_writes@[g].request@ == entries_for(
                            es.take(i as int),
                            routed@,
                            nodes(routed@, i as nat)[g],
                        )
                    },
                unroutable@ == unrouted(es.take(i as int), routed@),
        {
            let ghost before = nodes(routed@, i as nat);
            proof {
                lemma_nodes_distinct(routed@, i as nat);
                assert forall|node: Seq<char>|
                    entries_for(es.take(i + 1), routed@, node) == if node_of(routed@, i as int)
                        == Some(node) {
                        entries_for(es.take(i as int), routed@, node).push(es[i as int])
                    } else {
                        entries_for(es.take(i as int), routed@, node)
                    } by {
                    lemma_entries_for_step(es, routed@, node, i as int);
                }
                lemma_entries_for_step(es, routed@, Seq::empty(), i as int);
            }
            let (name, payload) = entry;
            if i < routed.len() && routed[i].is_some() {
                let ep: &Endpoint = routed[i].as_ref().unwrap();
                let ghost node = ep@;
                assert(node_of(routed@, i as int) == Some(node));
                let mut g: usize = 0;
                while g < sub_writes.len() && !sub_writes[g].endpoint.same_node(ep)
                    invariant
                        g <= sub_writes.len(),
                        node == ep@,
                        sub_writes@.len() == before.len(),
                        forall|h: int| 0 <= h < sub_writes@.len() ==> (#[trigger] sub_writes@[h]).endpoint@ == before[h],
                        forall|h: int| 0 <= h < g ==> before[h] != node,
                    decreases sub_writes.len() - g,
                {
                    g += 1;
                }
                if g < sub_writes.len() {
                    proof {
                        assert(before[g as int] == node);
                        assert(before.contains(node));
                        lemma_entries_for_within(es.take(i as int), routed@, node);
                        let held = entries_for(es.take(i as int), routed@, node);
                        assert forall|j: int| 0 <= j < held.len() implies (#[trigger] held[j]).0@
                            != name@ by {
                            assert(es.take(i as int).contains(held[j]));
                            let k = choose|k: int|
                                0 <= k < es.take(i as int).len() && es.take(i as int)[k]
                                    == held[j];
                            assert(es[k].0@ != es[i as int].0@);
                        }
                    }
                    sub_writes[g].request.push_new(name, payload);
                } else {
                    assert(!before.contains(node));
                    let mut request = WriteRequest::new();
                    request.push_new(name, payload);
                    sub_writes.push(SubWrite { endpoint: Endpoint::new(ep.addr.clone()), request });
                    proof {
                        lemma_entries_for_absent(es.take(i as int), routed@, node, i as nat);
                    }
                }
            } else {
                assert(node_of(routed@, i as int) is None);
                unroutable.push(name);
            }
            i += 1;
        }
        assert(es.take(es.len() as int) == es);
        let mut parts: Vec<Vec<String>> = Vec::new();
        let mut g: usize = 0;
        while g < sub_writes.len()
            invariant
                g <= sub_writes.len(),
                parts@.len() == g,
                forall|h: int| 0 <= h < g ==> (#[trigger] parts@[h])@ == entry_names(sub_writes@[h].request@),
            decreases sub_writes.len() - g,
        {
            parts.push(sub_writes[g].request.names());
            g += 1;
        }
        WritePlan { sub_writes, pending: PendingWrite { parts, unroutable } }
    }
}

/// Nothing goes to a node that was named for none of the entries.
proof fn lemma_entries_for_absent<E>(
    entries: Seq<(String, E)>,
    routed: Seq<Option<Endpoint>>,
    node: Seq<char>,
    n: nat,
)
    requires
        entries.len() <= n,
        !nodes(routed, n).contains(node),
    ensures
        entries_for(entries, routed, node) == Seq::<(String, E)>::empty(),
    decreases entries.len(),
{
    lemma_nodes_distinct(routed, n);
    if entries.len() > 0 {
        lemma_entries_for_absent(entries.drop_last(), routed, node, n);
    }
}

/// The names of each part next to what its endpoint answered.
pub open spec fn zipped(
    parts: Seq<Vec<String>>,
    results: Seq<Result<WriteResponse, Error>>,
) -> Seq<PartOutcome>
    recommends
        parts.len() == results.len(),
{
    Seq::new(parts.len(), |g: int| (parts[g], results[g]))
}

/// The names of the parts that failed because their route is out of date,
/// part after part.
pub open spec fn stale_names(outcomes: Seq<PartOutcome>) -> Seq<String>
    decreases outcomes.len(),
{
    if outcomes.len() == 0 {
        Seq::empty()
    } else {
        match outcomes.last().1 {
            Ok(_) => stale_names(outcomes.drop_last()),
            Err(e) => if e.is_stale_route() {
                stale_names(outcomes.drop_last()) + outcomes.last().0@
            } else {
                stale_names(outcomes.drop_last())
            },
        }
    }
}

/// Whether `merged` is the aggregate of a write whose sent parts came out as
/// `sent` and whose names in `unroutable` were sent nowhere: the names and
/// row totals of the parts that succeeded, then the parts that failed in
/// order, then, where there are unroutable names, one more failure that
/// holds them with the caller-side error `NO_ENDPOINTS`.
pub open spec fn merged_from(
    merged: ClusterWriteError,
    sent: Seq<PartOutcome>,
    unroutable: Vec<String>,
) -> bool {
    &&& merged.ok.0@ == ok_names(sent)
    &&& merged.ok.1.success == ok_success(sent)
    &&& merged.ok.1.failed == ok_failed(sent)
    &&& if unroutable@.len() == 0 {
        merged.errors@ == failures(sent)
    } else {
        &&& merged.errors@.len() == failures(sent).len() + 1
        &&& merged.errors@.drop_last() == failures(sent)
        &&& merged.errors@.last().0 == unroutable
        &&& merged.errors@.last().1.is_client(NO_ENDPOINTS@)
    }
}

/// What a write comes to: the names whose routes the router must drop, and
/// the result for the caller.
#[derive(Debug)]
pub struct WriteOutcome {
    pub evicts: Vec<String>,
    pub result: Result<WriteResponse, Error>,
}

impl WriteOutcome {
    /// Whether this is the outcome of the write `pending` once its parts were
    /// answered with `results`.
    ///
    /// The routes to drop are the names of the parts that failed with a stale
    /// route. The result is the row totals where every name was sent and
    /// every part succeeded, else the aggregate of all parts.
    pub open spec fn follows(
        self,
        pending: PendingWrite,
        results: Seq<Result<WriteResponse, Error>>,
    ) -> bool {
        let sent = pending.sent(results);
        &&& self.evicts@ == stale_names(sent)
        &&& if failures(sent).len() == 0 && pending.unroutable@.len() == 0 {
            &&& self.result matches Ok(resp)
            &&& resp.success == ok_success(sent)
            &&& resp.failed == ok_failed(sent)
        } else {
            &&& self.result matches Err(Error::ClusterWriteError(merged))
            &&& merged_from(merged, sent, pending.unroutable)
        }
    }
}

/// The same items, last first.
fn reversed<T>(items: Vec<T>) -> (back: Vec<T>)
    ensures
        back@ == items@.reverse(),
{
    let ghost all = items@;
    let mut items = items;
    let mut back: Vec<T> = Vec::new();
    while items.len() > 0
        invariant
            items@.len() <= all.len(),
            items@ == all.take(items@.len() as int),
            back@.len() == all.len() - items@.len(),
            forall|k: int| 0 <= k < back@.len() ==> back@[k] == all[all.len() - 1 - k],
        decreases items.len(),
    {
        let item = items.pop().unwrap();
        back.push(item);
    }
    assert(back@ =~= all.reverse());
    back
}

/// Appends copies of the names in `more` to `names`.
fn push_names(names: &mut Vec<String>, more: &Vec<String>)
    ensures
        final(names)@ == old(names)@ + more@,
{
    let mut k: usize = 0;
    while k < more.len()
        invariant
            k <= more.len(),
            names@ == old(names)@ + more@.take(k as int),
        decreases more.len() - k,
    {
        names.push(more[k].clone());
        assert(more@.take(k + 1) == more@.take(k as int).push(more@[k as int]));
        k += 1;
    }
    assert(more@.take(k as int) == more@);
}

/// The names whose routes must be dropped after these outcomes: those of
/// every part whose failure the server reported and `should_refresh` accepts.
pub fn evict_names(outcomes: &Vec<PartOutcome>) -> (names: Vec<String>)
    ensures
        names@ == stale_names(outcomes@),
{
    let mut names: Vec<String> = Vec::new();
    let mut g: usize = 0;
    assert(outcomes@.take(0) == Seq::<PartOutcome>::empty());
    while g < outcomes.len()
        invariant
            g <= outcomes.len(),
            names@ == stale_names(outcomes@.take(g as int)),
        decreases outcomes.len() - g,
    {
        assert(outcomes@.take(g + 1).drop_last() == outcomes@.take(g as int));
        assert(outcomes@.take(g + 1).last() == outcomes@[g as int]);
        match &outcomes[g].1 {
            Ok(_) => {},
            Err(e) => {
                if e.stale_route() {
                    push_names(&mut names, &outcomes[g].0);
                }
            },
        }
        g += 1;
    }
    assert(outcomes@.take(g as int) == outcomes@);
    names
}

impl PendingWrite {
    /// The parts that were sent, each with the answer of its endpoint.
    pub open spec fn sent(self, results: Seq<Result<WriteResponse, Error>>) -> Seq<PartOutcome> {
        zipped(self.parts@, results)
    }

    /// Whether `results` can be the answers to this write: one answer for
    /// each part, with row totals that fit the counters of a `WriteResponse`.
    pub open spec fn accepts(self, results: Seq<Result<WriteResponse, Error>>) -> bool {
        &&& results.len() == self.parts@.len()
        &&& ok_success(self.sent(results)) <= u32::MAX
        &&& ok_failed(self.sent(results)) <= u32::MAX
    }

    /// Tests whether `results` can be the answers to this write.
    pub fn accepts_results(&self, results: &Vec<Result<WriteResponse, Error>>) -> (fits: bool)
        ensures
            fits == self.accepts(results@),
    {
        if results.len() != self.parts.len() {
            return false;
        }
        let ghost sent = self.sent(results@);
        let mut success: u64 = 0;
        let mut failed: u64 = 0;
        let mut g: usize = 0;
        assert(sent.take(0) == Seq::<PartOutcome>::empty());
        while g < results.len()
            invariant
                g <= results.len(),
                results.len() == self.parts.len(),
                sent == self.sent(results@),
                success == ok_success(sent.take(g as int)),
                failed == ok_failed(sent.take(g as int)),
                success <= u32::MAX,
                failed <= u32::MAX,
            decreases results.len() - g,
        {
            proof {
                assert(sent.take(g + 1).drop_last() == sent.take(g as int));
                assert(sent.take(g + 1).last() == sent[g as int]);
                lemma_rows_grow(sent, g + 1);
            }
            match &results[g] {
                Ok(resp) => {
                    success += resp.success as u64;
                    failed += resp.failed as u64;
                    if success > u32::MAX as u64 || failed > u32::MAX as u64 {
                        return false;
                    }
                },
                Err(_) => {},
            }
            g += 1;
        }
        assert(sent.take(g as int) == sent);
        true
    }

    /// Pairs the names of each part with the answer of its endpoint, and adds
    /// the unroutable names, where there are any, as a part that failed on
    /// the caller's side without being sent.
    pub fn outcomes(self, results: Vec<Result<WriteResponse, Error>>) -> (outcomes: Vec<PartOutcome>)
        requires
            results@.len() == self.parts@.len(),
        ensures
            self.unroutable@.len() == 0 ==> outcomes@ == self.sent(results@),
            self.unroutable@.len() > 0 ==> {
                &&& outcomes@.len() == results@.len() + 1
                &&& outcomes@.drop_last() == self.sent(results@)
                &&& outcomes@.last().0 == self.unroutable
                &&& outcomes@.last().1 matches Err(e) && e.is_client(NO_ENDPOINTS@)
            },
    {
        let ghost sent = self.sent(results@);
        let ghost answers = results@;
        let ghost names = self.parts@;
        let PendingWrite { parts, unroutable } = self;
        let mut waiting = reversed(parts);
        let mut outcomes: Vec<PartOutcome> = Vec::new();
        for result in it: results
            invariant
                it.seq() == answers,
                names.len() == answers.len(),
                sent == zipped(names, answers),
                waiting@ == names.reverse().take(names.len() - it.index()),
                outcomes@ == sent.take(it.index() as int),
        {
            let ghost done = it.index() as int;
            let part = waiting.pop().unwrap();
            assert(part == names[done]);
            outcomes.push((part, result));
            assert(outcomes@ =~= sent.take(done + 1));
            assert(waiting@ =~= names.reverse().take(names.len() - (done + 1)));
        }
        assert(sent.take(answers.len() as int) == sent);
        if unroutable.len() > 0 {
            outcomes.push((unroutable, Err(Error::client(NO_ENDPOINTS))));
            assert(outcomes@.drop_last() == sent);
        }
        outcomes
    }

    /// Closes the write once every part has been answered: `results[g]` is
    /// the answer to the `g`-th sub-write.
    pub fn finish(self, results: Vec<Result<WriteResponse, Error>>) -> (outcome: WriteOutcome)
        requires
            self.accepts(results@),
        ensures
            outcome.follows(self, results@),
    {
        let ghost sent = self.sent(results@);
        let outcomes = self.outcomes(results);
        proof {
            let all = outcomes@;
            if self.unroutable@.len() > 0 {
                assert(all.drop_last() == sent);
                assert(!all.last().1->Err_0.is_stale_route());
                assert(stale_names(all) == stale_names(sent));
                assert(ok_names(all) == ok_names(sent));
                assert(ok_success(all) == ok_success(sent));
                assert(ok_failed(all) == ok_failed(sent));
                assert(failures(all) == failures(sent).push(
                    (self.unroutable, all.last().1->Err_0),
                ));
                assert(failures(all).drop_last() == failures(sent));
            }
        }
        let evicts = evict_names(&outcomes);
        let cluster_error = ClusterWriteError::from(outcomes);
        if cluster_error.all_ok() {
            WriteOutcome { evicts, result: Ok(cluster_error.ok.1) }
        } else {
            WriteOutcome { evicts, result: Err(Error::ClusterWriteError(cluster_error)) }
        }
    }
}

/// The names to hand to the router for a query: its first metric and no
/// other. A query that names no metric fails at once.
pub fn query_targets(req: &QueryRequest) -> (targets: Result<Vec<String>, Error>)
    ensures
        req.metrics@.len() == 0 ==> (targets matches Err(e) && e.is_client(NO_METRICS@)),
        req.metrics@.len() > 0 ==> (targets matches Ok(names) && names@ == seq![req.metrics@[0]]),
{
    if req.metrics.len() == 0 {
        return Err(Error::client(NO_METRICS));
    }
    let mut names: Vec<String> = Vec::new();
    names.push(req.metrics[0].clone());
    assert(names@ =~= seq![req.metrics@[0]]);
    Ok(names)
}

/// The endpoint to query: the router's first answer. Where the router knows
/// none, the query fails on the caller's side.
pub fn query_endpoint(routed: Vec<Option<Endpoint>>) -> (target: Result<Endpoint, Error>)
    ensures
        routed@.len() > 0 && routed@[0] is Some ==> target == Ok::<Endpoint, Error>(
            routed@[0]->Some_0,
        ),
        !(routed@.len() > 0 && routed@[0] is Some) ==> (target matches Err(e) && e.is_client(
            NO_ENDPOINT@,
        )),
{
    let mut routed = routed;
    if routed.len() > 0 {
        if let Some(ep) = routed.swap_remove(0) {
            return Ok(ep);
        }
    }
    Err(Error::client(NO_ENDPOINT))
}

/// What a query comes to: the names whose routes the router must drop, where
/// it must drop any, and the result for the caller.
#[derive(Debug)]
pub struct QueryOutcome<Q> {
    pub evicts: Option<Vec<String>>,
    pub result: Result<Q, Error>,
}

/// Closes a query with the answer of its endpoint. The answer goes to the
/// caller as it is; after a failure the routes of all metrics of the query
/// are to be dropped.
pub fn query_outcome<Q>(req: &QueryRequest, result: Result<Q, Error>) -> (outcome: QueryOutcome<Q>)
    ensures
        outcome.result == result,
        result is Ok ==> outcome.evicts is None,
        result is Err ==> (outcome.evicts matches Some(names) && names@ == req.metrics@),
{
    let evicts = if result.is_err() {
        let mut names: Vec<String> = Vec::new();
        push_names(&mut names, &req.metrics);
        Some(names)
    } else {
        None
    };
    QueryOutcome { evicts, result }
}

/// The stateful half of the cluster dispatcher: the client handles of the
/// endpoints it has talked to.
#[verifier::reject_recursive_types(C)]
pub struct ClusterImpl<C, B: Fn(String) -> C> {
    standalone_pool: StandalonePool<C, B>,
}

impl<C, B: Fn(String) -> C> ClusterImpl<C, B> {
    pub closed spec fn wf(&self) -> bool {
        self.standalone_pool.wf()
    }

    /// The clients in the pool, by the address of their endpoint.
    pub closed spec fn clients(&self) -> Map<Seq<char>, C> {
        self.standalone_pool@
    }

    /// The builder of the pool's clients.
    pub closed spec fn builder(&self) -> B {
        self.standalone_pool.builder()
    }

    /// A dispatcher that has no client yet and builds them with
    /// `standalone_builder`, which must accept any address.
    pub fn new(standalone_builder: B) -> (cluster: Self)
        requires
            forall|addr: String| standalone_builder.requires((addr,)),
        ensures
            cluster.wf(),
            cluster.clients() == Map::<Seq<char>, C>::empty(),
            cluster.builder() == standalone_builder,
    {
        ClusterImpl { standalone_pool: StandalonePool::new(standalone_builder) }
    }

    /// The handle for `endpoint`, built now if the pool has none. The pool
    /// keeps it, and keeps every handle it held before.
    pub fn client_for(&mut self, endpoint: &Endpoint) -> (handle: Arc<C>)
        requires
            old(self).wf(),
        ensures
            final(self).wf(),
            final(self).builder() == old(self).builder(),
            final(self).clients().contains_key(endpoint@) && final(self).clients()[endpoint@]
                == *handle,
            old(self).clients().submap_of(final(self).clients()),
            old(self).clients().contains_key(endpoint@) ==> final(self).clients() == old(
                self).clients(),
            !old(self).clients().contains_key(endpoint@) ==> final(self).clients() == old(
                self).clients().insert(endpoint@, *handle) && StandalonePool::<C, B>::built_for(
                old(self).builder(),
                endpoint@,
                *handle,
            ),
    {
        self.standalone_pool.get_or_create(endpoint)
    }

    /// The handles for the sub-writes of a plan, in their order.
    ///
    /// Handles that the pool held stay as they were; each endpoint that had
    /// none gets one from the builder, and nothing else enters the pool.
    pub fn clients_for<E>(&mut self, sub_writes: &Vec<SubWrite<E>>) -> (handles: Vec<Arc<C>>)
        requires
            old(self).wf(),
        ensures
            final(self).wf(),
            final(self).builder() == old(self).builder(),
            handles@.len() == sub_writes@.len(),
            forall|g: int|
                0 <= g < sub_writes@.len() ==> {
                    &&& final(self).clients().contains_key((#[trigger] sub_writes@[g]).endpoint@)
                    &&& *handles@[g] == final(self).clients()[sub_writes@[g].endpoint@]
                },
            forall|addr: Seq<char>| #[trigger]
                old(self).clients().contains_key(addr) ==> final(self).clients().contains_key(addr)
                    && final(self).clients()[addr] == old(self).clients()[addr],
            forall|addr: Seq<char>| #[trigger]
                final(self).clients().contains_key(addr) && !old(self).clients().contains_key(addr)
                    ==> StandalonePool::<C, B>::built_for(
                    old(self).builder(),
                    addr,
                    final(self).clients()[addr],
                ) && exists|g: int|
                    0 <= g < sub_writes@.len() && (#[trigger] sub_writes@[g]).endpoint@ == addr,
    {
        let mut handles: Vec<Arc<C>> = Vec::new();
        let mut g: usize = 0;
        while g < sub_writes.len()
            invariant
                g <= sub_writes.len(),
                self.wf(),
                self.builder() == old(self).builder(),
                handles@.len() == g,
                forall|h: int|
                    0 <= h < g ==> {
                        &&& self.clients().contains_key((#[trigger] sub_writes@[h]).endpoint@)
                        &&& *handles@[h] == self.clients()[sub_writes@[h].endpoint@]
                    },
                forall|addr: Seq<char>| #[trigger]
                    old(self).clients().contains_key(addr) ==> self.clients().contains_key(addr)
                        && self.clients()[addr] == old(self).clients()[addr],
                forall|addr: Seq<char>| #[trigger]
                    self.clients().contains_key(addr) && !old(self).clients().contains_key(addr)
                        ==> StandalonePool::<C, B>::built_for(
                        old(self).builder(),
                        addr,
                        self.clients()[addr],
                    ) && exists|h: int|
                        0 <= h < g && (#[trigger] sub_writes@[h]).endpoint@ == addr,
            decreases sub_writes.len() - g,
        {
            let handle = self.client_for(&sub_writes[g].endpoint);
            handles.push(handle);
            g += 1;
        }
        handles
    }

    /// The handle for a query: that of the router's first answer. Where the
    /// router knows no endpoint the query fails and the pool stays as it is.
    pub fn query_client(&mut self, routed: Vec<Option<Endpoint>>) -> (client: Result<Arc<C>, Error>)
        requires
            old(self).wf(),
        ensures
            final(self).wf(),
            final(self).builder() == old(self).builder(),
            !(routed@.len() > 0 && routed@[0] is Some) ==> final(self).clients() == old(self).clients()
                && (client matches Err(e) && e.is_client(NO_ENDPOINT@)),
            routed@.len() > 0 && routed@[0] is Some ==> (client matches Ok(handle) && {
                let addr = routed@[0]->Some_0@;
                &&& final(self).clients().contains_key(addr)
                &&& *handle == final(self).clients()[addr]
                &&& old(self).clients().contains_key(addr) ==> final(self).clients() == old(self).clients()
                &&& !old(self).clients().contains_key(addr) ==> final(self).clients() == old(
                    self).clients().insert(addr, *handle) && StandalonePool::<C, B>::built_for(
                    old(self).builder(),
                    addr,
                    *handle,
                )
            }),
    {
        match query_endpoint(routed) {
            Ok(endpoint) => Ok(self.client_for(&endpoint)),
            Err(e) => Err(e),
        }
    }
}

} // verus!
