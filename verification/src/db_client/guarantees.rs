//! What holds of every write that goes through the dispatcher, whatever the
//! router and the endpoints answer.

use crate::db_client::cluster::{
    entries_for, lemma_nodes_distinct, merged_from, node_of, nodes, stale_names, unrouted, zipped, PendingWrite,
    WriteOutcome, WritePlan, NO_ENDPOINTS,
};
use crate::errors::{
    failures, ok_failed, ok_names, ok_success, ClusterWriteError, Error, PartOutcome,
};
use crate::model::{distinct_names, entry_names, names_entry, texts, Endpoint, WriteResponse};
use vstd::multiset::Multiset;
use vstd::prelude::*;
use vstd::seq_lib::{lemma_multiset_commutative, to_multiset_build};

verus! {

/// The names of a list as a bag of texts: how often each text occurs.
pub open spec fn bag(names: Seq<String>) -> Multiset<Seq<char>> {
    texts(names).to_multiset()
}

/// The names of all parts, part after part.
pub open spec fn names_of(outcomes: Seq<PartOutcome>) -> Seq<String>
    decreases outcomes.len(),
{
    if outcomes.len() == 0 {
        Seq::empty()
    } else {
        names_of(outcomes.drop_last()) + outcomes.last().0@
    }
}

/// The names of all failures, failure after failure.
pub open spec fn error_names(errors: Seq<(Vec<String>, Error)>) -> Seq<String>
    decreases errors.len(),
{
    if errors.len() == 0 {
        Seq::empty()
    } else {
        error_names(errors.drop_last()) + errors.last().0@
    }
}

/// Every name that an aggregate mentions: those that succeeded, then those
/// of each failure.
pub open spec fn all_names(merged: ClusterWriteError) -> Seq<String> {
    merged.ok.0@ + error_names(merged.errors@)
}

/// The names sent to the nodes `targets`, node after node.
pub open spec fn grouped<E>(
    entries: Seq<(String, E)>,
    routed: Seq<Option<Endpoint>>,
    targets: Seq<Seq<char>>,
) -> Seq<String>
    decreases targets.len(),
{
    if targets.len() == 0 {
        Seq::empty()
    } else {
        grouped(entries, routed, targets.drop_last()) + entry_names(
            entries_for(entries, routed, targets.last()),
        )
    }
}

proof fn lemma_bag_empty()
    ensures
        bag(Seq::<String>::empty()) == Multiset::<Seq<char>>::empty(),
{
    assert(texts(Seq::<String>::empty()) =~= Seq::<Seq<char>>::empty());
    Seq::<Seq<char>>::empty().to_multiset_ensures();
    assert(Seq::<Seq<char>>::empty().to_multiset() =~= Multiset::<Seq<char>>::empty());
}

proof fn lemma_bag_concat(a: Seq<String>, b: Seq<String>)
    ensures
        bag(a + b) == bag(a).add(bag(b)),
{
    assert(texts(a + b) =~= texts(a) + texts(b));
    lemma_multiset_commutative(texts(a), texts(b));
}

proof fn lemma_bag_push(a: Seq<String>, name: String)
    ensures
        bag(a.push(name)) == bag(a).insert(name@),
{
    assert(texts(a.push(name)) =~= texts(a).push(name@));
    to_multiset_build(texts(a), name@);
}

/// Merging loses and adds no name: the names that succeeded and the names of
/// the failures are, taken together, the names of all parts.
proof fn lemma_merge_keeps_names(outcomes: Seq<PartOutcome>)
    ensures
        bag(ok_names(outcomes)).add(bag(error_names(failures(outcomes)))) == bag(
            names_of(outcomes),
        ),
    decreases outcomes.len(),
{
    if outcomes.len() == 0 {
        lemma_bag_empty();
        assert(bag(ok_names(outcomes)).add(bag(error_names(failures(outcomes)))) =~= bag(
            names_of(outcomes),
        ));
    } else {
        let before = outcomes.drop_last();
        let last = outcomes.last();
        lemma_merge_keeps_names(before);
        lemma_bag_concat(names_of(before), last.0@);
        match last.1 {
            Ok(_) => {
                lemma_bag_concat(ok_names(before), last.0@);
            },
            Err(e) => {
                let failed = failures(before);
                assert(failures(outcomes) == failed.push((last.0, e)));
                assert(failures(outcomes).drop_last() == failed);
                assert(error_names(failures(outcomes)) == error_names(failed) + last.0@);
                lemma_bag_concat(error_names(failed), last.0@);
            },
        }
        assert(bag(ok_names(outcomes)).add(bag(error_names(failures(outcomes)))) =~= bag(
            names_of(outcomes),
        ));
    }
}

/// The names of the sent parts are the names of the plan's parts.
proof fn lemma_sent_names<E>(
    parts: Seq<Vec<String>>,
    results: Seq<Result<WriteResponse, Error>>,
    entries: Seq<(String, E)>,
    routed: Seq<Option<Endpoint>>,
    targets: Seq<Seq<char>>,
)
    requires
        parts.len() == targets.len(),
        forall|g: int|
            0 <= g < parts.len() ==> (#[trigger] parts[g])@ == entry_names(
                entries_for(entries, routed, targets[g]),
            ),
    ensures
        names_of(zipped(parts, results)) == grouped(entries, routed, targets),
    decreases parts.len(),
{
    if parts.len() > 0 {
        assert(zipped(parts, results).drop_last() =~= zipped(parts.drop_last(), results));
        assert(parts.drop_last().len() == targets.drop_last().len());
        assert forall|g: int| 0 <= g < parts.drop_last().len() implies (#[trigger] parts.drop_last()[g])@
            == entry_names(entries_for(entries, routed, targets.drop_last()[g])) by {
            assert(parts.drop_last()[g] == parts[g]);
        }
        lemma_sent_names(parts.drop_last(), results, entries, routed, targets.drop_last());
        assert(zipped(parts, results).last().0 == parts.last());
    }
}

/// What one more entry adds to the names sent to a list of distinct nodes.
proof fn lemma_grouped_step<E>(
    entries: Seq<(String, E)>,
    routed: Seq<Option<Endpoint>>,
    targets: Seq<Seq<char>>,
)
    requires
        entries.len() > 0,
        targets.no_duplicates(),
    ensures
        bag(grouped(entries, routed, targets)) == if node_of(routed, entries.len() - 1) matches Some(
            node,
        ) && targets.contains(node) {
            bag(grouped(entries.drop_last(), routed, targets)).insert(entries.last().0@)
        } else {
            bag(grouped(entries.drop_last(), routed, targets))
        },
    decreases targets.len(),
{
    let shorter = entries.drop_last();
    let at = entries.len() - 1;
    if targets.len() > 0 {
        let rest = targets.drop_last();
        let node = targets.last();
        assert(rest.no_duplicates());
        lemma_grouped_step(entries, routed, rest);
        lemma_bag_concat(
            grouped(entries, routed, rest),
            entry_names(entries_for(entries, routed, node)),
        );
        lemma_bag_concat(
            grouped(shorter, routed, rest),
            entry_names(entries_for(shorter, routed, node)),
        );
        assert(targets[targets.len() - 1] == node);
        assert forall|x: Seq<char>| rest.contains(x) implies targets.contains(x) && x != node by {
            let j = choose|j: int| 0 <= j < rest.len() && rest[j] == x;
            assert(targets[j] == x);
        }
        if node_of(routed, at) == Some(node) {
            assert(!rest.contains(node));
            assert(targets.contains(node));
            let held = entries_for(shorter, routed, node);
            assert(entries_for(entries, routed, node) == held.push(entries.last()));
            assert(entry_names(held.push(entries.last())) =~= entry_names(held).push(
                entries.last().0,
            ));
            lemma_bag_push(entry_names(held), entries.last().0);
            assert(bag(grouped(entries, routed, targets)) =~= bag(
                grouped(shorter, routed, targets),
            ).insert(entries.last().0@));
        } else {
            assert(entries_for(entries, routed, node) == entries_for(shorter, routed, node));
            match node_of(routed, at) {
                Some(other) => {
                    if targets.contains(other) {
                        let j = choose|j: int| 0 <= j < targets.len() && targets[j] == other;
                        assert(rest[j] == other);
                        assert(rest.contains(other));
                        assert(bag(grouped(entries, routed, targets)) =~= bag(
                            grouped(shorter, routed, targets),
                        ).insert(entries.last().0@));
                    } else {
                        assert(!rest.contains(other));
                    }
                },
                None => {},
            }
        }
    }
}

/// Splitting loses and adds no name: the names sent to the nodes and the
/// names left without a node are, taken together, the names of the request.
proof fn lemma_split_keeps_names<E>(
    entries: Seq<(String, E)>,
    routed: Seq<Option<Endpoint>>,
    targets: Seq<Seq<char>>,
)
    requires
        targets.no_duplicates(),
        forall|k: int|
            0 <= k < entries.len() ==> (#[trigger] node_of(routed, k) matches Some(node)
                ==> targets.contains(node)),
    ensures
        bag(grouped(entries, routed, targets)).add(bag(unrouted(entries, routed))) == bag(
            entry_names(entries),
        ),
    decreases entries.len(),
{
    if entries.len() == 0 {
        lemma_grouped_none::<E>(entries, routed, targets);
        lemma_bag_empty();
        assert(entry_names(entries) =~= Seq::<String>::empty());
        assert(bag(grouped(entries, routed, targets)).add(bag(unrouted(entries, routed))) =~= bag(
            entry_names(entries),
        ));
    } else {
        let shorter = entries.drop_last();
        let at = entries.len() - 1;
        lemma_split_keeps_names(shorter, routed, targets);
        lemma_grouped_step(entries, routed, targets);
        assert(entry_names(entries) =~= entry_names(shorter).push(entries.last().0));
        lemma_bag_push(entry_names(shorter), entries.last().0);
        let _ = node_of(routed, at);
        if node_of(routed, at) is None {
            lemma_bag_push(unrouted(shorter, routed), entries.last().0);
        }
        assert(bag(grouped(entries, routed, targets)).add(bag(unrouted(entries, routed))) =~= bag(
            entry_names(entries),
        ));
    }
}

/// Of no entries, nothing is sent anywhere.
proof fn lemma_grouped_none<E>(
    entries: Seq<(String, E)>,
    routed: Seq<Option<Endpoint>>,
    targets: Seq<Seq<char>>,
)
    requires
        entries.len() == 0,
    ensures
        grouped(entries, routed, targets) == Seq::<String>::empty(),
    decreases targets.len(),
{
    if targets.len() > 0 {
        lemma_grouped_none(entries, routed, targets.drop_last());
        assert(entry_names(entries_for(entries, routed, targets.last())) =~= Seq::<
            String,
        >::empty());
    }
}

/// No name of a write is lost, and none is counted twice.
///
/// Take a request with distinct names, the router's answers, the plan that
/// splits the one by the other, any answers of the endpoints, and the
/// aggregate merged from them. Then the names under `ok` together with the
/// names of all entries of `errors` are the names of the request, each
/// exactly once.
pub proof fn lemma_names_partitioned<E>(
    entries: Seq<(String, E)>,
    routed: Seq<Option<Endpoint>>,
    plan: WritePlan<E>,
    results: Seq<Result<WriteResponse, Error>>,
    merged: ClusterWriteError,
)
    requires
        distinct_names(entries),
        plan.splits(entries, routed),
        results.len() == plan.pending.parts@.len(),
        merged_from(merged, plan.pending.sent(results), plan.pending.unroutable),
    ensures
        bag(all_names(merged)) == bag(entry_names(entries)),
        texts(all_names(merged)).no_duplicates(),
{
    let targets = nodes(routed, entries.len());
    let sent = plan.pending.sent(results);
    let left = plan.pending.unroutable@;
    lemma_nodes_distinct(routed, entries.len());
    lemma_split_keeps_names(entries, routed, targets);
    lemma_sent_names(plan.pending.parts@, results, entries, routed, targets);
    lemma_merge_keeps_names(sent);
    lemma_bag_concat(merged.ok.0@, error_names(merged.errors@));
    if left.len() == 0 {
        lemma_bag_empty();
        assert(left =~= Seq::<String>::empty());
    } else {
        assert(error_names(merged.errors@) == error_names(failures(sent)) + left);
        lemma_bag_concat(error_names(failures(sent)), left);
    }
    assert(bag(all_names(merged)) =~= bag(entry_names(entries)));
    lemma_distinct_texts(entries);
    texts(entry_names(entries)).lemma_multiset_has_no_duplicates();
    texts(all_names(merged)).lemma_multiset_has_no_duplicates_conv();
}

/// Distinct names are distinct as texts.
proof fn lemma_distinct_texts<E>(entries: Seq<(String, E)>)
    requires
        distinct_names(entries),
    ensures
        texts(entry_names(entries)).no_duplicates(),
{
    let names = texts(entry_names(entries));
    assert forall|i: int, j: int| 0 <= i < names.len() && 0 <= j < names.len() && i != j implies names[i]
        != names[j] by {
        assert(names[i] == entries[i].0@);
        assert(names[j] == entries[j].0@);
        if i < j {
            assert(entries[i].0@ != entries[j].0@);
        } else {
            assert(entries[j].0@ != entries[i].0@);
        }
    }
}

/// Rows written as the endpoints report them, added up over the answers that
/// are no failure.
pub open spec fn written(results: Seq<Result<WriteResponse, Error>>) -> nat
    decreases results.len(),
{
    if results.len() == 0 {
        0
    } else {
        match results.last() {
            Ok(resp) => written(results.drop_last()) + resp.success as nat,
            Err(_) => written(results.drop_last()),
        }
    }
}

/// Rows rejected as the endpoints report them, added up over the answers
/// that are no failure.
pub open spec fn rejected(results: Seq<Result<WriteResponse, Error>>) -> nat
    decreases results.len(),
{
    if results.len() == 0 {
        0
    } else {
        match results.last() {
            Ok(resp) => rejected(results.drop_last()) + resp.failed as nat,
            Err(_) => rejected(results.drop_last()),
        }
    }
}

/// The row totals of the sent parts are the sums of what the endpoints
/// reported, and where no endpoint failed no part is listed as failed.
proof fn lemma_sent_rows(parts: Seq<Vec<String>>, results: Seq<Result<WriteResponse, Error>>)
    requires
        parts.len() == results.len(),
    ensures
        ok_success(zipped(parts, results)) == written(results),
        ok_failed(zipped(parts, results)) == rejected(results),
        (forall|g: int| 0 <= g < results.len() ==> (#[trigger] results[g]) is Ok) ==> failures(
            zipped(parts, results),
        ).len() == 0 && stale_names(zipped(parts, results)).len() == 0,
    decreases parts.len(),
{
    if parts.len() > 0 {
        let sent = zipped(parts, results);
        assert(sent.drop_last() =~= zipped(parts.drop_last(), results.drop_last()));
        assert(sent.last().1 == results.last());
        lemma_sent_rows(parts.drop_last(), results.drop_last());
        if forall|g: int| 0 <= g < results.len() ==> (#[trigger] results[g]) is Ok {
            assert(results[results.len() - 1] is Ok);
            assert forall|g: int| 0 <= g < results.drop_last().len() implies (
            #[trigger] results.drop_last()[g]) is Ok by {
                assert(results[g] is Ok);
            }
        }
    }
}

/// A write of which every name was sent and every part succeeded gives the
/// caller the exact sums of the rows that the endpoints reported, and asks
/// for no route to be dropped.
pub proof fn lemma_all_succeeded(
    pending: PendingWrite,
    results: Seq<Result<WriteResponse, Error>>,
    outcome: WriteOutcome,
)
    requires
        results.len() == pending.parts@.len(),
        pending.unroutable@.len() == 0,
        forall|g: int| 0 <= g < results.len() ==> (#[trigger] results[g]) is Ok,
        outcome.follows(pending, results),
    ensures
        outcome.result matches Ok(resp) && resp.success == written(results) && resp.failed
            == rejected(results),
        outcome.evicts@.len() == 0,
{
    lemma_sent_rows(pending.parts@, results);
}

/// Merging parts that all succeeded leaves the list of failures empty, so
/// that the aggregate counts as all right, and the totals are the sums over
/// all parts.
pub proof fn lemma_merge_all_ok(outcomes: Seq<PartOutcome>)
    requires
        forall|g: int| 0 <= g < outcomes.len() ==> (#[trigger] outcomes[g]).1 is Ok,
    ensures
        failures(outcomes).len() == 0,
        ok_success(outcomes) == written(outcomes.map_values(|o: PartOutcome| o.1)),
        ok_failed(outcomes) == rejected(outcomes.map_values(|o: PartOutcome| o.1)),
        ok_names(outcomes) == names_of(outcomes),
    decreases outcomes.len(),
{
    let answers = outcomes.map_values(|o: PartOutcome| o.1);
    if outcomes.len() > 0 {
        assert(outcomes[outcomes.len() - 1].1 is Ok);
        assert forall|g: int| 0 <= g < outcomes.drop_last().len() implies (
        #[trigger] outcomes.drop_last()[g]).1 is Ok by {
            assert(outcomes[g].1 is Ok);
        }
        lemma_merge_all_ok(outcomes.drop_last());
        assert(answers.drop_last() =~= outcomes.drop_last().map_values(|o: PartOutcome| o.1));
        assert(answers.last() == outcomes.last().1);
    }
}

/// Whether `entry` stands in `entries` at a position for which the router
/// named `node`.
pub open spec fn routed_entry<E>(
    entries: Seq<(String, E)>,
    routed: Seq<Option<Endpoint>>,
    node: Seq<char>,
    entry: (String, E),
) -> bool {
    exists|k: int|
        0 <= k < entries.len() && #[trigger] entries[k] == entry && node_of(routed, k) == Some(
            node,
        )
}

/// Only entries for which the router named a node are sent to it.
proof fn lemma_entries_for_routed<E>(
    entries: Seq<(String, E)>,
    routed: Seq<Option<Endpoint>>,
    node: Seq<char>,
)
    ensures
        forall|j: int|
            0 <= j < entries_for(entries, routed, node).len() ==> routed_entry(
                entries,
                routed,
                node,
                #[trigger] entries_for(entries, routed, node)[j],
            ),
    decreases entries.len(),
{
    if entries.len() > 0 {
        let shorter = entries.drop_last();
        lemma_entries_for_routed(shorter, routed, node);
        let before = entries_for(shorter, routed, node);
        let all = entries_for(entries, routed, node);
        assert forall|j: int| 0 <= j < all.len() implies routed_entry(
            entries,
            routed,
            node,
            #[trigger] all[j],
        ) by {
            if j < before.len() {
                assert(all[j] == before[j]);
                assert(routed_entry(shorter, routed, node, before[j]));
                let k = choose|k: int|
                    0 <= k < shorter.len() && #[trigger] shorter[k] == before[j] && node_of(
                        routed,
                        k,
                    ) == Some(node);
                assert(entries[k] == all[j]);
            } else {
                assert(all == before.push(entries.last()));
                assert(entries[entries.len() - 1] == all[j]);
            }
        }
    }
}

/// A name for which the router named no node is among the unrouted names.
proof fn lemma_unrouted_holds<E>(entries: Seq<(String, E)>, routed: Seq<Option<Endpoint>>, at: int)
    requires
        0 <= at < entries.len(),
        node_of(routed, at) is None,
    ensures
        unrouted(entries, routed).contains(entries[at].0),
    decreases entries.len(),
{
    let shorter = entries.drop_last();
    let all = unrouted(entries, routed);
    if at == entries.len() - 1 {
        assert(all == unrouted(shorter, routed).push(entries[at].0));
        assert(all[all.len() - 1] == entries[at].0);
    } else {
        lemma_unrouted_holds(shorter, routed, at);
        let before = unrouted(shorter, routed);
        let j = choose|j: int| 0 <= j < before.len() && before[j] == shorter[at].0;
        assert(all[j] == entries[at].0);
    }
}

/// A name that the router knows no endpoint for is sent nowhere and fails on
/// the caller's side.
///
/// Where the router named no node for the entry at `at`, the aggregate's
/// last failure is the caller-side error `NO_ENDPOINTS`, it lists that
/// entry's name, and no sub-write of the plan holds an entry under that name.
pub proof fn lemma_unroutable_fails<E>(
    entries: Seq<(String, E)>,
    routed: Seq<Option<Endpoint>>,
    plan: WritePlan<E>,
    results: Seq<Result<WriteResponse, Error>>,
    merged: ClusterWriteError,
    at: int,
)
    requires
        distinct_names(entries),
        plan.splits(entries, routed),
        merged_from(merged, plan.pending.sent(results), plan.pending.unroutable),
        0 <= at < entries.len(),
        node_of(routed, at) is None,
    ensures
        merged.errors@.len() > 0,
        merged.errors@.last().1.is_client(NO_ENDPOINTS@),
        merged.errors@.last().0@.contains(entries[at].0),
        forall|g: int|
            0 <= g < plan.sub_writes@.len() ==> !names_entry(
                (#[trigger] plan.sub_writes@[g]).request@,
                entries[at].0@,
            ),
{
    lemma_unrouted_holds(entries, routed, at);
    let targets = nodes(routed, entries.len());
    assert forall|g: int| 0 <= g < plan.sub_writes@.len() implies !names_entry(
        (#[trigger] plan.sub_writes@[g]).request@,
        entries[at].0@,
    ) by {
        let held = plan.sub_writes@[g].request@;
        lemma_entries_for_routed(entries, routed, targets[g]);
        if names_entry(held, entries[at].0@) {
            let j = choose|j: int| 0 <= j < held.len() && (#[trigger] held[j]).0@ == entries[at].0@;
            assert(routed_entry(entries, routed, targets[g], held[j]));
            let k = choose|k: int|
                0 <= k < entries.len() && #[trigger] entries[k] == held[j] && node_of(routed, k)
                    == Some(targets[g]);
            if k < at {
                assert(entries[k].0@ != entries[at].0@);
            } else if at < k {
                assert(entries[at].0@ != entries[k].0@);
            }
        }
    }
}

/// Whether a part failed with a stale route.
pub open spec fn is_stale_part(outcome: PartOutcome) -> bool {
    outcome.1 matches Err(e) && e.is_stale_route()
}

/// The routes to drop are exactly the names of the parts that failed with a
/// stale route: a text is among them if and only if it is a name of such a
/// part.
pub proof fn lemma_evicts_exact(outcomes: Seq<PartOutcome>, name: Seq<char>)
    ensures
        texts(stale_names(outcomes)).contains(name) <==> exists|g: int|
            0 <= g < outcomes.len() && is_stale_part(#[trigger] outcomes[g]) && texts(
                outcomes[g].0@,
            ).contains(name),
    decreases outcomes.len(),
{
    if outcomes.len() == 0 {
        assert(texts(stale_names(outcomes)) =~= Seq::<Seq<char>>::empty());
    } else {
        let before = outcomes.drop_last();
        let last = outcomes.last();
        lemma_evicts_exact(before, name);
        let held = texts(stale_names(before));
        let more = texts(last.0@);
        if is_stale_part(last) {
            assert(texts(stale_names(outcomes)) =~= held + more);
        } else {
            assert(stale_names(outcomes) == stale_names(before));
        }
        let all = texts(stale_names(outcomes));
        if all.contains(name) {
            let j = choose|j: int| 0 <= j < all.len() && all[j] == name;
            if j < held.len() {
                assert(held[j] == name);
                assert(held.contains(name));
                let g = choose|g: int|
                    0 <= g < before.len() && is_stale_part(#[trigger] before[g]) && texts(
                        before[g].0@,
                    ).contains(name);
                assert(outcomes[g] == before[g]);
            } else {
                assert(is_stale_part(last));
                assert(more[j - held.len()] == name);
                assert(more.contains(name));
                assert(outcomes[outcomes.len() - 1] == last);
            }
        }
        if exists|g: int|
            0 <= g < outcomes.len() && is_stale_part(#[trigger] outcomes[g]) && texts(
                outcomes[g].0@,
            ).contains(name) {
            let g = choose|g: int|
                0 <= g < outcomes.len() && is_stale_part(#[trigger] outcomes[g]) && texts(
                    outcomes[g].0@,
                ).contains(name);
            if g < before.len() {
                assert(before[g] == outcomes[g]);
                assert(held.contains(name));
                let j = choose|j: int| 0 <= j < held.len() && held[j] == name;
                assert(all[j] == name);
            } else {
                let j = choose|j: int| 0 <= j < more.len() && more[j] == name;
                assert(all[held.len() + j] == name);
            }
        }
    }
}

/// A text occurs among the names of all parts at least as often as in any
/// one part, and at least as often as in any two parts together.
proof fn lemma_names_count(outcomes: Seq<PartOutcome>, g: int, h: int, name: Seq<char>)
    requires
        0 <= g <= h < outcomes.len(),
    ensures
        bag(names_of(outcomes)).count(name) >= bag(outcomes[g].0@).count(name),
        g < h ==> bag(names_of(outcomes)).count(name) >= bag(outcomes[g].0@).count(name) + bag(
            outcomes[h].0@,
        ).count(name),
    decreases outcomes.len(),
{
    let before = outcomes.drop_last();
    let last = outcomes.last();
    lemma_bag_concat(names_of(before), last.0@);
    if h < before.len() {
        lemma_names_count(before, g, h, name);
    } else if g < h {
        lemma_names_count(before, g, g, name);
    }
}

/// Names that are distinct over all parts are dropped from the router only
/// where their own part failed with a stale route: a name of a part that
/// succeeded, or that failed in any other way, is never among them.
pub proof fn lemma_evicts_spare(outcomes: Seq<PartOutcome>, g: int, name: Seq<char>)
    requires
        texts(names_of(outcomes)).no_duplicates(),
        0 <= g < outcomes.len(),
        !is_stale_part(outcomes[g]),
        texts(outcomes[g].0@).contains(name),
    ensures
        !texts(stale_names(outcomes)).contains(name),
{
    broadcast use vstd::seq_lib::to_multiset_contains;

    lemma_evicts_exact(outcomes, name);
    if texts(stale_names(outcomes)).contains(name) {
        let h = choose|h: int|
            0 <= h < outcomes.len() && is_stale_part(#[trigger] outcomes[h]) && texts(
                outcomes[h].0@,
            ).contains(name);
        if g < h {
            lemma_names_count(outcomes, g, h, name);
        } else {
            lemma_names_count(outcomes, h, g, name);
        }
        texts(names_of(outcomes)).lemma_multiset_has_no_duplicates();
        assert(bag(names_of(outcomes)).count(name) >= 2);
        assert(texts(names_of(outcomes)).to_multiset().contains(name));
    }
}

/// The parts of a plan share no name, neither with each other nor with the
/// names that were sent nowhere.
proof fn lemma_parts_distinct<E>(
    entries: Seq<(String, E)>,
    routed: Seq<Option<Endpoint>>,
    plan: WritePlan<E>,
    results: Seq<Result<WriteResponse, Error>>,
)
    requires
        distinct_names(entries),
        plan.splits(entries, routed),
        results.len() == plan.pending.parts@.len(),
    ensures
        texts(names_of(plan.pending.sent(results))).no_duplicates(),
        forall|name: Seq<char>|
            #![trigger bag(names_of(plan.pending.sent(results))).count(name)]
            bag(names_of(plan.pending.sent(results))).count(name) + bag(
                plan.pending.unroutable@,
            ).count(name) <= 1,
{
    let targets = nodes(routed, entries.len());
    let sent = plan.pending.sent(results);
    lemma_nodes_distinct(routed, entries.len());
    lemma_split_keeps_names(entries, routed, targets);
    lemma_sent_names(plan.pending.parts@, results, entries, routed, targets);
    lemma_distinct_texts(entries);
    texts(entry_names(entries)).lemma_multiset_has_no_duplicates();
    assert forall|name: Seq<char>|
        #![trigger bag(names_of(sent)).count(name)]
        bag(names_of(sent)).count(name) + bag(plan.pending.unroutable@).count(name) <= 1 by {
        assert(bag(entry_names(entries)).count(name) == bag(names_of(sent)).count(name) + bag(
            plan.pending.unroutable@,
        ).count(name));
        if bag(entry_names(entries)).count(name) > 0 {
            assert(texts(entry_names(entries)).to_multiset().contains(name));
        }
    }
    assert forall|name: Seq<char>|
        texts(names_of(sent)).to_multiset().contains(name) implies texts(
        names_of(sent),
    ).to_multiset().count(name) == 1 by {
        assert(bag(names_of(sent)).count(name) + bag(plan.pending.unroutable@).count(name) <= 1);
    }
    texts(names_of(sent)).lemma_multiset_has_no_duplicates_conv();
}

/// Eviction is asked for the names of the parts that failed with a stale
/// route and for no other name of the write.
///
/// A name that went to a part which succeeded, or which failed without the
/// server reporting a stale route (a transport failure, a connection
/// failure, a rejected credential, any other server failure), is not among
/// the routes to drop; neither is a name that no endpoint was known for.
/// Every name among them went to a part that failed with a stale route.
pub proof fn lemma_evicts_only_stale<E>(
    entries: Seq<(String, E)>,
    routed: Seq<Option<Endpoint>>,
    plan: WritePlan<E>,
    results: Seq<Result<WriteResponse, Error>>,
    outcome: WriteOutcome,
    name: Seq<char>,
)
    requires
        distinct_names(entries),
        plan.splits(entries, routed),
        results.len() == plan.pending.parts@.len(),
        outcome.follows(plan.pending, results),
    ensures
        forall|g: int|
            0 <= g < results.len() && !is_stale_part(#[trigger] plan.pending.sent(results)[g])
                && texts(plan.pending.parts@[g]@).contains(name) ==> !texts(
                outcome.evicts@,
            ).contains(name),
        texts(plan.pending.unroutable@).contains(name) ==> !texts(outcome.evicts@).contains(name),
        texts(outcome.evicts@).contains(name) ==> exists|g: int|
            0 <= g < results.len() && is_stale_part(#[trigger] plan.pending.sent(results)[g])
                && texts(plan.pending.parts@[g]@).contains(name),
{
    broadcast use vstd::seq_lib::to_multiset_contains;

    let sent = plan.pending.sent(results);
    lemma_parts_distinct(entries, routed, plan, results);
    lemma_evicts_exact(sent, name);
    assert forall|g: int|
        0 <= g < results.len() && !is_stale_part(#[trigger] sent[g]) && texts(
            plan.pending.parts@[g]@,
        ).contains(name) implies !texts(outcome.evicts@).contains(name) by {
        lemma_evicts_spare(sent, g, name);
    }
    if texts(outcome.evicts@).contains(name) {
        let h = choose|h: int|
            0 <= h < sent.len() && is_stale_part(#[trigger] sent[h]) && texts(sent[h].0@).contains(
                name,
            );
        lemma_names_count(sent, h, h, name);
        assert(bag(sent[h].0@).count(name) > 0);
        assert(bag(names_of(sent)).count(name) + bag(plan.pending.unroutable@).count(name) <= 1);
    }
}

/// Rows written that one part adds to the total.
pub open spec fn part_success(part: PartOutcome) -> nat {
    match part.1 {
        Ok(resp) => resp.success as nat,
        Err(_) => 0,
    }
}

/// Rows rejected that one part adds to the total.
pub open spec fn part_failed(part: PartOutcome) -> nat {
    match part.1 {
        Ok(resp) => resp.failed as nat,
        Err(_) => 0,
    }
}

/// The names that one part adds to the names that succeeded.
pub open spec fn part_ok_names(part: PartOutcome) -> Seq<String> {
    match part.1 {
        Ok(_) => part.0@,
        Err(_) => Seq::empty(),
    }
}

/// The failures that one part adds to the list of failures.
pub open spec fn part_failures(part: PartOutcome) -> Seq<(Vec<String>, Error)> {
    match part.1 {
        Ok(_) => Seq::empty(),
        Err(e) => seq![(part.0, e)],
    }
}

/// Taking one part out of the outcomes takes out of the merge what that part
/// added, and nothing else.
proof fn lemma_merge_without(outcomes: Seq<PartOutcome>, at: int)
    requires
        0 <= at < outcomes.len(),
    ensures
        ok_success(outcomes) == ok_success(outcomes.remove(at)) + part_success(outcomes[at]),
        ok_failed(outcomes) == ok_failed(outcomes.remove(at)) + part_failed(outcomes[at]),
        bag(ok_names(outcomes)) == bag(ok_names(outcomes.remove(at))).add(
            bag(part_ok_names(outcomes[at])),
        ),
        failures(outcomes).to_multiset() == failures(outcomes.remove(at)).to_multiset().add(
            part_failures(outcomes[at]).to_multiset(),
        ),
    decreases outcomes.len(),
{
    let before = outcomes.drop_last();
    let last = outcomes.last();
    let rest = outcomes.remove(at);
    lemma_merge_last(outcomes);
    if at == outcomes.len() - 1 {
        assert(rest =~= before);
    } else {
        assert(rest.drop_last() =~= before.remove(at));
        assert(rest.last() == last);
        assert(before[at] == outcomes[at]);
        lemma_merge_without(before, at);
        lemma_merge_last(rest);
    }
    assert(bag(ok_names(outcomes)) =~= bag(ok_names(rest)).add(bag(part_ok_names(outcomes[at]))));
    assert(failures(outcomes).to_multiset() =~= failures(rest).to_multiset().add(
        part_failures(outcomes[at]).to_multiset(),
    ));
}

/// What the last part adds to the merge of the parts before it.
proof fn lemma_merge_last(outcomes: Seq<PartOutcome>)
    requires
        outcomes.len() > 0,
    ensures
        ok_success(outcomes) == ok_success(outcomes.drop_last()) + part_success(outcomes.last()),
        ok_failed(outcomes) == ok_failed(outcomes.drop_last()) + part_failed(outcomes.last()),
        bag(ok_names(outcomes)) == bag(ok_names(outcomes.drop_last())).add(
            bag(part_ok_names(outcomes.last())),
        ),
        failures(outcomes).to_multiset() == failures(outcomes.drop_last()).to_multiset().add(
            part_failures(outcomes.last()).to_multiset(),
        ),
{
    let before = outcomes.drop_last();
    let last = outcomes.last();
    lemma_bag_concat(ok_names(before), part_ok_names(last));
    assert(ok_names(outcomes) =~= ok_names(before) + part_ok_names(last));
    assert(failures(outcomes) =~= failures(before) + part_failures(last));
    lemma_multiset_commutative(failures(before), part_failures(last));
}

/// The merge does not depend on the order in which the parts are folded.
///
/// Two lists that hold the same parts, in whatever order, merge to the same
/// row totals, to the same names that succeeded and to the same failures;
/// only the order within the two lists of the aggregate follows the order of
/// the parts.
pub proof fn lemma_merge_order_free(first: Seq<PartOutcome>, second: Seq<PartOutcome>)
    requires
        first.to_multiset() == second.to_multiset(),
    ensures
        ok_success(first) == ok_success(second),
        ok_failed(first) == ok_failed(second),
        bag(ok_names(first)) == bag(ok_names(second)),
        failures(first).to_multiset() == failures(second).to_multiset(),
    decreases first.len(),
{
    broadcast use {
        vstd::seq_lib::to_multiset_len,
        vstd::seq_lib::to_multiset_contains,
        vstd::seq_lib::to_multiset_remove,
    };

    vstd::seq_lib::to_multiset_len(first);
    vstd::seq_lib::to_multiset_len(second);
    if first.len() == 0 {
        assert(second.len() == 0);
        assert(first =~= second);
    } else {
        let last = first.last();
        let before = first.drop_last();
        assert(first[first.len() - 1] == last);
        assert(first.contains(last));
        vstd::seq_lib::to_multiset_contains(first, last);
        vstd::seq_lib::to_multiset_contains(second, last);
        assert(second.contains(last));
        let at = choose|at: int| 0 <= at < second.len() && second[at] == last;
        let rest = second.remove(at);
        assert(first.remove(first.len() - 1) =~= before);
        assert(before.to_multiset() =~= rest.to_multiset());
        lemma_merge_order_free(before, rest);
        lemma_merge_last(first);
        lemma_merge_without(second, at);
    }
}

} // verus!
