//! The order of events within one block: ascending by log index, events with
//! the same log index in the order in which they were given.

use crate::logs::TradeLog;
use vstd::prelude::*;

verus! {

/// One more than the largest block number or log index.
pub open spec fn index_space() -> nat {
    0x1_0000_0000_0000_0000
}

/// The events of `logs` whose log index is `index`, in the order in which
/// `logs` holds them.
pub open spec fn logged_at(logs: Seq<TradeLog>, index: u64) -> Seq<TradeLog> {
    logs.filter(|log: TradeLog| log.log_index == index)
}

/// The events of `logs` whose log index is below `bound`, in the order in
/// which `logs` holds them.
spec fn logged_below(logs: Seq<TradeLog>, bound: nat) -> Seq<TradeLog> {
    logs.filter(|log: TradeLog| (log.log_index as nat) < bound)
}

/// Whether the log indices of `logs` never decrease.
pub open spec fn in_log_order(logs: Seq<TradeLog>) -> bool {
    forall|i: int, j: int| 0 <= i <= j < logs.len() ==> logs[i].log_index <= logs[j].log_index
}

/// The events of `logs` whose log index is below `bound`, by ascending log
/// index; events with the same log index keep the order they have in `logs`.
pub open spec fn by_log_index_below(logs: Seq<TradeLog>, bound: nat) -> Seq<TradeLog>
    decreases bound,
{
    if bound == 0 {
        Seq::empty()
    } else {
        by_log_index_below(logs, (bound - 1) as nat) + logged_at(logs, (bound - 1) as u64)
    }
}

/// All events of `logs` by ascending log index; events with the same log index
/// keep the order they have in `logs`.
pub open spec fn by_log_index(logs: Seq<TradeLog>) -> Seq<TradeLog> {
    by_log_index_below(logs, index_space())
}

/// Where no event of `logs` has the log index `index`, none is logged at it.
proof fn lemma_logged_at_nothing(logs: Seq<TradeLog>, index: u64)
    requires
        forall|i: int| 0 <= i < logs.len() ==> logs[i].log_index != index,
    ensures
        logged_at(logs, index) == Seq::<TradeLog>::empty(),
{
    let pred = |log: TradeLog| log.log_index == index;
    let kept = logs.filter(pred);
    if kept.len() > 0 {
        logs.lemma_filter_pred(pred, 0);
        logs.lemma_filter_contains_rev(pred, kept[0]);
        let i = choose|i: int| 0 <= i < logs.len() && logs[i] == kept[0];
        assert(logs[i].log_index == index);
    }
    assert(kept =~= Seq::<TradeLog>::empty());
}

/// In a sequence in log order, the events below `index` followed by those at
/// `index` are the events below `index + 1`.
proof fn lemma_logged_below_step(logs: Seq<TradeLog>, index: u64)
    requires
        in_log_order(logs),
    ensures
        logged_below(logs, index as nat) + logged_at(logs, index) == logged_below(
            logs,
            (index + 1) as nat,
        ),
    decreases logs.len(),
{
    let below = |log: TradeLog| (log.log_index as nat) < index as nat;
    let at = |log: TradeLog| log.log_index == index;
    let upto = |log: TradeLog| (log.log_index as nat) < (index + 1) as nat;
    reveal(Seq::filter);
    if logs.len() == 0 {
        assert(logs.filter(below) + logs.filter(at) =~= logs.filter(upto));
    } else {
        let rest = logs.drop_last();
        let last = logs.last();
        assert(in_log_order(rest)) by {
            assert forall|i: int, j: int| 0 <= i <= j < rest.len() implies rest[i].log_index
                <= rest[j].log_index by {
                assert(rest[i] == logs[i] && rest[j] == logs[j]);
            }
        }
        lemma_logged_below_step(rest, index);
        if last.log_index < index {
            assert forall|i: int| 0 <= i < rest.len() implies rest[i].log_index != index by {
                assert(rest[i] == logs[i]);
                assert(logs[i].log_index <= logs[logs.len() - 1].log_index);
            }
            lemma_logged_at_nothing(rest, index);
            assert(rest.filter(below) =~= rest.filter(below) + rest.filter(at));
            assert(logs.filter(below) + logs.filter(at) =~= logs.filter(upto));
        } else {
            assert(logs.filter(below) + logs.filter(at) =~= logs.filter(upto));
        }
    }
}

/// Every event has a log index below [`index_space`].
proof fn lemma_logged_below_everything(logs: Seq<TradeLog>)
    ensures
        logged_below(logs, index_space()) == logs,
    decreases logs.len(),
{
    reveal(Seq::filter);
    if logs.len() > 0 {
        lemma_logged_below_everything(logs.drop_last());
        assert(logs.drop_last().push(logs.last()) =~= logs);
    }
}

/// A sequence in log order, cut at a log index, is already what
/// [`by_log_index_below`] makes of it.
proof fn lemma_by_log_index_below_of_ordered(logs: Seq<TradeLog>, bound: nat)
    requires
        in_log_order(logs),
        bound <= index_space(),
    ensures
        by_log_index_below(logs, bound) == logged_below(logs, bound),
    decreases bound,
{
    if bound == 0 {
        let below = |log: TradeLog| (log.log_index as nat) < 0nat;
        if logs.filter(below).len() > 0 {
            logs.lemma_filter_pred(below, 0);
        }
        assert(logged_below(logs, 0) =~= Seq::<TradeLog>::empty());
    } else {
        lemma_by_log_index_below_of_ordered(logs, (bound - 1) as nat);
        lemma_logged_below_step(logs, (bound - 1) as u64);
    }
}

/// Sequences that hold the same events at every log index are ordered alike.
proof fn lemma_by_log_index_below_congruent(
    left: Seq<TradeLog>,
    right: Seq<TradeLog>,
    bound: nat,
)
    requires
        forall|index: u64| logged_at(left, index) == logged_at(right, index),
    ensures
        by_log_index_below(left, bound) == by_log_index_below(right, bound),
    decreases bound,
{
    if bound > 0 {
        lemma_by_log_index_below_congruent(left, right, (bound - 1) as nat);
        assert(logged_at(left, (bound - 1) as u64) == logged_at(right, (bound - 1) as u64));
    }
}

/// A stable sort by log index has one result: a sequence in log order that
/// holds at every log index the events of `logs`, in their order, is
/// `by_log_index(logs)`.
pub proof fn lemma_stable_order_is_by_log_index(sorted: Seq<TradeLog>, logs: Seq<TradeLog>)
    requires
        in_log_order(sorted),
        forall|index: u64| logged_at(sorted, index) == logged_at(logs, index),
    ensures
        sorted == by_log_index(logs),
{
    lemma_by_log_index_below_congruent(sorted, logs, index_space());
    lemma_by_log_index_below_of_ordered(sorted, index_space());
    lemma_logged_below_everything(sorted);
}

/// The events below `index` and those at `index` are together the events
/// below `index + 1`, whatever the order of `logs`.
proof fn lemma_logged_below_step_counts(logs: Seq<TradeLog>, index: u64)
    ensures
        logged_below(logs, index as nat).to_multiset().add(logged_at(logs, index).to_multiset())
            == logged_below(logs, (index + 1) as nat).to_multiset(),
    decreases logs.len(),
{
    let below = |log: TradeLog| (log.log_index as nat) < index as nat;
    let at = |log: TradeLog| log.log_index == index;
    let upto = |log: TradeLog| (log.log_index as nat) < (index + 1) as nat;
    reveal(Seq::filter);
    if logs.len() == 0 {
        vstd::seq_lib::to_multiset_len(logs);
        assert(logs.to_multiset() =~= vstd::multiset::Multiset::<TradeLog>::empty());
        assert(logs.to_multiset().add(logs.to_multiset()) =~= logs.to_multiset());
    } else {
        let rest = logs.drop_last();
        let last = logs.last();
        lemma_logged_below_step_counts(rest, index);
        vstd::seq_lib::to_multiset_build(rest.filter(below), last);
        vstd::seq_lib::to_multiset_build(rest.filter(at), last);
        vstd::seq_lib::to_multiset_build(rest.filter(upto), last);
        assert(logs.filter(below).to_multiset().add(logs.filter(at).to_multiset())
            =~= logs.filter(upto).to_multiset());
    }
}

/// [`by_log_index_below`] keeps each event below the bound as often as `logs`
/// holds it.
proof fn lemma_by_log_index_below_counts(logs: Seq<TradeLog>, bound: nat)
    requires
        bound <= index_space(),
    ensures
        by_log_index_below(logs, bound).to_multiset() == logged_below(logs, bound).to_multiset(),
    decreases bound,
{
    if bound == 0 {
        let below = |log: TradeLog| (log.log_index as nat) < 0nat;
        if logs.filter(below).len() > 0 {
            logs.lemma_filter_pred(below, 0);
        }
        assert(logged_below(logs, 0) =~= Seq::<TradeLog>::empty());
    } else {
        let before = by_log_index_below(logs, (bound - 1) as nat);
        let at = logged_at(logs, (bound - 1) as u64);
        lemma_by_log_index_below_counts(logs, (bound - 1) as nat);
        lemma_logged_below_step_counts(logs, (bound - 1) as u64);
        vstd::seq_lib::lemma_multiset_commutative(before, at);
    }
}

/// Ordering by log index neither drops nor invents an event: the result holds
/// each event as often as `logs` does.
pub proof fn lemma_by_log_index_permutes(logs: Seq<TradeLog>)
    ensures
        by_log_index(logs).to_multiset() == logs.to_multiset(),
        by_log_index(logs).len() == logs.len(),
        forall|log: TradeLog| by_log_index(logs).contains(log) <==> logs.contains(log),
{
    lemma_by_log_index_below_counts(logs, index_space());
    lemma_logged_below_everything(logs);
    vstd::seq_lib::to_multiset_len(by_log_index(logs));
    vstd::seq_lib::to_multiset_len(logs);
    assert forall|log: TradeLog| by_log_index(logs).contains(log) <==> logs.contains(log) by {
        vstd::seq_lib::to_multiset_contains(by_log_index(logs), log);
        vstd::seq_lib::to_multiset_contains(logs, log);
    }
}

/// In [`by_log_index_below`] the log indices never decrease, and all are below
/// the bound.
proof fn lemma_by_log_index_below_in_order(logs: Seq<TradeLog>, bound: nat)
    requires
        bound <= index_space(),
    ensures
        in_log_order(by_log_index_below(logs, bound)),
        forall|i: int|
            0 <= i < by_log_index_below(logs, bound).len() ==> (by_log_index_below(
                logs,
                bound,
            )[i].log_index as nat) < bound,
    decreases bound,
{
    if bound > 0 {
        let before = by_log_index_below(logs, (bound - 1) as nat);
        let index = (bound - 1) as u64;
        let at = logged_at(logs, index);
        lemma_by_log_index_below_in_order(logs, (bound - 1) as nat);
        assert forall|i: int| 0 <= i < at.len() implies at[i].log_index == index by {
            logs.lemma_filter_pred(|log: TradeLog| log.log_index == index, i);
        }
        let all = before + at;
        assert forall|i: int, j: int| 0 <= i <= j < all.len() implies all[i].log_index
            <= all[j].log_index by {
            if j < before.len() {
                assert(all[i] == before[i] && all[j] == before[j]);
            } else if i < before.len() {
                assert(all[i] == before[i] && all[j] == at[j - before.len()]);
            } else {
                assert(all[i] == at[i - before.len()] && all[j] == at[j - before.len()]);
            }
        }
        assert forall|i: int| 0 <= i < all.len() implies (all[i].log_index as nat) < bound by {
            if i < before.len() {
                assert(all[i] == before[i]);
            } else {
                assert(all[i] == at[i - before.len()]);
            }
        }
    }
}

/// The log indices of [`by_log_index`] never decrease.
pub proof fn lemma_by_log_index_in_order(logs: Seq<TradeLog>)
    ensures
        in_log_order(by_log_index(logs)),
{
    lemma_by_log_index_below_in_order(logs, index_space());
}

/// Whether no event of `left` has the log index of an event of `right`.
pub open spec fn log_indices_disjoint(left: Seq<TradeLog>, right: Seq<TradeLog>) -> bool {
    forall|i: int, j: int|
        0 <= i < left.len() && 0 <= j < right.len() ==> left[i].log_index != right[j].log_index
}

/// Where two sequences share no log index, it does not matter which of them
/// comes first when both are ordered together.
pub proof fn lemma_by_log_index_commutes(left: Seq<TradeLog>, right: Seq<TradeLog>)
    requires
        log_indices_disjoint(left, right),
    ensures
        by_log_index(left + right) == by_log_index(right + left),
{
    assert forall|index: u64| logged_at(left + right, index) == logged_at(
        right + left,
        index,
    ) by {
        let at = |log: TradeLog| log.log_index == index;
        Seq::filter_distributes_over_add(left, right, at);
        Seq::filter_distributes_over_add(right, left, at);
        if exists|i: int| 0 <= i < left.len() && left[i].log_index == index {
            lemma_logged_at_nothing(right, index);
        } else {
            lemma_logged_at_nothing(left, index);
        }
        assert(left.filter(at) + right.filter(at) =~= right.filter(at) + left.filter(at));
    }
    lemma_by_log_index_below_congruent(left + right, right + left, index_space());
}

} // verus!
