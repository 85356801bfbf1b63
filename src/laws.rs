use vstd::prelude::*;
use crate::action::{
    Action, ActionType, Disposition, ErrorType, Timestamp, baseline, classify, is_transfer,
    reconciled, resolution, acts_have_path,
};
use crate::ledger::derived;
use crate::rclone::{RFileInfo, error_messages, on_side, side_time, lemma_side_time_some};

verus! {

/// The (path, kind) pairs of an action list.
pub open spec fn action_set(acts: Seq<Action>) -> Set<(Seq<char>, ActionType)> {
    Set::new(
        |x: (Seq<char>, ActionType)|
            exists|i: int| 0 <= i < acts.len() && acts[i].path@ == x.0 && acts[i].action == x.1,
    )
}

/// No two actions of `acts` name the same path.
pub open spec fn distinct_actions(acts: Seq<Action>) -> bool {
    forall|i: int, j: int| 0 <= i < j < acts.len() ==> acts[i].path@ != acts[j].path@
}

/// Reconciliation is determined by its inputs: two action lists that both
/// reconcile the same listings and ledger hold the same (path, kind) pairs.
pub proof fn lemma_reconcile_deterministic(
    local: Seq<RFileInfo>,
    remote: Seq<RFileInfo>,
    g: Map<Seq<char>, Timestamp>,
    a1: Seq<Action>,
    a2: Seq<Action>,
)
    requires
        reconciled(local, remote, g, a1),
        reconciled(local, remote, g, a2),
    ensures
        action_set(a1) == action_set(a2),
{
    assert forall|x: (Seq<char>, ActionType)| action_set(a1).contains(x) implies action_set(a2).contains(x) by {
        let i = choose|i: int| 0 <= i < a1.len() && a1[i].path@ == x.0 && a1[i].action == x.1;
        assert(acts_have_path(a1, x.0));
        assert(acts_have_path(a2, x.0));
        assert(on_side(local, x.0) || on_side(remote, x.0) || g.contains_key(x.0));
        assert(exists|k: int| 0 <= k < a1.len() && a1[k].path@ == x.0);
        let j = choose|j: int| 0 <= j < a2.len() && a2[j].path@ == x.0;
        assert(classify(side_time(local, x.0), side_time(remote, x.0), baseline(g, x.0)) == Some(a1[i].action));
        assert(classify(side_time(local, x.0), side_time(remote, x.0), baseline(g, x.0)) == Some(a2[j].action));
    }
    assert forall|x: (Seq<char>, ActionType)| action_set(a2).contains(x) implies action_set(a1).contains(x) by {
        let i = choose|i: int| 0 <= i < a2.len() && a2[i].path@ == x.0 && a2[i].action == x.1;
        assert(acts_have_path(a2, x.0));
        assert(acts_have_path(a1, x.0));
        let j = choose|j: int| 0 <= j < a1.len() && a1[j].path@ == x.0;
        assert(classify(side_time(local, x.0), side_time(remote, x.0), baseline(g, x.0)) == Some(a2[i].action));
        assert(classify(side_time(local, x.0), side_time(remote, x.0), baseline(g, x.0)) == Some(a1[j].action));
    }
    assert(action_set(a1) =~= action_set(a2));
}

/// A path that both sides hold unchanged since its baseline needs nothing.
pub proof fn lemma_unchanged_is_nothing(t0: Timestamp)
    ensures
        classify(Some(t0), Some(t0), Some(t0)) == Some(ActionType::Nothing),
{
}

/// What the ledger that follows a run records for one path depends on that
/// path's action alone.
pub proof fn lemma_derived_at(g: Map<Seq<char>, Timestamp>, acts: Seq<Action>, now: Timestamp, i: int)
    requires
        distinct_actions(acts),
        0 <= i < acts.len(),
        !(acts[i].action is Error),
    ensures
        derived(g, acts, now).contains_key(acts[i].path@) <==> (is_copy(acts[i].action) || (
        acts[i].action is Nothing && g.contains_key(acts[i].path@))),
        is_copy(acts[i].action) ==> derived(g, acts, now)[acts[i].path@] == now,
        acts[i].action is Nothing && g.contains_key(acts[i].path@) ==> derived(g, acts, now)[acts[i].path@]
            == g[acts[i].path@],
    decreases acts.len(),
{
    if i < acts.len() - 1 {
        let t = acts.drop_last();
        assert(t[i] == acts[i]);
        lemma_derived_at(g, t, now, i);
        assert(acts.last().path@ != acts[i].path@);
    }
}

pub open spec fn is_copy(k: ActionType) -> bool {
    k is Local2Remote || k is Remote2Local
}

/// Convergence after a copy: once a copy of `acts[i]` is recorded at `now`,
/// every reconciliation of listings in which both sides hold the path with
/// times no later than `now` gives that path the action `Nothing`.
pub proof fn lemma_converges_after_copy(
    g: Map<Seq<char>, Timestamp>,
    acts: Seq<Action>,
    now: Timestamp,
    i: int,
    local: Seq<RFileInfo>,
    remote: Seq<RFileInfo>,
    next: Seq<Action>,
)
    requires
        distinct_actions(acts),
        0 <= i < acts.len(),
        is_copy(acts[i].action),
        side_time(local, acts[i].path@) matches Some(t) && t <= now,
        side_time(remote, acts[i].path@) matches Some(t) && t <= now,
        reconciled(local, remote, derived(g, acts, now), next),
    ensures
        derived(g, acts, now).contains_key(acts[i].path@),
        derived(g, acts, now)[acts[i].path@] == now,
        exists|j: int| 0 <= j < next.len() && next[j].path@ == acts[i].path@ && next[j].action == ActionType::Nothing,
{
    let p = acts[i].path@;
    let h = derived(g, acts, now);
    lemma_derived_at(g, acts, now, i);
    lemma_side_time_some(local, p);
    assert(acts_have_path(next, p));
    let j = choose|j: int| 0 <= j < next.len() && next[j].path@ == p;
    assert(classify(side_time(local, p), side_time(remote, p), baseline(h, p)) == Some(next[j].action));
}

/// Convergence after a deletion: once a deletion of `acts[i]` is recorded,
/// the ledger forgets the path, so while neither side holds it again no
/// reconciliation yields any action for it.
pub proof fn lemma_converges_after_delete(
    g: Map<Seq<char>, Timestamp>,
    acts: Seq<Action>,
    now: Timestamp,
    i: int,
    local: Seq<RFileInfo>,
    remote: Seq<RFileInfo>,
    next: Seq<Action>,
)
    requires
        distinct_actions(acts),
        0 <= i < acts.len(),
        acts[i].action is DelLocal || acts[i].action is DelRemote,
        !on_side(local, acts[i].path@),
        !on_side(remote, acts[i].path@),
        reconciled(local, remote, derived(g, acts, now), next),
    ensures
        !derived(g, acts, now).contains_key(acts[i].path@),
        forall|j: int| 0 <= j < next.len() ==> next[j].path@ != acts[i].path@,
{
    lemma_derived_at(g, acts, now, i);
    let p = acts[i].path@;
    assert forall|j: int| 0 <= j < next.len() implies next[j].path@ != p by {
        if next[j].path@ == p {
            assert(acts_have_path(next, p));
        }
    }
}

/// A path that the ledger does not know and both sides hold is a conflict
/// between two new files, whichever time is larger.
pub proof fn lemma_new_on_both_sides(local_time: Timestamp, remote_time: Timestamp)
    ensures
        classify(Some(local_time), Some(remote_time), None) == Some(ActionType::Error(ErrorType::TwoNew)),
{
}

/// Every conflict kind settled with either disposition yields a copy or a
/// deletion, never a pending conflict or `Nothing`.
pub proof fn lemma_resolution_total(kind: ErrorType, d: Disposition)
    ensures
        is_transfer(resolution(kind, d)),
        !(resolution(kind, d) is Error),
        !(resolution(kind, d) is Nothing),
{
}

proof fn lemma_error_counts(s: Seq<Result<String, String>>, m: String)
    ensures
        error_messages(s).to_multiset().count(m) == s.to_multiset().count(Err(m)),
    decreases s.len(),
{
    broadcast use vstd::seq_lib::group_to_multiset_ensures;
    if s.len() > 0 {
        let t = s.drop_last();
        lemma_error_counts(t, m);
        assert(s =~= t.push(s.last()));
        match s.last() {
            Ok(_) => {},
            Err(x) => {
                assert(error_messages(s) == error_messages(t).push(x));
            },
        }
    }
}

/// Failure aggregation does not depend on the order in which units finish:
/// the same outcomes in any order give the same multiset of messages.
pub proof fn lemma_aggregation_order_independent(
    s1: Seq<Result<String, String>>,
    s2: Seq<Result<String, String>>,
)
    requires
        s1.to_multiset() == s2.to_multiset(),
    ensures
        error_messages(s1).to_multiset() == error_messages(s2).to_multiset(),
{
    assert forall|m: String| error_messages(s1).to_multiset().count(m) == error_messages(s2).to_multiset().count(m) by {
        lemma_error_counts(s1, m);
        lemma_error_counts(s2, m);
    }
    assert(error_messages(s1).to_multiset() =~= error_messages(s2).to_multiset());
}

} // verus!
