use warp::action::{Action, ActionType, ErrorType, InvariantViolation};
use warp::configs::{find_by_local, Config, LookupError};
use warp::ledger::{has_pending, Ledger, LedgerInfo};
use warp::rclone::{
    aggregate, batch_actions, failed_paths, progress_scaled, progress_total, sort_actions, ProviderCall, Side,
    WorkUnit,
};
use warp::sync::{next_spinner, CmdSync, PhaseEvent, SyncPhase};

fn act(p: &str, k: ActionType) -> Action {
    Action::new(&p.to_string(), k)
}

fn s(p: &str) -> String {
    p.to_string()
}

#[test]
fn ledger_insert_get_remove() {
    let mut l = Ledger::new();
    assert_eq!(l.get(&s("a")), None);
    l.insert(&s("a"), 5);
    l.insert(&s("b"), 6);
    l.insert(&s("a"), 7);
    assert_eq!(l.get(&s("a")), Some(7));
    assert_eq!(l.paths().len(), 2);
    l.remove(&s("a"));
    assert_eq!(l.get(&s("a")), None);
    assert_eq!(l.get(&s("b")), Some(6));
    l.remove(&s("missing"));
    assert_eq!(l.paths(), vec![s("b")]);
}

#[test]
fn later_record_of_a_path_wins() {
    let recs = vec![
        LedgerInfo { path: s("a"), last_update: 1 },
        LedgerInfo { path: s("a"), last_update: 9 },
    ];
    let l = Ledger::from_records(&recs);
    assert_eq!(l.get(&s("a")), Some(9));
    assert_eq!(l.records().len(), 1);
}

#[test]
fn derive_next_follows_each_kind() {
    let mut old = Ledger::new();
    old.insert(&s("kept"), 10);
    old.insert(&s("deleted"), 10);
    old.insert(&s("copied"), 10);
    let acts = vec![
        act("kept", ActionType::Nothing),
        act("deleted", ActionType::DelRemote),
        act("copied", ActionType::Remote2Local),
        act("fresh", ActionType::Local2Remote),
    ];
    let next = old.derive_next(&acts, 50).unwrap();
    assert_eq!(next.get(&s("kept")), Some(10));
    assert_eq!(next.get(&s("deleted")), None);
    assert_eq!(next.get(&s("copied")), Some(50));
    assert_eq!(next.get(&s("fresh")), Some(50));
    assert_eq!(next.paths().len(), 3);
}

#[test]
fn derive_next_refuses_an_unresolved_conflict() {
    let acts = vec![act("a", ActionType::Local2Remote), act("c", ActionType::Error(ErrorType::TwoNew))];
    let r = Ledger::new().derive_next(&acts, 50);
    assert!(matches!(r, Err(InvariantViolation::UnresolvedConflict(p)) if p == "c"));
}

#[test]
fn record_applies_one_action() {
    let mut l = Ledger::new();
    assert!(l.record(&s("a"), ActionType::Local2Remote, 42).is_ok());
    assert_eq!(l.get(&s("a")), Some(42));
    assert!(l.record(&s("a"), ActionType::Nothing, 99).is_ok());
    assert_eq!(l.get(&s("a")), Some(42));
    assert!(l.record(&s("a"), ActionType::Error(ErrorType::TwoSideMod), 99).is_err());
    assert_eq!(l.get(&s("a")), Some(42));
    assert!(l.record(&s("a"), ActionType::DelLocal, 99).is_ok());
    assert_eq!(l.get(&s("a")), None);
}

#[test]
fn update_ledger_records_the_current_time() {
    // 2020-01-01T00:00:00Z in nanoseconds
    let past: i128 = 1_577_836_800_000_000_000;
    let mut l = Ledger::new();
    l.update_ledger(&s("a"), ActionType::Local2Remote).unwrap();
    assert!(l.get(&s("a")).unwrap() > past);
    let next = l.ledger_from(&vec![act("b", ActionType::Remote2Local)]).unwrap();
    assert!(next.get(&s("b")).unwrap() > past);
    assert_eq!(next.get(&s("a")), None);
}

#[test]
fn sort_groups_paths_by_kind_in_order() {
    let acts = vec![
        act("a", ActionType::Local2Remote),
        act("b", ActionType::DelLocal),
        act("c", ActionType::Local2Remote),
        act("d", ActionType::Nothing),
    ];
    let groups = sort_actions(&acts);
    assert_eq!(groups.len(), 3);
    assert_eq!(groups[0].kind, ActionType::Local2Remote);
    assert_eq!(groups[0].paths, vec![s("a"), s("c")]);
    assert_eq!(groups[1].kind, ActionType::DelLocal);
    assert_eq!(groups[1].paths, vec![s("b")]);
    assert_eq!(groups[2].kind, ActionType::Nothing);
}

#[test]
fn batches_cut_groups_into_pieces() {
    let acts: Vec<Action> = ["a", "b", "c", "d", "e"].iter().map(|p| act(p, ActionType::Remote2Local)).collect();
    let mut all = acts.clone();
    all.push(act("x", ActionType::DelRemote));
    let groups = sort_actions(&all);
    let units = batch_actions(&groups, Some(2));
    let sizes: Vec<usize> = units.iter().map(|u| u.paths.len()).collect();
    assert_eq!(sizes, vec![2, 2, 1, 1]);
    assert_eq!(units[2].paths, vec![s("e")]);
    assert_eq!(units[3].kind, ActionType::DelRemote);
    let whole = batch_actions(&groups, None);
    assert_eq!(whole.len(), 2);
    assert_eq!(whole[0].paths.len(), 5);
}

#[test]
fn batch_size_of_the_group_gives_one_unit() {
    let acts = vec![act("a", ActionType::DelLocal), act("b", ActionType::DelLocal)];
    let units = batch_actions(&sort_actions(&acts), Some(2));
    assert_eq!(units.len(), 1);
    assert_eq!(units[0].paths, vec![s("a"), s("b")]);
}

#[test]
fn each_kind_has_its_provider_call() {
    let unit = |k| WorkUnit { kind: k, paths: vec![s("p")] };
    assert_eq!(unit(ActionType::Nothing).provider_call(), ProviderCall::Skip);
    assert_eq!(unit(ActionType::DelLocal).provider_call(), ProviderCall::Delete(Side::Local));
    assert_eq!(unit(ActionType::DelRemote).provider_call(), ProviderCall::Delete(Side::Remote));
    assert_eq!(unit(ActionType::Local2Remote).provider_call(), ProviderCall::Copy(Side::Local, Side::Remote));
    assert_eq!(unit(ActionType::Remote2Local).provider_call(), ProviderCall::Copy(Side::Remote, Side::Local));
    assert_eq!(unit(ActionType::Error(ErrorType::TwoNew)).provider_call(), ProviderCall::Unexpected);
}

#[test]
fn aggregation_keeps_every_message() {
    let ok: Vec<Result<String, String>> = vec![Ok(s("fine")), Ok(s("fine"))];
    assert_eq!(aggregate(&ok), Ok(()));
    assert_eq!(aggregate(&vec![]), Ok(()));
    let mixed = vec![Err(s("e1")), Ok(s("fine")), Err(s("e2")), Err(s("e1"))];
    assert_eq!(aggregate(&mixed), Err(vec![s("e1"), s("e2"), s("e1")]));
}

#[test]
fn aggregation_is_order_independent() {
    let one = vec![Err(s("e1")), Ok(s("fine")), Err(s("e2"))];
    let other = vec![Err(s("e2")), Err(s("e1")), Ok(s("fine"))];
    let mut a = aggregate(&one).unwrap_err();
    let mut b = aggregate(&other).unwrap_err();
    a.sort();
    b.sort();
    assert_eq!(a, b);
}

#[test]
fn progress_counts_two_events_per_busy_action() {
    let acts = vec![
        act("a", ActionType::Nothing),
        act("b", ActionType::DelLocal),
        act("c", ActionType::Local2Remote),
    ];
    assert_eq!(progress_total(&acts), 4);
    assert_eq!(progress_total(&vec![]), 0);
}

#[test]
fn progress_scales_down() {
    assert_eq!(progress_scaled(1, 3, 100), 33);
    assert_eq!(progress_scaled(3, 3, 100), 100);
    assert_eq!(progress_scaled(0, 7, 50), 0);
    assert_eq!(progress_scaled(5, 8, 63), 39);
}

#[test]
fn config_lookup_by_local_folder() {
    let c1 = Config::new("/cfg/one", "/home/u/one", "r:one", 0);
    let c2 = Config::new("/cfg/two", "/home/u/two", "r:two", 3);
    assert_eq!(c2.link_path, "/cfg/two");
    assert_eq!(c2.local, "/home/u/two");
    assert_eq!(c2.remote, "r:two");
    assert_eq!(c2.update_rt, 3);
    let all = vec![c1, c2];
    assert_eq!(find_by_local(&all, &s("/home/u/two")), Ok(1));
    assert_eq!(find_by_local(&all, &s("/elsewhere")), Err(LookupError::NotFound));
    assert_eq!(find_by_local(&vec![], &s("/home/u/two")), Err(LookupError::NotFound));
}

#[test]
fn config_lookup_refuses_an_ambiguous_folder() {
    let all = vec![
        Config::new("/cfg/one", "/home/u/shared", "r:one", 0),
        Config::new("/cfg/two", "/home/u/other", "r:two", 0),
        Config::new("/cfg/three", "/home/u/shared", "r:three", 0),
    ];
    assert_eq!(find_by_local(&all, &s("/home/u/shared")), Err(LookupError::Ambiguous));
    assert_eq!(find_by_local(&all, &s("/home/u/other")), Ok(1));
}

#[test]
fn pending_conflicts_are_detected() {
    assert!(!has_pending(&vec![]));
    assert!(!has_pending(&vec![act("a", ActionType::Nothing), act("b", ActionType::DelLocal)]));
    assert!(has_pending(&vec![act("a", ActionType::Nothing), act("b", ActionType::Error(ErrorType::ModAndDel))]));
}

#[test]
fn failed_units_give_their_paths() {
    let units = vec![
        WorkUnit { kind: ActionType::Local2Remote, paths: vec![s("a"), s("b")] },
        WorkUnit { kind: ActionType::DelLocal, paths: vec![s("c")] },
        WorkUnit { kind: ActionType::DelRemote, paths: vec![s("d"), s("e")] },
    ];
    let results = vec![Err(s("boom")), Ok(s("fine")), Err(s("bang"))];
    assert_eq!(failed_paths(&units, &results), vec![s("a"), s("b"), s("d"), s("e")]);
    let none = vec![Ok(s("fine")), Ok(s("fine")), Ok(s("fine"))];
    assert!(failed_paths(&units, &none).is_empty());
}

#[test]
fn labels_name_kinds_to_users() {
    assert_eq!(ActionType::DelLocal.label(), "Local Deletion");
    assert_eq!(ActionType::DelRemote.label(), "Remote Deletion");
    assert_eq!(ActionType::Local2Remote.label(), "copy Local -> Remote");
    assert_eq!(ActionType::Remote2Local.label(), "copy Remote -> Local");
    assert_eq!(ActionType::Nothing.label(), "Nothing to do");
    assert_eq!(ActionType::Error(ErrorType::TwoSideMod).label(), "Conflicting modifications");
    assert_eq!(ErrorType::ModAndDel.label(), "Modification & Deletion");
    assert_eq!(ErrorType::DelAndMod.label(), "Deletion & Modification");
    assert_eq!(ErrorType::TwoNew.label(), "Conflicting new files");
}

#[test]
fn sync_settings_default() {
    let c = CmdSync::new("docs");
    assert_eq!(c.name, Some(s("docs")));
    assert_eq!(c.thread_count, 4);
    assert_eq!(c.batch_size, None);
}

#[test]
fn phases_follow_in_order() {
    let mut p = SyncPhase::LoadLedger;
    let mut seen = vec![p];
    while !p.is_terminal() {
        p = p.next(PhaseEvent::Finished);
        seen.push(p);
    }
    assert_eq!(
        seen,
        vec![
            SyncPhase::LoadLedger,
            SyncPhase::SnapshotBoth,
            SyncPhase::Reconcile,
            SyncPhase::ResolveConflicts,
            SyncPhase::Execute,
            SyncPhase::UpdateLedger,
            SyncPhase::Done
        ]
    );
}

#[test]
fn phases_abort_wait_and_always_update_after_execute() {
    assert_eq!(SyncPhase::SnapshotBoth.next(PhaseEvent::Fatal), SyncPhase::Failed);
    assert_eq!(SyncPhase::ResolveConflicts.next(PhaseEvent::Pending), SyncPhase::ResolveConflicts);
    assert_eq!(SyncPhase::Execute.next(PhaseEvent::Fatal), SyncPhase::UpdateLedger);
    assert_eq!(SyncPhase::Failed.next(PhaseEvent::Finished), SyncPhase::Failed);
    assert_eq!(SyncPhase::Done.next(PhaseEvent::Fatal), SyncPhase::Done);
}

#[test]
fn spinner_cycles() {
    assert_eq!(next_spinner('|'), '/');
    assert_eq!(next_spinner('/'), '-');
    assert_eq!(next_spinner('-'), '\\');
    assert_eq!(next_spinner('\\'), '|');
}
