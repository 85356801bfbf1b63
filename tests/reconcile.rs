use warp::action::{
    gen_action_list, handle_errors, mark_failed, Action, ActionType, Disposition, ErrorType,
    InvariantViolation,
};
use warp::ledger::{Ledger, LedgerInfo};
use warp::rclone::RFileInfo;

const T0: i128 = 1_000;
const T1: i128 = 2_000;
const T2: i128 = 3_000;

fn file(path: &str, t: i128) -> RFileInfo {
    RFileInfo { path: path.to_string(), size: 1, mod_time: t, is_dir: false }
}

fn dir(path: &str, t: i128) -> RFileInfo {
    RFileInfo { path: path.to_string(), size: 0, mod_time: t, is_dir: true }
}

fn ledger_of(entries: &[(&str, i128)]) -> Ledger {
    let mut l = Ledger::new();
    for (p, t) in entries {
        l.insert(&p.to_string(), *t);
    }
    l
}

fn kind_of(acts: &[Action], path: &str) -> Option<ActionType> {
    acts.iter().find(|a| a.path == path).map(|a| a.action)
}

fn classify(l: Option<i128>, r: Option<i128>, b: Option<i128>) -> ActionType {
    Action::from(&"p".to_string(), l, r, b).unwrap().action
}

#[test]
fn scenario_new_local_file_is_copied_to_remote() {
    let acts = gen_action_list(&vec![file("a.txt", T1)], &vec![], &Ledger::new()).unwrap();
    assert_eq!(acts.len(), 1);
    assert_eq!(kind_of(&acts, "a.txt"), Some(ActionType::Local2Remote));
}

#[test]
fn scenario_remote_deletion_deletes_local() {
    let acts = gen_action_list(&vec![file("b.txt", T0)], &vec![], &ledger_of(&[("b.txt", T0)])).unwrap();
    assert_eq!(kind_of(&acts, "b.txt"), Some(ActionType::DelLocal));
}

#[test]
fn scenario_modified_and_deleted_conflict_and_its_resolutions() {
    let ledger = ledger_of(&[("c.txt", T0)]);
    let acts = gen_action_list(&vec![file("c.txt", T2)], &vec![], &ledger).unwrap();
    assert_eq!(kind_of(&acts, "c.txt"), Some(ActionType::Error(ErrorType::ModAndDel)));

    let mut keep_local = acts.clone();
    handle_errors(&mut keep_local, &vec![Disposition::KeepLocal]);
    assert_eq!(kind_of(&keep_local, "c.txt"), Some(ActionType::Local2Remote));

    let mut keep_remote = acts.clone();
    handle_errors(&mut keep_remote, &vec![Disposition::KeepRemote]);
    assert_eq!(kind_of(&keep_remote, "c.txt"), Some(ActionType::DelLocal));
}

#[test]
fn scenario_local_change_is_copied_to_remote() {
    let acts = gen_action_list(&vec![file("d.txt", T2)], &vec![file("d.txt", T0)], &ledger_of(&[("d.txt", T0)]))
        .unwrap();
    assert_eq!(kind_of(&acts, "d.txt"), Some(ActionType::Local2Remote));
}

#[test]
fn scenario_both_modified_is_a_conflict() {
    let acts = gen_action_list(&vec![file("e.txt", T2)], &vec![file("e.txt", T2)], &ledger_of(&[("e.txt", T0)]))
        .unwrap();
    assert_eq!(kind_of(&acts, "e.txt"), Some(ActionType::Error(ErrorType::TwoSideMod)));
}

#[test]
fn scenario_copy_then_rerun_needs_nothing() {
    let before = Ledger::new();
    let acts = gen_action_list(&vec![file("a.txt", T1)], &vec![], &before).unwrap();
    let next = before.derive_next(&acts, T2).unwrap();
    assert_eq!(next.get(&"a.txt".to_string()), Some(T2));
    let again = gen_action_list(&vec![file("a.txt", T1)], &vec![file("a.txt", T1)], &next).unwrap();
    assert_eq!(kind_of(&again, "a.txt"), Some(ActionType::Nothing));
}

#[test]
fn unchanged_on_both_sides_needs_nothing() {
    assert_eq!(classify(Some(T0), Some(T0), Some(T0)), ActionType::Nothing);
}

#[test]
fn new_on_both_sides_is_a_conflict_whichever_is_newer() {
    assert_eq!(classify(Some(T1), Some(T2), None), ActionType::Error(ErrorType::TwoNew));
    assert_eq!(classify(Some(T2), Some(T1), None), ActionType::Error(ErrorType::TwoNew));
    assert_eq!(classify(Some(T1), Some(T1), None), ActionType::Error(ErrorType::TwoNew));
}

#[test]
fn full_classification_table() {
    assert_eq!(classify(None, Some(T1), None), ActionType::Remote2Local);
    assert_eq!(classify(None, Some(T0), Some(T0)), ActionType::DelRemote);
    assert_eq!(classify(None, Some(T1), Some(T0)), ActionType::Error(ErrorType::DelAndMod));
    assert_eq!(classify(Some(T0), None, Some(T1)), ActionType::DelLocal);
    assert_eq!(classify(Some(T2), None, Some(T1)), ActionType::Error(ErrorType::ModAndDel));
    assert_eq!(classify(Some(T0), Some(T1), Some(T0)), ActionType::Remote2Local);
    assert_eq!(classify(Some(T1), Some(T0), Some(T0)), ActionType::Local2Remote);
}

#[test]
fn path_on_no_side_is_an_invariant_violation() {
    let r = Action::from(&"x".to_string(), None, None, Some(T0));
    assert!(matches!(r, Err(InvariantViolation::PathNowhere(p)) if p == "x"));
    let r = Action::from(&"x".to_string(), None, None, None);
    assert!(matches!(r, Err(InvariantViolation::PathNowhere(_))));
}

#[test]
fn stale_ledger_entry_fails_the_run() {
    let r = gen_action_list(&vec![file("a", T0)], &vec![], &ledger_of(&[("gone", T0)]));
    assert!(matches!(r, Err(InvariantViolation::PathNowhere(p)) if p == "gone"));
}

#[test]
fn directories_take_no_part() {
    let acts = gen_action_list(&vec![dir("folder", T0), file("folder/f", T0)], &vec![dir("folder", T0)], &Ledger::new())
        .unwrap();
    assert_eq!(acts.len(), 1);
    assert_eq!(kind_of(&acts, "folder/f"), Some(ActionType::Local2Remote));
}

#[test]
fn one_action_per_path_of_the_union() {
    let local = vec![file("a", T1), file("b", T0), file("c", T0)];
    let remote = vec![file("b", T0), file("d", T1), file("c", T2)];
    let ledger = ledger_of(&[("b", T0), ("c", T0)]);
    let acts = gen_action_list(&local, &remote, &ledger).unwrap();
    assert_eq!(acts.len(), 4);
    assert_eq!(kind_of(&acts, "a"), Some(ActionType::Local2Remote));
    assert_eq!(kind_of(&acts, "b"), Some(ActionType::Nothing));
    assert_eq!(kind_of(&acts, "c"), Some(ActionType::Remote2Local));
    assert_eq!(kind_of(&acts, "d"), Some(ActionType::Remote2Local));
}

#[test]
fn reconciling_twice_gives_the_same_actions() {
    let local = vec![file("a", T1), file("b", T2)];
    let remote = vec![file("b", T0), file("c", T1)];
    let ledger = ledger_of(&[("b", T0)]);
    let first = gen_action_list(&local, &remote, &ledger).unwrap();
    let second = gen_action_list(&local, &remote, &ledger).unwrap();
    let pairs = |v: &Vec<Action>| v.iter().map(|a| (a.path.clone(), a.action)).collect::<Vec<_>>();
    assert_eq!(pairs(&first), pairs(&second));
}

#[test]
fn every_resolution_is_concrete() {
    let table = [
        (ErrorType::TwoNew, ActionType::Local2Remote, ActionType::Remote2Local),
        (ErrorType::TwoSideMod, ActionType::Local2Remote, ActionType::Remote2Local),
        (ErrorType::ModAndDel, ActionType::Local2Remote, ActionType::DelLocal),
        (ErrorType::DelAndMod, ActionType::DelRemote, ActionType::Remote2Local),
    ];
    for (kind, local, remote) in table {
        assert_eq!(kind.resolve(Disposition::KeepLocal), local);
        assert_eq!(kind.resolve(Disposition::KeepRemote), remote);
    }
}

#[test]
fn action_resolve_leaves_concrete_kinds() {
    let mut a = Action::new(&"p".to_string(), ActionType::DelLocal);
    a.resolve(Disposition::KeepRemote);
    assert_eq!(a.action, ActionType::DelLocal);
    let mut c = Action::new(&"p".to_string(), ActionType::Error(ErrorType::DelAndMod));
    c.resolve(Disposition::KeepLocal);
    assert_eq!(c.action, ActionType::DelRemote);
    assert_eq!(c.path, "p");
}

#[test]
fn conflicts_take_decisions_in_order_and_the_rest_stay_pending() {
    let mut acts = vec![
        Action::new(&"a".to_string(), ActionType::Error(ErrorType::TwoNew)),
        Action::new(&"b".to_string(), ActionType::Nothing),
        Action::new(&"c".to_string(), ActionType::Error(ErrorType::TwoSideMod)),
        Action::new(&"d".to_string(), ActionType::Error(ErrorType::TwoNew)),
    ];
    handle_errors(&mut acts, &vec![Disposition::KeepRemote, Disposition::KeepLocal]);
    assert_eq!(acts[0].action, ActionType::Remote2Local);
    assert_eq!(acts[1].action, ActionType::Nothing);
    assert_eq!(acts[2].action, ActionType::Local2Remote);
    assert_eq!(acts[3].action, ActionType::Error(ErrorType::TwoNew));
}

#[test]
fn is_error_tells_conflicts_apart() {
    assert!(ActionType::Error(ErrorType::TwoNew).is_error());
    assert!(!ActionType::Nothing.is_error());
    assert!(!ActionType::Local2Remote.is_error());
}

#[test]
fn new_action_keeps_path_and_kind() {
    let a = Action::new(&"dir/file".to_string(), ActionType::DelRemote);
    assert_eq!(a.path, "dir/file");
    assert_eq!(a.action, ActionType::DelRemote);
}

#[test]
fn failed_paths_turn_into_nothing() {
    let mut acts = vec![
        Action::new(&"a".to_string(), ActionType::Local2Remote),
        Action::new(&"b".to_string(), ActionType::DelLocal),
    ];
    mark_failed(&mut acts, &vec!["b".to_string()]);
    assert_eq!(acts[0].action, ActionType::Local2Remote);
    assert_eq!(acts[1].action, ActionType::Nothing);
    assert_eq!(acts[1].path, "b");
}

#[test]
fn failed_copy_keeps_the_old_baseline() {
    let ledger = ledger_of(&[("a", T0)]);
    let mut acts = vec![Action::new(&"a".to_string(), ActionType::Local2Remote)];
    mark_failed(&mut acts, &vec!["a".to_string()]);
    let next = ledger.derive_next(&acts, T2).unwrap();
    assert_eq!(next.get(&"a".to_string()), Some(T0));
}

#[test]
fn ledger_round_trip_through_records() {
    let ledger = ledger_of(&[("a", T0), ("b", T1), ("c", T2)]);
    let recs: Vec<LedgerInfo> = ledger.records();
    assert_eq!(recs.len(), 3);
    let back = Ledger::from_records(&recs);
    for (p, t) in [("a", T0), ("b", T1), ("c", T2)] {
        assert_eq!(back.get(&p.to_string()), Some(t));
    }
    assert_eq!(back.paths().len(), 3);
}
