use inconsistent_replication_ir::record::RecordError;
use inconsistent_replication_ir::replica::{IRNetworkError, IRServerError, Replica};
use inconsistent_replication_ir::merge::Unresolved;
use inconsistent_replication_ir::types::{DecideFunction, IROperation, View, ViewState};

fn s(x: &str) -> String {
    x.to_string()
}

fn members() -> Vec<String> {
    vec![s("1"), s("2"), s("3")]
}

fn normal_replica() -> Replica {
    let mut r = Replica::new(s("1"), View { view: 0, members: members(), state: ViewState::Normal });
    r.finish_recovery().unwrap();
    assert!(r.complete_view_change());
    r
}

#[test]
fn recovers_view_from_storage_and_goes_into_recovery() {
    let r = Replica::new(s("1"), View { view: 3, members: members(), state: ViewState::Normal });
    assert_eq!(r.view(), &View { view: 3, members: members(), state: ViewState::Recovery });
    assert_eq!(r.node_id(), "1");
    assert!(r.records().entries().is_empty());
}

#[test]
fn propose_rejected_if_recovering() {
    let mut r = Replica::new(s("1"), View { view: 0, members: members(), state: ViewState::Normal });
    let resp = r.propose_consistent(&s("client-id"), 1, &s("message"), None);
    assert_eq!(
        resp,
        Err(IRServerError::Recovering(View { view: 0, members: members(), state: ViewState::Recovery }))
    );
}

#[test]
fn inconsistent_requests_rejected_if_not_normal() {
    let mut r = Replica::new(s("1"), View { view: 1, members: members(), state: ViewState::Normal });
    let resp = r.propose_inconsistent(&s("client-id"), 1, &s("message"), None);
    assert_eq!(
        resp,
        Err(IRServerError::Recovering(View { view: 1, members: members(), state: ViewState::Recovery }))
    );
    let resp = r.finalize_inconsistent(&s("client-id"), 1, &s("message"), None);
    assert!(matches!(resp, Err(IRServerError::Recovering(_))));
    let resp = r.finalize_consistent(&s("client-id"), 1, &s("message"), None);
    assert!(matches!(resp, Err(IRServerError::Recovering(_))));
    assert!(r.records().entries().is_empty());
}

#[test]
fn finish_recovery_proposes_next_view() {
    let mut r = Replica::new(s("1"), View { view: 4, members: members(), state: ViewState::Normal });
    let proposed = r.finish_recovery();
    assert_eq!(proposed, Some(View { view: 5, members: members(), state: ViewState::ViewChanging }));
    let resp = r.propose_inconsistent(&s("c"), 0, &s("m"), None);
    let changing = View { view: 5, members: members(), state: ViewState::ViewChanging };
    assert_eq!(resp, Err(IRServerError::ViewChanging { current: changing.clone(), target: changing }));
    assert_eq!(r.finish_recovery(), None);
    assert!(r.complete_view_change());
    assert_eq!(r.view(), &View { view: 5, members: members(), state: ViewState::Normal });
    assert!(!r.complete_view_change());
}

#[test]
fn inconsistent_changes_view_if_receives_higher() {
    let mut r = normal_replica();
    let higher = View { view: 4, members: vec![], state: ViewState::Normal };
    let resp = r.propose_inconsistent(&s("1"), 1, &s("msg"), Some(&higher));
    assert_eq!(
        resp,
        Err(IRServerError::ViewChanging {
            current: View { view: 1, members: members(), state: ViewState::Normal },
            target: View { view: 4, members: vec![], state: ViewState::ViewChanging },
        })
    );
    assert_eq!(r.view(), &View { view: 4, members: vec![], state: ViewState::ViewChanging });
    assert!(r.records().entries().is_empty());
}

#[test]
fn lower_observed_view_changes_nothing() {
    let mut r = normal_replica();
    let lower = View { view: 0, members: members(), state: ViewState::Normal };
    assert!(!r.observe_view(&lower));
    let resp = r.propose_inconsistent(&s("c"), 1, &s("msg"), Some(&lower));
    assert_eq!(resp, Ok((s("msg"), View { view: 1, members: members(), state: ViewState::Normal })));
}

#[test]
fn propose_and_finalize_inconsistent() {
    let mut r = normal_replica();
    let view = View { view: 1, members: members(), state: ViewState::Normal };
    assert_eq!(r.propose_inconsistent(&s("c"), 0, &s("a"), None), Ok((s("a"), view.clone())));
    assert_eq!(r.finalize_inconsistent(&s("c"), 0, &s("a"), None), Ok((s("a"), view.clone())));
    let e = r.records().find_entry(&s("c"), 0).unwrap();
    assert_eq!(e.view, 1);
    assert_eq!(e.operation, IROperation::InconsistentFinalize { client: s("c"), sequence: 0, message: s("a") });
    // A late proposal sees the finalized message.
    assert_eq!(r.propose_inconsistent(&s("c"), 0, &s("b"), None), Ok((s("a"), view)));
}

#[test]
fn propose_consistent() {
    let mut r = normal_replica();
    let view = View { view: 1, members: members(), state: ViewState::Normal };
    let val = r.propose_consistent(&s("client-id"), 3, &s("msg"), None);
    assert_eq!(val, Ok((s("msg"), view.clone())));
    assert_eq!(
        r.records().find_entry(&s("client-id"), 3).unwrap().operation,
        IROperation::ConsistentPropose { client: s("client-id"), sequence: 3, message: s("msg") }
    );
    assert_eq!(r.finalize_consistent(&s("client-id"), 3, &s("decided"), None), Ok((Some(s("msg")), view)));
}

#[test]
fn conflicting_slot_answers_with_the_standing_message() {
    let mut r = normal_replica();
    let view = View { view: 1, members: members(), state: ViewState::Normal };
    r.propose_inconsistent(&s("c"), 0, &s("a"), None).unwrap();
    assert_eq!(r.propose_consistent(&s("c"), 0, &s("b"), None), Ok((s("a"), view.clone())));
    assert_eq!(r.propose_inconsistent(&s("c"), 0, &s("b"), None), Ok((s("a"), view.clone())));
    assert_eq!(r.view(), &view);
    r.finalize_consistent(&s("d"), 0, &s("x"), None).unwrap();
    assert_eq!(r.finalize_inconsistent(&s("d"), 0, &s("y"), None), Ok((s("y"), view.clone())));
    assert_eq!(r.finalize_consistent(&s("c"), 0, &s("z"), None), Err(IRServerError::SlotConflict(s("a"))));
    assert_eq!(
        r.records().find_entry(&s("d"), 0).unwrap().operation,
        IROperation::ConsistentFinalize { client: s("d"), sequence: 0, message: s("x") }
    );
    assert_eq!(
        r.records().find_entry(&s("c"), 0).unwrap().operation,
        IROperation::InconsistentPropose { client: s("c"), sequence: 0, message: s("a") }
    );
    assert_eq!(r.view(), &view);
}

#[test]
fn replayed_requests_answer_the_same() {
    let mut r = normal_replica();
    let view = View { view: 1, members: members(), state: ViewState::Normal };
    assert_eq!(r.propose_inconsistent(&s("c"), 0, &s("a"), None), Ok((s("a"), view.clone())));
    assert_eq!(r.propose_inconsistent(&s("c"), 0, &s("a"), None), Ok((s("a"), view.clone())));
    assert_eq!(r.finalize_inconsistent(&s("c"), 0, &s("a"), None), Ok((s("a"), view.clone())));
    assert_eq!(r.finalize_inconsistent(&s("c"), 0, &s("a"), None), Ok((s("a"), view.clone())));
    assert_eq!(r.records().entries().len(), 1);
    // A finalize with another message is echoed; the first finalized entry stays.
    assert_eq!(r.finalize_inconsistent(&s("c"), 0, &s("b"), None), Ok((s("b"), view.clone())));
    assert_eq!(
        r.records().find_entry(&s("c"), 0).unwrap().operation,
        IROperation::InconsistentFinalize { client: s("c"), sequence: 0, message: s("a") }
    );
}

struct Last;

impl DecideFunction<String> for Last {
    fn decide(&self, choices: &Vec<String>) -> usize {
        choices.len() - 1
    }
}

#[test]
fn undecided_slots_are_settled_by_the_decide_function() {
    let mut r = normal_replica();
    let undecided = vec![
        Unresolved { client: s("c"), sequence: 1, choices: vec![s("X"), s("Y")] },
        Unresolved { client: s("c"), sequence: 2, choices: vec![] },
    ];
    // Outside a view change nothing is recorded.
    r.resolve_undecided(&undecided, &Last);
    assert!(r.records().entries().is_empty());
    assert!(r.observe_view(&View { view: 2, members: members(), state: ViewState::Normal }));
    r.resolve_undecided(&undecided, &Last);
    assert_eq!(
        r.records().find_entry(&s("c"), 1).unwrap().operation,
        IROperation::ConsistentFinalize { client: s("c"), sequence: 1, message: s("Y") }
    );
    assert!(r.records().find_entry(&s("c"), 2).is_none());
}

#[test]
fn network_error_from_server_error() {
    let e = IRNetworkError::from(IRServerError::InternalError(s("disk")));
    assert_eq!(e, IRNetworkError::IRServerError(IRServerError::InternalError(s("disk"))));
}

#[test]
fn view_change_adopts_merged_record_and_decisions() {
    let mut r = normal_replica();
    let mut merged = inconsistent_replication_ir::record::RecordStore::new();
    merged.promote_finalized_inconsistent(&s("c"), 1, 2, &s("i")).unwrap();
    // Not in view change: the record is refused.
    assert!(!r.adopt_merged_record(merged));
    assert_eq!(r.record_decision(&s("c"), 2, &s("d")), Err(RecordError::Conflict));
    assert!(r.observe_view(&View { view: 2, members: members(), state: ViewState::Normal }));
    let mut merged = inconsistent_replication_ir::record::RecordStore::new();
    merged.promote_finalized_inconsistent(&s("c"), 1, 2, &s("i")).unwrap();
    assert!(r.adopt_merged_record(merged));
    assert_eq!(r.record_decision(&s("c"), 2, &s("d")), Ok(()));
    assert_eq!(r.record_decision(&s("c"), 1, &s("d")), Err(RecordError::Conflict));
    assert_eq!(
        r.records().find_entry(&s("c"), 2).unwrap().operation,
        IROperation::ConsistentFinalize { client: s("c"), sequence: 2, message: s("d") }
    );
    let mut ahead = inconsistent_replication_ir::record::RecordStore::new();
    ahead.promote_finalized_inconsistent(&s("c"), 9, 7, &s("i")).unwrap();
    assert!(!r.adopt_merged_record(ahead));
    assert!(r.complete_view_change());
    assert_eq!(r.view(), &View { view: 2, members: members(), state: ViewState::Normal });
    assert_eq!(r.records().entries().len(), 2);
}
