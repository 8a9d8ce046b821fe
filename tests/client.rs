use inconsistent_replication_ir::client::{
    confirm_finalize, decided_choice, validate_view, ClientError, ClientState, ConsistentStep, InconsistentStep,
};
use inconsistent_replication_ir::quorum::QuorumVote;
use inconsistent_replication_ir::replica::Replica;
use inconsistent_replication_ir::types::{DecideFunction, IROperation, View, ViewState};

fn s(x: &str) -> String {
    x.to_string()
}

fn view(num: u64, members: &[&str]) -> View {
    View { view: num, members: members.iter().map(|m| m.to_string()).collect(), state: ViewState::Normal }
}

fn vote(node: &str, message: &str, view: &View) -> QuorumVote {
    QuorumVote { node: s(node), message: s(message), view: view.clone() }
}

fn normal_replica(id: &str, v: &View) -> Replica {
    let mut r = Replica::new(s(id), View { view: v.view, members: v.members.clone(), state: ViewState::Recovery });
    r.finish_recovery().unwrap();
    r.complete_view_change();
    r
}

#[test]
fn happy_path_inconsistent() {
    let cluster = view(0, &["0", "1", "2"]);
    let mut replicas: Vec<Replica> = cluster.members.iter().map(|id| normal_replica(id, &cluster)).collect();
    let mut client = ClientState::new(s("0"), view(1, &["0", "1", "2"]));
    let (seq, nodes) = client.begin_invocation().unwrap();
    assert_eq!(seq, 0);
    assert_eq!(nodes, vec![s("0"), s("1"), s("2")]);
    let mut votes = Vec::new();
    for (i, r) in replicas.iter_mut().enumerate() {
        let (m, v) = r.propose_inconsistent(&s("0"), seq, &s("a"), None).unwrap();
        votes.push(QuorumVote { node: nodes[i].clone(), message: m, view: v });
    }
    match client.step_inconsistent(&votes, false) {
        InconsistentStep::Finalize { members, message } => {
            assert_eq!(message, "a");
            assert_eq!(members, nodes);
            for r in replicas.iter_mut() {
                r.finalize_inconsistent(&s("0"), seq, &message, None).unwrap();
            }
        }
        other => panic!("unexpected {:?}", other),
    }
    for r in &replicas {
        let e = r.records().find_entry(&s("0"), 0).unwrap();
        assert_eq!(e.operation, IROperation::InconsistentFinalize { client: s("0"), sequence: 0, message: s("a") });
    }
}

#[test]
fn dropped_requests_still_quorum() {
    let v = view(0, &["1", "2", "3", "4", "5"]);
    let mut client = ClientState::new(s("c"), v.clone());
    let votes = vec![vote("1", "x", &v), vote("2", "x", &v), vote("3", "x", &v)];
    match client.step_inconsistent(&votes, false) {
        InconsistentStep::Finalize { message, members } => {
            assert_eq!(message, "x");
            assert_eq!(members, v.members);
        }
        other => panic!("unexpected {:?}", other),
    }
}

#[test]
fn consistent_conflict_goes_to_decide() {
    let v = view(0, &["1", "2", "3"]);
    let mut client = ClientState::new(s("a"), v.clone());
    let votes = vec![vote("1", "A", &v), vote("2", "A", &v), vote("3", "B", &v)];
    match client.step_consistent(&votes, false) {
        ConsistentStep::Decide { members, choices } => {
            assert_eq!(choices, vec![s("A"), s("B")]);
            assert_eq!(members, v.members);
        }
        other => panic!("unexpected {:?}", other),
    }
    let split = vec![vote("1", "A", &v), vote("2", "B", &v)];
    match client.step_consistent(&split, false) {
        ConsistentStep::Decide { choices, .. } => assert_eq!(choices, vec![s("A"), s("B")]),
        other => panic!("unexpected {:?}", other),
    }
}

#[test]
fn consistent_fast_quorum_finalizes_without_waiting() {
    let v = view(0, &["1", "2", "3"]);
    let mut client = ClientState::new(s("a"), v.clone());
    let votes = vec![vote("1", "A", &v), vote("2", "A", &v), vote("3", "A", &v)];
    match client.step_consistent(&votes, false) {
        ConsistentStep::FinalizeAsync { message, .. } => assert_eq!(message, "A"),
        other => panic!("unexpected {:?}", other),
    }
}

#[test]
fn view_skew_triggers_retry() {
    let v1 = view(1, &["1", "2", "3"]);
    let v2 = view(2, &["1", "2", "3"]);
    let mut client = ClientState::new(s("c"), v1.clone());
    let votes = vec![vote("1", "z", &v1), vote("2", "z", &v2), vote("3", "y", &v2)];
    assert!(matches!(client.step_inconsistent(&votes, false), InconsistentStep::Retry));
    assert_eq!(client.latest_view(), &v2);
    let votes = vec![vote("1", "z", &v2), vote("2", "z", &v2), vote("3", "z", &v2)];
    assert!(matches!(client.step_inconsistent(&votes, true), InconsistentStep::Finalize { .. }));
}

#[test]
fn quorum_in_higher_view_is_adopted() {
    let v1 = view(1, &["1", "2", "3"]);
    let v2 = view(2, &["1", "2", "4"]);
    let mut client = ClientState::new(s("c"), v1.clone());
    client.add_nodes_to_probe(vec![s("9")]);
    let votes = vec![vote("1", "z", &v1), vote("2", "z", &v2), vote("4", "z", &v2)];
    match client.step_inconsistent(&votes, false) {
        InconsistentStep::Finalize { members, message } => {
            assert_eq!(message, "z");
            assert_eq!(members, v2.members);
        }
        other => panic!("unexpected {:?}", other),
    }
    assert_eq!(client.latest_view(), &v2);
    let (_, nodes) = client.begin_invocation().unwrap();
    assert_eq!(nodes, vec![s("1"), s("2"), s("4")]);
    let v3 = view(3, &["1", "2", "4"]);
    let votes = vec![vote("1", "A", &v3), vote("2", "A", &v3), vote("4", "B", &v3)];
    assert!(matches!(client.step_consistent(&votes, false), ConsistentStep::Decide { .. }));
    assert_eq!(client.latest_view(), &v3);
}

struct Second;

impl DecideFunction<String> for Second {
    fn decide(&self, choices: &Vec<String>) -> usize {
        if choices.len() > 1 { 1 } else { 0 }
    }
}

#[test]
fn decided_choice_uses_the_decide_function() {
    assert_eq!(decided_choice(&vec![s("A"), s("B")], &Second), Some(s("B")));
    assert_eq!(decided_choice(&vec![], &Second), None);
}

#[test]
fn no_quorum_after_retry_fails() {
    let v2 = view(2, &["1", "2", "3"]);
    let mut client = ClientState::new(s("c"), view(1, &["1", "2", "3"]));
    let votes = vec![vote("2", "z", &v2), vote("3", "y", &v2)];
    assert!(matches!(client.step_inconsistent(&votes, true), InconsistentStep::Fail(ClientError::NoQuorum)));
    assert_eq!(client.latest_view().view, 1);
    assert!(matches!(client.step_inconsistent(&vec![], false), InconsistentStep::Fail(ClientError::NoQuorum)));
    let one = vec![vote("2", "z", &v2)];
    assert!(matches!(client.step_consistent(&one, true), ConsistentStep::Fail(ClientError::NoQuorum)));
}

#[test]
fn cluster_too_small() {
    let mut client = ClientState::new(s("c"), view(0, &["1", "2"]));
    assert_eq!(client.begin_invocation(), Err(ClientError::ClusterTooSmall));
}

#[test]
fn sequences_strictly_increase() {
    let mut client = ClientState::new(s("c"), view(0, &["1", "2", "3"]));
    let (a, _) = client.begin_invocation().unwrap();
    let (b, _) = client.begin_invocation().unwrap();
    let (c, _) = client.begin_invocation().unwrap();
    assert!(a < b && b < c);
    assert_eq!((a, b, c), (0, 1, 2));
}

#[test]
fn probes_are_sent_to_and_cleared_on_view_change() {
    let v1 = view(1, &["1", "2", "3"]);
    let mut client = ClientState::new(s("c"), v1.clone());
    client.add_nodes_to_probe(vec![s("9")]);
    let (_, nodes) = client.begin_invocation().unwrap();
    assert_eq!(nodes, vec![s("1"), s("2"), s("3"), s("9")]);
    let v2 = view(2, &["1", "2", "3"]);
    let votes = vec![vote("1", "p", &v2), vote("2", "q", &v2)];
    assert!(matches!(client.step_inconsistent(&votes, false), InconsistentStep::Retry));
    let (_, nodes) = client.begin_invocation().unwrap();
    assert_eq!(nodes, vec![s("1"), s("2"), s("3")]);
}

#[test]
fn finalize_confirmation_needs_a_quorum() {
    let v = view(0, &["1", "2", "3"]);
    assert_eq!(confirm_finalize(&vec![vote("1", "d", &v), vote("2", "d", &v)]), Ok(()));
    assert_eq!(confirm_finalize(&vec![vote("1", "d", &v)]), Err(ClientError::FinalizeNotConfirmed));
}

#[test]
fn validate_view_reports_highest() {
    let v1 = view(1, &["1"]);
    let v2 = view(2, &["1"]);
    assert_eq!(validate_view(&vec![v1.clone(), v1.clone()], None), Ok(v1.clone()));
    assert_eq!(validate_view(&vec![v1.clone(), v2.clone(), v1.clone()], None), Err(v2.clone()));
    assert_eq!(validate_view(&vec![v1.clone()], Some(&v2)), Err(v2.clone()));
    assert_eq!(validate_view(&vec![], Some(&v1)), Ok(v1));
}
