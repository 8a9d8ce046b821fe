use inconsistent_replication_ir::quorum::{
    f, fast_quorum, find_quorum, slow_quorum, NoQuorum, Quorum, QuorumType, QuorumVote,
};
use inconsistent_replication_ir::types::{View, ViewState};

fn s(x: &str) -> String {
    x.to_string()
}

fn view(num: u64, members: &[&'static str], state: ViewState) -> View {
    View { view: num, members: members.iter().map(|m| m.to_string()).collect(), state }
}

fn vote(node: &str, message: &str, view: &View) -> QuorumVote {
    QuorumVote { node: s(node), message: s(message), view: view.clone() }
}

#[test]
fn test_f() {
    assert!(f(0).is_err());
    assert!(f(1).is_err());
    assert!(f(2).is_err());
    assert_eq!(f(3), Ok(1));
    assert_eq!(f(4), Ok(2));
    assert_eq!(f(5), Ok(2));
    assert_eq!(f(6), Ok(3));
    assert_eq!(f(7), Ok(3));
}

#[test]
fn test_fast_quorum() {
    assert!(fast_quorum(0).is_err());
    assert!(fast_quorum(1).is_err());
    assert!(fast_quorum(2).is_err());
    assert_eq!(fast_quorum(3), Ok(3));
    assert_eq!(fast_quorum(4), Ok(4));
    assert_eq!(fast_quorum(5), Ok(4));
    assert_eq!(fast_quorum(6), Ok(6));
    assert_eq!(fast_quorum(7), Ok(6));
    assert_eq!(fast_quorum(8), Ok(7));
    assert_eq!(fast_quorum(9), Ok(7));
}

#[test]
fn test_slow_quorum() {
    assert!(slow_quorum(0).is_err());
    assert!(slow_quorum(1).is_err());
    assert!(slow_quorum(2).is_err());
    assert_eq!(slow_quorum(3), Ok(2));
    assert_eq!(slow_quorum(4), Ok(3));
    assert_eq!(slow_quorum(5), Ok(3));
    assert_eq!(slow_quorum(6), Ok(4));
    assert_eq!(slow_quorum(7), Ok(4));
    assert_eq!(slow_quorum(8), Ok(5));
    assert_eq!(slow_quorum(9), Ok(5));
}

#[test]
fn test_quorum() {
    struct TestCase {
        name: &'static str,
        votes: Vec<QuorumVote>,
        expected: Result<Quorum, Option<NoQuorum>>,
    }

    let view_3_1_normal = view(1, &["1", "2", "3"], ViewState::Normal);
    let view_3_2_normal = view(2, &["1", "2", "3"], ViewState::Normal);
    let view_4_1_normal = view(1, &["1", "2", "3", "4"], ViewState::Normal);

    let cases: Vec<TestCase> = vec![
        TestCase {
            name: "Quorum is achieved if all votes are the same",
            votes: vec![
                vote("1", "A", &view_3_1_normal),
                vote("2", "A", &view_3_1_normal),
                vote("3", "A", &view_3_1_normal),
            ],
            expected: Ok(Quorum {
                count: 3,
                message: s("A"),
                nodes_with: vec![s("1"), s("2"), s("3")],
                nodes_without: vec![],
                view: view_3_1_normal.clone(),
                quorum_type: QuorumType::FastQuorum,
            }),
        },
        TestCase {
            name: "Quorum is achieved if one value is different",
            votes: vec![
                vote("1", "B", &view_3_1_normal),
                vote("2", "A", &view_3_1_normal),
                vote("3", "A", &view_3_1_normal),
            ],
            expected: Ok(Quorum {
                count: 2,
                message: s("A"),
                nodes_with: vec![s("2"), s("3")],
                nodes_without: vec![s("1")],
                view: view_3_1_normal.clone(),
                quorum_type: QuorumType::NormalQuorum,
            }),
        },
        TestCase {
            name: "Quorum is achieved if one value is missing",
            votes: vec![vote("1", "A", &view_3_1_normal), vote("2", "A", &view_3_1_normal)],
            expected: Ok(Quorum {
                count: 2,
                message: s("A"),
                nodes_with: vec![s("1"), s("2")],
                nodes_without: vec![s("3")],
                view: view_3_1_normal.clone(),
                quorum_type: QuorumType::NormalQuorum,
            }),
        },
        TestCase {
            name: "Quorum is not achieved is one value has a larger view",
            votes: vec![
                vote("1", "A", &view_3_1_normal),
                vote("2", "A", &view_3_1_normal),
                vote("3", "A", &view_3_2_normal),
            ],
            expected: Err(Some(NoQuorum {
                view: view_3_2_normal.clone(),
                votes: vec![(s("A"), vec![s("3")])],
            })),
        },
        TestCase {
            name: "Quorum is achieved if one value has a smaller view",
            votes: vec![
                vote("1", "A", &view_3_2_normal),
                vote("2", "A", &view_3_2_normal),
                vote("3", "A", &view_3_1_normal),
            ],
            expected: Ok(Quorum {
                count: 2,
                message: s("A"),
                nodes_with: vec![s("1"), s("2")],
                nodes_without: vec![s("3")],
                view: view_3_2_normal.clone(),
                quorum_type: QuorumType::NormalQuorum,
            }),
        },
        TestCase {
            name: "Quorum is not achieved if equal split votes in 4 node cluster",
            votes: vec![
                vote("1", "A", &view_4_1_normal),
                vote("2", "A", &view_4_1_normal),
                vote("3", "B", &view_4_1_normal),
                vote("4", "B", &view_4_1_normal),
            ],
            expected: Err(Some(NoQuorum {
                view: view_4_1_normal.clone(),
                votes: vec![(s("A"), vec![s("1"), s("2")]), (s("B"), vec![s("3"), s("4")])],
            })),
        },
        TestCase {
            name: "Double votes do not count",
            votes: vec![vote("1", "A", &view_3_1_normal), vote("1", "A", &view_3_1_normal)],
            expected: Err(Some(NoQuorum {
                view: view_3_1_normal.clone(),
                votes: vec![(s("A"), vec![s("1")])],
            })),
        },
        TestCase {
            name: "Byzantine - Node votes twice with different results",
            votes: vec![
                vote("1", "A", &view_3_1_normal),
                vote("1", "B", &view_3_1_normal),
                vote("2", "A", &view_3_1_normal),
                vote("3", "B", &view_3_1_normal),
            ],
            expected: Err(Some(NoQuorum {
                view: view_3_1_normal.clone(),
                votes: vec![(s("A"), vec![s("1"), s("2")]), (s("B"), vec![s("1"), s("3")])],
            })),
        },
    ];

    for case in cases {
        let result = find_quorum(&case.votes);
        assert_eq!(result, case.expected, "{}", case.name);
    }
}

#[test]
fn no_votes_give_no_view() {
    assert_eq!(find_quorum(&vec![]), Err(None));
}

#[test]
fn singleton_vote_in_three_node_cluster_has_no_quorum() {
    let v = view(0, &["1", "2", "3"], ViewState::Normal);
    let result = find_quorum(&vec![vote("1", "a", &v)]);
    assert_eq!(result, Err(Some(NoQuorum { view: v.clone(), votes: vec![(s("a"), vec![s("1")])] })));
}

#[test]
fn one_node_cluster_never_has_a_quorum() {
    let v = view(0, &["1"], ViewState::Normal);
    let result = find_quorum(&vec![vote("1", "a", &v)]);
    assert!(matches!(result, Err(Some(_))));
    let v2 = view(0, &["1", "2"], ViewState::Normal);
    let result = find_quorum(&vec![vote("1", "a", &v2), vote("2", "a", &v2)]);
    assert!(matches!(result, Err(Some(_))));
}

#[test]
fn quorum_comes_from_highest_view_and_meets_normal_size() {
    let v1 = view(1, &["1", "2", "3", "4", "5"], ViewState::Normal);
    let v3 = view(3, &["1", "2", "3", "4", "5"], ViewState::Normal);
    let votes = vec![
        vote("1", "x", &v1),
        vote("2", "x", &v3),
        vote("3", "x", &v3),
        vote("4", "x", &v3),
    ];
    let q = find_quorum(&votes).unwrap();
    assert_eq!(q.view, v3);
    assert_eq!(q.count, 3);
    assert!(q.nodes_with.len() >= slow_quorum(5).unwrap());
    assert_eq!(q.quorum_type, QuorumType::NormalQuorum);
    assert_eq!(q.nodes_without, vec![s("1"), s("5")]);
}

#[test]
fn quorum_sizes_leave_room_for_failures() {
    for n in 3..50usize {
        let fails = f(n).unwrap();
        assert!(slow_quorum(n).unwrap() + fails <= n + 1);
        assert!(fast_quorum(n).unwrap() <= n);
        assert!(slow_quorum(n).unwrap() <= fast_quorum(n).unwrap());
    }
}

#[test]
fn five_node_fast_quorum() {
    let v = view(0, &["1", "2", "3", "4", "5"], ViewState::Normal);
    let votes = vec![
        vote("5", "m", &v),
        vote("3", "m", &v),
        vote("1", "m", &v),
        vote("2", "m", &v),
        vote("4", "other", &v),
    ];
    let q = find_quorum(&votes).unwrap();
    assert_eq!(q.quorum_type, QuorumType::FastQuorum);
    assert_eq!(q.nodes_with, vec![s("1"), s("2"), s("3"), s("5")]);
    assert_eq!(q.nodes_without, vec![s("4")]);
}
