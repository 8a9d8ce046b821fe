use inconsistent_replication_ir::merge::{enough_records, merge_records, resolve_slot};
use inconsistent_replication_ir::record::RecordStore;
use inconsistent_replication_ir::types::{IROperation, View, ViewState};

fn s(x: &str) -> String {
    x.to_string()
}

fn new_view() -> View {
    View { view: 4, members: vec![s("1"), s("2"), s("3")], state: ViewState::ViewChanging }
}

fn proposing(consistent: bool, entries: &[(&str, u64, &str)]) -> RecordStore {
    let mut r = RecordStore::new();
    for (c, seq, m) in entries {
        if consistent {
            r.record_tentative_consistent(&s(c), *seq, 3, &s(m)).unwrap();
        } else {
            r.record_tentative_inconsistent(&s(c), *seq, 3, &s(m)).unwrap();
        }
    }
    r
}

fn entries(r: &RecordStore) -> Vec<(u64, IROperation)> {
    let mut out: Vec<(u64, IROperation)> = r.entries().iter().map(|e| (e.view, e.operation.clone())).collect();
    out.sort_by(|a, b| (a.1.client(), *a.1.sequence()).cmp(&(b.1.client(), *b.1.sequence())));
    out
}

#[test]
fn merge_reconciles_mixed_records() {
    let peers = vec![
        (s("1"), proposing(true, &[("c", 1, "X")])),
        (s("2"), proposing(true, &[("c", 1, "X")])),
        (s("3"), proposing(true, &[("c", 1, "Y")])),
        (s("4"), RecordStore::new()),
    ];
    let (merged, unresolved) = merge_records(&peers, &new_view());
    assert!(unresolved.is_empty());
    assert_eq!(
        entries(&merged),
        vec![(4, IROperation::ConsistentFinalize { client: s("c"), sequence: 1, message: s("X") })]
    );
}

#[test]
fn finalized_entries_win() {
    let mut a = proposing(true, &[("c", 1, "X")]);
    a.promote_finalized_consistent(&s("c"), 1, 3, &s("Z")).unwrap();
    let mut b = proposing(false, &[("c", 2, "p")]);
    b.promote_finalized_inconsistent(&s("c"), 2, 3, &s("q")).unwrap();
    let peers = vec![
        (s("1"), a),
        (s("2"), b),
        (s("3"), proposing(true, &[("c", 1, "X")])),
    ];
    let (merged, unresolved) = merge_records(&peers, &new_view());
    assert!(unresolved.is_empty());
    assert_eq!(
        entries(&merged),
        vec![
            (4, IROperation::ConsistentFinalize { client: s("c"), sequence: 1, message: s("Z") }),
            (4, IROperation::InconsistentFinalize { client: s("c"), sequence: 2, message: s("q") }),
        ]
    );
}

#[test]
fn consistent_without_quorum_is_left_undecided() {
    let peers = vec![
        (s("1"), proposing(true, &[("c", 1, "X")])),
        (s("2"), proposing(true, &[("c", 1, "Y")])),
        (s("3"), RecordStore::new()),
    ];
    let (merged, unresolved) = merge_records(&peers, &new_view());
    assert!(merged.entries().is_empty());
    assert_eq!(unresolved.len(), 1);
    assert_eq!(unresolved[0].client, "c");
    assert_eq!(unresolved[0].sequence, 1);
    assert_eq!(unresolved[0].choices, vec![s("X"), s("Y")]);
}

#[test]
fn inconsistent_without_quorum_takes_lowest_message() {
    let peers = vec![
        (s("1"), proposing(false, &[("c", 1, "m2")])),
        (s("2"), proposing(false, &[("c", 1, "m1")])),
    ];
    let (outcome, choices) = resolve_slot(&peers, &s("c"), 1, &new_view());
    assert_eq!(outcome, Some((false, s("m1"))));
    assert_eq!(choices, vec![s("m1"), s("m2")]);
    let (merged, unresolved) = merge_records(&peers, &new_view());
    assert!(unresolved.is_empty());
    assert_eq!(
        entries(&merged),
        vec![(4, IROperation::InconsistentFinalize { client: s("c"), sequence: 1, message: s("m1") })]
    );
}

#[test]
fn merge_is_deterministic_over_peer_order() {
    let make = || {
        vec![
            (s("1"), proposing(true, &[("c", 1, "X"), ("d", 2, "k")])),
            (s("2"), proposing(false, &[("c", 2, "b"), ("d", 1, "u")])),
            (s("3"), proposing(true, &[("c", 1, "X"), ("d", 2, "j")])),
        ]
    };
    let forward = make();
    let mut backward = make();
    backward.reverse();
    let (m1, u1) = merge_records(&forward, &new_view());
    let (m2, u2) = merge_records(&backward, &new_view());
    assert_eq!(entries(&m1), entries(&m2));
    let keys = |u: &Vec<inconsistent_replication_ir::merge::Unresolved>| {
        let mut k: Vec<(String, u64, Vec<String>)> =
            u.iter().map(|x| (x.client.clone(), x.sequence, x.choices.clone())).collect();
        k.sort();
        k
    };
    assert_eq!(keys(&u1), keys(&u2));
    assert_eq!(entries(&m1).len(), 3);
}

#[test]
fn merge_needs_f_plus_one_records() {
    assert!(!enough_records(1, 3));
    assert!(enough_records(2, 3));
    assert!(!enough_records(2, 5));
    assert!(enough_records(3, 5));
    assert!(!enough_records(5, 2));
}
