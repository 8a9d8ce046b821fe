use inconsistent_replication_ir::compute::{LinearizableComputeOperation, LinearizableComputer, TestDecideFunction};
use inconsistent_replication_ir::types::DecideFunction;

#[test]
fn write_appends_computed_values_and_read_sees_them() {
    let mut c = LinearizableComputer::new();
    let r = c.exec(LinearizableComputeOperation::WriteOperation {
        key: 1,
        requested_value: vec![9],
        computed_value: Some(vec![1, 2]),
    });
    assert_eq!(
        r,
        LinearizableComputeOperation::WriteOperation { key: 1, requested_value: vec![9], computed_value: Some(vec![1, 2]) }
    );
    let r = c.exec(LinearizableComputeOperation::WriteOperation {
        key: 1,
        requested_value: vec![9],
        computed_value: Some(vec![3]),
    });
    assert_eq!(
        r,
        LinearizableComputeOperation::WriteOperation { key: 1, requested_value: vec![9], computed_value: Some(vec![1, 2, 3]) }
    );
    let r = c.exec(LinearizableComputeOperation::ReadOperation { key: 1, computed_value: None });
    assert_eq!(r, LinearizableComputeOperation::ReadOperation { key: 1, computed_value: Some(vec![1, 2, 3]) });
}

#[test]
fn read_of_unwritten_key_is_empty() {
    let mut c = LinearizableComputer::new();
    let r = c.exec_consistent(LinearizableComputeOperation::ReadOperation { key: 5, computed_value: None });
    assert_eq!(r, LinearizableComputeOperation::ReadOperation { key: 5, computed_value: Some(vec![]) });
}

#[test]
fn write_without_computed_value_appends_nothing() {
    let mut c = LinearizableComputer::new();
    let r = c.exec_inconsistent(LinearizableComputeOperation::WriteOperation {
        key: 2,
        requested_value: vec![4],
        computed_value: None,
    });
    assert_eq!(
        r,
        LinearizableComputeOperation::WriteOperation { key: 2, requested_value: vec![4], computed_value: Some(vec![]) }
    );
    assert_eq!(c.read(2), Vec::<u8>::new());
}

#[test]
fn reconcile_keeps_the_decided_response() {
    let mut c = LinearizableComputer::new();
    let decided = LinearizableComputeOperation::ReadOperation { key: 1, computed_value: Some(vec![7]) };
    let previous = c.evaluate_inconsistent(LinearizableComputeOperation::ReadOperation { key: 1, computed_value: None });
    assert_eq!(c.reconcile_consistent(Some(previous), decided.clone()), decided);
}

#[test]
fn test_decide_function_takes_the_first_choice() {
    let d = TestDecideFunction { request: LinearizableComputeOperation::ReadOperation { key: 0, computed_value: None } };
    let choices = vec![
        LinearizableComputeOperation::ReadOperation { key: 3, computed_value: None },
        LinearizableComputeOperation::ReadOperation { key: 1, computed_value: None },
    ];
    assert_eq!(d.decide(&choices), 0);
}
