use vstd::prelude::*;
use std::collections::BTreeMap;
use crate::types::DecideFunction;

verus! {

broadcast use vstd::std_specs::btree::group_btree_axioms;

/// Key of the append-only store that checks linearizability.
pub type Key = u8;

/// Value appended under a key.
pub type Value = u8;

/// An operation on the append-only store, with the value it computed once
/// executed.
#[derive(Debug, Clone, PartialEq, Eq, PartialOrd, Ord)]
pub enum LinearizableComputeOperation {
    ReadOperation { key: Key, computed_value: Option<Vec<Value>> },
    WriteOperation {
        key: Key,
        requested_value: Vec<Value>,
        computed_value: Option<Vec<Value>>,
    },
}

/// A batch of reads and writes.
#[derive(Debug, Clone, PartialEq, Eq, PartialOrd, Ord)]
pub struct RequestPayload {
    pub reads: Vec<Key>,
    pub writes: BTreeMap<Key, Value>,
}

/// What a batch of reads and writes saw.
#[derive(Debug, Clone, PartialEq, Eq, PartialOrd, Ord)]
pub struct ResponsePayload {
    pub reads: BTreeMap<Key, Vec<Value>>,
    pub writes: BTreeMap<Key, Vec<Value>>,
}

/// Executes operations on an append-only store: every key holds a list of
/// values, and a write appends to it.
pub struct LinearizableComputer {
    data: BTreeMap<Key, Vec<Value>>,
}

/// The values under `k`; a key never written holds none.
pub open spec fn values_of(m: Map<Key, Vec<Value>>, k: Key) -> Seq<Value> {
    if m.contains_key(k) {
        m[k]@
    } else {
        Seq::empty()
    }
}

pub open spec fn opt_values(o: Option<Vec<Value>>) -> Seq<Value> {
    match o {
        Some(v) => v@,
        None => Seq::empty(),
    }
}

/// What executing `op` on `before` leaves: a read changes nothing, a write
/// appends the operation's computed values (none if it has not computed any)
/// to its key.
pub open spec fn store_after(before: Map<Key, Vec<Value>>, op: LinearizableComputeOperation) -> Map<Key, Seq<Value>> {
    let m = before.map_values(|v: Vec<Value>| v@);
    match op {
        LinearizableComputeOperation::ReadOperation { .. } => m,
        LinearizableComputeOperation::WriteOperation { key, computed_value, .. } => m.insert(
            key,
            values_of(before, key) + opt_values(computed_value),
        ),
    }
}

/// What executing `op` on `before` answers: the operation with, as its
/// computed value, the key's values after the execution.
pub open spec fn answers(
    before: Map<Key, Vec<Value>>,
    op: LinearizableComputeOperation,
    r: LinearizableComputeOperation,
) -> bool {
    match op {
        LinearizableComputeOperation::ReadOperation { key, .. } => r matches LinearizableComputeOperation::ReadOperation {
            key: k,
            computed_value: Some(v),
        } && k == key && v@ == values_of(before, key),
        LinearizableComputeOperation::WriteOperation { key, requested_value, computed_value } => r matches LinearizableComputeOperation::WriteOperation {
            key: k,
            requested_value: rv,
            computed_value: Some(v),
        } && k == key && rv@ == requested_value@ && v@ == values_of(before, key) + opt_values(
            computed_value,
        ),
    }
}

impl LinearizableComputer {
    pub closed spec fn contents(&self) -> Map<Key, Vec<Value>> {
        self.data@
    }

    pub fn new() -> (r: LinearizableComputer)
        ensures
            r.contents() == Map::<Key, Vec<Value>>::empty(),
    {
        LinearizableComputer { data: BTreeMap::new() }
    }

    /// The values stored under `key`.
    pub fn read(&self, key: Key) -> (r: Vec<Value>)
        ensures
            r@ == values_of(self.contents(), key),
    {
        match self.data.get(&key) {
            Some(v) => v.clone(),
            None => Vec::new(),
        }
    }

    /// Executes an operation: a read returns the key's values, a write
    /// appends its computed values to the key and returns what the key holds
    /// then.
    pub fn exec(&mut self, message: LinearizableComputeOperation) -> (r: LinearizableComputeOperation)
        ensures
            final(self).contents().map_values(|v: Vec<Value>| v@) == store_after(
                old(self).contents(),
                message,
            ),
            answers(old(self).contents(), message, r),
    {
        match message {
            LinearizableComputeOperation::ReadOperation { key, computed_value: _ } => {
                let values = self.read(key);
                proof {
                    assert(self.contents().map_values(|v: Vec<Value>| v@) =~= store_after(
                        self.contents(),
                        message,
                    ));
                }
                LinearizableComputeOperation::ReadOperation { key, computed_value: Some(values) }
            },
            LinearizableComputeOperation::WriteOperation { key, requested_value, computed_value } => {
                let ghost before = self.data@;
                let mut values = self.read(key);
                let mut added = match computed_value {
                    Some(v) => v,
                    None => Vec::new(),
                };
                values.append(&mut added);
                self.data.insert(key, values.clone());
                proof {
                    assert(self.data@.map_values(|v: Vec<Value>| v@) =~= before.map_values(
                        |v: Vec<Value>| v@,
                    ).insert(key, values@));
                }
                LinearizableComputeOperation::WriteOperation {
                    key,
                    requested_value,
                    computed_value: Some(values),
                }
            },
        }
    }

    /// Evaluation executes the operation as well.
    pub fn evaluate_inconsistent(&mut self, message: LinearizableComputeOperation) -> (r: LinearizableComputeOperation)
        ensures
            final(self).contents().map_values(|v: Vec<Value>| v@) == store_after(
                old(self).contents(),
                message,
            ),
            answers(old(self).contents(), message, r),
    {
        self.exec(message)
    }

    pub fn exec_inconsistent(&mut self, message: LinearizableComputeOperation) -> (r: LinearizableComputeOperation)
        ensures
            final(self).contents().map_values(|v: Vec<Value>| v@) == store_after(
                old(self).contents(),
                message,
            ),
            answers(old(self).contents(), message, r),
    {
        self.exec(message)
    }

    pub fn exec_consistent(&mut self, message: LinearizableComputeOperation) -> (r: LinearizableComputeOperation)
        ensures
            final(self).contents().map_values(|v: Vec<Value>| v@) == store_after(
                old(self).contents(),
                message,
            ),
            answers(old(self).contents(), message, r),
    {
        self.exec(message)
    }

    /// The decided response stands as it is, whatever this replica computed
    /// before; the store is not touched.
    pub fn reconcile_consistent(
        &self,
        _previous_response: Option<LinearizableComputeOperation>,
        decided_response: LinearizableComputeOperation,
    ) -> (r: LinearizableComputeOperation)
        ensures
            r == decided_response,
    {
        match decided_response {
            LinearizableComputeOperation::ReadOperation { key, computed_value } => {
                LinearizableComputeOperation::ReadOperation { key, computed_value }
            },
            LinearizableComputeOperation::WriteOperation { key, requested_value, computed_value } => {
                LinearizableComputeOperation::WriteOperation { key, requested_value, computed_value }
            },
        }
    }
}

/// Decides for the first choice offered.
pub struct TestDecideFunction {
    pub request: LinearizableComputeOperation,
}

impl DecideFunction<LinearizableComputeOperation> for TestDecideFunction {
    fn decide(&self, choices: &Vec<LinearizableComputeOperation>) -> (r: usize) {
        0
    }
}

} // verus!
