use vstd::prelude::*;
use vstd::view::View as _;

verus! {

/// Per-client counter that orders a client's operations.
pub type OperationSequence = u64;

/// Application-supplied deterministic choice among the candidate messages
/// of a consistent operation; it returns the position of its choice.
pub trait DecideFunction<M> {
    fn decide(&self, choices: &Vec<M>) -> (r: usize)
        requires
            choices.len() > 0,
        ensures
            r < choices.len(),
    ;
}

/// The phase a view is in on a replica.
#[derive(Clone, Copy, Debug, PartialEq, Eq, Structural, PartialOrd, Ord)]
pub enum ViewState {
    Normal,
    ViewChanging,
    Recovery,
}

/// A numbered membership snapshot. Views are ordered by their number.
#[derive(Debug, PartialEq, Eq)]
pub struct View {
    pub view: u64,
    pub members: Vec<String>,
    pub state: ViewState,
}

impl View {
    /// The two views agree on number, members (in order) and state.
    pub open spec fn same_as(&self, other: &View) -> bool {
        &&& self.view == other.view
        &&& self.members.deep_view() == other.members.deep_view()
        &&& self.state == other.state
    }

    /// Whether the two views agree on number, members and state.
    pub fn equals(&self, other: &View) -> (r: bool)
        ensures
            r == self.same_as(other),
    {
        if self.view != other.view || self.state != other.state {
            return false;
        }
        if self.members.len() != other.members.len() {
            assert(self.members.deep_view().len() != other.members.deep_view().len());
            return false;
        }
        let mut i: usize = 0;
        while i < self.members.len()
            invariant
                i <= self.members.len(),
                self.members.len() == other.members.len(),
                forall|k: int|
                    0 <= k < i ==> self.members.deep_view()[k] == other.members.deep_view()[k],
            decreases self.members.len() - i,
        {
            if self.members[i] != other.members[i] {
                assert(self.members.deep_view()[i as int] != other.members.deep_view()[i as int]);
                return false;
            }
            i += 1;
        }
        assert(self.members.deep_view() =~= other.members.deep_view());
        true
    }
}

impl Clone for View {
    fn clone(&self) -> (r: Self)
        ensures
            r.same_as(self),
    {
        let members = self.members.clone();
        proof {
            assert(members.deep_view() =~= self.members.deep_view());
        }
        View { view: self.view, members, state: self.state }
    }
}

/// An operation as a replica records it: its class (consistent or
/// inconsistent) and its phase (proposed or finalized).
#[derive(Debug, PartialEq, Eq)]
pub enum IROperation {
    InconsistentPropose { client: String, sequence: OperationSequence, message: String },
    InconsistentFinalize { client: String, sequence: OperationSequence, message: String },
    ConsistentPropose { client: String, sequence: OperationSequence, message: String },
    ConsistentFinalize { client: String, sequence: OperationSequence, message: String },
}

/// The plain content of an operation.
pub struct OpView {
    pub consistent: bool,
    pub finalized: bool,
    pub client: Seq<char>,
    pub sequence: OperationSequence,
    pub message: Seq<char>,
}

impl vstd::view::View for IROperation {
    type V = OpView;

    open spec fn view(&self) -> OpView {
        match self {
            IROperation::InconsistentPropose { client, sequence, message } => OpView {
                consistent: false,
                finalized: false,
                client: client@,
                sequence: *sequence,
                message: message@,
            },
            IROperation::InconsistentFinalize { client, sequence, message } => OpView {
                consistent: false,
                finalized: true,
                client: client@,
                sequence: *sequence,
                message: message@,
            },
            IROperation::ConsistentPropose { client, sequence, message } => OpView {
                consistent: true,
                finalized: false,
                client: client@,
                sequence: *sequence,
                message: message@,
            },
            IROperation::ConsistentFinalize { client, sequence, message } => OpView {
                consistent: true,
                finalized: true,
                client: client@,
                sequence: *sequence,
                message: message@,
            },
        }
    }
}

impl IROperation {
    /// Builds the operation of the given class and phase.
    pub fn build(
        consistent: bool,
        finalized: bool,
        client: String,
        sequence: OperationSequence,
        message: String,
    ) -> (r: IROperation)
        ensures
            r@ == (OpView {
                consistent,
                finalized,
                client: client@,
                sequence,
                message: message@,
            }),
    {
        match (consistent, finalized) {
            (false, false) => IROperation::InconsistentPropose { client, sequence, message },
            (false, true) => IROperation::InconsistentFinalize { client, sequence, message },
            (true, false) => IROperation::ConsistentPropose { client, sequence, message },
            (true, true) => IROperation::ConsistentFinalize { client, sequence, message },
        }
    }

    pub fn client(&self) -> (r: &String)
        ensures
            r@ == self@.client,
    {
        match self {
            IROperation::InconsistentPropose { client, .. } => client,
            IROperation::InconsistentFinalize { client, .. } => client,
            IROperation::ConsistentPropose { client, .. } => client,
            IROperation::ConsistentFinalize { client, .. } => client,
        }
    }

    pub fn sequence(&self) -> (r: &OperationSequence)
        ensures
            *r == self@.sequence,
    {
        match self {
            IROperation::InconsistentPropose { sequence, .. } => sequence,
            IROperation::InconsistentFinalize { sequence, .. } => sequence,
            IROperation::ConsistentPropose { sequence, .. } => sequence,
            IROperation::ConsistentFinalize { sequence, .. } => sequence,
        }
    }

    pub fn message(&self) -> (r: &String)
        ensures
            r@ == self@.message,
    {
        match self {
            IROperation::InconsistentPropose { message, .. } => message,
            IROperation::InconsistentFinalize { message, .. } => message,
            IROperation::ConsistentPropose { message, .. } => message,
            IROperation::ConsistentFinalize { message, .. } => message,
        }
    }

    pub fn consistent(&self) -> (r: bool)
        ensures
            r == self@.consistent,
    {
        match self {
            IROperation::InconsistentPropose { .. } | IROperation::InconsistentFinalize { .. } => {
                false
            },
            IROperation::ConsistentPropose { .. } | IROperation::ConsistentFinalize { .. } => true,
        }
    }

    pub fn finalized(&self) -> (r: bool)
        ensures
            r == self@.finalized,
    {
        match self {
            IROperation::InconsistentFinalize { .. } | IROperation::ConsistentFinalize { .. } => {
                true
            },
            IROperation::InconsistentPropose { .. } | IROperation::ConsistentPropose { .. } => {
                false
            },
        }
    }
}

impl Clone for IROperation {
    fn clone(&self) -> (r: Self)
        ensures
            r@ == self@,
    {
        IROperation::build(
            self.consistent(),
            self.finalized(),
            self.client().clone(),
            *self.sequence(),
            self.message().clone(),
        )
    }
}

} // verus!
