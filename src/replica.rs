use vstd::prelude::*;
use vstd::view::View as _;
use crate::record::{
    after_promote_consistent, after_promote_inconsistent, after_tentative, RecordError,
    RecordStore, Slot, SlotKey, promote_consistent_result, promote_inconsistent_ok, slot_at, tentative_result,
};
use crate::merge::{listed, Unresolved};
use crate::types::{DecideFunction, OperationSequence, View, ViewState};

verus! {

/// Why a replica did not handle a request.
#[derive(Debug, PartialEq, Eq)]
pub enum IRServerError {
    /// The replica's storage failed, with its description; a replica that
    /// reports it goes back to recovery.
    InternalError(String),
    /// The replica has not caught up yet; it reports its view.
    Recovering(View),
    /// The slot holds an entry of the other class, which stays; its message
    /// is given.
    SlotConflict(String),
    /// The replica is moving from `current` to `target`.
    ViewChanging { current: View, target: View },
}

/// A failed exchange with one replica, as the network reports it.
#[derive(Debug, PartialEq, Eq)]
pub enum IRNetworkError {
    NodeUnreachable(String),
    IRServerError(IRServerError),
}

impl From<IRServerError> for IRNetworkError {
    fn from(value: IRServerError) -> (r: IRNetworkError)
        ensures
            r == IRNetworkError::IRServerError(value),
    {
        IRNetworkError::IRServerError(value)
    }
}

impl vstd::std_specs::convert::FromSpecImpl<IRServerError> for IRNetworkError {
    open spec fn obeys_from_spec() -> bool {
        true
    }

    open spec fn from_spec(v: IRServerError) -> IRNetworkError {
        IRNetworkError::IRServerError(v)
    }
}

/// The protocol state of one replica: its view and its record.
pub struct Replica {
    node_id: String,
    view: View,
    records: RecordStore,
}

/// The view a replica moves to when a caller shows it a higher one.
pub open spec fn changing_to(observed: View, v: View) -> bool {
    &&& v.view == observed.view
    &&& v.members.deep_view() == observed.members.deep_view()
    &&& v.state == ViewState::ViewChanging
}

impl Replica {
    /// The record is well formed and no entry is from a later view than the
    /// replica's own.
    pub closed spec fn wf(&self) -> bool {
        &&& self.records.wf()
        &&& forall|k| #[trigger] self.records@.dom().contains(k) ==> self.records@[k].view
            <= self.view.view
    }

    pub closed spec fn spec_view(&self) -> View {
        self.view
    }

    pub closed spec fn spec_records(&self) -> RecordStore {
        self.records
    }

    pub closed spec fn spec_node_id(&self) -> Seq<char> {
        self.node_id@
    }

    /// No entry of the record is from a view after the replica's own.
    pub proof fn lemma_records_not_ahead(&self)
        requires
            self.wf(),
        ensures
            self.spec_records().wf(),
            forall|k| #[trigger] self.spec_records()@.dom().contains(k) ==> self.spec_records()@[k].view
                <= self.spec_view().view,
    {
    }

    /// A replica starts in recovery, whatever state the recovered view had.
    pub fn new(node_id: String, recovered: View) -> (r: Replica)
        ensures
            r.wf(),
            r.spec_node_id() == node_id@,
            r.spec_view().view == recovered.view,
            r.spec_view().members.deep_view() == recovered.members.deep_view(),
            r.spec_view().state == ViewState::Recovery,
            r.spec_records()@ == Map::<(Seq<char>, u64), crate::record::Slot>::empty(),
    {
        let mut view = recovered;
        view.state = ViewState::Recovery;
        Replica { node_id, view, records: RecordStore::new() }
    }

    pub fn node_id(&self) -> (r: &String)
        ensures
            r@ == self.spec_node_id(),
    {
        &self.node_id
    }

    pub fn view(&self) -> (r: &View)
        ensures
            *r == self.spec_view(),
    {
        &self.view
    }

    pub fn records(&self) -> (r: &RecordStore)
        ensures
            *r == self.spec_records(),
    {
        &self.records
    }

    /// Handles an inconsistent proposal: records it as tentative in the
    /// current view and returns, with the view, the message that then stands
    /// in the slot (for the executor to evaluate). A slot that the record does
    /// not let the proposal into stays as it is, and its message is returned.
    pub fn propose_inconsistent(
        &mut self,
        client: &String,
        sequence: OperationSequence,
        message: &String,
        observed: Option<&View>,
    ) -> (r: Result<(String, View), IRServerError>)
        requires
            old(self).wf(),
        ensures
            final(self).wf(),
            final(self).spec_node_id() == old(self).spec_node_id(),
            final(self).spec_view().view >= old(self).spec_view().view,
            !admits(old(self).spec_view(), observed_view(observed)) ==> final(self).spec_records()
                == old(self).spec_records() && (r matches Err(e) && refused(
                old(self).spec_view(),
                observed_view(observed),
                final(self).spec_view(),
                e,
            )),
            admits(old(self).spec_view(), observed_view(observed)) ==> {
                let before = old(self).spec_view();
                let k = (client@, sequence);
                let after = after_tentative(old(self).spec_records()@, k, false, before.view, message@);
                &&& final(self).spec_records()@ == after
                &&& final(self).spec_view() == before
                &&& r matches Ok((s, v)) && v.same_as(&before) && s@ == after[k].message
            },
    {
        let v = match self.check_admission(observed) {
            Ok(v) => v,
            Err(e) => return Err(e),
        };
        // A proposal that the record does not take is answered with the
        // message that stands in the slot: the client's tally counts it as
        // a vote against.
        match self.records.record_tentative_inconsistent(client, sequence, self.view.view, message) {
            Ok(standing) => Ok((standing, v)),
            Err(_) => Ok((self.standing_message(client, sequence), v)),
        }
    }

    /// Handles an inconsistent finalize: finalizes the entry in the current
    /// view and echoes the message (for the executor to apply) with the view.
    /// An entry that is already finalized stays as it is.
    pub fn finalize_inconsistent(
        &mut self,
        client: &String,
        sequence: OperationSequence,
        message: &String,
        observed: Option<&View>,
    ) -> (r: Result<(String, View), IRServerError>)
        requires
            old(self).wf(),
        ensures
            final(self).wf(),
            final(self).spec_node_id() == old(self).spec_node_id(),
            final(self).spec_view().view >= old(self).spec_view().view,
            !admits(old(self).spec_view(), observed_view(observed)) ==> final(self).spec_records()
                == old(self).spec_records() && (r matches Err(e) && refused(
                old(self).spec_view(),
                observed_view(observed),
                final(self).spec_view(),
                e,
            )),
            admits(old(self).spec_view(), observed_view(observed)) ==> {
                let before = old(self).spec_view();
                let k = (client@, sequence);
                let after = after_promote_inconsistent(old(self).spec_records()@, k, before.view, message@);
                &&& final(self).spec_records()@ == after
                &&& final(self).spec_view() == before
                &&& r matches Ok((s, v)) && v.same_as(&before) && s@ == message@
            },
    {
        let v = match self.check_admission(observed) {
            Ok(v) => v,
            Err(e) => return Err(e),
        };
        // The response echoes the message. Over a finalized entry the record
        // keeps that entry: a slot is finalized once.
        match self.records.promote_finalized_inconsistent(client, sequence, self.view.view, message) {
            Ok(()) => Ok((message.clone(), v)),
            Err(_) => Ok((message.clone(), v)),
        }
    }

    /// Handles a consistent proposal: records it as tentative in the current
    /// view and returns, with the view, the message that then stands in the
    /// slot (for the executor to execute tentatively). A slot that the record
    /// does not let the proposal into stays as it is, and its message is
    /// returned.
    pub fn propose_consistent(
        &mut self,
        client: &String,
        sequence: OperationSequence,
        message: &String,
        observed: Option<&View>,
    ) -> (r: Result<(String, View), IRServerError>)
        requires
            old(self).wf(),
        ensures
            final(self).wf(),
            final(self).spec_node_id() == old(self).spec_node_id(),
            final(self).spec_view().view >= old(self).spec_view().view,
            !admits(old(self).spec_view(), observed_view(observed)) ==> final(self).spec_records()
                == old(self).spec_records() && (r matches Err(e) && refused(
                old(self).spec_view(),
                observed_view(observed),
                final(self).spec_view(),
                e,
            )),
            admits(old(self).spec_view(), observed_view(observed)) ==> {
                let before = old(self).spec_view();
                let k = (client@, sequence);
                let after = after_tentative(old(self).spec_records()@, k, true, before.view, message@);
                &&& final(self).spec_records()@ == after
                &&& final(self).spec_view() == before
                &&& r matches Ok((s, v)) && v.same_as(&before) && s@ == after[k].message
            },
    {
        let v = match self.check_admission(observed) {
            Ok(v) => v,
            Err(e) => return Err(e),
        };
        // A proposal that the record does not take is answered with the
        // message that stands in the slot: the client's tally counts it as
        // a vote against.
        match self.records.record_tentative_consistent(client, sequence, self.view.view, message) {
            Ok(standing) => Ok((standing, v)),
            Err(_) => Ok((self.standing_message(client, sequence), v)),
        }
    }

    /// Handles a consistent finalize: finalizes the entry with the decided
    /// message and returns, with the view, the message the slot held before
    /// (`None` if it was empty) for the executor to reconcile. A slot that
    /// holds an inconsistent entry stays as it is, and the conflict is
    /// reported with that entry's message; the replica stays in its state.
    pub fn finalize_consistent(
        &mut self,
        client: &String,
        sequence: OperationSequence,
        message: &String,
        observed: Option<&View>,
    ) -> (r: Result<(Option<String>, View), IRServerError>)
        requires
            old(self).wf(),
        ensures
            final(self).wf(),
            final(self).spec_node_id() == old(self).spec_node_id(),
            final(self).spec_view().view >= old(self).spec_view().view,
            !admits(old(self).spec_view(), observed_view(observed)) ==> final(self).spec_records()
                == old(self).spec_records() && (r matches Err(e) && refused(
                old(self).spec_view(),
                observed_view(observed),
                final(self).spec_view(),
                e,
            )),
            admits(old(self).spec_view(), observed_view(observed)) ==> {
                let before = old(self).spec_view();
                let k = (client@, sequence);
                let after = after_promote_consistent(old(self).spec_records()@, k, before.view, message@);
                let slot = slot_at(old(self).spec_records()@, k);
                &&& final(self).spec_records()@ == after
                &&& final(self).spec_view() == before
                &&& match promote_consistent_result(slot) {
                    Some(p) => r matches Ok((q, v)) && v.same_as(&before) && opt_message(q) == p,
                    None => r matches Err(IRServerError::SlotConflict(m)) && m@ == slot->Some_0.message,
                }
            },
    {
        let v = match self.check_admission(observed) {
            Ok(v) => v,
            Err(e) => return Err(e),
        };
        match self.records.promote_finalized_consistent(client, sequence, self.view.view, message) {
            Ok(previous) => Ok((previous, v)),
            Err(_) => Err(IRServerError::SlotConflict(self.standing_message(client, sequence))),
        }
    }

    /// The message that stands in a slot the record holds.
    fn standing_message(&self, client: &String, sequence: OperationSequence) -> (r: String)
        requires
            self.records.wf(),
            self.records@.dom().contains((client@, sequence)),
        ensures
            r@ == self.records@[(client@, sequence)].message,
    {
        match self.records.find_entry(client, sequence) {
            Some(e) => e.operation.message().clone(),
            None => String::new(),
        }
    }

    /// Adopts a higher view seen on a peer or a caller: the replica moves to
    /// it, in view change. A view that is not higher changes nothing.
    pub fn observe_view(&mut self, observed: &View) -> (r: bool)
        requires
            old(self).wf(),
        ensures
            final(self).wf(),
            final(self).spec_view().view >= old(self).spec_view().view,
            final(self).spec_node_id() == old(self).spec_node_id(),
            final(self).spec_records() == old(self).spec_records(),
            r == (observed.view > old(self).spec_view().view),
            r ==> changing_to(*observed, final(self).spec_view()),
            !r ==> final(self).spec_view() == old(self).spec_view(),
    {
        if observed.view > self.view.view {
            let mut target = observed.clone();
            target.state = ViewState::ViewChanging;
            self.view = target;
            true
        } else {
            false
        }
    }

    /// Ends recovery once the record has caught up: the replica proposes the
    /// next view, which it enters in view change, and returns it. Outside
    /// recovery, or with no view number left, nothing changes.
    pub fn finish_recovery(&mut self) -> (r: Option<View>)
        requires
            old(self).wf(),
        ensures
            final(self).wf(),
            final(self).spec_view().view >= old(self).spec_view().view,
            final(self).spec_node_id() == old(self).spec_node_id(),
            final(self).spec_records() == old(self).spec_records(),
            old(self).spec_view().state == ViewState::Recovery && old(self).spec_view().view
                < u64::MAX ==> {
                &&& final(self).spec_view().view == old(self).spec_view().view + 1
                &&& final(self).spec_view().members.deep_view() == old(
                    self,
                ).spec_view().members.deep_view()
                &&& final(self).spec_view().state == ViewState::ViewChanging
                &&& r matches Some(v) && v.same_as(&final(self).spec_view())
            },
            !(old(self).spec_view().state == ViewState::Recovery && old(self).spec_view().view
                < u64::MAX) ==> r is None && final(self).spec_view() == old(self).spec_view(),
    {
        if self.view.state == ViewState::Recovery && self.view.view < u64::MAX {
            self.view.view = self.view.view + 1;
            self.view.state = ViewState::ViewChanging;
            Some(self.view.clone())
        } else {
            None
        }
    }

    /// Takes the merged record of a view change as the replica's own. Only a
    /// replica in view change takes it, and only if no entry is from a later
    /// view than the replica's.
    pub fn adopt_merged_record(&mut self, merged: RecordStore) -> (r: bool)
        requires
            old(self).wf(),
            merged.wf(),
        ensures
            final(self).wf(),
            final(self).spec_node_id() == old(self).spec_node_id(),
            final(self).spec_view() == old(self).spec_view(),
            r == (old(self).spec_view().state == ViewState::ViewChanging && forall|k|
                #[trigger] merged@.dom().contains(k) ==> merged@[k].view <= old(self).spec_view().view),
            r ==> final(self).spec_records()@ == merged@,
            !r ==> final(self).spec_records() == old(self).spec_records(),
    {
        if self.view.state != ViewState::ViewChanging {
            return false;
        }
        let entries = merged.entries();
        proof {
            merged.lemma_entries();
        }
        let mut i: usize = 0;
        while i < entries.len()
            invariant
                i <= entries.len(),
                entries@ == merged.entry_seq(),
                merged.wf(),
                *self == *old(self),
                self.wf(),
                forall|j: int| 0 <= j < i ==> (#[trigger] entries@[j]).view <= self.view.view,
            decreases entries.len() - i,
        {
            if entries[i].view > self.view.view {
                proof {
                    merged.lemma_entries();
                    assert(merged@.dom().contains(entries@[i as int].key()));
                }
                return false;
            }
            i += 1;
        }
        proof {
            merged.lemma_entries();
            assert forall|k| #[trigger] merged@.dom().contains(k) implies merged@[k].view <= self.view.view by {
                let j = choose|j: int| 0 <= j < merged.entry_seq().len() && #[trigger] merged.entry_seq()[j].key() == k;
                assert(entries@[j].view <= self.view.view);
            }
        }
        self.records = merged;
        true
    }

    /// Records the decide function's choice for a consistent slot that the
    /// merge left undecided, as a consistent finalized entry of the view
    /// being changed to. Outside a view change nothing changes.
    pub fn record_decision(
        &mut self,
        client: &String,
        sequence: OperationSequence,
        decided: &String,
    ) -> (r: Result<(), RecordError>)
        requires
            old(self).wf(),
        ensures
            final(self).wf(),
            final(self).spec_node_id() == old(self).spec_node_id(),
            final(self).spec_view() == old(self).spec_view(),
            old(self).spec_view().state == ViewState::ViewChanging ==> {
                &&& final(self).spec_records()@ == after_promote_consistent(
                    old(self).spec_records()@,
                    (client@, sequence),
                    old(self).spec_view().view,
                    decided@,
                )
                &&& (r is Ok <==> promote_consistent_result(
                    slot_at(old(self).spec_records()@, (client@, sequence)),
                ) is Some)
            },
            old(self).spec_view().state != ViewState::ViewChanging ==> final(self).spec_records()
                == old(self).spec_records() && r is Err,
            r matches Err(e) ==> e == RecordError::Conflict,
    {
        if self.view.state != ViewState::ViewChanging {
            return Err(RecordError::Conflict);
        }
        match self.records.promote_finalized_consistent(client, sequence, self.view.view, decided) {
            Ok(_) => Ok(()),
            Err(e) => Err(e),
        }
    }

    /// Settles the slots that a merge left undecided: for each listed slot
    /// with choices, the decide function picks one and it is recorded as a
    /// consistent finalized entry of the view being changed to. A slot that
    /// was empty or held a consistent proposal ends finalized with one of the
    /// choices listed for it; slots not listed stay as they are. Outside a
    /// view change nothing changes.
    pub fn resolve_undecided<F: DecideFunction<String>>(
        &mut self,
        unresolved: &Vec<Unresolved>,
        decide: &F,
    )
        requires
            old(self).wf(),
        ensures
            final(self).wf(),
            final(self).spec_node_id() == old(self).spec_node_id(),
            final(self).spec_view() == old(self).spec_view(),
            old(self).spec_view().state != ViewState::ViewChanging ==> final(self).spec_records()
                == old(self).spec_records(),
            old(self).spec_view().state == ViewState::ViewChanging ==> forall|u: int|
                #![trigger unresolved@[u]]
                0 <= u < unresolved.len() && unresolved@[u].choices.len() > 0 && admits_decision(
                    slot_at(old(self).spec_records()@, unresolved@[u].key()),
                ) ==> final(self).spec_records()@.dom().contains(unresolved@[u].key())
                    && decided_from(
                    unresolved@,
                    unresolved@[u].key(),
                    final(self).spec_records()@[unresolved@[u].key()],
                ),
            forall|k: SlotKey|
                !listed(unresolved@, k) ==> #[trigger] slot_at(final(self).spec_records()@, k)
                    == slot_at(old(self).spec_records()@, k),
    {
        if self.view.state != ViewState::ViewChanging {
            return;
        }
        let ghost start = self.records@;
        let mut i: usize = 0;
        while i < unresolved.len()
            invariant
                i <= unresolved.len(),
                self.wf(),
                self.node_id@ == old(self).node_id@,
                self.view == old(self).view,
                self.view.state == ViewState::ViewChanging,
                start == old(self).records@,
                forall|u: int|
                    #![trigger unresolved@[u]]
                    0 <= u < i && unresolved@[u].choices.len() > 0 && admits_decision(
                        slot_at(start, unresolved@[u].key()),
                    ) ==> self.records@.dom().contains(unresolved@[u].key()) && decided_from(
                        unresolved@,
                        unresolved@[u].key(),
                        self.records@[unresolved@[u].key()],
                    ),
                forall|k: SlotKey|
                    !(exists|u: int| 0 <= u < i && #[trigger] unresolved@[u].key() == k)
                        ==> #[trigger] slot_at(self.records@, k) == slot_at(start, k),
                forall|k: SlotKey|
                    #[trigger] slot_at(self.records@, k) == slot_at(start, k) || (
                    self.records@.dom().contains(k) && decided_from(unresolved@, k, self.records@[k])),
            decreases unresolved.len() - i,
        {
            let u = &unresolved[i];
            let ghost k = unresolved@[i as int].key();
            let ghost before = self.records@;
            if u.choices.len() > 0 {
                let chosen = decide.decide(&u.choices);
                let _ = self.record_decision(&u.client, u.sequence, &u.choices[chosen]);
                proof {
                    assert(u.choices.deep_view()[chosen as int] == u.choices@[chosen as int]@);
                    assert(u.choices.deep_view().contains(u.choices@[chosen as int]@));
                }
            }
            proof {
                assert forall|k2: SlotKey|
                    !(exists|u2: int| 0 <= u2 < i + 1 && #[trigger] unresolved@[u2].key() == k2)
                        implies #[trigger] slot_at(self.records@, k2) == slot_at(start, k2) by {
                    assert(k2 != k);
                    assert(!(exists|u2: int| 0 <= u2 < i && #[trigger] unresolved@[u2].key() == k2));
                    assert(slot_at(before, k2) == slot_at(start, k2));
                }
                assert forall|u2: int|
                    #![trigger unresolved@[u2]]
                    0 <= u2 < i + 1 && unresolved@[u2].choices.len() > 0 && admits_decision(
                        slot_at(start, unresolved@[u2].key()),
                    ) implies self.records@.dom().contains(unresolved@[u2].key()) && decided_from(
                        unresolved@,
                        unresolved@[u2].key(),
                        self.records@[unresolved@[u2].key()],
                    ) by {
                    let k2 = unresolved@[u2].key();
                    if u2 < i {
                        assert(before.dom().contains(k2));
                    } else {
                        assert(slot_at(before, k) == slot_at(start, k) || (before.dom().contains(k)
                            && decided_from(unresolved@, k, before[k])));
                    }
                }
                assert forall|k2: SlotKey|
                    #[trigger] slot_at(self.records@, k2) == slot_at(start, k2) || (
                    self.records@.dom().contains(k2) && decided_from(unresolved@, k2, self.records@[k2])) by {
                    assert(slot_at(before, k2) == slot_at(start, k2) || (before.dom().contains(k2)
                        && decided_from(unresolved@, k2, before[k2])));
                    if k2 == k && self.records@ != before {
                        assert(unresolved@[i as int].key() == k);
                    }
                }
            }
            i += 1;
        }
        proof {
            assert forall|k: SlotKey| !listed(unresolved@, k) implies #[trigger] slot_at(self.records@, k)
                == slot_at(start, k) by {
                if exists|u: int| 0 <= u < unresolved.len() && #[trigger] unresolved@[u].key() == k {
                    let u = choose|u: int| 0 <= u < unresolved.len() && #[trigger] unresolved@[u].key() == k;
                    assert(listed(unresolved@, k));
                }
            }
        }
    }

    /// Ends a view change once the merged record is acknowledged: the replica
    /// returns to normal state in the view it was changing to.
    pub fn complete_view_change(&mut self) -> (r: bool)
        requires
            old(self).wf(),
        ensures
            final(self).wf(),
            final(self).spec_view().view >= old(self).spec_view().view,
            final(self).spec_node_id() == old(self).spec_node_id(),
            final(self).spec_records() == old(self).spec_records(),
            r == (old(self).spec_view().state == ViewState::ViewChanging),
            r ==> in_state(final(self).spec_view(), old(self).spec_view(), ViewState::Normal),
            !r ==> final(self).spec_view() == old(self).spec_view(),
    {
        if self.view.state == ViewState::ViewChanging {
            self.view.state = ViewState::Normal;
            true
        } else {
            false
        }
    }

    /// Checks that the replica may act on a request. A higher observed view
    /// moves the replica to it, in view change; a replica that is not in
    /// normal state refuses.
    fn check_admission(&mut self, observed: Option<&View>) -> (r: Result<View, IRServerError>)
        requires
            old(self).wf(),
        ensures
            final(self).wf(),
            final(self).records == old(self).records,
            final(self).node_id == old(self).node_id,
            admits(old(self).view, observed_view(observed)) ==> final(self).view == old(self).view
                && (r matches Ok(v) && v.same_as(&old(self).view)),
            !admits(old(self).view, observed_view(observed)) ==> (r matches Err(e) && refused(
                old(self).view,
                observed_view(observed),
                final(self).view,
                e,
            )),
    {
        if let Some(o) = observed {
            if o.view > self.view.view {
                let current = self.view.clone();
                let mut target = o.clone();
                target.state = ViewState::ViewChanging;
                self.view = target.clone();
                return Err(IRServerError::ViewChanging { current, target });
            }
        }
        match self.view.state {
            ViewState::Normal => Ok(self.view.clone()),
            ViewState::Recovery => Err(IRServerError::Recovering(self.view.clone())),
            ViewState::ViewChanging => Err(
                IRServerError::ViewChanging { current: self.view.clone(), target: self.view.clone() },
            ),
        }
    }
}

pub open spec fn observed_view(o: Option<&View>) -> Option<View> {
    match o {
        Some(v) => Some(*v),
        None => None,
    }
}

/// A decision can settle a slot that is empty or holds a consistent proposal.
pub open spec fn admits_decision(s: Option<Slot>) -> bool {
    match s {
        None => true,
        Some(x) => x.consistent && !x.finalized,
    }
}

/// `s` is a consistent finalized entry whose message is one of the choices
/// listed for slot `k`.
pub open spec fn decided_from(us: Seq<Unresolved>, k: SlotKey, s: Slot) -> bool {
    &&& s.consistent
    &&& s.finalized
    &&& exists|u: int| 0 <= u < us.len() && #[trigger] us[u].key() == k && us[u].choices.deep_view().contains(
        s.message,
    )
}

pub open spec fn opt_message(o: Option<String>) -> Option<Seq<char>> {
    match o {
        Some(m) => Some(m@),
        None => None,
    }
}

/// The replica acts on a request only in normal state, and only when the
/// caller has not seen a higher view.
pub open spec fn admits(before: View, observed: Option<View>) -> bool {
    &&& before.state == ViewState::Normal
    &&& !(observed is Some && observed->Some_0.view > before.view)
}

/// `after` is `before` in state `s`.
pub open spec fn in_state(after: View, before: View, s: ViewState) -> bool {
    &&& after.view == before.view
    &&& after.members.deep_view() == before.members.deep_view()
    &&& after.state == s
}

/// Why a request that is not admitted is refused: a higher observed view
/// moves the replica to that view, in view change; otherwise the replica
/// stays as it is and reports its state.
pub open spec fn refused(before: View, observed: Option<View>, after: View, e: IRServerError) -> bool {
    if observed is Some && observed->Some_0.view > before.view {
        &&& changing_to(observed->Some_0, after)
        &&& e matches IRServerError::ViewChanging { current, target } && current.same_as(&before)
            && target.same_as(&after)
    } else {
        &&& after == before
        &&& match before.state {
            ViewState::Normal => false,
            ViewState::Recovery => e matches IRServerError::Recovering(v) && v.same_as(&before),
            ViewState::ViewChanging => e matches IRServerError::ViewChanging { current, target }
                && current.same_as(&before) && target.same_as(&before),
        }
    }
}

} // verus!
