use vstd::prelude::*;
use vstd::view::View as _;
use crate::types::{IROperation, OpView, OperationSequence};

verus! {

/// What a record holds for one `(client, sequence)`: the view it was written
/// in, its class and phase, and its message.
pub struct Slot {
    pub view: u64,
    pub consistent: bool,
    pub finalized: bool,
    pub message: Seq<char>,
}

pub type SlotKey = (Seq<char>, OperationSequence);

/// A write that the slot's current content does not admit.
#[derive(Clone, Copy, Debug, PartialEq, Eq, Structural)]
pub enum RecordError {
    Conflict,
}

pub open spec fn slot_at(m: Map<SlotKey, Slot>, k: SlotKey) -> Option<Slot> {
    if m.dom().contains(k) {
        Some(m[k])
    } else {
        None
    }
}

/// The slot after a tentative write of the given class: an empty slot takes
/// the proposal, the same proposal again or any finalized entry of the same
/// class leaves it as it is, and anything else is a conflict that changes
/// nothing.
pub open spec fn tentative_step(s: Option<Slot>, consistent: bool, view: u64, msg: Seq<char>) -> Slot {
    match s {
        None => Slot { view, consistent, finalized: false, message: msg },
        Some(x) => x,
    }
}

/// What a tentative write returns: the message that stands in the slot, or
/// `None` on a conflict.
pub open spec fn tentative_result(s: Option<Slot>, consistent: bool, view: u64, msg: Seq<char>) -> Option<Seq<char>> {
    match s {
        None => Some(msg),
        Some(x) => if x.consistent == consistent && x.finalized {
            Some(x.message)
        } else if x.consistent == consistent && x.view == view && x.message == msg {
            Some(msg)
        } else {
            None
        },
    }
}

/// The slot after an inconsistent finalize: it replaces an empty slot or any
/// proposal, whatever its class; a finalized entry stays as it is.
pub open spec fn promote_inconsistent_step(s: Option<Slot>, view: u64, msg: Seq<char>) -> Slot {
    match s {
        Some(x) => if x.finalized {
            x
        } else {
            Slot { view, consistent: false, finalized: true, message: msg }
        },
        None => Slot { view, consistent: false, finalized: true, message: msg },
    }
}

/// An inconsistent finalize conflicts only with a consistent finalized entry.
pub open spec fn promote_inconsistent_ok(s: Option<Slot>) -> bool {
    match s {
        Some(x) => !(x.finalized && x.consistent),
        None => true,
    }
}

/// The slot after a consistent finalize: it replaces an empty slot or a
/// consistent proposal; a finalized entry stays, and an inconsistent
/// proposal is a conflict that changes nothing.
pub open spec fn promote_consistent_step(s: Option<Slot>, view: u64, msg: Seq<char>) -> Slot {
    match s {
        Some(x) => if x.finalized || !x.consistent {
            x
        } else {
            Slot { view, consistent: true, finalized: true, message: msg }
        },
        None => Slot { view, consistent: true, finalized: true, message: msg },
    }
}

/// What a consistent finalize returns: `Some(previous)` with the message the
/// slot held before (`None` if it was empty), or `None` on a conflict.
pub open spec fn promote_consistent_result(s: Option<Slot>) -> Option<Option<Seq<char>>> {
    match s {
        Some(x) => if x.consistent {
            Some(Some(x.message))
        } else {
            None
        },
        None => Some(None),
    }
}

pub open spec fn after_tentative(
    m: Map<SlotKey, Slot>,
    k: SlotKey,
    consistent: bool,
    view: u64,
    msg: Seq<char>,
) -> Map<SlotKey, Slot> {
    m.insert(k, tentative_step(slot_at(m, k), consistent, view, msg))
}

pub open spec fn after_promote_inconsistent(
    m: Map<SlotKey, Slot>,
    k: SlotKey,
    view: u64,
    msg: Seq<char>,
) -> Map<SlotKey, Slot> {
    m.insert(k, promote_inconsistent_step(slot_at(m, k), view, msg))
}

pub open spec fn after_promote_consistent(
    m: Map<SlotKey, Slot>,
    k: SlotKey,
    view: u64,
    msg: Seq<char>,
) -> Map<SlotKey, Slot> {
    m.insert(k, promote_consistent_step(slot_at(m, k), view, msg))
}

/// Writing the same proposal twice leaves the record as the first write left
/// it, and the second write answers as the first did.
pub proof fn lemma_tentative_idempotent(
    m: Map<SlotKey, Slot>,
    k: SlotKey,
    consistent: bool,
    view: u64,
    msg: Seq<char>,
)
    ensures
        after_tentative(after_tentative(m, k, consistent, view, msg), k, consistent, view, msg)
            == after_tentative(m, k, consistent, view, msg),
        tentative_result(
            slot_at(after_tentative(m, k, consistent, view, msg), k),
            consistent,
            view,
            msg,
        ) == tentative_result(slot_at(m, k), consistent, view, msg),
{
    let m1 = after_tentative(m, k, consistent, view, msg);
    assert(m1.insert(k, m1[k]) =~= m1);
}

/// Finalizing an inconsistent operation twice gives the state that the first
/// finalize gave.
pub proof fn lemma_promote_inconsistent_idempotent(
    m: Map<SlotKey, Slot>,
    k: SlotKey,
    view: u64,
    msg: Seq<char>,
)
    ensures
        after_promote_inconsistent(after_promote_inconsistent(m, k, view, msg), k, view, msg)
            == after_promote_inconsistent(m, k, view, msg),
{
    let m1 = after_promote_inconsistent(m, k, view, msg);
    assert(m1.insert(k, m1[k]) =~= m1);
}

/// Finalizing a consistent operation twice gives the state that the first
/// finalize gave.
pub proof fn lemma_promote_consistent_idempotent(
    m: Map<SlotKey, Slot>,
    k: SlotKey,
    view: u64,
    msg: Seq<char>,
)
    ensures
        after_promote_consistent(after_promote_consistent(m, k, view, msg), k, view, msg)
            == after_promote_consistent(m, k, view, msg),
{
    let m1 = after_promote_consistent(m, k, view, msg);
    assert(m1.insert(k, m1[k]) =~= m1);
}

/// A record holds one entry per `(client, sequence)`, and once that entry is
/// finalized no write, of either class or phase, to any slot changes it: in
/// particular no proposal replaces it.
pub proof fn lemma_finalized_entry_stays(
    m: Map<SlotKey, Slot>,
    k: SlotKey,
    k2: SlotKey,
    consistent: bool,
    view: u64,
    msg: Seq<char>,
)
    requires
        m.dom().contains(k),
        m[k].finalized,
    ensures
        after_tentative(m, k2, consistent, view, msg)[k] == m[k],
        after_promote_inconsistent(m, k2, view, msg)[k] == m[k],
        after_promote_consistent(m, k2, view, msg)[k] == m[k],
{
}

/// The record after one operation is written in view `view`: a proposal as
/// a tentative write of its class, a finalized operation as a finalize of
/// its class.
pub open spec fn apply_operation(m: Map<SlotKey, Slot>, view: u64, op: OpView) -> Map<SlotKey, Slot> {
    let k = (op.client, op.sequence);
    if !op.finalized {
        after_tentative(m, k, op.consistent, view, op.message)
    } else if op.consistent {
        after_promote_consistent(m, k, view, op.message)
    } else {
        after_promote_inconsistent(m, k, view, op.message)
    }
}

/// The record that writing `ops` in order, in view `view`, builds from nothing.
pub open spec fn record_of(view: u64, ops: Seq<IROperation>) -> Map<SlotKey, Slot>
    decreases ops.len(),
{
    if ops.len() == 0 {
        Map::empty()
    } else {
        apply_operation(record_of(view, ops.drop_last()), view, ops.last()@)
    }
}

/// One entry of a record.
#[derive(Debug)]
pub struct RecordEntry {
    pub view: u64,
    pub operation: IROperation,
}

impl RecordEntry {
    pub open spec fn key(&self) -> SlotKey {
        (self.operation@.client, self.operation@.sequence)
    }

    pub open spec fn slot(&self) -> Slot {
        Slot {
            view: self.view,
            consistent: self.operation@.consistent,
            finalized: self.operation@.finalized,
            message: self.operation@.message,
        }
    }
}

impl Clone for RecordEntry {
    fn clone(&self) -> (r: Self)
        ensures
            r.view == self.view,
            r.operation@ == self.operation@,
    {
        RecordEntry { view: self.view, operation: self.operation.clone() }
    }
}

/// A replica's record: at most one entry per `(client, sequence)`.
pub struct RecordStore {
    entries: Vec<RecordEntry>,
    slots: Ghost<Map<SlotKey, Slot>>,
}

impl vstd::view::View for RecordStore {
    type V = Map<SlotKey, Slot>;

    closed spec fn view(&self) -> Map<SlotKey, Slot> {
        self.slots@
    }
}

impl RecordStore {
    /// The entries have distinct keys and are exactly the slots of the view.
    pub closed spec fn wf(&self) -> bool {
        &&& forall|i: int, j: int|
            0 <= i < j < self.entries.len() ==> #[trigger] self.entries@[i].key()
                != #[trigger] self.entries@[j].key()
        &&& forall|i: int|
            0 <= i < self.entries.len() ==> self.slots@.dom().contains(
                #[trigger] self.entries@[i].key(),
            ) && self.slots@[self.entries@[i].key()] == self.entries@[i].slot()
        &&& forall|k: SlotKey|
            #[trigger] self.slots@.dom().contains(k) ==> exists|i: int|
                0 <= i < self.entries.len() && #[trigger] self.entries@[i].key() == k
    }

    /// The entries, in the order they were first written.
    pub closed spec fn entry_seq(&self) -> Seq<RecordEntry> {
        self.entries@
    }

    pub proof fn lemma_entries(&self)
        requires
            self.wf(),
        ensures
            forall|i: int|
                0 <= i < self.entry_seq().len() ==> self@.dom().contains(
                    #[trigger] self.entry_seq()[i].key(),
                ) && self@[self.entry_seq()[i].key()] == self.entry_seq()[i].slot(),
            forall|k: SlotKey|
                #[trigger] self@.dom().contains(k) ==> exists|i: int|
                    0 <= i < self.entry_seq().len() && #[trigger] self.entry_seq()[i].key() == k,
            forall|i: int, j: int|
                0 <= i < j < self.entry_seq().len() ==> #[trigger] self.entry_seq()[i].key()
                    != #[trigger] self.entry_seq()[j].key(),
    {
        assert forall|k: SlotKey| #[trigger] self@.dom().contains(k) implies exists|i: int|
            0 <= i < self.entry_seq().len() && #[trigger] self.entry_seq()[i].key() == k by {
            let i = choose|i: int| 0 <= i < self.entries.len() && #[trigger] self.entries@[i].key() == k;
            assert(self.entry_seq()[i].key() == k);
        }
    }

    pub fn new() -> (r: RecordStore)
        ensures
            r.wf(),
            r@ == Map::<SlotKey, Slot>::empty(),
    {
        RecordStore { entries: Vec::new(), slots: Ghost(Map::empty()) }
    }

    /// Builds the record of a peer from the operations it sent, written in
    /// order in view `view`. A repeated slot keeps what the record rules
    /// keep: a finalized entry stays, and a finalize replaces a proposal.
    pub fn from_operations(view: u64, ops: &Vec<IROperation>) -> (r: RecordStore)
        ensures
            r.wf(),
            r@ == record_of(view, ops@),
    {
        let mut record = RecordStore::new();
        let mut i: usize = 0;
        while i < ops.len()
            invariant
                i <= ops.len(),
                record.wf(),
                record@ == record_of(view, ops@.take(i as int)),
            decreases ops.len() - i,
        {
            proof {
                assert(ops@.take(i + 1).drop_last() =~= ops@.take(i as int));
                assert(ops@.take(i + 1).last() == ops@[i as int]);
            }
            let op = &ops[i];
            let client = op.client();
            let sequence = *op.sequence();
            let message = op.message();
            // What each write returns is already in the record's contract;
            // a refused write leaves the slot as it is.
            if !op.finalized() {
                let _ = record.record_tentative(op.consistent(), client, sequence, view, message);
            } else if op.consistent() {
                let _ = record.promote_finalized_consistent(client, sequence, view, message);
            } else {
                let _ = record.promote_finalized_inconsistent(client, sequence, view, message);
            }
            i += 1;
        }
        proof {
            assert(ops@.take(ops.len() as int) =~= ops@);
        }
        record
    }

    /// The entries, in the order they were first written.
    pub fn entries(&self) -> (r: &Vec<RecordEntry>)
        ensures
            r@ == self.entry_seq(),
    {
        &self.entries
    }

    fn find_index(&self, client: &String, sequence: OperationSequence) -> (r: Option<usize>)
        requires
            self.wf(),
        ensures
            match r {
                Some(i) => i < self.entries.len() && self.entries@[i as int].key() == (
                    client@,
                    sequence,
                ),
                None => !self@.dom().contains((client@, sequence)),
            },
    {
        let mut i: usize = 0;
        while i < self.entries.len()
            invariant
                self.wf(),
                i <= self.entries.len(),
                forall|j: int|
                    0 <= j < i ==> #[trigger] self.entries@[j].key() != (client@, sequence),
            decreases self.entries.len() - i,
        {
            let op = &self.entries[i].operation;
            if *op.sequence() == sequence && *op.client() == *client {
                return Some(i);
            }
            i += 1;
        }
        None
    }

    /// The entry recorded for `(client, sequence)`, if any.
    pub fn find_entry(&self, client: &String, sequence: OperationSequence) -> (r: Option<
        RecordEntry,
    >)
        requires
            self.wf(),
        ensures
            match r {
                Some(e) => self@.dom().contains((client@, sequence)) && e.key() == (
                    client@,
                    sequence,
                ) && e.slot() == self@[(client@, sequence)],
                None => !self@.dom().contains((client@, sequence)),
            },
    {
        match self.find_index(client, sequence) {
            Some(i) => Some(self.entries[i].clone()),
            None => None,
        }
    }

    /// Puts `slot` under the key; the rest of the record is unchanged.
    pub(crate) fn put(&mut self, client: &String, sequence: OperationSequence, slot_view: u64, consistent: bool, finalized: bool, message: &String)
        requires
            old(self).wf(),
        ensures
            final(self).wf(),
            final(self)@ == old(self)@.insert(
                (client@, sequence),
                Slot { view: slot_view, consistent, finalized, message: message@ },
            ),
    {
        let k = Ghost((client@, sequence));
        let s = Ghost(Slot { view: slot_view, consistent, finalized, message: message@ });
        let entry = RecordEntry {
            view: slot_view,
            operation: IROperation::build(
                consistent,
                finalized,
                client.clone(),
                sequence,
                message.clone(),
            ),
        };
        assert(entry.key() == k@ && entry.slot() == s@);
        match self.find_index(client, sequence) {
            Some(i) => {
                self.entries.set(i, entry);
                self.slots = Ghost(self.slots@.insert(k@, s@));
                assert forall|k2: SlotKey| #[trigger] self.slots@.dom().contains(k2) implies exists|
                    j: int,
                | 0 <= j < self.entries.len() && #[trigger] self.entries@[j].key() == k2 by {
                    if k2 == k@ {
                        assert(self.entries@[i as int].key() == k2);
                    } else {
                        assert(old(self).slots@.dom().contains(k2));
                        let j = choose|j: int|
                            0 <= j < old(self).entries.len() && #[trigger] old(
                                self,
                            ).entries@[j].key() == k2;
                        assert(self.entries@[j].key() == k2);
                    }
                }
            },
            None => {
                self.entries.push(entry);
                self.slots = Ghost(self.slots@.insert(k@, s@));
                assert forall|k2: SlotKey| #[trigger] self.slots@.dom().contains(k2) implies exists|
                    j: int,
                | 0 <= j < self.entries.len() && #[trigger] self.entries@[j].key() == k2 by {
                    if k2 == k@ {
                        assert(self.entries@[self.entries.len() - 1].key() == k2);
                    } else {
                        assert(old(self).slots@.dom().contains(k2));
                        let j = choose|j: int|
                            0 <= j < old(self).entries.len() && #[trigger] old(
                                self,
                            ).entries@[j].key() == k2;
                        assert(self.entries@[j].key() == k2);
                    }
                }
            },
        }
    }

    fn record_tentative(
        &mut self,
        consistent: bool,
        client: &String,
        sequence: OperationSequence,
        view: u64,
        message: &String,
    ) -> (r: Result<String, RecordError>)
        requires
            old(self).wf(),
        ensures
            final(self).wf(),
            final(self)@ == after_tentative(old(self)@, (client@, sequence), consistent, view, message@),
            match r {
                Ok(m) => tentative_result(
                    slot_at(old(self)@, (client@, sequence)),
                    consistent,
                    view,
                    message@,
                ) == Some(m@),
                Err(e) => e == RecordError::Conflict && tentative_result(
                    slot_at(old(self)@, (client@, sequence)),
                    consistent,
                    view,
                    message@,
                ) is None,
            },
    {
        match self.find_index(client, sequence) {
            None => {
                self.put(client, sequence, view, consistent, false, message);
                Ok(message.clone())
            },
            Some(i) => {
                proof {
                    assert(old(self)@.insert(
                        (client@, sequence),
                        old(self)@[(client@, sequence)],
                    ) =~= old(self)@);
                }
                let e = &self.entries[i];
                if e.operation.consistent() != consistent {
                    Err(RecordError::Conflict)
                } else if e.operation.finalized() {
                    Ok(e.operation.message().clone())
                } else if e.view == view && *e.operation.message() == *message {
                    Ok(message.clone())
                } else {
                    Err(RecordError::Conflict)
                }
            },
        }
    }

    /// Records an inconsistent proposal. Replaying the same proposal (same
    /// view and message) changes nothing; over an inconsistent finalized
    /// entry it returns the finalized message and keeps the entry; any other
    /// entry is a conflict. Returns the message that stands.
    pub fn record_tentative_inconsistent(
        &mut self,
        client: &String,
        sequence: OperationSequence,
        view: u64,
        message: &String,
    ) -> (r: Result<String, RecordError>)
        requires
            old(self).wf(),
        ensures
            final(self).wf(),
            final(self)@ == after_tentative(old(self)@, (client@, sequence), false, view, message@),
            match r {
                Ok(m) => tentative_result(
                    slot_at(old(self)@, (client@, sequence)),
                    false,
                    view,
                    message@,
                ) == Some(m@),
                Err(e) => e == RecordError::Conflict && tentative_result(
                    slot_at(old(self)@, (client@, sequence)),
                    false,
                    view,
                    message@,
                ) is None,
            },
    {
        self.record_tentative(false, client, sequence, view, message)
    }

    /// Records a consistent proposal, on the same terms as an inconsistent one.
    pub fn record_tentative_consistent(
        &mut self,
        client: &String,
        sequence: OperationSequence,
        view: u64,
        message: &String,
    ) -> (r: Result<String, RecordError>)
        requires
            old(self).wf(),
        ensures
            final(self).wf(),
            final(self)@ == after_tentative(old(self)@, (client@, sequence), true, view, message@),
            match r {
                Ok(m) => tentative_result(
                    slot_at(old(self)@, (client@, sequence)),
                    true,
                    view,
                    message@,
                ) == Some(m@),
                Err(e) => e == RecordError::Conflict && tentative_result(
                    slot_at(old(self)@, (client@, sequence)),
                    true,
                    view,
                    message@,
                ) is None,
            },
    {
        self.record_tentative(true, client, sequence, view, message)
    }

    /// Finalizes an inconsistent operation. It may arrive without its
    /// proposal, and it overrides a proposal of either class; an entry that
    /// is already finalized stays. Fails only over a consistent finalized entry.
    pub fn promote_finalized_inconsistent(
        &mut self,
        client: &String,
        sequence: OperationSequence,
        view: u64,
        message: &String,
    ) -> (r: Result<(), RecordError>)
        requires
            old(self).wf(),
        ensures
            final(self).wf(),
            final(self)@ == after_promote_inconsistent(old(self)@, (client@, sequence), view, message@),
            r is Ok <==> promote_inconsistent_ok(slot_at(old(self)@, (client@, sequence))),
            r matches Err(e) ==> e == RecordError::Conflict,
    {
        match self.find_index(client, sequence) {
            None => {
                self.put(client, sequence, view, false, true, message);
                Ok(())
            },
            Some(i) => {
                proof {
                    assert(old(self)@.insert(
                        (client@, sequence),
                        old(self)@[(client@, sequence)],
                    ) =~= old(self)@);
                }
                let e = &self.entries[i];
                if e.operation.finalized() {
                    if e.operation.consistent() {
                        Err(RecordError::Conflict)
                    } else {
                        Ok(())
                    }
                } else {
                    self.put(client, sequence, view, false, true, message);
                    Ok(())
                }
            },
        }
    }

    /// Finalizes a consistent operation and returns the message the slot held
    /// before (`None` if it was empty), so that an executor can reconcile.
    /// An entry that is already finalized stays; an inconsistent entry is a
    /// conflict.
    pub fn promote_finalized_consistent(
        &mut self,
        client: &String,
        sequence: OperationSequence,
        view: u64,
        message: &String,
    ) -> (r: Result<Option<String>, RecordError>)
        requires
            old(self).wf(),
        ensures
            final(self).wf(),
            final(self)@ == after_promote_consistent(old(self)@, (client@, sequence), view, message@),
            match r {
                Ok(p) => promote_consistent_result(slot_at(old(self)@, (client@, sequence)))
                    == Some(
                    match p {
                        Some(m) => Some(m@),
                        None => None::<Seq<char>>,
                    },
                ),
                Err(e) => e == RecordError::Conflict && promote_consistent_result(
                    slot_at(old(self)@, (client@, sequence)),
                ) is None,
            },
    {
        match self.find_index(client, sequence) {
            None => {
                self.put(client, sequence, view, true, true, message);
                Ok(None)
            },
            Some(i) => {
                proof {
                    assert(old(self)@.insert(
                        (client@, sequence),
                        old(self)@[(client@, sequence)],
                    ) =~= old(self)@);
                }
                let e = &self.entries[i];
                if !e.operation.consistent() {
                    Err(RecordError::Conflict)
                } else if e.operation.finalized() {
                    Ok(Some(e.operation.message().clone()))
                } else {
                    let previous = e.operation.message().clone();
                    self.put(client, sequence, view, true, true, message);
                    Ok(Some(previous))
                }
            },
        }
    }
}

} // verus!
