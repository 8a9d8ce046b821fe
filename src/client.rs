use vstd::prelude::*;
use vstd::view::View as _;
use crate::order::{lemma_exists_prefix_step, sorted_insert, strictly_sorted};
use crate::quorum::{
    fast_size, find_quorum, highest_view, highest_vote, leads, lemma_first_highest,
    lemma_leader_unique, lemma_quorum_sizes_ordered, lemma_sorted_len, messages_in_view,
    normal_size, proposed, quorum_reached, slow_quorum, voter_count, QuorumType, QuorumVote,
};
use crate::replica::observed_view;
use crate::types::{DecideFunction, OperationSequence, View};

verus! {

/// Cluster size is 2f+1 with f at least one.
pub const MINIMUM_CLUSTER_SIZE: usize = 3;

/// Why an invocation failed.
#[derive(Clone, Copy, Debug, PartialEq, Eq, Structural)]
pub enum ClientError {
    /// The view has fewer than three members; nothing was sent.
    ClusterTooSmall,
    /// The answers held no quorum, even after adopting a higher view.
    NoQuorum,
    /// Too few replicas confirmed a synchronous finalize.
    FinalizeNotConfirmed,
    /// The client has used every sequence number.
    SequencesExhausted,
}

/// What a client does next with an inconsistent operation, given the
/// answers to its proposal.
#[derive(Debug)]
pub enum InconsistentStep {
    /// Finalize `message` on the members of the quorum's view, without
    /// waiting, and return it.
    Finalize { members: Vec<String>, message: String },
    /// A higher view was adopted: propose again to its members.
    Retry,
    Fail(ClientError),
}

/// What a client does next with a consistent operation, given the answers
/// to its proposal.
#[derive(Debug)]
pub enum ConsistentStep {
    /// A fast quorum: finalize `message` on the members without waiting.
    FinalizeAsync { members: Vec<String>, message: String },
    /// Let the decide function choose among `choices`, finalize its choice on
    /// the members and wait for a quorum of confirmations.
    Decide { members: Vec<String>, choices: Vec<String> },
    /// A higher view was adopted: propose again to its members.
    Retry,
    Fail(ClientError),
}

/// The client's protocol state: its identity, the next sequence number, the
/// latest view it knows and extra nodes to probe.
pub struct ClientState {
    client_id: String,
    sequence: OperationSequence,
    latest_view: View,
    additional_nodes: Vec<String>,
}

/// `s` is the sequence number that an invocation took, moving the client
/// from `before` to `after`.
pub open spec fn takes_sequence(before: ClientState, after: ClientState, s: OperationSequence) -> bool {
    &&& s == before.spec_sequence()
    &&& after.spec_sequence() == before.spec_sequence() + 1
}

/// Consecutive invocations of a client take strictly increasing sequence
/// numbers: the counter only moves forward between them.
pub proof fn lemma_sequences_increase(
    c0: ClientState,
    c1: ClientState,
    c2: ClientState,
    c3: ClientState,
    s1: OperationSequence,
    s2: OperationSequence,
)
    requires
        takes_sequence(c0, c1, s1),
        c1.spec_sequence() <= c2.spec_sequence(),
        takes_sequence(c2, c3, s2),
    ensures
        s1 < s2,
        c1.spec_sequence() <= s2,
{
}

/// Answers that settle an operation in view `h` make the client adopt `h`
/// when it is higher than the latest view it knew, forgetting its probes;
/// otherwise its view and probes stay.
pub open spec fn adopts_if_higher(before: ClientState, after: ClientState, h: View) -> bool {
    if h.view > before.spec_latest_view().view {
        &&& after.spec_latest_view().same_as(&h)
        &&& after.spec_additional_nodes() == Seq::<Seq<char>>::empty()
    } else {
        &&& after.spec_latest_view() == before.spec_latest_view()
        &&& after.spec_additional_nodes() == before.spec_additional_nodes()
    }
}

/// What follows when the answers settle nothing: on the first attempt, with
/// answers from a view higher than the latest known, the client adopts that
/// view, forgets its probes and retries; otherwise it fails and keeps its
/// state.
pub open spec fn retry_or_fail(
    before: &ClientState,
    after: &ClientState,
    votes: Seq<QuorumVote>,
    retried: bool,
    is_retry: bool,
    is_fail: bool,
) -> bool {
    if votes.len() > 0 && !retried && highest_view(votes).view > before.spec_latest_view().view {
        &&& is_retry
        &&& after.spec_latest_view().same_as(&highest_view(votes))
        &&& after.spec_additional_nodes() == Seq::<Seq<char>>::empty()
    } else {
        &&& is_fail
        &&& after.spec_latest_view() == before.spec_latest_view()
        &&& after.spec_additional_nodes() == before.spec_additional_nodes()
    }
}

/// The answers allow a consistent operation to be settled: a quorum, or
/// answers from at least a normal quorum of the highest view's members.
pub open spec fn may_decide(votes: Seq<QuorumVote>) -> bool {
    let h = highest_view(votes);
    ||| quorum_reached(votes, h)
    ||| h.members.len() >= 3 && responder_set(votes, h).len() >= normal_size(h.members.len() as int)
}

/// The nodes that answered in view `h`.
pub open spec fn responder_set(votes: Seq<QuorumVote>, h: View) -> Set<Seq<char>> {
    Set::new(|n: Seq<char>| responded_in(votes, h, n))
}

/// The nodes that answered in view `h`, sorted.
fn responders_in(votes: &Vec<QuorumVote>, h: &View) -> (r: Vec<String>)
    ensures
        strictly_sorted(r.deep_view()),
        forall|n: Seq<char>| #[trigger] r.deep_view().contains(n) <==> responded_in(votes@, *h, n),
{
    let mut r: Vec<String> = Vec::new();
    let mut k: usize = 0;
    while k < votes.len()
        invariant
            k <= votes.len(),
            strictly_sorted(r.deep_view()),
            forall|n: Seq<char>| #[trigger] r.deep_view().contains(n) <==> exists|j: int|
                0 <= j < k && #[trigger] votes@[j].view.same_as(h) && votes@[j].node@ == n,
        decreases votes.len() - k,
    {
        if votes[k].view.equals(h) {
            sorted_insert(&mut r, &votes[k].node);
        }
        proof {
            assert forall|n: Seq<char>| #[trigger] r.deep_view().contains(n) <==> exists|j: int|
                0 <= j < k + 1 && #[trigger] votes@[j].view.same_as(h) && votes@[j].node@ == n by {
                lemma_exists_prefix_step(
                    |j: int| votes@[j].view.same_as(h) && votes@[j].node@ == n,
                    k as int,
                );
            }
        }
        k += 1;
    }
    r
}

/// The decide function's choice among the candidate messages of a
/// consistent operation; `None` when there is nothing to choose from.
pub fn decided_choice<F: DecideFunction<String>>(choices: &Vec<String>, decide: &F) -> (r: Option<String>)
    ensures
        r is None <==> choices.len() == 0,
        r matches Some(m) ==> choices.deep_view().contains(m@),
{
    if choices.len() == 0 {
        return None;
    }
    let chosen = decide.decide(choices);
    proof {
        assert(choices.deep_view()[chosen as int] == choices@[chosen as int]@);
    }
    Some(choices[chosen].clone())
}

/// Whether a synchronous finalize was confirmed: its acknowledgements hold a
/// quorum.
pub fn confirm_finalize(acks: &Vec<QuorumVote>) -> (r: Result<(), ClientError>)
    ensures
        r is Ok <==> (acks.len() > 0 && quorum_reached(acks@, highest_view(acks@))),
        r matches Err(e) ==> e == ClientError::FinalizeNotConfirmed,
{
    match find_quorum(acks) {
        Ok(_) => Ok(()),
        Err(_) => Err(ClientError::FinalizeNotConfirmed),
    }
}

/// Position of the first view with the highest number.
pub open spec fn first_highest_view(views: Seq<View>) -> int
    decreases views.len(),
{
    if views.len() <= 1 {
        0
    } else {
        let k = first_highest_view(views.drop_last());
        if views.last().view > views[k].view {
            views.len() - 1
        } else {
            k
        }
    }
}

/// The views that `validate_view` weighs: the expected one, if given, in
/// front of the others.
pub open spec fn candidate_views(views: Seq<View>, expected: Option<View>) -> Seq<View> {
    match expected {
        Some(e) => seq![e] + views,
        None => views,
    }
}

/// Checks the views that replicas answered with against the expected one
/// (the first answer where none is expected). `Ok` with that view if every
/// answer has its number; otherwise `Err` with the first view that carries
/// the highest number.
pub fn validate_view(views: &Vec<View>, expected: Option<&View>) -> (r: Result<View, View>)
    requires
        views.len() > 0 || expected is Some,
    ensures
        ({
            let c = candidate_views(views@, observed_view(expected));
            match r {
                Ok(v) => (forall|k: int| 0 <= k < c.len() ==> #[trigger] c[k].view == c[0].view)
                    && v.same_as(&c[0]),
                Err(v) => (exists|k: int| 0 <= k < c.len() && #[trigger] c[k].view != c[0].view)
                    && v.same_as(&c[first_highest_view(c)]),
            }
        }),
{
    let ghost c = candidate_views(views@, observed_view(expected));
    let (first, start): (&View, usize) = match expected {
        Some(e) => (e, 0),
        None => (&views[0], 1),
    };
    let ghost off: int = if expected is Some { 1 } else { 0 };
    proof {
        assert(c[0] == *first);
        assert forall|k: int| start <= k < views.len() implies c[k + off] == views@[k] by {}
        assert(c.take(1).drop_last() =~= Seq::<View>::empty());
    }
    let mut highest = first;
    let mut failed = false;
    let mut i: usize = start;
    while i < views.len()
        invariant
            start <= i <= views.len(),
            c.len() == views.len() + off,
            start as int + off == 1,
            forall|k: int| start <= k < views.len() ==> c[k + off] == views@[k],
            c[0] == *first,
            *highest == c[first_highest_view(c.take(i + off))],
            0 <= first_highest_view(c.take(i + off)) < i + off,
            failed <==> exists|k: int| 0 <= k < i + off && #[trigger] c[k].view != c[0].view,
        decreases views.len() - i,
    {
        proof {
            assert(c.take(i + off + 1).drop_last() =~= c.take(i + off));
            assert(c.take(i + off + 1)[i + off] == c[i + off]);
        }
        let view = &views[i];
        if view.view > highest.view {
            highest = view;
            failed = true;
        } else if view.view < highest.view {
            failed = true;
        }
        proof {
            if exists|k: int| 0 <= k < i + off + 1 && #[trigger] c[k].view != c[0].view {
                let k = choose|k: int| 0 <= k < i + off + 1 && #[trigger] c[k].view != c[0].view;
                if k < i + off {
                    assert(exists|k: int| 0 <= k < i + off && #[trigger] c[k].view != c[0].view);
                }
            }
            if exists|k: int| 0 <= k < i + off && #[trigger] c[k].view != c[0].view {
                let k = choose|k: int| 0 <= k < i + off && #[trigger] c[k].view != c[0].view;
                assert(exists|k: int| 0 <= k < i + off + 1 && #[trigger] c[k].view != c[0].view);
            }
        }
        i += 1;
    }
    proof {
        assert(c.take(i + off) =~= c);
    }
    if failed {
        Err(highest.clone())
    } else {
        Ok(first.clone())
    }
}

/// The nodes that answered in view `h`.
pub open spec fn responded_in(votes: Seq<QuorumVote>, h: View, n: Seq<char>) -> bool {
    exists|k: int| 0 <= k < votes.len() && #[trigger] votes[k].view.same_as(&h) && votes[k].node@ == n
}

impl ClientState {
    pub closed spec fn spec_client_id(&self) -> Seq<char> {
        self.client_id@
    }

    pub closed spec fn spec_sequence(&self) -> OperationSequence {
        self.sequence
    }

    pub closed spec fn spec_latest_view(&self) -> View {
        self.latest_view
    }

    pub closed spec fn spec_additional_nodes(&self) -> Seq<Seq<char>> {
        self.additional_nodes.deep_view()
    }

    pub fn new(client_id: String, view: View) -> (r: ClientState)
        ensures
            r.spec_client_id() == client_id@,
            r.spec_sequence() == 0,
            r.spec_latest_view() == view,
            r.spec_additional_nodes() == Seq::<Seq<char>>::empty(),
    {
        ClientState { client_id, sequence: 0, latest_view: view, additional_nodes: Vec::new() }
    }

    pub fn client_id(&self) -> (r: &String)
        ensures
            r@ == self.spec_client_id(),
    {
        &self.client_id
    }

    pub fn latest_view(&self) -> (r: &View)
        ensures
            *r == self.spec_latest_view(),
    {
        &self.latest_view
    }

    /// Probes these nodes too from now on, until the next view change.
    pub fn add_nodes_to_probe(&mut self, nodes: Vec<String>)
        ensures
            final(self).spec_additional_nodes() == old(self).spec_additional_nodes()
                + nodes.deep_view(),
            final(self).spec_sequence() == old(self).spec_sequence(),
            final(self).spec_latest_view() == old(self).spec_latest_view(),
            final(self).spec_client_id() == old(self).spec_client_id(),
    {
        let mut nodes = nodes;
        let ghost before = self.additional_nodes.deep_view();
        let ghost added = nodes.deep_view();
        self.additional_nodes.append(&mut nodes);
        assert(self.additional_nodes.deep_view() =~= before + added);
    }

    /// Starts an invocation: refuses a view of fewer than three members, then
    /// takes the next sequence number and returns it with the nodes to send
    /// to (the view's members, then the probes).
    pub fn begin_invocation(&mut self) -> (r: Result<(OperationSequence, Vec<String>), ClientError>)
        ensures
            final(self).spec_latest_view() == old(self).spec_latest_view(),
            final(self).spec_client_id() == old(self).spec_client_id(),
            final(self).spec_additional_nodes() == old(self).spec_additional_nodes(),
            old(self).spec_latest_view().members.len() < 3 ==> {
                &&& r matches Err(ClientError::ClusterTooSmall)
                &&& final(self).spec_sequence() == old(self).spec_sequence()
            },
            old(self).spec_latest_view().members.len() >= 3 && old(self).spec_sequence() == u64::MAX
                ==> {
                &&& r matches Err(ClientError::SequencesExhausted)
                &&& final(self).spec_sequence() == old(self).spec_sequence()
            },
            old(self).spec_latest_view().members.len() >= 3 && old(self).spec_sequence() < u64::MAX
                ==> {
                let before = old(self);
                &&& r matches Ok((s, nodes))
                &&& takes_sequence(*old(self), *final(self), s)
                &&& nodes.deep_view() == before.spec_latest_view().members.deep_view()
                    + before.spec_additional_nodes()
            },
    {
        if self.latest_view.members.len() < MINIMUM_CLUSTER_SIZE {
            return Err(ClientError::ClusterTooSmall);
        }
        if self.sequence == u64::MAX {
            return Err(ClientError::SequencesExhausted);
        }
        let s = self.sequence;
        self.sequence = self.sequence + 1;
        let mut nodes = self.latest_view.members.clone();
        let mut extra = self.additional_nodes.clone();
        let ghost a = nodes.deep_view();
        let ghost b = extra.deep_view();
        nodes.append(&mut extra);
        proof {
            assert(a =~= self.latest_view.members.deep_view());
            assert(b =~= self.additional_nodes.deep_view());
            assert(nodes.deep_view() =~= a + b);
        }
        Ok((s, nodes))
    }

    /// Decides what follows the answers to an inconsistent proposal. A quorum
    /// in the highest view answered is finalized with its message, and that
    /// view is adopted if it is higher than the latest known. Otherwise,
    /// on the first attempt, a higher view than the latest known is adopted
    /// and the proposal is retried; else the operation fails.
    pub fn step_inconsistent(&mut self, votes: &Vec<QuorumVote>, retried: bool) -> (r: InconsistentStep)
        ensures
            final(self).spec_sequence() == old(self).spec_sequence(),
            final(self).spec_client_id() == old(self).spec_client_id(),
            votes.len() > 0 && quorum_reached(votes@, highest_view(votes@)) ==> {
                &&& r matches InconsistentStep::Finalize { members, message }
                    && leads(votes@, highest_view(votes@), message@)
                    && members.deep_view() == highest_view(votes@).members.deep_view()
                &&& adopts_if_higher(*old(self), *final(self), highest_view(votes@))
            },
            !(votes.len() > 0 && quorum_reached(votes@, highest_view(votes@))) ==> retry_or_fail(
                old(self),
                final(self),
                votes@,
                retried,
                r is Retry,
                r matches InconsistentStep::Fail(ClientError::NoQuorum),
            ),
    {
        match find_quorum(votes) {
            Ok(q) => {
                self.adopt_view(&q.view);
                InconsistentStep::Finalize { members: q.view.members, message: q.message }
            },
            Err(Some(nq)) => {
                if !retried && self.adopt_view(&nq.view) {
                    InconsistentStep::Retry
                } else {
                    InconsistentStep::Fail(ClientError::NoQuorum)
                }
            },
            Err(None) => InconsistentStep::Fail(ClientError::NoQuorum),
        }
    }

    /// Decides what follows the answers to a consistent proposal. A fast
    /// quorum is finalized without waiting. A normal quorum, or no quorum but
    /// answers from a normal quorum of the highest view, goes to the decide
    /// function with the messages proposed in that view; either way that view
    /// is adopted if it is higher than the latest known. Otherwise, on the
    /// first attempt, a higher view is adopted and the proposal retried; else
    /// the operation fails.
    pub fn step_consistent(&mut self, votes: &Vec<QuorumVote>, retried: bool) -> (r: ConsistentStep)
        ensures
            final(self).spec_sequence() == old(self).spec_sequence(),
            final(self).spec_client_id() == old(self).spec_client_id(),
            votes.len() > 0 && may_decide(votes@) ==> {
                let h = highest_view(votes@);
                &&& adopts_if_higher(*old(self), *final(self), highest_view(votes@))
                &&& match r {
                    ConsistentStep::FinalizeAsync { members, message } => {
                        &&& quorum_reached(votes@, h)
                        &&& leads(votes@, h, message@)
                        &&& voter_count(votes@, h, message@) >= fast_size(h.members.len() as int)
                        &&& members.deep_view() == h.members.deep_view()
                    },
                    ConsistentStep::Decide { members, choices } => {
                        &&& forall|m: Seq<char>| #[trigger] leads(votes@, h, m) ==> voter_count(votes@, h, m) < fast_size(h.members.len() as int)
                        &&& members.deep_view() == h.members.deep_view()
                        &&& strictly_sorted(choices.deep_view())
                        &&& forall|m: Seq<char>| #[trigger] choices.deep_view().contains(m) <==> proposed(votes@, h, m)
                    },
                    _ => false,
                }
            },
            !(votes.len() > 0 && may_decide(votes@)) ==> retry_or_fail(
                old(self),
                final(self),
                votes@,
                retried,
                r is Retry,
                r matches ConsistentStep::Fail(ClientError::NoQuorum),
            ),
    {
        if votes.len() == 0 {
            return ConsistentStep::Fail(ClientError::NoQuorum);
        }
        let hi = highest_vote(votes);
        proof {
            lemma_first_highest(votes@);
        }
        let ghost h = highest_view(votes@);
        match find_quorum(votes) {
            Ok(q) => {
                proof {
                    assert forall|m: Seq<char>| #[trigger] leads(votes@, h, m) implies m == q.message@ by {
                        lemma_leader_unique(votes@, h, m, q.message@);
                    }
                }
                self.adopt_view(&q.view);
                match q.quorum_type {
                    QuorumType::FastQuorum => ConsistentStep::FinalizeAsync {
                        members: q.view.members,
                        message: q.message,
                    },
                    QuorumType::NormalQuorum => {
                        let choices = messages_in_view(votes, &votes[hi].view);
                        ConsistentStep::Decide { members: q.view.members, choices }
                    },
                }
            },
            Err(Some(nq)) => {
                let responders = responders_in(votes, &votes[hi].view);
                let n = votes[hi].view.members.len();
                let enough = match slow_quorum(n) {
                    Ok(slow) => responders.len() >= slow,
                    Err(()) => false,
                };
                proof {
                    lemma_sorted_len(responders.deep_view(), responder_set(votes@, h));
                }
                if enough {
                    proof {
                        lemma_quorum_sizes_ordered(n as int);
                        assert forall|m: Seq<char>| #[trigger] leads(votes@, h, m) implies voter_count(
                            votes@,
                            h,
                            m,
                        ) < fast_size(h.members.len() as int) by {
                            if voter_count(votes@, h, m) >= normal_size(n as int) {
                                assert(quorum_reached(votes@, h));
                            }
                        }
                        assert(may_decide(votes@));
                    }
                    self.adopt_view(&nq.view);
                    let choices = messages_in_view(votes, &votes[hi].view);
                    ConsistentStep::Decide { members: nq.view.members, choices }
                } else if !retried && self.adopt_view(&nq.view) {
                    ConsistentStep::Retry
                } else {
                    ConsistentStep::Fail(ClientError::NoQuorum)
                }
            },
            Err(None) => ConsistentStep::Fail(ClientError::NoQuorum),
        }
    }

    /// Adopts `view` if it is higher than the latest one known, forgetting
    /// the probes.
    fn adopt_view(&mut self, view: &View) -> (r: bool)
        ensures
            r == (view.view > old(self).spec_latest_view().view),
            r ==> final(self).spec_latest_view().same_as(view)
                && final(self).spec_additional_nodes() == Seq::<Seq<char>>::empty(),
            !r ==> final(self).spec_latest_view() == old(self).spec_latest_view()
                && final(self).spec_additional_nodes() == old(self).spec_additional_nodes(),
            final(self).spec_sequence() == old(self).spec_sequence(),
            final(self).spec_client_id() == old(self).spec_client_id(),
    {
        if view.view > self.latest_view.view {
            self.latest_view = view.clone();
            self.additional_nodes = Vec::new();
            true
        } else {
            false
        }
    }
}

} // verus!
