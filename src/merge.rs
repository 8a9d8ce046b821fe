use vstd::prelude::*;
use vstd::view::View as _;
use crate::order::{lemma_lt_asymmetric, seq_lt, sorted_insert, strictly_sorted};
use crate::quorum::{
    f, failures, find_quorum, highest_view, leads, lemma_first_highest, normal_size, proposed, quorum_reached,
    voted, voter_count, voter_set, QuorumVote,
};
use crate::record::{RecordStore, Slot, SlotKey};
use crate::types::{OperationSequence, View};

verus! {

/// The records that peers shipped for a view change: each peer's id with its
/// record.
pub type PeerRecords = Seq<(Seq<char>, Map<SlotKey, Slot>)>;

/// Some peer has an entry for `k`.
pub open spec fn in_any(ps: PeerRecords, k: SlotKey) -> bool {
    exists|p: (Seq<char>, Map<SlotKey, Slot>)| ps.contains(p) && p.1.dom().contains(k)
}

pub open spec fn fin_entry(p: (Seq<char>, Map<SlotKey, Slot>), k: SlotKey, c: bool, m: Seq<char>) -> bool {
    &&& p.1.dom().contains(k)
    &&& p.1[k].finalized
    &&& p.1[k].consistent == c
    &&& p.1[k].message == m
}

pub open spec fn prop_entry(p: (Seq<char>, Map<SlotKey, Slot>), k: SlotKey, m: Seq<char>, n: Seq<char>) -> bool {
    &&& p.0 == n
    &&& p.1.dom().contains(k)
    &&& !p.1[k].finalized
    &&& p.1[k].message == m
}

pub open spec fn iprop_entry(p: (Seq<char>, Map<SlotKey, Slot>), k: SlotKey) -> bool {
    &&& p.1.dom().contains(k)
    &&& !p.1[k].finalized
    &&& !p.1[k].consistent
}

/// Some peer has `k` finalized, in class `c`, with message `m`.
pub open spec fn finalized_with(ps: PeerRecords, k: SlotKey, c: bool, m: Seq<char>) -> bool {
    exists|p: (Seq<char>, Map<SlotKey, Slot>)| ps.contains(p) && fin_entry(p, k, c, m)
}

/// Peer `n` has `k` proposed, in either class, with message `m`.
pub open spec fn proposal(ps: PeerRecords, k: SlotKey, m: Seq<char>, n: Seq<char>) -> bool {
    exists|p: (Seq<char>, Map<SlotKey, Slot>)| ps.contains(p) && prop_entry(p, k, m, n)
}

/// Some peer has `k` proposed as an inconsistent operation.
pub open spec fn inconsistent_proposal(ps: PeerRecords, k: SlotKey) -> bool {
    exists|p: (Seq<char>, Map<SlotKey, Slot>)| ps.contains(p) && iprop_entry(p, k)
}

pub open spec fn proposed_in(ps: PeerRecords, k: SlotKey, m: Seq<char>) -> bool {
    exists|n: Seq<char>| proposal(ps, k, m, n)
}

/// How many distinct peers proposed `m` for `k`.
pub open spec fn support(ps: PeerRecords, k: SlotKey, m: Seq<char>) -> nat {
    Set::new(|n: Seq<char>| proposal(ps, k, m, n)).len()
}

/// `m` is the message for `k` that a quorum of the view's members settles:
/// it has more supporters than any other proposal, and at least a normal
/// quorum of them.
pub open spec fn merge_quorum(ps: PeerRecords, k: SlotKey, v: View, m: Seq<char>) -> bool {
    &&& v.members.len() >= 3
    &&& proposed_in(ps, k, m)
    &&& forall|m2: Seq<char>|
        #![trigger proposed_in(ps, k, m2)]
        proposed_in(ps, k, m2) && m2 != m ==> support(ps, k, m2) < support(ps, k, m)
    &&& support(ps, k, m) >= normal_size(v.members.len() as int)
}

pub open spec fn least_finalized(ps: PeerRecords, k: SlotKey, c: bool, m: Seq<char>) -> bool {
    &&& finalized_with(ps, k, c, m)
    &&& forall|m2: Seq<char>| #[trigger] finalized_with(ps, k, c, m2) ==> m2 == m || seq_lt(m, m2)
}

pub open spec fn least_proposed(ps: PeerRecords, k: SlotKey, m: Seq<char>) -> bool {
    &&& proposed_in(ps, k, m)
    &&& forall|m2: Seq<char>| #[trigger] proposed_in(ps, k, m2) ==> m2 == m || seq_lt(m, m2)
}

/// A finalized entry of view `v` with the given class and message.
pub open spec fn finalized_slot(v: View, c: bool, m: Seq<char>) -> Slot {
    Slot { view: v.view, consistent: c, finalized: true, message: m }
}

/// The merged outcome for `k` (`None`: left for the decide function).
/// An inconsistent finalized entry wins, then a consistent one (the least
/// message where peers differ). Without either, the proposals are tallied: if
/// all are consistent, a quorum gives a consistent finalized entry and no
/// quorum leaves the slot undecided; if any is inconsistent, the entry is an
/// inconsistent finalized one with the quorum's message, or else the least
/// message proposed.
pub open spec fn merge_result(ps: PeerRecords, k: SlotKey, v: View, s: Option<Slot>) -> bool {
    if exists|m: Seq<char>| finalized_with(ps, k, false, m) {
        s matches Some(x) && x == finalized_slot(v, false, x.message) && least_finalized(
            ps,
            k,
            false,
            x.message,
        )
    } else if exists|m: Seq<char>| finalized_with(ps, k, true, m) {
        s matches Some(x) && x == finalized_slot(v, true, x.message) && least_finalized(
            ps,
            k,
            true,
            x.message,
        )
    } else if !inconsistent_proposal(ps, k) {
        if exists|m: Seq<char>| merge_quorum(ps, k, v, m) {
            s matches Some(x) && x == finalized_slot(v, true, x.message) && merge_quorum(
                ps,
                k,
                v,
                x.message,
            )
        } else {
            s is None
        }
    } else {
        s matches Some(x) && x == finalized_slot(v, false, x.message) && if exists|m: Seq<char>|
            merge_quorum(ps, k, v, m) {
            merge_quorum(ps, k, v, x.message)
        } else {
            least_proposed(ps, k, x.message)
        }
    }
}

proof fn lemma_push_exists(
    s: PeerRecords,
    p: (Seq<char>, Map<SlotKey, Slot>),
    f: spec_fn((Seq<char>, Map<SlotKey, Slot>)) -> bool,
)
    ensures
        (exists|q: (Seq<char>, Map<SlotKey, Slot>)| s.push(p).contains(q) && f(q)) <==> ((exists|
            q: (Seq<char>, Map<SlotKey, Slot>),
        | s.contains(q) && f(q)) || f(p)),
{
    if exists|q: (Seq<char>, Map<SlotKey, Slot>)| s.push(p).contains(q) && f(q) {
        let q = choose|q: (Seq<char>, Map<SlotKey, Slot>)| s.push(p).contains(q) && f(q);
        let i = choose|i: int| 0 <= i < s.push(p).len() && s.push(p)[i] == q;
        if i < s.len() {
            assert(s[i] == q);
            assert(s.contains(q));
        }
    }
    if exists|q: (Seq<char>, Map<SlotKey, Slot>)| s.contains(q) && f(q) {
        let q = choose|q: (Seq<char>, Map<SlotKey, Slot>)| s.contains(q) && f(q);
        let i = choose|i: int| 0 <= i < s.len() && s[i] == q;
        assert(s.push(p)[i] == q);
        assert(s.push(p).contains(q));
    }
    if f(p) {
        assert(s.push(p)[s.len() as int] == p);
        assert(s.push(p).contains(p));
    }
}

/// The first element of a non-empty strictly sorted sequence is below all
/// the others.
proof fn lemma_sorted_first_least(s: Seq<Seq<char>>)
    requires
        strictly_sorted(s),
        s.len() > 0,
    ensures
        forall|x: Seq<char>| #[trigger] s.contains(x) ==> x == s[0] || seq_lt(s[0], x),
{
    assert forall|x: Seq<char>| #[trigger] s.contains(x) implies x == s[0] || seq_lt(s[0], x) by {
        let i = choose|i: int| 0 <= i < s.len() && s[i] == x;
        if i > 0 {
            assert(seq_lt(s[0], s[i]));
        }
    }
}

pub open spec fn peer_model(peers: Seq<(String, RecordStore)>) -> PeerRecords {
    peers.map_values(|p: (String, RecordStore)| (p.0@, p.1@))
}

pub open spec fn outcome_slot(v: View, r: Option<(bool, String)>) -> Option<Slot> {
    match r {
        Some((c, m)) => Some(finalized_slot(v, c, m@)),
        None => None,
    }
}

/// Votes that all carry view `v` and record exactly the peers' proposals
/// for `k` settle a quorum exactly when the peers' proposals do.
proof fn lemma_votes_match(votes: Seq<QuorumVote>, ps: PeerRecords, k: SlotKey, v: View)
    requires
        votes.len() > 0,
        forall|j: int| 0 <= j < votes.len() ==> #[trigger] votes[j].view.same_as(&v),
        forall|m: Seq<char>, n: Seq<char>| #[trigger] voted(votes, v, m, n) <==> proposal(ps, k, m, n),
    ensures
        highest_view(votes).same_as(&v),
        forall|m: Seq<char>|
            (#[trigger] leads(votes, highest_view(votes), m) && voter_count(
                votes,
                highest_view(votes),
                m,
            ) >= normal_size(highest_view(votes).members.len() as int)
                && highest_view(votes).members.len() >= 3) <==> merge_quorum(ps, k, v, m),
        quorum_reached(votes, highest_view(votes)) <==> exists|m: Seq<char>|
            merge_quorum(ps, k, v, m),
{
    lemma_first_highest(votes);
    let h = highest_view(votes);
    assert(h.same_as(&v));
    assert(h.members.deep_view().len() == h.members.len());
    assert(v.members.deep_view().len() == v.members.len());
    assert forall|m: Seq<char>, n: Seq<char>| #[trigger] voted(votes, h, m, n) == voted(votes, v, m, n) by {
        if voted(votes, h, m, n) {
            let j = choose|j: int| 0 <= j < votes.len() && #[trigger] votes[j].view.same_as(&h)
                && votes[j].message@ == m && votes[j].node@ == n;
            assert(votes[j].view.same_as(&v));
        }
        if voted(votes, v, m, n) {
            let j = choose|j: int| 0 <= j < votes.len() && #[trigger] votes[j].view.same_as(&v)
                && votes[j].message@ == m && votes[j].node@ == n;
            assert(votes[j].view.same_as(&h));
        }
    }
    assert forall|m: Seq<char>| #[trigger] voter_count(votes, h, m) == support(ps, k, m) by {
        assert(voter_set(votes, h, m) =~= Set::new(|n: Seq<char>| proposal(ps, k, m, n)));
    }
    assert forall|m: Seq<char>| #[trigger] proposed(votes, h, m) == proposed_in(ps, k, m) by {
        if proposed(votes, h, m) {
            let j = choose|j: int| 0 <= j < votes.len() && #[trigger] votes[j].view.same_as(&h)
                && votes[j].message@ == m;
            assert(voted(votes, h, m, votes[j].node@));
            assert(proposal(ps, k, m, votes[j].node@));
        }
        if proposed_in(ps, k, m) {
            let n = choose|n: Seq<char>| proposal(ps, k, m, n);
            assert(voted(votes, v, m, n));
            assert(voted(votes, h, m, n));
        }
    }
    assert forall|m: Seq<char>|
        (#[trigger] leads(votes, h, m) && voter_count(votes, h, m) >= normal_size(
            h.members.len() as int,
        ) && h.members.len() >= 3) <==> merge_quorum(ps, k, v, m) by {
        if merge_quorum(ps, k, v, m) {
            assert forall|m2: Seq<char>| #![trigger proposed(votes, h, m2)]
                proposed(votes, h, m2) && m2 != m implies voter_count(votes, h, m2) < voter_count(
                votes,
                h,
                m,
            ) by {
                assert(proposed_in(ps, k, m2));
            }
        }
        if leads(votes, h, m) {
            assert forall|m2: Seq<char>| #![trigger proposed_in(ps, k, m2)]
                proposed_in(ps, k, m2) && m2 != m implies support(ps, k, m2) < support(ps, k, m) by {
                assert(proposed(votes, h, m2));
            }
        }
    }
    if quorum_reached(votes, h) {
        let m = choose|m: Seq<char>| #[trigger] leads(votes, h, m) && voter_count(votes, h, m)
            >= normal_size(h.members.len() as int);
        assert(merge_quorum(ps, k, v, m));
    }
    if exists|m: Seq<char>| merge_quorum(ps, k, v, m) {
        let m = choose|m: Seq<char>| merge_quorum(ps, k, v, m);
        assert(leads(votes, h, m));
    }
}

/// Resolves one `(client, sequence)` over the peers' records. Returns the
/// class and message of the merged finalized entry, or `None` when it is
/// left undecided, with the messages proposed for it, sorted.
pub fn resolve_slot(
    peers: &Vec<(String, RecordStore)>,
    client: &String,
    sequence: OperationSequence,
    view: &View,
) -> (r: (Option<(bool, String)>, Vec<String>))
    requires
        forall|i: int| 0 <= i < peers.len() ==> (#[trigger] peers@[i]).1.wf(),
    ensures
        merge_result(peer_model(peers@), (client@, sequence), *view, outcome_slot(*view, r.0)),
        strictly_sorted(r.1.deep_view()),
        forall|m: Seq<char>| #[trigger] r.1.deep_view().contains(m) <==> proposed_in(
            peer_model(peers@),
            (client@, sequence),
            m,
        ),
{
    let ghost k: SlotKey = (client@, sequence);
    let ghost pm = peer_model(peers@);
    let mut ifins: Vec<String> = Vec::new();
    let mut cfins: Vec<String> = Vec::new();
    let mut choices: Vec<String> = Vec::new();
    let mut iprop = false;
    let mut votes: Vec<QuorumVote> = Vec::new();
    let mut i: usize = 0;
    assert(pm.take(0) =~= Seq::<(Seq<char>, Map<SlotKey, Slot>)>::empty());
    while i < peers.len()
        invariant
            i <= peers.len(),
            pm == peer_model(peers@),
            k == (client@, sequence),
            forall|i: int| 0 <= i < peers.len() ==> (#[trigger] peers@[i]).1.wf(),
            strictly_sorted(ifins.deep_view()),
            forall|m: Seq<char>| #[trigger] ifins.deep_view().contains(m) <==> finalized_with(pm.take(i as int), k, false, m),
            strictly_sorted(cfins.deep_view()),
            forall|m: Seq<char>| #[trigger] cfins.deep_view().contains(m) <==> finalized_with(pm.take(i as int), k, true, m),
            strictly_sorted(choices.deep_view()),
            forall|m: Seq<char>| #[trigger] choices.deep_view().contains(m) <==> proposed_in(pm.take(i as int), k, m),
            iprop <==> inconsistent_proposal(pm.take(i as int), k),
            forall|j: int| 0 <= j < votes.len() ==> #[trigger] votes@[j].view.same_as(view),
            forall|m: Seq<char>, n: Seq<char>| #[trigger] voted(votes@, *view, m, n) <==> proposal(pm.take(i as int), k, m, n),
            votes.len() == 0 ==> forall|m: Seq<char>| !proposed_in(pm.take(i as int), k, m),
        decreases peers.len() - i,
    {
        let ghost before = pm.take(i as int);
        let ghost p = pm[i as int];
        let ghost old_votes = votes@;
        proof {
            assert(pm.take(i + 1) =~= before.push(p));
        }
        let found = peers[i].1.find_entry(client, sequence);
        match found {
            None => {},
            Some(e) => {
                if e.operation.finalized() {
                    if e.operation.consistent() {
                        sorted_insert(&mut cfins, e.operation.message());
                    } else {
                        sorted_insert(&mut ifins, e.operation.message());
                    }
                } else {
                    if !e.operation.consistent() {
                        iprop = true;
                    }
                    sorted_insert(&mut choices, e.operation.message());
                    votes.push(
                        QuorumVote {
                            node: peers[i].0.clone(),
                            message: e.operation.message().clone(),
                            view: view.clone(),
                        },
                    );
                }
            },
        }
        proof {
            let after = before.push(p);
            assert forall|m: Seq<char>| #[trigger] ifins.deep_view().contains(m) <==> finalized_with(after, k, false, m) by {
                lemma_push_exists(before, p, |q: (Seq<char>, Map<SlotKey, Slot>)| fin_entry(q, k, false, m));
            }
            assert forall|m: Seq<char>| #[trigger] cfins.deep_view().contains(m) <==> finalized_with(after, k, true, m) by {
                lemma_push_exists(before, p, |q: (Seq<char>, Map<SlotKey, Slot>)| fin_entry(q, k, true, m));
            }
            lemma_push_exists(before, p, |q: (Seq<char>, Map<SlotKey, Slot>)| iprop_entry(q, k));
            assert forall|m: Seq<char>, n: Seq<char>| #[trigger] proposal(after, k, m, n) <==> (proposal(before, k, m, n) || prop_entry(p, k, m, n)) by {
                lemma_push_exists(before, p, |q: (Seq<char>, Map<SlotKey, Slot>)| prop_entry(q, k, m, n));
            }
            assert forall|m: Seq<char>| #[trigger] proposed_in(after, k, m) <==> (proposed_in(before, k, m) || prop_entry(p, k, m, p.0)) by {
                if proposed_in(after, k, m) {
                    let n = choose|n: Seq<char>| proposal(after, k, m, n);
                    if !proposal(before, k, m, n) {
                        assert(prop_entry(p, k, m, n));
                    }
                }
                if prop_entry(p, k, m, p.0) {
                    assert(proposal(after, k, m, p.0));
                }
                if proposed_in(before, k, m) {
                    let n = choose|n: Seq<char>| proposal(before, k, m, n);
                    assert(proposal(after, k, m, n));
                }
            }
            assert forall|m: Seq<char>, n: Seq<char>| #[trigger] voted(votes@, *view, m, n) <==> proposal(after, k, m, n) by {
                if votes@.len() > old_votes.len() {
                    let nv = votes@.last();
                    assert(votes@ == old_votes.push(nv));
                    if voted(votes@, *view, m, n) {
                        let j = choose|j: int| 0 <= j < votes@.len() && #[trigger] votes@[j].view.same_as(view)
                            && votes@[j].message@ == m && votes@[j].node@ == n;
                        if j < old_votes.len() {
                            assert(old_votes[j] == votes@[j]);
                            assert(voted(old_votes, *view, m, n));
                        }
                    }
                    if voted(old_votes, *view, m, n) {
                        let j = choose|j: int| 0 <= j < old_votes.len() && #[trigger] old_votes[j].view.same_as(view)
                            && old_votes[j].message@ == m && old_votes[j].node@ == n;
                        assert(votes@[j] == old_votes[j]);
                        assert(voted(votes@, *view, m, n));
                    }
                    if prop_entry(p, k, m, n) {
                        assert(votes@[old_votes.len() as int].view.same_as(view));
                        assert(voted(votes@, *view, m, n));
                    }
                }
            }
        }
        i += 1;
    }
    proof {
        assert(pm.take(peers.len() as int) =~= pm);
    }
    if ifins.len() > 0 {
        proof {
            lemma_sorted_first_least(ifins.deep_view());
            assert(ifins.deep_view().contains(ifins.deep_view()[0]));
            assert(finalized_with(pm, k, false, ifins.deep_view()[0]));
            assert forall|m2: Seq<char>| #[trigger] finalized_with(pm, k, false, m2) implies m2
                == ifins.deep_view()[0] || seq_lt(ifins.deep_view()[0], m2) by {
                assert(ifins.deep_view().contains(m2));
            }
        }
        return (Some((false, ifins[0].clone())), choices);
    }
    proof {
        assert(!exists|m: Seq<char>| finalized_with(pm, k, false, m)) by {
            if exists|m: Seq<char>| finalized_with(pm, k, false, m) {
                let m = choose|m: Seq<char>| finalized_with(pm, k, false, m);
                assert(ifins.deep_view().contains(m));
            }
        }
    }
    if cfins.len() > 0 {
        proof {
            lemma_sorted_first_least(cfins.deep_view());
            assert(cfins.deep_view().contains(cfins.deep_view()[0]));
            assert(finalized_with(pm, k, true, cfins.deep_view()[0]));
            assert forall|m2: Seq<char>| #[trigger] finalized_with(pm, k, true, m2) implies m2
                == cfins.deep_view()[0] || seq_lt(cfins.deep_view()[0], m2) by {
                assert(cfins.deep_view().contains(m2));
            }
        }
        return (Some((true, cfins[0].clone())), choices);
    }
    proof {
        assert(!exists|m: Seq<char>| finalized_with(pm, k, true, m)) by {
            if exists|m: Seq<char>| finalized_with(pm, k, true, m) {
                let m = choose|m: Seq<char>| finalized_with(pm, k, true, m);
                assert(cfins.deep_view().contains(m));
            }
        }
    }
    if votes.len() == 0 {
        proof {
            if iprop {
                let q = choose|q: (Seq<char>, Map<SlotKey, Slot>)| pm.contains(q) && iprop_entry(q, k);
                assert(proposal(pm, k, q.1[k].message, q.0));
                assert(proposed_in(pm, k, q.1[k].message));
            }
            assert(!iprop);
            assert(!exists|m: Seq<char>| merge_quorum(pm, k, *view, m));
        }
        return (None, choices);
    }
    proof {
        lemma_votes_match(votes@, pm, k, *view);
    }
    match find_quorum(&votes) {
        Ok(q) => {
            proof {
                assert(merge_quorum(pm, k, *view, q.message@));
            }
            (Some((!iprop, q.message)), choices)
        },
        Err(_) => {
            if iprop {
                proof {
                    let q = choose|q: (Seq<char>, Map<SlotKey, Slot>)| pm.contains(q) && iprop_entry(q, k);
                    assert(proposal(pm, k, q.1[k].message, q.0));
                    assert(choices.deep_view().contains(q.1[k].message));
                    lemma_sorted_first_least(choices.deep_view());
                    assert(choices.deep_view().contains(choices.deep_view()[0]));
                    assert(proposed_in(pm, k, choices.deep_view()[0]));
                    assert forall|m2: Seq<char>| #[trigger] proposed_in(pm, k, m2) implies m2
                        == choices.deep_view()[0] || seq_lt(choices.deep_view()[0], m2) by {
                        assert(choices.deep_view().contains(m2));
                    }
                }
                (Some((false, choices[0].clone())), choices)
            } else {
                (None, choices)
            }
        },
    }
}

/// Whether the full records received from `full_records` peers are enough
/// to merge for a view of `members` nodes: at least f + 1 of them.
pub fn enough_records(full_records: usize, members: usize) -> (r: bool)
    ensures
        r == (members >= 3 && full_records >= failures(members as int) + 1),
{
    match f(members) {
        Ok(fails) => full_records > fails,
        Err(()) => false,
    }
}

/// `out` is the merged record of `ps` for view `v`: it holds exactly the
/// slots that some peer has and that merging decides, each with its merged
/// entry.
pub open spec fn merges_to(ps: PeerRecords, v: View, out: Map<SlotKey, Slot>) -> bool {
    &&& forall|k: SlotKey| #[trigger] out.dom().contains(k) ==> in_any(ps, k) && merge_result(ps, k, v, Some(out[k]))
    &&& forall|k: SlotKey| in_any(ps, k) && !#[trigger] out.dom().contains(k) ==> merge_result(ps, k, v, None)
}

/// A slot left undecided by the merge, with the messages proposed for it.
#[derive(Debug)]
pub struct Unresolved {
    pub client: String,
    pub sequence: OperationSequence,
    pub choices: Vec<String>,
}

impl Unresolved {
    pub open spec fn key(&self) -> SlotKey {
        (self.client@, self.sequence)
    }
}

/// `k` is among the undecided slots.
pub open spec fn listed(us: Seq<Unresolved>, k: SlotKey) -> bool {
    exists|u: int| 0 <= u < us.len() && #[trigger] us[u].key() == k
}

pub open spec fn key_views(keys: Seq<(String, OperationSequence)>) -> Seq<SlotKey> {
    keys.map_values(|k: (String, OperationSequence)| (k.0@, k.1))
}

fn contains_key(keys: &Vec<(String, OperationSequence)>, client: &String, sequence: OperationSequence) -> (r: bool)
    ensures
        r == key_views(keys@).contains((client@, sequence)),
{
    let mut i: usize = 0;
    while i < keys.len()
        invariant
            i <= keys.len(),
            forall|j: int| 0 <= j < i ==> key_views(keys@)[j] != (client@, sequence),
        decreases keys.len() - i,
    {
        if keys[i].1 == sequence && keys[i].0 == *client {
            assert(key_views(keys@)[i as int] == (client@, sequence));
            return true;
        }
        i += 1;
    }
    false
}

/// Every `(client, sequence)` that some peer has an entry for, once each.
fn all_keys(peers: &Vec<(String, RecordStore)>) -> (r: Vec<(String, OperationSequence)>)
    requires
        forall|i: int| 0 <= i < peers.len() ==> (#[trigger] peers@[i]).1.wf(),
    ensures
        key_views(r@).no_duplicates(),
        forall|k: SlotKey| #[trigger] key_views(r@).contains(k) <==> in_any(peer_model(peers@), k),
{
    let ghost pm = peer_model(peers@);
    let mut keys: Vec<(String, OperationSequence)> = Vec::new();
    let mut i: usize = 0;
    assert(pm.take(0) =~= Seq::<(Seq<char>, Map<SlotKey, Slot>)>::empty());
    while i < peers.len()
        invariant
            i <= peers.len(),
            pm == peer_model(peers@),
            forall|i: int| 0 <= i < peers.len() ==> (#[trigger] peers@[i]).1.wf(),
            key_views(keys@).no_duplicates(),
            forall|k: SlotKey| #[trigger] key_views(keys@).contains(k) <==> in_any(pm.take(i as int), k),
        decreases peers.len() - i,
    {
        let entries = peers[i].1.entries();
        proof {
            peers@[i as int].1.lemma_entries();
        }
        let ghost before = pm.take(i as int);
        let mut j: usize = 0;
        while j < entries.len()
            invariant
                i < peers.len(),
                j <= entries.len(),
                entries@ == peers@[i as int].1.entry_seq(),
                key_views(keys@).no_duplicates(),
                forall|k: SlotKey| #[trigger] key_views(keys@).contains(k) <==> (in_any(before, k)
                    || exists|j2: int| 0 <= j2 < j && #[trigger] entries@[j2].key() == k),
            decreases entries.len() - j,
        {
            let op = &entries[j].operation;
            let ghost kj = entries@[j as int].key();
            let ghost old_keys = key_views(keys@);
            if !contains_key(&keys, op.client(), *op.sequence()) {
                keys.push((op.client().clone(), *op.sequence()));
                proof {
                    assert(key_views(keys@) =~= old_keys.push(kj));
                    assert forall|a: int, b: int| 0 <= a < b < key_views(keys@).len() implies key_views(keys@)[a] != key_views(keys@)[b] by {
                        if b == old_keys.len() {
                            assert(old_keys.contains(old_keys[a]));
                        }
                    }
                }
            }
            proof {
                assert forall|k: SlotKey| #[trigger] key_views(keys@).contains(k) <==> (in_any(before, k)
                    || exists|j2: int| 0 <= j2 < j + 1 && #[trigger] entries@[j2].key() == k) by {
                    if exists|j2: int| 0 <= j2 < j + 1 && #[trigger] entries@[j2].key() == k {
                        let j2 = choose|j2: int| 0 <= j2 < j + 1 && #[trigger] entries@[j2].key() == k;
                        if j2 < j {
                            assert(exists|j3: int| 0 <= j3 < j && #[trigger] entries@[j3].key() == k);
                        } else {
                            assert(old_keys.contains(kj) || key_views(keys@)[key_views(keys@).len() - 1] == kj);
                        }
                    }
                    if exists|j2: int| 0 <= j2 < j && #[trigger] entries@[j2].key() == k {
                        let j2 = choose|j2: int| 0 <= j2 < j && #[trigger] entries@[j2].key() == k;
                        assert(exists|j3: int| 0 <= j3 < j + 1 && #[trigger] entries@[j3].key() == k);
                    }
                    if key_views(keys@).contains(k) && !old_keys.contains(k) {
                        assert(exists|j3: int| 0 <= j3 < j + 1 && #[trigger] entries@[j3].key() == k);
                    }
                    if old_keys.contains(k) {
                        let a = choose|a: int| 0 <= a < old_keys.len() && old_keys[a] == k;
                        assert(key_views(keys@)[a] == k);
                    }
                }
            }
            j += 1;
        }
        proof {
            let p = pm[i as int];
            assert(pm.take(i + 1) =~= before.push(p));
            assert forall|k: SlotKey| #[trigger] key_views(keys@).contains(k) <==> in_any(pm.take(i + 1), k) by {
                lemma_push_exists(before, p, |q: (Seq<char>, Map<SlotKey, Slot>)| q.1.dom().contains(k));
                if p.1.dom().contains(k) {
                    let j2 = choose|j2: int| 0 <= j2 < entries@.len() && #[trigger] entries@[j2].key() == k;
                }
            }
        }
        i += 1;
    }
    assert(pm.take(peers.len() as int) =~= pm);
    keys
}

/// IR-MERGE-RECORDS: collapses the peers' records into one record for the
/// new view. Every slot that some peer has is either in the merged record,
/// with the entry that `merge_result` gives, or listed once as undecided
/// with the messages proposed for it, for the decide function.
pub fn merge_records(peers: &Vec<(String, RecordStore)>, view: &View) -> (r: (RecordStore, Vec<Unresolved>))
    requires
        forall|i: int| 0 <= i < peers.len() ==> (#[trigger] peers@[i]).1.wf(),
    ensures
        r.0.wf(),
        merges_to(peer_model(peers@), *view, r.0@),
        forall|u: int| #![trigger r.1@[u]] 0 <= u < r.1.len() ==> {
            let k = r.1@[u].key();
            &&& in_any(peer_model(peers@), k)
            &&& !r.0@.dom().contains(k)
            &&& strictly_sorted(r.1@[u].choices.deep_view())
            &&& forall|m: Seq<char>| #[trigger] r.1@[u].choices.deep_view().contains(m) <==> proposed_in(peer_model(peers@), k, m)
        },
        forall|k: SlotKey| in_any(peer_model(peers@), k) && !#[trigger] r.0@.dom().contains(k) ==> listed(r.1@, k),
        forall|a: int, b: int| 0 <= a < b < r.1.len() ==> #[trigger] r.1@[a].key() != #[trigger] r.1@[b].key(),
{
    let ghost pm = peer_model(peers@);
    let keys = all_keys(peers);
    let ghost kv = key_views(keys@);
    let mut merged = RecordStore::new();
    let mut unresolved: Vec<Unresolved> = Vec::new();
    let ghost mut uidx: Seq<int> = Seq::empty();
    let mut t: usize = 0;
    while t < keys.len()
        invariant
            t <= keys.len(),
            pm == peer_model(peers@),
            kv == key_views(keys@),
            kv.no_duplicates(),
            forall|k: SlotKey| #[trigger] kv.contains(k) <==> in_any(pm, k),
            forall|i: int| 0 <= i < peers.len() ==> (#[trigger] peers@[i]).1.wf(),
            merged.wf(),
            forall|k: SlotKey| #[trigger] merged@.dom().contains(k) ==> in_any(pm, k)
                && merge_result(pm, k, *view, Some(merged@[k])),
            uidx.len() == unresolved.len(),
            forall|u: int| 0 <= u < uidx.len() ==> 0 <= #[trigger] uidx[u] < t,
            forall|a: int, b: int| 0 <= a < b < uidx.len() ==> #[trigger] uidx[a] < #[trigger] uidx[b],
            forall|u: int| #![trigger unresolved@[u]] 0 <= u < unresolved.len() ==> {
                let k = unresolved@[u].key();
                &&& k == kv[uidx[u]]
                &&& merge_result(pm, k, *view, None)
                &&& strictly_sorted(unresolved@[u].choices.deep_view())
                &&& forall|m: Seq<char>| #[trigger] unresolved@[u].choices.deep_view().contains(m) <==> proposed_in(pm, k, m)
            },
            forall|j: int| 0 <= j < t ==> #[trigger] merged@.dom().contains(kv[j]) || exists|u: int|
                0 <= u < uidx.len() && uidx[u] == j,
        decreases keys.len() - t,
    {
        let client = &keys[t].0;
        let sequence = keys[t].1;
        let ghost k = kv[t as int];
        assert(k == (client@, sequence));
        assert(kv.contains(k));
        let (outcome, choices) = resolve_slot(peers, client, sequence, view);
        let ghost before = merged@;
        match outcome {
            Some((c, m)) => {
                merged.put(client, sequence, view.view, c, true, &m);
                proof {
                    assert(merged@[k] == finalized_slot(*view, c, m@));
                    assert forall|j: int| 0 <= j < t + 1 implies #[trigger] merged@.dom().contains(kv[j]) || exists|u: int|
                        0 <= u < uidx.len() && uidx[u] == j by {
                        if j < t && before.dom().contains(kv[j]) {
                            assert(merged@.dom().contains(kv[j]));
                        }
                    }
                }
            },
            None => {
                unresolved.push(Unresolved { client: client.clone(), sequence, choices });
                proof {
                    let old_idx = uidx;
                    uidx = uidx.push(t as int);
                    assert forall|j: int| 0 <= j < t + 1 implies #[trigger] merged@.dom().contains(kv[j]) || exists|u: int|
                        0 <= u < uidx.len() && uidx[u] == j by {
                        if j == t {
                            assert(uidx[old_idx.len() as int] == j);
                        } else if !merged@.dom().contains(kv[j]) {
                            let u = choose|u: int| 0 <= u < old_idx.len() && old_idx[u] == j;
                            assert(uidx[u] == j);
                        }
                    }
                }
            },
        }
        t += 1;
    }
    proof {
        assert forall|k2: SlotKey| in_any(pm, k2) && !#[trigger] merged@.dom().contains(k2) implies merge_result(pm, k2, *view, None)
            && exists|u: int| 0 <= u < unresolved.len() && #[trigger] unresolved@[u].key() == k2 by {
            assert(kv.contains(k2));
            let j = choose|j: int| 0 <= j < kv.len() && kv[j] == k2;
            assert(merged@.dom().contains(kv[j]) || exists|u: int| 0 <= u < uidx.len() && uidx[u] == j);
            assert(kv[j] == k2);
            let u = choose|u: int| 0 <= u < uidx.len() && uidx[u] == j;
            let un = unresolved@[u];
            assert(un.key() == kv[uidx[u]]);
            assert(unresolved@[u].key() == k2);
        }
        assert forall|k2: SlotKey| in_any(peer_model(peers@), k2) && !#[trigger] merged@.dom().contains(k2) implies listed(unresolved@, k2) by {
            assert(in_any(pm, k2));
        }
        assert forall|u: int| #![trigger unresolved@[u]] 0 <= u < unresolved.len() implies
            in_any(pm, unresolved@[u].key())
            && !merged@.dom().contains(unresolved@[u].key()) by {
            assert(kv.contains(kv[uidx[u]]));
        }
        assert forall|a: int, b: int| 0 <= a < b < unresolved.len() implies #[trigger] unresolved@[a].key() != #[trigger] unresolved@[b].key() by {
            assert(uidx[a] < uidx[b]);
        }
    }
    (merged, unresolved)
}

/// At most one outcome meets `merge_result` for a slot.
pub proof fn lemma_merge_result_unique(ps: PeerRecords, k: SlotKey, v: View, s1: Option<Slot>, s2: Option<Slot>)
    requires
        merge_result(ps, k, v, s1),
        merge_result(ps, k, v, s2),
    ensures
        s1 == s2,
{
    if s1 is Some && s2 is Some {
        let m1 = s1->Some_0.message;
        let m2 = s2->Some_0.message;
        if m1 != m2 {
            if exists|m: Seq<char>| finalized_with(ps, k, false, m) {
                assert(finalized_with(ps, k, false, m2));
                assert(finalized_with(ps, k, false, m1));
                lemma_lt_asymmetric(m1, m2);
            } else if exists|m: Seq<char>| finalized_with(ps, k, true, m) {
                assert(finalized_with(ps, k, true, m2));
                assert(finalized_with(ps, k, true, m1));
                lemma_lt_asymmetric(m1, m2);
            } else if exists|m: Seq<char>| merge_quorum(ps, k, v, m) {
                assert(proposed_in(ps, k, m2));
                assert(proposed_in(ps, k, m1));
            } else {
                assert(proposed_in(ps, k, m2));
                assert(proposed_in(ps, k, m1));
                lemma_lt_asymmetric(m1, m2);
            }
        }
    }
}

/// Peer records with the same contents, in whatever order, give every slot
/// the same outcome.
proof fn lemma_same_contents(ps1: PeerRecords, ps2: PeerRecords, k: SlotKey, v: View)
    requires
        forall|p: (Seq<char>, Map<SlotKey, Slot>)| ps1.contains(p) <==> ps2.contains(p),
    ensures
        in_any(ps1, k) == in_any(ps2, k),
        forall|s: Option<Slot>| #[trigger] merge_result(ps1, k, v, s) == merge_result(ps2, k, v, s),
{
    assert(in_any(ps1, k) == in_any(ps2, k));
    assert(inconsistent_proposal(ps1, k) == inconsistent_proposal(ps2, k));
    assert forall|c: bool, m: Seq<char>| #[trigger] finalized_with(ps1, k, c, m) == finalized_with(ps2, k, c, m) by {}
    assert forall|m: Seq<char>, n: Seq<char>| #[trigger] proposal(ps1, k, m, n) == proposal(ps2, k, m, n) by {}
    assert forall|m: Seq<char>| #[trigger] proposed_in(ps1, k, m) == proposed_in(ps2, k, m) by {
        if proposed_in(ps1, k, m) {
            let n = choose|n: Seq<char>| proposal(ps1, k, m, n);
            assert(proposal(ps2, k, m, n));
        }
        if proposed_in(ps2, k, m) {
            let n = choose|n: Seq<char>| proposal(ps2, k, m, n);
            assert(proposal(ps1, k, m, n));
        }
    }
    assert forall|m: Seq<char>| #[trigger] support(ps1, k, m) == support(ps2, k, m) by {
        assert(Set::new(|n: Seq<char>| proposal(ps1, k, m, n)) =~= Set::new(|n: Seq<char>| proposal(ps2, k, m, n)));
    }
    assert forall|m: Seq<char>| #[trigger] merge_quorum(ps1, k, v, m) == merge_quorum(ps2, k, v, m) by {
        if merge_quorum(ps1, k, v, m) {
            assert forall|m2: Seq<char>| #![trigger proposed_in(ps2, k, m2)]
                proposed_in(ps2, k, m2) && m2 != m implies support(ps2, k, m2) < support(ps2, k, m) by {
                assert(proposed_in(ps1, k, m2));
            }
        }
        if merge_quorum(ps2, k, v, m) {
            assert forall|m2: Seq<char>| #![trigger proposed_in(ps1, k, m2)]
                proposed_in(ps1, k, m2) && m2 != m implies support(ps1, k, m2) < support(ps1, k, m) by {
                assert(proposed_in(ps2, k, m2));
            }
        }
    }
    assert forall|c: bool, m: Seq<char>| #[trigger] least_finalized(ps1, k, c, m) == least_finalized(ps2, k, c, m) by {
        if least_finalized(ps1, k, c, m) {
            assert forall|m2: Seq<char>| #[trigger] finalized_with(ps2, k, c, m2) implies m2 == m || seq_lt(m, m2) by {
                assert(finalized_with(ps1, k, c, m2));
            }
        }
        if least_finalized(ps2, k, c, m) {
            assert forall|m2: Seq<char>| #[trigger] finalized_with(ps1, k, c, m2) implies m2 == m || seq_lt(m, m2) by {
                assert(finalized_with(ps2, k, c, m2));
            }
        }
    }
    assert forall|m: Seq<char>| #[trigger] least_proposed(ps1, k, m) == least_proposed(ps2, k, m) by {
        if least_proposed(ps1, k, m) {
            assert forall|m2: Seq<char>| #[trigger] proposed_in(ps2, k, m2) implies m2 == m || seq_lt(m, m2) by {
                assert(proposed_in(ps1, k, m2));
            }
        }
        if least_proposed(ps2, k, m) {
            assert forall|m2: Seq<char>| #[trigger] proposed_in(ps1, k, m2) implies m2 == m || seq_lt(m, m2) by {
                assert(proposed_in(ps2, k, m2));
            }
        }
    }
    if exists|m: Seq<char>| finalized_with(ps1, k, false, m) {
        let m = choose|m: Seq<char>| finalized_with(ps1, k, false, m);
        assert(finalized_with(ps2, k, false, m));
    }
    if exists|m: Seq<char>| finalized_with(ps2, k, false, m) {
        let m = choose|m: Seq<char>| finalized_with(ps2, k, false, m);
        assert(finalized_with(ps1, k, false, m));
    }
    if exists|m: Seq<char>| finalized_with(ps1, k, true, m) {
        let m = choose|m: Seq<char>| finalized_with(ps1, k, true, m);
        assert(finalized_with(ps2, k, true, m));
    }
    if exists|m: Seq<char>| finalized_with(ps2, k, true, m) {
        let m = choose|m: Seq<char>| finalized_with(ps2, k, true, m);
        assert(finalized_with(ps1, k, true, m));
    }
    if exists|m: Seq<char>| merge_quorum(ps1, k, v, m) {
        let m = choose|m: Seq<char>| merge_quorum(ps1, k, v, m);
        assert(merge_quorum(ps2, k, v, m));
    }
    if exists|m: Seq<char>| merge_quorum(ps2, k, v, m) {
        let m = choose|m: Seq<char>| merge_quorum(ps2, k, v, m);
        assert(merge_quorum(ps1, k, v, m));
    }
}

/// Merging is deterministic: two replicas that merge peer records with the
/// same contents, received in any order, for the same view, end with the
/// same merged record.
pub proof fn lemma_merge_deterministic(
    ps1: PeerRecords,
    ps2: PeerRecords,
    v: View,
    out1: Map<SlotKey, Slot>,
    out2: Map<SlotKey, Slot>,
)
    requires
        forall|p: (Seq<char>, Map<SlotKey, Slot>)| ps1.contains(p) <==> ps2.contains(p),
        merges_to(ps1, v, out1),
        merges_to(ps2, v, out2),
    ensures
        out1 == out2,
{
    assert forall|k: SlotKey| out1.dom().contains(k) == out2.dom().contains(k) by {
        lemma_same_contents(ps1, ps2, k, v);
        if out1.dom().contains(k) && !out2.dom().contains(k) {
            lemma_merge_result_unique(ps1, k, v, Some(out1[k]), None);
        }
        if out2.dom().contains(k) && !out1.dom().contains(k) {
            lemma_merge_result_unique(ps2, k, v, Some(out2[k]), None);
        }
    }
    assert forall|k: SlotKey| out1.dom().contains(k) implies out1[k] == out2[k] by {
        lemma_same_contents(ps1, ps2, k, v);
        lemma_merge_result_unique(ps1, k, v, Some(out1[k]), Some(out2[k]));
    }
    assert(out1 =~= out2);
}

} // verus!
