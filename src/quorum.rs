use vstd::prelude::*;
use crate::order::{
    contains_str, lemma_exists_prefix_step, lemma_lt_irreflexive, lemma_sorted_no_duplicates, sorted_insert, strictly_sorted,
};
use crate::types::View;
use vstd::view::View as _;

verus! {

/// `⌈(n − 1) / 2⌉`: how many of `n` nodes may fail.
pub open spec fn failures(n: int) -> int {
    (n - 1 + 1) / 2
}

/// `⌊(3f + 1) / 2 + 1⌋`: agreeing answers that settle an operation in one round trip.
pub open spec fn fast_size(n: int) -> int {
    (3 * failures(n) + 1) / 2 + 1
}

/// `f + 1`: agreeing answers that settle an operation with a second round.
pub open spec fn normal_size(n: int) -> int {
    failures(n) + 1
}

/// Derive f (number of tolerable failures) from the number of nodes in the cluster.
/// A cluster of fewer than three nodes tolerates none and is refused.
pub fn f(nodes: usize) -> (r: Result<usize, ()>)
    ensures
        r == if nodes < 3 {
            Err::<usize, ()>(())
        } else {
            Ok(failures(nodes as int) as usize)
        },
{
    if nodes < 3 {
        Err(())
    } else {
        Ok(nodes / 2)
    }
}

/// Derive the fast quorum size from the number of nodes in the cluster.
pub fn fast_quorum(nodes: usize) -> (r: Result<usize, ()>)
    ensures
        r == if nodes < 3 {
            Err::<usize, ()>(())
        } else {
            Ok(fast_size(nodes as int) as usize)
        },
{
    match f(nodes) {
        Err(e) => Err(e),
        Ok(fails) => {
            assert((3 * fails + 1) / 2 == fails + (fails + 1) / 2);
            Ok(fails + (fails + 1) / 2 + 1)
        },
    }
}

/// Derive the normal quorum size from the number of nodes in the cluster.
pub fn slow_quorum(nodes: usize) -> (r: Result<usize, ()>)
    ensures
        r == if nodes < 3 {
            Err::<usize, ()>(())
        } else {
            Ok(normal_size(nodes as int) as usize)
        },
{
    match f(nodes) {
        Err(e) => Err(e),
        Ok(fails) => Ok(fails + 1),
    }
}

/// A normal quorum and the nodes that may fail together make at most one more
/// than the cluster: any two normal quorums of survivors share a node.
pub proof fn lemma_normal_quorum_majority(n: int)
    requires
        n >= 3,
    ensures
        normal_size(n) + failures(n) <= n + 1,
{
}

/// The quorum sizes are ordered and fit in the cluster: `f < normal ≤ fast ≤ n`.
pub proof fn lemma_quorum_sizes_ordered(n: int)
    requires
        n >= 3,
    ensures
        failures(n) < normal_size(n),
        normal_size(n) <= fast_size(n),
        fast_size(n) <= n,
{
}

/// One replica's answer, as the client tallies it.
#[derive(Debug)]
pub struct QuorumVote {
    pub node: String,
    pub message: String,
    pub view: View,
}

impl Clone for QuorumVote {
    fn clone(&self) -> (r: Self)
        ensures
            r.node@ == self.node@,
            r.message@ == self.message@,
            r.view.same_as(&self.view),
    {
        QuorumVote { node: self.node.clone(), message: self.message.clone(), view: self.view.clone() }
    }
}

/// Whether a quorum settles in one round trip or needs a second one.
#[derive(Clone, Copy, Debug, PartialEq, Eq, Structural)]
pub enum QuorumType {
    FastQuorum,
    NormalQuorum,
}

/// A quorum was achieved and the details are included in this struct.
#[derive(Debug, PartialEq, Eq)]
pub struct Quorum {
    pub count: usize,
    pub message: String,
    pub nodes_with: Vec<String>,
    pub nodes_without: Vec<String>,
    pub view: View,
    pub quorum_type: QuorumType,
}

/// No quorum in the highest view: the votes of that view, by message, for a
/// decide function to resolve.
#[derive(Debug, PartialEq, Eq)]
pub struct NoQuorum {
    pub view: View,
    pub votes: Vec<(String, Vec<String>)>,
}

/// Position of the first vote that carries the highest view number.
pub open spec fn first_highest(votes: Seq<QuorumVote>) -> int
    decreases votes.len(),
{
    if votes.len() <= 1 {
        0
    } else {
        let k = first_highest(votes.drop_last());
        if votes.last().view.view > votes[k].view.view {
            votes.len() - 1
        } else {
            k
        }
    }
}

/// The view that the votes are judged in.
pub open spec fn highest_view(votes: Seq<QuorumVote>) -> View {
    votes[first_highest(votes)].view
}

/// Among the first `upto` votes, `n` voted for `m` in view `h`.
pub open spec fn voted_upto(votes: Seq<QuorumVote>, upto: int, h: View, m: Seq<char>, n: Seq<char>) -> bool {
    exists|k: int|
        0 <= k < upto && #[trigger] votes[k].view.same_as(&h) && votes[k].message@ == m
            && votes[k].node@ == n
}

/// Among the first `upto` votes, someone voted for `m` in view `h`.
pub open spec fn proposed_upto(votes: Seq<QuorumVote>, upto: int, h: View, m: Seq<char>) -> bool {
    exists|k: int| 0 <= k < upto && #[trigger] votes[k].view.same_as(&h) && votes[k].message@ == m
}

pub open spec fn voted(votes: Seq<QuorumVote>, h: View, m: Seq<char>, n: Seq<char>) -> bool {
    voted_upto(votes, votes.len() as int, h, m, n)
}

pub open spec fn proposed(votes: Seq<QuorumVote>, h: View, m: Seq<char>) -> bool {
    proposed_upto(votes, votes.len() as int, h, m)
}

/// `n` answered at all, in any view.
pub open spec fn participant(votes: Seq<QuorumVote>, n: Seq<char>) -> bool {
    exists|k: int| 0 <= k < votes.len() && #[trigger] votes[k].node@ == n
}

/// The distinct nodes that voted for `m` in view `h`.
pub open spec fn voter_set(votes: Seq<QuorumVote>, h: View, m: Seq<char>) -> Set<Seq<char>> {
    Set::new(|n: Seq<char>| voted(votes, h, m, n))
}

pub open spec fn voter_count(votes: Seq<QuorumVote>, h: View, m: Seq<char>) -> nat {
    voter_set(votes, h, m).len()
}

/// `m` has strictly more voters in `h` than any other message.
pub open spec fn leads(votes: Seq<QuorumVote>, h: View, m: Seq<char>) -> bool {
    &&& proposed(votes, h, m)
    &&& forall|m2: Seq<char>|
        #![trigger proposed(votes, h, m2)]
        proposed(votes, h, m2) && m2 != m ==> voter_count(votes, h, m2) < voter_count(votes, h, m)
}

/// The view has at least three members and one message leads it with a normal quorum.
pub open spec fn quorum_reached(votes: Seq<QuorumVote>, h: View) -> bool {
    &&& h.members.len() >= 3
    &&& exists|m: Seq<char>|
        #[trigger] leads(votes, h, m) && voter_count(votes, h, m) >= normal_size(
            h.members.len() as int,
        )
}

pub open spec fn tally_keys(t: Seq<(String, Vec<String>)>) -> Seq<Seq<char>> {
    t.map_values(|e: (String, Vec<String>)| e.0@)
}

/// `t` lists, sorted by message, each message voted for in `h` with its
/// sorted voters.
pub open spec fn is_tally(t: Seq<(String, Vec<String>)>, votes: Seq<QuorumVote>, h: View) -> bool {
    &&& strictly_sorted(tally_keys(t))
    &&& forall|m: Seq<char>| #[trigger] tally_keys(t).contains(m) <==> proposed(votes, h, m)
    &&& forall|i: int| 0 <= i < t.len() ==> strictly_sorted(#[trigger] t[i].1.deep_view())
    &&& forall|i: int, n: Seq<char>|
        0 <= i < t.len() ==> (#[trigger] t[i].1.deep_view().contains(n) <==> voted(
            votes,
            h,
            t[i].0@,
            n,
        ))
}

/// What a quorum found on `votes` says, field by field.
pub open spec fn describes_quorum(q: Quorum, votes: Seq<QuorumVote>) -> bool {
    let h = highest_view(votes);
    let m = q.message@;
    &&& q.view.same_as(&h)
    &&& leads(votes, h, m)
    &&& q.count == voter_count(votes, h, m)
    &&& q.count >= normal_size(h.members.len() as int)
    &&& q.quorum_type == if q.count >= fast_size(h.members.len() as int) {
        QuorumType::FastQuorum
    } else {
        QuorumType::NormalQuorum
    }
    &&& strictly_sorted(q.nodes_with.deep_view())
    &&& forall|n: Seq<char>| #[trigger]
        q.nodes_with.deep_view().contains(n) <==> voted(votes, h, m, n)
    &&& strictly_sorted(q.nodes_without.deep_view())
    &&& forall|n: Seq<char>| #[trigger]
        q.nodes_without.deep_view().contains(n) <==> ((participant(votes, n)
            || h.members.deep_view().contains(n)) && !voted(votes, h, m, n))
}

pub proof fn lemma_first_highest(votes: Seq<QuorumVote>)
    requires
        votes.len() > 0,
    ensures
        0 <= first_highest(votes) < votes.len(),
        forall|k: int|
            0 <= k < votes.len() ==> #[trigger] votes[k].view.view <= votes[first_highest(
                votes,
            )].view.view,
    decreases votes.len(),
{
    if votes.len() > 1 {
        lemma_first_highest(votes.drop_last());
        assert forall|k: int| 0 <= k < votes.len() implies #[trigger] votes[k].view.view
            <= votes[first_highest(votes)].view.view by {
            if k < votes.len() - 1 {
                assert(votes.drop_last()[k] == votes[k]);
            }
        }
    }
}

/// At most one message leads a view.
pub proof fn lemma_leader_unique(votes: Seq<QuorumVote>, h: View, m1: Seq<char>, m2: Seq<char>)
    requires
        leads(votes, h, m1),
        leads(votes, h, m2),
    ensures
        m1 == m2,
{
    if m1 != m2 {
        assert(proposed(votes, h, m2));
        assert(proposed(votes, h, m1));
    }
}

/// A quorum is judged in the highest view among the votes (one of the votes
/// carries it and none carries a higher number), and at least a normal quorum
/// of that view's members voted for its message.
pub proof fn lemma_quorum_in_highest_view(votes: Seq<QuorumVote>, q: Quorum)
    requires
        votes.len() > 0,
        describes_quorum(q, votes),
    ensures
        exists|k: int| 0 <= k < votes.len() && #[trigger] votes[k].view.same_as(&q.view),
        forall|k: int| 0 <= k < votes.len() ==> #[trigger] votes[k].view.view <= q.view.view,
        q.nodes_with.len() == q.count,
        q.nodes_with.len() >= normal_size(q.view.members.len() as int),
{
    lemma_first_highest(votes);
    let i = first_highest(votes);
    assert(votes[i].view.same_as(&q.view));
    assert(q.view.members.deep_view().len() == q.view.members.len());
    assert(highest_view(votes).members.deep_view().len() == highest_view(votes).members.len());
    lemma_sorted_len(q.nodes_with.deep_view(), voter_set(votes, highest_view(votes), q.message@));
}

/// A strictly sorted sequence has as many elements as the set of its values.
pub proof fn lemma_sorted_len(s: Seq<Seq<char>>, set: Set<Seq<char>>)
    requires
        strictly_sorted(s),
        forall|x: Seq<char>| s.contains(x) <==> set.contains(x),
    ensures
        s.len() == set.len(),
        set.finite(),
{
    lemma_sorted_no_duplicates(s);
    s.unique_seq_to_set();
    assert(s.to_set() =~= set);
}

/// Position of the first vote that carries the highest view number.
pub fn highest_vote(votes: &Vec<QuorumVote>) -> (r: usize)
    requires
        votes.len() > 0,
    ensures
        r == first_highest(votes@),
{
    let mut hi: usize = 0;
    let mut i: usize = 1;
    assert(votes@.take(1).len() == 1);
    while i < votes.len()
        invariant
            1 <= i <= votes.len(),
            hi == first_highest(votes@.take(i as int)),
            hi < i,
        decreases votes.len() - i,
    {
        proof {
            assert(votes@.take(i + 1).drop_last() =~= votes@.take(i as int));
        }
        if votes[i].view.view > votes[hi].view.view {
            hi = i;
        }
        i += 1;
    }
    assert(votes@.take(votes.len() as int) =~= votes@);
    hi
}

/// The messages voted for in view `h`, sorted.
pub fn messages_in_view(votes: &Vec<QuorumVote>, h: &View) -> (r: Vec<String>)
    ensures
        strictly_sorted(r.deep_view()),
        forall|m: Seq<char>| #[trigger] r.deep_view().contains(m) <==> proposed(votes@, *h, m),
{
    let mut r: Vec<String> = Vec::new();
    let mut k: usize = 0;
    while k < votes.len()
        invariant
            k <= votes.len(),
            strictly_sorted(r.deep_view()),
            forall|m: Seq<char>|
                #[trigger] r.deep_view().contains(m) <==> proposed_upto(votes@, k as int, *h, m),
        decreases votes.len() - k,
    {
        if votes[k].view.equals(h) {
            sorted_insert(&mut r, &votes[k].message);
        }
        proof {
            assert forall|m: Seq<char>| #[trigger]
                r.deep_view().contains(m) <==> proposed_upto(votes@, k + 1, *h, m) by {
                lemma_exists_prefix_step(
                    |j: int| votes@[j].view.same_as(&*h) && votes@[j].message@ == m,
                    k as int,
                );
            }
        }
        k += 1;
    }
    r
}

/// The nodes that voted for `m` in view `h`, sorted.
fn voters_for(votes: &Vec<QuorumVote>, h: &View, m: &String) -> (r: Vec<String>)
    ensures
        strictly_sorted(r.deep_view()),
        forall|n: Seq<char>| #[trigger] r.deep_view().contains(n) <==> voted(votes@, *h, m@, n),
{
    let mut r: Vec<String> = Vec::new();
    let mut k: usize = 0;
    while k < votes.len()
        invariant
            k <= votes.len(),
            strictly_sorted(r.deep_view()),
            forall|n: Seq<char>|
                #[trigger] r.deep_view().contains(n) <==> voted_upto(votes@, k as int, *h, m@, n),
        decreases votes.len() - k,
    {
        if votes[k].view.equals(h) && votes[k].message == *m {
            sorted_insert(&mut r, &votes[k].node);
        }
        proof {
            assert forall|n: Seq<char>| #[trigger]
                r.deep_view().contains(n) <==> voted_upto(votes@, k + 1, *h, m@, n) by {
                lemma_exists_prefix_step(
                    |j: int| votes@[j].view.same_as(&*h) && votes@[j].message@ == m@ && votes@[j].node@ == n,
                    k as int,
                );
            }
        }
        k += 1;
    }
    r
}

/// The votes of view `h`, by message.
fn tally_votes(votes: &Vec<QuorumVote>, h: &View) -> (t: Vec<(String, Vec<String>)>)
    ensures
        is_tally(t@, votes@, *h),
{
    let msgs = messages_in_view(votes, h);
    let mut t: Vec<(String, Vec<String>)> = Vec::new();
    let mut i: usize = 0;
    while i < msgs.len()
        invariant
            i <= msgs.len(),
            t.len() == i,
            forall|j: int| 0 <= j < i ==> #[trigger] t@[j].0@ == msgs.deep_view()[j],
            forall|j: int| 0 <= j < i ==> strictly_sorted(#[trigger] t@[j].1.deep_view()),
            forall|j: int, n: Seq<char>|
                0 <= j < i ==> (#[trigger] t@[j].1.deep_view().contains(n) <==> voted(
                    votes@,
                    *h,
                    t@[j].0@,
                    n,
                )),
        decreases msgs.len() - i,
    {
        let voters = voters_for(votes, h, &msgs[i]);
        t.push((msgs[i].clone(), voters));
        i += 1;
    }
    assert(tally_keys(t@) =~= msgs.deep_view());
    t
}

/// The nodes that answered, or belong to `h`, without the given voters; sorted.
fn nodes_outside(votes: &Vec<QuorumVote>, h: &View, with: &Vec<String>) -> (r: Vec<String>)
    ensures
        strictly_sorted(r.deep_view()),
        forall|n: Seq<char>| #[trigger]
            r.deep_view().contains(n) <==> ((participant(votes@, n) || h.members.deep_view().contains(
                n,
            )) && !with.deep_view().contains(n)),
{
    let mut r: Vec<String> = Vec::new();
    let mut k: usize = 0;
    while k < votes.len()
        invariant
            k <= votes.len(),
            strictly_sorted(r.deep_view()),
            forall|n: Seq<char>| #[trigger]
                r.deep_view().contains(n) <==> ((exists|j: int|
                    0 <= j < k && #[trigger] votes@[j].node@ == n) && !with.deep_view().contains(n)),
        decreases votes.len() - k,
    {
        if !contains_str(with, &votes[k].node) {
            sorted_insert(&mut r, &votes[k].node);
        }
        proof {
            assert forall|n: Seq<char>| #[trigger]
                r.deep_view().contains(n) <==> ((exists|j: int|
                    0 <= j < k + 1 && #[trigger] votes@[j].node@ == n) && !with.deep_view().contains(
                    n,
                )) by {
                lemma_exists_prefix_step(
                    |j: int| votes@[j].node@ == n,
                    k as int,
                );
            }
        }
        k += 1;
    }
    let mut i: usize = 0;
    while i < h.members.len()
        invariant
            i <= h.members.len(),
            strictly_sorted(r.deep_view()),
            forall|n: Seq<char>| #[trigger]
                r.deep_view().contains(n) <==> ((participant(votes@, n) || exists|j: int|
                    0 <= j < i && #[trigger] h.members.deep_view()[j] == n)
                    && !with.deep_view().contains(n)),
        decreases h.members.len() - i,
    {
        if !contains_str(with, &h.members[i]) {
            sorted_insert(&mut r, &h.members[i]);
        }
        proof {
            let mv = h.members.deep_view();
            assert forall|n: Seq<char>| #[trigger]
                r.deep_view().contains(n) <==> ((participant(votes@, n) || exists|j: int|
                    0 <= j < i + 1 && #[trigger] mv[j] == n) && !with.deep_view().contains(n)) by {
                lemma_exists_prefix_step(
                    |j: int| mv[j] == n,
                    i as int,
                );
            }
        }
        i += 1;
    }
    r
}

/// The counts of a tally are the numbers of distinct voters, and its entries
/// have distinct messages.
proof fn lemma_tally_counts(t: Seq<(String, Vec<String>)>, votes: Seq<QuorumVote>, h: View)
    requires
        is_tally(t, votes, h),
    ensures
        forall|i: int|
            0 <= i < t.len() ==> #[trigger] t[i].1.len() == voter_count(votes, h, t[i].0@),
        forall|i: int, j: int| 0 <= i < t.len() && 0 <= j < t.len() && i != j ==> #[trigger] t[i].0@
            != #[trigger] t[j].0@,
        forall|m: Seq<char>|
            proposed(votes, h, m) ==> exists|i: int| 0 <= i < t.len() && #[trigger] t[i].0@ == m,
        forall|i: int| 0 <= i < t.len() ==> proposed(votes, h, #[trigger] t[i].0@),
{
    assert forall|i: int| 0 <= i < t.len() implies proposed(votes, h, #[trigger] t[i].0@) by {
        assert(tally_keys(t)[i] == t[i].0@);
        assert(tally_keys(t).contains(t[i].0@));
    }
    assert forall|i: int| 0 <= i < t.len() implies #[trigger] t[i].1.len() == voter_count(
        votes,
        h,
        t[i].0@,
    ) by {
        lemma_sorted_len(t[i].1.deep_view(), voter_set(votes, h, t[i].0@));
    }
    assert forall|i: int, j: int| 0 <= i < t.len() && 0 <= j < t.len() && i != j implies #[trigger] t[i].0@
        != #[trigger] t[j].0@ by {
        let k = tally_keys(t);
        assert(k[i] == t[i].0@ && k[j] == t[j].0@);
        lemma_lt_irreflexive(t[i].0@);
    }
    assert forall|m: Seq<char>| proposed(votes, h, m) implies exists|i: int|
        0 <= i < t.len() && #[trigger] t[i].0@ == m by {
        assert(tally_keys(t).contains(m));
        let i = choose|i: int| 0 <= i < tally_keys(t).len() && tally_keys(t)[i] == m;
        assert(t[i].0@ == m);
    }
}

/// Find a quorum among the votes. Only votes in the highest view count (the
/// first view seen with the highest number); membership comes from that view.
/// A message wins if it has strictly more distinct voters than any other and
/// at least a normal quorum of the view's members; a view of fewer than three
/// members has no quorum. With no votes the result is `Err(None)`; otherwise a
/// failure carries the whole tally of the highest view.
pub fn find_quorum(votes: &Vec<QuorumVote>) -> (r: Result<Quorum, Option<NoQuorum>>)
    ensures
        votes.len() == 0 ==> r == Err::<Quorum, Option<NoQuorum>>(None),
        votes.len() > 0 ==> match r {
            Ok(q) => quorum_reached(votes@, highest_view(votes@)) && describes_quorum(q, votes@),
            Err(Some(nq)) => {
                &&& !quorum_reached(votes@, highest_view(votes@))
                &&& nq.view.same_as(&highest_view(votes@))
                &&& is_tally(nq.votes@, votes@, highest_view(votes@))
            },
            Err(None) => false,
        },
{
    if votes.len() == 0 {
        return Err(None);
    }
    let hi = highest_vote(votes);
    proof {
        lemma_first_highest(votes@);
    }
    let ghost h = highest_view(votes@);
    let t = tally_votes(votes, &votes[hi].view);
    proof {
        lemma_tally_counts(t@, votes@, h);
        assert(votes@[hi as int].view.same_as(&h));
        assert(proposed(votes@, h, votes@[hi as int].message@));
    }
    let mut top: usize = 0;
    let mut i: usize = 1;
    while i < t.len()
        invariant
            t.len() > 0,
            1 <= i <= t.len(),
            top < i,
            forall|j: int| 0 <= j < i ==> #[trigger] t@[j].1.len() <= t@[top as int].1.len(),
        decreases t.len() - i,
    {
        if t[i].1.len() > t[top].1.len() {
            top = i;
        }
        i += 1;
    }
    let c = t[top].1.len();
    let mut tied = false;
    let mut i: usize = 0;
    while i < t.len()
        invariant
            i <= t.len(),
            top < t.len(),
            c == t@[top as int].1.len(),
            tied <==> exists|j: int| 0 <= j < i && j != top && #[trigger] t@[j].1.len() == c,
        decreases t.len() - i,
    {
        if i != top && t[i].1.len() == c {
            tied = true;
        }
        i += 1;
    }
    let ghost m_top = t@[top as int].0@;
    proof {
        if !tied {
            assert forall|m2: Seq<char>| #![trigger proposed(votes@, h, m2)]
                proposed(votes@, h, m2) && m2 != m_top implies voter_count(votes@, h, m2)
                < voter_count(votes@, h, m_top) by {
                let p = choose|p: int| 0 <= p < t.len() && #[trigger] t@[p].0@ == m2;
                assert(t@[p].1.len() <= c);
            }
            assert(leads(votes@, h, m_top));
        }
        // Two leading messages would each have more voters than the other.
        assert forall|m: Seq<char>| #[trigger] leads(votes@, h, m) implies m == m_top by {
            let p = choose|p: int| 0 <= p < t.len() && #[trigger] t@[p].0@ == m;
            assert(t@[p].1.len() <= c);
            if m != m_top {
                if tied {
                    let j = choose|j: int| 0 <= j < t.len() && j != top && #[trigger] t@[j].1.len() == c;
                    if t@[j].0@ != m {
                        assert(voter_count(votes@, h, t@[j].0@) < voter_count(votes@, h, m));
                    }
                }
                assert(voter_count(votes@, h, m_top) < voter_count(votes@, h, m));
            }
        }
    }
    let view = votes[hi].view.clone();
    if tied {
        proof {
            assert forall|m: Seq<char>| !#[trigger] leads(votes@, h, m) by {
                if leads(votes@, h, m) {
                    let j = choose|j: int| 0 <= j < t.len() && j != top && #[trigger] t@[j].1.len() == c;
                    assert(voter_count(votes@, h, t@[j].0@) < voter_count(votes@, h, m_top));
                }
            }
        }
        return Err(Some(NoQuorum { view, votes: t }));
    }
    let n = votes[hi].view.members.len();
    let (fast, slow) = match (fast_quorum(n), slow_quorum(n)) {
        (Ok(fast), Ok(slow)) => (fast, slow),
        _ => {
            return Err(Some(NoQuorum { view, votes: t }));
        },
    };
    if c < slow {
        return Err(Some(NoQuorum { view, votes: t }));
    }
    let quorum_type = if c >= fast {
        QuorumType::FastQuorum
    } else {
        QuorumType::NormalQuorum
    };
    let nodes_without = nodes_outside(votes, &votes[hi].view, &t[top].1);
    let q = Quorum {
        count: c,
        message: t[top].0.clone(),
        nodes_with: t[top].1.clone(),
        nodes_without,
        view,
        quorum_type,
    };
    proof {
        assert(q.nodes_with.deep_view() =~= t@[top as int].1.deep_view());
    }
    Ok(q)
}

} // verus!
