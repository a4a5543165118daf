//! The votes of an election and the certificate that they add up to.
use crate::crypto::Digest;
use crate::crypto::PublicKey;
use crate::crypto::Signature;
use crate::leader_list::LeaderInfo;
use vstd::prelude::*;

verus! {

/// A replica's vote in an election.
#[derive(Debug)]
pub struct SWLEVote {
    pub voter: PublicKey,
    pub determined_leader: PublicKey,
    pub candidates: Vec<PublicKey>,
    pub block_hash: Digest,
    pub signature: Signature,
}

/// What a vote says.
#[verifier::ext_equal]
pub struct VoteContent {
    pub voter: PublicKey,
    pub determined_leader: PublicKey,
    pub candidates: Seq<PublicKey>,
    pub block_hash: Digest,
    pub signature: Signature,
}

impl View for SWLEVote {
    type V = VoteContent;

    open spec fn view(&self) -> VoteContent {
        VoteContent {
            voter: self.voter,
            determined_leader: self.determined_leader,
            candidates: self.candidates@,
            block_hash: self.block_hash,
            signature: self.signature,
        }
    }
}

impl Clone for SWLEVote {
    fn clone(&self) -> (copy: Self)
        ensures
            copy@ == self@,
    {
        SWLEVote {
            voter: self.voter,
            determined_leader: self.determined_leader,
            candidates: self.candidates.clone(),
            block_hash: self.block_hash,
            signature: self.signature,
        }
    }
}

/// What the listed votes say.
pub open spec fn contents(votes: Seq<SWLEVote>) -> Seq<VoteContent> {
    votes.map_values(|v: SWLEVote| v@)
}

/// A copy of the listed votes.
pub fn copy_votes(votes: &Vec<SWLEVote>) -> (copies: Vec<SWLEVote>)
    ensures
        contents(copies@) == contents(votes@),
{
    let mut copies: Vec<SWLEVote> = Vec::new();
    let mut i: usize = 0;
    while i < votes.len()
        invariant
            i <= votes@.len(),
            copies@.len() == i,
            forall|j: int| 0 <= j < i ==> (#[trigger] copies@[j])@ == votes@[j]@,
        decreases votes@.len() - i,
    {
        let copy: SWLEVote = votes[i].clone();
        copies.push(copy);
        i = i + 1;
    }
    assert(contents(copies@) =~= contents(votes@));
    copies
}

/// The outcome of an election: the leader selected for a view, and the votes for it.
#[derive(Debug)]
pub struct LeaderCertificate {
    pub target_view: u64,
    pub selected_leader: Option<PublicKey>,
    pub votes: Vec<SWLEVote>,
}

impl Clone for LeaderCertificate {
    fn clone(&self) -> (copy: Self)
        ensures
            copy.target_view == self.target_view,
            copy.selected_leader == self.selected_leader,
            contents(copy.votes@) == contents(self.votes@),
    {
        LeaderCertificate {
            target_view: self.target_view,
            selected_leader: self.selected_leader,
            votes: copy_votes(&self.votes),
        }
    }
}

/// How often a list of candidates names a replica.
pub open spec fn occurrences(candidates: Seq<PublicKey>, replica: PublicKey) -> nat
    decreases candidates.len(),
{
    if candidates.len() == 0 {
        0
    } else {
        occurrences(candidates.drop_last(), replica) + if candidates.last() == replica {
            1nat
        } else {
            0nat
        }
    }
}

/// How often the votes name a replica as a candidate.
pub open spec fn named(votes: Seq<VoteContent>, replica: PublicKey) -> nat
    decreases votes.len(),
{
    if votes.len() == 0 {
        0
    } else {
        named(votes.drop_last(), replica) + occurrences(votes.last().candidates, replica)
    }
}

/// How many of `n` voters may be faulty.
pub open spec fn faults(n: nat) -> nat
    recommends
        n > 0,
{
    ((n - 1) as nat) / 3
}

/// How many votes of `n` voters make a certificate.
pub open spec fn quorum(n: nat) -> nat
    recommends
        n > 0,
{
    2 * ((n - 1) as nat) / 3 + 1
}

/// Whether the votes name a replica more often than there may be faulty voters among `n`.
pub open spec fn eligible(votes: Seq<VoteContent>, n: nat, replica: PublicKey) -> bool {
    named(votes, replica) >= faults(n) + 1
}

/// Whether a replica leads a view by turns, and the view is not before `target`.
pub open spec fn leads_from(
    list: Map<u64, LeaderInfo>,
    target: u64,
    replica: PublicKey,
    view: u64,
) -> bool {
    view >= target && list.contains_key(view) && list[view].initial_leader == replica
}

/// Whether a view is the first from `target` on that a replica leads by turns.
pub open spec fn is_first_led(
    list: Map<u64, LeaderInfo>,
    target: u64,
    replica: PublicKey,
    view: u64,
) -> bool {
    leads_from(list, target, replica, view) && forall|other: u64|
        leads_from(list, target, replica, other) ==> view <= other
}

/// The first view from `target` on that a replica leads by turns; the largest number where
/// it leads none.
pub open spec fn rank(list: Map<u64, LeaderInfo>, target: u64, replica: PublicKey) -> u64 {
    if exists|view: u64| leads_from(list, target, replica, view) {
        choose|view: u64| is_first_led(list, target, replica, view)
    } else {
        u64::MAX
    }
}

/// Whether the votes of `n` voters select a leader for view `target`: an eligible replica
/// of which no other comes earlier by turns, or nobody where nobody is eligible.
pub open spec fn selects(
    list: Map<u64, LeaderInfo>,
    votes: Seq<VoteContent>,
    n: nat,
    target: u64,
    selected: Option<PublicKey>,
) -> bool {
    match selected {
        Some(leader) => eligible(votes, n, leader) && forall|other: PublicKey| #[trigger]
            eligible(votes, n, other) ==> rank(list, target, leader) <= rank(list, target, other),
        None => forall|other: PublicKey| !#[trigger] eligible(votes, n, other),
    }
}

pub proof fn lemma_first_led_is_rank(
    list: Map<u64, LeaderInfo>,
    target: u64,
    replica: PublicKey,
    view: u64,
)
    requires
        is_first_led(list, target, replica, view),
    ensures
        rank(list, target, replica) == view,
{
    let chosen = choose|v: u64| is_first_led(list, target, replica, v);
    assert(leads_from(list, target, replica, view));
    assert(leads_from(list, target, replica, chosen));
}

} // verus!
