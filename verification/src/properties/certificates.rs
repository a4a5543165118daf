//! What holds of votes and certificates.
use crate::crypto::PublicKey;
use crate::leader_list::covers;
use crate::leader_list::follows_turns;
use crate::leader_list::LeaderInfo;
use crate::properties::window::every_voter_has_a_turn;
use crate::voters::turn;
use crate::votes::eligible;
use crate::votes::faults;
use crate::votes::is_first_led;
use crate::votes::leads_from;
use crate::votes::lemma_first_led_is_rank;
use crate::votes::named;
use crate::votes::occurrences;
use crate::votes::quorum;
use crate::votes::rank;
use crate::votes::selects;
use crate::votes::VoteContent;
use vstd::arithmetic::div_mod::lemma_fundamental_div_mod;
use vstd::prelude::*;

verus! {

proof fn lemma_some_view_is_first_led(
    list: Map<u64, LeaderInfo>,
    target: u64,
    replica: PublicKey,
    view: u64,
)
    requires
        leads_from(list, target, replica, view),
    ensures
        is_first_led(list, target, replica, rank(list, target, replica)),
    decreases view,
{
    if is_first_led(list, target, replica, view) {
        lemma_first_led_is_rank(list, target, replica, view);
    } else {
        let other = choose|other: u64|
            leads_from(list, target, replica, other) && other < view;
        lemma_some_view_is_first_led(list, target, replica, other);
    }
}

/// The rank of a replica that leads a view by turns is the first such view; it is never
/// before the target.
pub proof fn rank_is_first_view_led(
    list: Map<u64, LeaderInfo>,
    target: u64,
    replica: PublicKey,
)
    ensures
        rank(list, target, replica) >= target,
        (exists|view: u64| leads_from(list, target, replica, view)) ==> is_first_led(
            list,
            target,
            replica,
            rank(list, target, replica),
        ),
{
    if exists|view: u64| leads_from(list, target, replica, view) {
        let view = choose|view: u64| leads_from(list, target, replica, view);
        lemma_some_view_is_first_led(list, target, replica, view);
    }
}

/// Replicas that hold the same votes and the same leaders by turns select the same leader,
/// as long as a selected one leads a view before the very last.
pub proof fn selection_is_unique(
    list: Map<u64, LeaderInfo>,
    votes: Seq<VoteContent>,
    n: nat,
    target: u64,
    selected1: Option<PublicKey>,
    selected2: Option<PublicKey>,
)
    requires
        selects(list, votes, n, target, selected1),
        selects(list, votes, n, target, selected2),
        selected1 matches Some(leader) ==> rank(list, target, leader) < u64::MAX,
    ensures
        selected1 == selected2,
{
    match (selected1, selected2) {
        (Some(leader1), Some(leader2)) => {
            assert(eligible(votes, n, leader1) && eligible(votes, n, leader2));
            rank_is_first_view_led(list, target, leader1);
            rank_is_first_view_led(list, target, leader2);
            assert(exists|view: u64| leads_from(list, target, leader1, view));
            assert(exists|view: u64| leads_from(list, target, leader2, view));
        },
        (Some(leader), None) => {
            assert(eligible(votes, n, leader));
        },
        (None, Some(leader)) => {
            assert(eligible(votes, n, leader));
        },
        (None, None) => {},
    }
}

/// Where the list knows the leaders by turns of as many views from `target` on as there are
/// voters, a voter's rank is the one view among them that it leads.
pub proof fn rank_goes_by_turns(
    list: Map<u64, LeaderInfo>,
    voters: Seq<PublicKey>,
    target: u64,
    i: int,
) -> (view: u64)
    requires
        1 <= target,
        target + voters.len() <= u64::MAX,
        voters.no_duplicates(),
        follows_turns(list, voters),
        covers(list, target as int, target + voters.len() - 1),
        0 <= i < voters.len(),
    ensures
        target <= view < target + voters.len(),
        turn(voters, view as int) == voters[i],
        rank(list, target, voters[i]) == view,
{
    let n = voters.len();
    let view = every_voter_has_a_turn(voters, target as int, i) as u64;
    assert(list.contains_key(view));
    assert forall|other: u64| leads_from(list, target, voters[i], other) implies view <= other by {
        let (a, b) = ((view - 1) % (n as int), (other - 1) % (n as int));
        assert(voters[a] == voters[b]);
        lemma_fundamental_div_mod(view - 1, n as int);
        lemma_fundamental_div_mod(other - 1, n as int);
        let (p, q) = ((view - 1) / (n as int), (other - 1) / (n as int));
        assert(p <= q) by (nonlinear_arith)
            requires
                view - 1 == n * p + a,
                other - 1 == n * q + a,
                other > view - n,
                n > 0,
        ;
        assert(n * p <= n * q) by (nonlinear_arith)
            requires
                p <= q,
        ;
    }
    lemma_first_led_is_rank(list, target, voters[i], view);
    view
}

/// Replicas whose lists both know a turn of views from the target on rank everybody alike,
/// however much more their lists know and whoever has been elected.
pub proof fn replicas_agree_on_rank(
    list1: Map<u64, LeaderInfo>,
    list2: Map<u64, LeaderInfo>,
    voters: Seq<PublicKey>,
    target: u64,
    replica: PublicKey,
)
    requires
        1 <= target,
        0 < voters.len(),
        target + voters.len() <= u64::MAX,
        voters.no_duplicates(),
        follows_turns(list1, voters),
        follows_turns(list2, voters),
        covers(list1, target as int, target + voters.len() - 1),
        covers(list2, target as int, target + voters.len() - 1),
    ensures
        rank(list1, target, replica) == rank(list2, target, replica),
        voters.contains(replica) ==> rank(list1, target, replica) < target + voters.len(),
        !voters.contains(replica) ==> rank(list1, target, replica) == u64::MAX,
{
    let n = voters.len() as int;
    if voters.contains(replica) {
        let i = choose|i: int| 0 <= i < voters.len() && voters[i] == replica;
        let view1 = rank_goes_by_turns(list1, voters, target, i);
        let view2 = rank_goes_by_turns(list2, voters, target, i);
        assert(list1.contains_key(view2) && list2.contains_key(view1));
        rank_is_first_view_led(list1, target, replica);
        rank_is_first_view_led(list2, target, replica);
        assert(leads_from(list1, target, replica, view2));
        assert(leads_from(list2, target, replica, view1));
    } else {
        assert forall|view: u64| !leads_from(list1, target, replica, view) && !leads_from(
            list2,
            target,
            replica,
            view,
        ) by {
            assert(0 <= (view - 1) % n < n);
            assert(voters.contains(voters[(view - 1) % n]));
        }
    }
}

/// Replicas whose lists both know a turn of views from the target on select the same leader
/// from the same votes, as long as a selected leader is a voter.
pub proof fn replicas_agree_on_selection(
    list1: Map<u64, LeaderInfo>,
    list2: Map<u64, LeaderInfo>,
    voters: Seq<PublicKey>,
    votes: Seq<VoteContent>,
    target: u64,
    selected1: Option<PublicKey>,
    selected2: Option<PublicKey>,
)
    requires
        1 <= target,
        0 < voters.len(),
        target + voters.len() <= u64::MAX,
        voters.no_duplicates(),
        follows_turns(list1, voters),
        follows_turns(list2, voters),
        covers(list1, target as int, target + voters.len() - 1),
        covers(list2, target as int, target + voters.len() - 1),
        selects(list1, votes, voters.len(), target, selected1),
        selects(list2, votes, voters.len(), target, selected2),
        selected1 matches Some(leader) ==> voters.contains(leader),
    ensures
        selected1 == selected2,
{
    assert forall|k: PublicKey| #[trigger] rank(list1, target, k) == rank(list2, target, k) by {
        replicas_agree_on_rank(list1, list2, voters, target, k);
    }
    match selected1 {
        Some(leader) => replicas_agree_on_rank(list1, list2, voters, target, leader),
        None => {},
    }
    assert(selects(list1, votes, voters.len(), target, selected2));
    selection_is_unique(list1, votes, voters.len(), target, selected1, selected2);
}

/// Taking one vote out takes away what it names.
proof fn lemma_named_without(votes: Seq<VoteContent>, i: int, replica: PublicKey)
    requires
        0 <= i < votes.len(),
    ensures
        named(votes, replica) == named(votes.remove(i), replica) + occurrences(
            votes[i].candidates,
            replica,
        ),
    decreases votes.len(),
{
    if i < votes.len() - 1 {
        lemma_named_without(votes.drop_last(), i, replica);
        assert(votes.remove(i).drop_last() =~= votes.drop_last().remove(i));
        assert(votes.remove(i).last() == votes.last());
    } else {
        assert(votes.remove(i) =~= votes.drop_last());
    }
}

/// What the votes name does not depend on their order.
pub proof fn order_of_votes_is_irrelevant(
    votes1: Seq<VoteContent>,
    votes2: Seq<VoteContent>,
    replica: PublicKey,
)
    requires
        votes1.to_multiset() == votes2.to_multiset(),
    ensures
        named(votes1, replica) == named(votes2, replica),
    decreases votes1.len(),
{
    votes1.to_multiset_ensures();
    votes2.to_multiset_ensures();
    if votes1.len() > 0 {
        let last = votes1.last();
        let end = votes1.len() - 1;
        assert(votes1.contains(last));
        assert(votes2.to_multiset().count(last) > 0);
        assert(votes2.contains(last));
        let i = choose|i: int| 0 <= i < votes2.len() && votes2[i] == last;
        assert(votes1.remove(end) =~= votes1.drop_last());
        assert(votes1.remove(end).to_multiset() =~= votes1.to_multiset().remove(last));
        assert(votes2.remove(i).to_multiset() =~= votes2.to_multiset().remove(last));
        order_of_votes_is_irrelevant(votes1.drop_last(), votes2.remove(i), replica);
        lemma_named_without(votes2, i, replica);
    }
}

/// Replicas that have got the same votes in different orders select alike.
pub proof fn selection_ignores_order_of_votes(
    list: Map<u64, LeaderInfo>,
    votes1: Seq<VoteContent>,
    votes2: Seq<VoteContent>,
    n: nat,
    target: u64,
    selected: Option<PublicKey>,
)
    requires
        votes1.to_multiset() == votes2.to_multiset(),
        selects(list, votes1, n, target, selected),
    ensures
        selects(list, votes2, n, target, selected),
{
    assert forall|k: PublicKey| #[trigger] eligible(votes2, n, k) <==> eligible(votes1, n, k) by {
        order_of_votes_is_irrelevant(votes1, votes2, k);
    }
    match selected {
        Some(leader) => {
            assert(eligible(votes2, n, leader) <==> eligible(votes1, n, leader));
        },
        None => {},
    }
}

/// The voters whose votes name a replica.
pub open spec fn namers(votes: Seq<VoteContent>, replica: PublicKey) -> Set<PublicKey> {
    Set::new(
        |voter: PublicKey|
            exists|i: int|
                0 <= i < votes.len() && (#[trigger] votes[i]).voter == voter
                    && votes[i].candidates.contains(replica),
    )
}

/// A list names a replica at all if and only if the replica is in it.
pub proof fn lemma_occurs_iff_contained(candidates: Seq<PublicKey>, replica: PublicKey)
    ensures
        occurrences(candidates, replica) > 0 <==> candidates.contains(replica),
    decreases candidates.len(),
{
    if candidates.len() > 0 {
        let rest = candidates.drop_last();
        lemma_occurs_iff_contained(rest, replica);
        if rest.contains(replica) {
            let i = choose|i: int| 0 <= i < rest.len() && rest[i] == replica;
            assert(candidates[i] == replica);
        }
        if candidates.contains(replica) && candidates.last() != replica {
            let i = choose|i: int| 0 <= i < candidates.len() && candidates[i] == replica;
            assert(rest[i] == replica);
        }
        if candidates.last() == replica {
            assert(candidates[candidates.len() - 1] == replica);
        }
    }
}

/// Where no vote names a replica twice and no voter votes twice, a replica is named as
/// often as there are voters who name it.
pub proof fn named_counts_voters(votes: Seq<VoteContent>, replica: PublicKey)
    requires
        forall|i: int|
            0 <= i < votes.len() ==> occurrences((#[trigger] votes[i]).candidates, replica) <= 1,
        forall|i: int, j: int|
            0 <= i < j < votes.len() ==> (#[trigger] votes[i]).voter != (#[trigger] votes[j]).voter,
    ensures
        namers(votes, replica).finite(),
        named(votes, replica) == namers(votes, replica).len(),
    decreases votes.len(),
{
    if votes.len() == 0 {
        assert(namers(votes, replica) =~= Set::empty());
    } else {
        let rest = votes.drop_last();
        let last = votes.last();
        assert forall|i: int| 0 <= i < rest.len() implies occurrences(
            (#[trigger] rest[i]).candidates,
            replica,
        ) <= 1 by {
            assert(rest[i] == votes[i]);
        }
        assert forall|i: int, j: int| 0 <= i < j < rest.len() implies (#[trigger] rest[i]).voter != (
        #[trigger] rest[j]).voter by {
            assert(rest[i] == votes[i] && rest[j] == votes[j]);
        }
        named_counts_voters(rest, replica);
        lemma_occurs_iff_contained(last.candidates, replica);
        let end = votes.len() - 1;
        assert(votes[end] == last);
        assert(!namers(rest, replica).contains(last.voter)) by {
            if namers(rest, replica).contains(last.voter) {
                let i = choose|i: int|
                    0 <= i < rest.len() && (#[trigger] rest[i]).voter == last.voter
                        && rest[i].candidates.contains(replica);
                assert(votes[i].voter != votes[end].voter);
            }
        }
        assert forall|voter: PublicKey| namers(votes, replica).contains(voter) <==> namers(
            rest,
            replica,
        ).contains(voter) || (voter == last.voter && last.candidates.contains(replica)) by {
            if namers(votes, replica).contains(voter) {
                let i = choose|i: int|
                    0 <= i < votes.len() && (#[trigger] votes[i]).voter == voter
                        && votes[i].candidates.contains(replica);
                if i < rest.len() {
                    assert(rest[i].voter == voter);
                }
            }
            if namers(rest, replica).contains(voter) {
                let i = choose|i: int|
                    0 <= i < rest.len() && (#[trigger] rest[i]).voter == voter
                        && rest[i].candidates.contains(replica);
                assert(votes[i].voter == voter);
            }
        }
        if last.candidates.contains(replica) {
            assert(namers(votes, replica) =~= namers(rest, replica).insert(last.voter));
        } else {
            assert(namers(votes, replica) =~= namers(rest, replica));
        }
    }
}

/// Where no vote names the selected leader twice and no voter votes twice, the leader has
/// been named by a voter outside any set of as many voters as may be faulty.
pub proof fn selected_leader_is_named_by_a_correct_voter(
    list: Map<u64, LeaderInfo>,
    votes: Seq<VoteContent>,
    n: nat,
    target: u64,
    leader: PublicKey,
    faulty: Set<PublicKey>,
)
    requires
        selects(list, votes, n, target, Some(leader)),
        forall|i: int|
            0 <= i < votes.len() ==> occurrences((#[trigger] votes[i]).candidates, leader) <= 1,
        forall|i: int, j: int|
            0 <= i < j < votes.len() ==> (#[trigger] votes[i]).voter != (#[trigger] votes[j]).voter,
        faulty.finite(),
        faulty.len() <= faults(n),
    ensures
        exists|i: int|
            0 <= i < votes.len() && !faulty.contains((#[trigger] votes[i]).voter)
                && votes[i].candidates.contains(leader),
{
    named_counts_voters(votes, leader);
    assert(eligible(votes, n, leader));
    if forall|voter: PublicKey| #[trigger]
        namers(votes, leader).contains(voter) ==> faulty.contains(voter) {
        assert(namers(votes, leader).subset_of(faulty));
        vstd::set_lib::lemma_len_subset(namers(votes, leader), faulty);
    } else {
        let voter = choose|voter: PublicKey| #[trigger]
            namers(votes, leader).contains(voter) && !faulty.contains(voter);
        let i = choose|i: int|
            0 <= i < votes.len() && (#[trigger] votes[i]).voter == voter
                && votes[i].candidates.contains(leader);
        assert(!faulty.contains(votes[i].voter));
    }
}

/// The correct voters alone can make a certificate, and a certificate has more votes than
/// there may be faulty voters.
pub proof fn correct_voters_make_a_quorum(n: nat)
    requires
        n > 0,
    ensures
        faults(n) < quorum(n) <= n - faults(n),
{
}

/// Two certificates share more voters than may be faulty, unless the number of voters
/// leaves a remainder of two when divided by three.
pub proof fn quorums_intersect(n: nat)
    requires
        n > 0,
        n % 3 != 2,
    ensures
        2 * quorum(n) - n > faults(n),
{
}

/// Any two sets of voters that reach the threshold of the voter set share more voters than
/// may be faulty.
pub proof fn thresholds_intersect(n: nat)
    requires
        n > 0,
    ensures
        2 * (n - n / 3) - n > faults(n),
{
}

/// A quorum is as large as the threshold of the voter set, unless the number of voters
/// leaves a remainder of two when divided by three.
pub proof fn quorum_is_threshold(n: nat)
    requires
        n > 0,
        n % 3 != 2,
    ensures
        quorum(n) == n - n / 3,
{
}

} // verus!
