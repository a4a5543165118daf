//! What an election does to the leader list.
use crate::crypto::PublicKey;
use crate::leader_list::LeaderInfo;
use crate::leader_list::current_leader;
use crate::leader_list::follows_turns;
use crate::leader_list::is_elected;
use crate::leader_list::last_elected;
use crate::leader_list::with_election;
use vstd::prelude::*;

verus! {

/// An election changes no leader but that of its target: every other view is led by whom
/// it was led by before.
pub proof fn election_changes_target_only(
    list: Map<u64, LeaderInfo>,
    target: u64,
    selected: Option<PublicKey>,
    view: u64,
)
    requires
        view != target,
    ensures
        current_leader(with_election(list, target, selected), view) == current_leader(list, view),
        is_elected(list, view) ==> is_elected(with_election(list, target, selected), view),
{
}

/// After an election its target is led by the selected replica, or by turns where nobody
/// was selected.
pub proof fn election_decides_target(
    list: Map<u64, LeaderInfo>,
    target: u64,
    selected: Option<PublicKey>,
)
    requires
        list.contains_key(target),
    ensures
        is_elected(with_election(list, target, selected), target),
        current_leader(with_election(list, target, selected), target) == (match selected {
            Some(leader) => Some(leader),
            None => Some(list[target].initial_leader),
        }),
{
}

/// An election keeps the views of the list and the leaders by turns.
pub proof fn election_keeps_turns(
    list: Map<u64, LeaderInfo>,
    target: u64,
    selected: Option<PublicKey>,
    voters: Seq<PublicKey>,
)
    ensures
        with_election(list, target, selected).dom() == list.dom(),
        follows_turns(list, voters) ==> follows_turns(
            with_election(list, target, selected),
            voters,
        ),
{
    assert(with_election(list, target, selected).dom() =~= list.dom());
}

/// Every view of the list from 1 on that comes after the last election before the target
/// is without a leader.
pub proof fn lemma_open_since_last_election(list: Map<u64, LeaderInfo>, end: nat, view: u64)
    requires
        last_elected(list, end) < view < end,
    ensures
        !is_elected(list, view),
    decreases end,
{
    if view != end - 1 {
        lemma_open_since_last_election(list, (end - 1) as nat, view);
    }
}

/// The last election before a view, where there is one, has elected a leader.
pub proof fn lemma_last_elected_is_elected(list: Map<u64, LeaderInfo>, end: nat)
    ensures
        last_elected(list, end) == 0 || last_elected(list, end) < end,
        0 < last_elected(list, end) <= u64::MAX ==> is_elected(
            list,
            last_elected(list, end) as u64,
        ),
    decreases end,
{
    if end > 1 {
        lemma_last_elected_is_elected(list, (end - 1) as nat);
    }
}

/// Where no view up to the last election before the target is open, an election leaves no
/// view up to its target open.
pub proof fn election_closes_gaps(
    list: Map<u64, LeaderInfo>,
    target: u64,
    selected: Option<PublicKey>,
)
    requires
        forall|view: u64|
            1 <= view <= last_elected(list, target as nat) && list.contains_key(view)
                ==> #[trigger] is_elected(list, view),
    ensures
        forall|view: u64|
            1 <= view <= target && list.contains_key(view) ==> #[trigger] is_elected(
                with_election(list, target, selected),
                view,
            ),
{
    assert forall|view: u64| 1 <= view <= target && list.contains_key(view) implies #[trigger]
    is_elected(with_election(list, target, selected), view) by {
        if view <= last_elected(list, target as nat) {
            assert(is_elected(list, view));
        }
    }
}

/// To enter the same outcome twice is to enter it once.
pub proof fn election_is_idempotent(
    list: Map<u64, LeaderInfo>,
    target: u64,
    selected: Option<PublicKey>,
)
    ensures
        with_election(with_election(list, target, selected), target, selected) == with_election(
            list,
            target,
            selected,
        ),
{
    let once = with_election(list, target, selected);
    let twice = with_election(once, target, selected);
    assert forall|view: u64| once.contains_key(view) implies once[view] == twice[view] by {
        if last_elected(once, target as nat) < view < target && once[view].elected_leader is None {
            lemma_open_since_last_election(once, target as nat, view);
            if last_elected(list, target as nat) >= view {
                lemma_last_elected_survives(list, target, selected, target as nat);
                assert(false);
            }
        }
    }
    assert(once =~= twice);
}

/// An election does not move the last election before its target back.
proof fn lemma_last_elected_survives(
    list: Map<u64, LeaderInfo>,
    target: u64,
    selected: Option<PublicKey>,
    end: nat,
)
    requires
        end <= target,
    ensures
        last_elected(with_election(list, target, selected), end) >= last_elected(list, end),
    decreases end,
{
    if end > 1 {
        lemma_last_elected_survives(list, target, selected, (end - 1) as nat);
        lemma_last_elected_is_elected(list, (end - 1) as nat);
        lemma_last_elected_is_elected(
            with_election(list, target, selected),
            (end - 1) as nat,
        );
    }
}

} // verus!
