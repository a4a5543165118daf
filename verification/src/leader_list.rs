//! What is known of the leaders of the views to come.
use crate::crypto::PublicKey;
use crate::voters::turn;
use vstd::prelude::*;

verus! {

/// The leaders of one view.
#[derive(Clone, Copy, Debug)]
pub struct LeaderInfo {
    /// The elected leader.
    pub elected_leader: Option<PublicKey>,
    /// The leader by turns.
    pub initial_leader: PublicKey,
}

/// The leader of a view: the elected one, else the one by turns.
pub open spec fn current_leader(list: Map<u64, LeaderInfo>, view: u64) -> Option<PublicKey> {
    if list.contains_key(view) {
        match list[view].elected_leader {
            Some(leader) => Some(leader),
            None => Some(list[view].initial_leader),
        }
    } else {
        None
    }
}

/// Whether a leader has been elected for a view.
pub open spec fn is_elected(list: Map<u64, LeaderInfo>, view: u64) -> bool {
    list.contains_key(view) && list[view].elected_leader is Some
}

/// Whether the leaders by turns are those of the voters.
pub open spec fn follows_turns(list: Map<u64, LeaderInfo>, voters: Seq<PublicKey>) -> bool {
    forall|view: u64| #[trigger]
        list.contains_key(view) ==> view >= 1 && list[view].initial_leader == turn(
            voters,
            view as int,
        )
}

/// Whether the list knows of every view from `first` to `last`.
pub open spec fn covers(list: Map<u64, LeaderInfo>, first: int, last: int) -> bool {
    forall|view: u64| first <= view <= last ==> #[trigger] list.contains_key(view)
}

/// Whether the list knows of every view from `first` to `last` and of no others.
pub open spec fn spans(list: Map<u64, LeaderInfo>, first: int, last: int) -> bool {
    forall|view: u64| #[trigger] list.contains_key(view) <==> first <= view <= last
}

/// The list that a replica starts with: the views from 1 to `window + 2 * n`, the leaders
/// of the last turn still open.
pub open spec fn initial_list(voters: Seq<PublicKey>, window: nat) -> Map<u64, LeaderInfo> {
    Map::new(
        |view: u64| 1 <= view <= window + 2 * voters.len(),
        |view: u64|
            LeaderInfo {
                elected_leader: if view <= window + voters.len() {
                    Some(turn(voters, view as int))
                } else {
                    None
                },
                initial_leader: turn(voters, view as int),
            },
    )
}

/// The last view from 1 to before `end` for which a leader has been elected, or 0.
pub open spec fn last_elected(list: Map<u64, LeaderInfo>, end: nat) -> nat
    decreases end,
{
    if end <= 1 {
        0
    } else if is_elected(list, (end - 1) as u64) {
        (end - 1) as nat
    } else {
        last_elected(list, (end - 1) as nat)
    }
}

/// The list after `selected` has been elected for view `target`. Without a selection the
/// leader by turns is elected. The open views since the last election before `target` get
/// their leader by turns.
pub open spec fn with_election(
    list: Map<u64, LeaderInfo>,
    target: u64,
    selected: Option<PublicKey>,
) -> Map<u64, LeaderInfo> {
    Map::new(
        |view: u64| list.contains_key(view),
        |view: u64|
            if view == target {
                LeaderInfo {
                    elected_leader: match selected {
                        Some(leader) => Some(leader),
                        None => Some(list[view].initial_leader),
                    },
                    initial_leader: list[view].initial_leader,
                }
            } else if last_elected(list, target as nat) < view < target
                && list[view].elected_leader is None {
                LeaderInfo {
                    elected_leader: Some(list[view].initial_leader),
                    initial_leader: list[view].initial_leader,
                }
            } else {
                list[view]
            },
    )
}

/// The list after the move to `new_view`: the views before `new_view` are dropped, and the
/// last of the `window + 2 * n` views from `new_view` on is added.
pub open spec fn extended(
    list: Map<u64, LeaderInfo>,
    voters: Seq<PublicKey>,
    window: nat,
    new_view: u64,
) -> Map<u64, LeaderInfo> {
    let added = (new_view + window + 2 * voters.len() - 1) as u64;
    Map::new(
        |view: u64| view >= new_view && (list.contains_key(view) || view == added),
        |view: u64|
            if list.contains_key(view) {
                list[view]
            } else {
                LeaderInfo { elected_leader: None, initial_leader: turn(voters, view as int) }
            },
    )
}

} // verus!
