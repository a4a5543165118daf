//! What holds of turns and of the sliding window.
use crate::crypto::PublicKey;
use crate::leader_list::LeaderInfo;
use crate::leader_list::covers;
use crate::leader_list::current_leader;
use crate::leader_list::extended;
use crate::leader_list::follows_turns;
use crate::leader_list::initial_list;
use crate::leader_list::is_elected;
use crate::leader_list::spans;
use crate::leader_list::with_election;
use crate::rounding::lemma_quotient_unique;
use crate::target_view::round_up;
use crate::target_view::target_lies_in_stored_views;
use crate::target_view::target_rotates_within_next_block;
use crate::target_view::target_view;
use crate::voters::turn;
use vstd::arithmetic::div_mod::lemma_fundamental_div_mod;
use vstd::prelude::*;

verus! {

/// The replica that leads a view by turns leads again when all voters have had theirs.
pub proof fn turns_repeat(voters: Seq<PublicKey>, view: int)
    requires
        voters.len() > 0,
        view >= 1,
    ensures
        turn(voters, view + voters.len()) == turn(voters, view),
{
    vstd::arithmetic::div_mod::lemma_mod_add_multiples_vanish(view - 1, voters.len() as int);
}

/// Among as many views in a row as there are voters, every voter leads one by turns.
pub proof fn every_voter_has_a_turn(voters: Seq<PublicKey>, first: int, i: int) -> (view: int)
    requires
        first >= 1,
        0 <= i < voters.len(),
    ensures
        first <= view < first + voters.len(),
        turn(voters, view) == voters[i],
{
    let n = voters.len();
    let b = (first - 1) / (n as int);
    let r = (first - 1) % (n as int);
    lemma_fundamental_div_mod(first - 1, n as int);
    assert(n * (b + 1) == n * b + n) by (nonlinear_arith);
    let view = if i >= r {
        n * b + i + 1
    } else {
        n * (b + 1) + i + 1
    };
    assert(b >= 0) by (nonlinear_arith)
        requires
            first - 1 == n * b + r,
            first >= 1,
            r < n,
            n > 0,
    ;
    assert(b * n == n * b && (b + 1) * n == n * (b + 1)) by (nonlinear_arith);
    if i >= r {
        lemma_quotient_unique((view - 1) as nat, n, b as nat, i as nat);
    } else {
        lemma_quotient_unique((view - 1) as nat, n, (b + 1) as nat, i as nat);
    }
    view
}


/// The window is `tf` rounded up to whole turns.
pub proof fn window_is_tf_in_whole_turns(tf: nat, n: nat)
    requires
        n > 0,
    ensures
        tf <= round_up(tf, n) < tf + n,
        round_up(tf, n) % n == 0,
{
    let q = ((tf + n - 1) as nat) / n;
    lemma_fundamental_div_mod(tf + n - 1, n as int);
    assert(q * n == n * q) by (nonlinear_arith);
    lemma_quotient_unique(q * n, n, q, 0);
}

/// At the start the list knows of the views that a window and two turns hold from the first
/// view on and of no others, by turns, with a leader elected for all but the last turn.
pub proof fn initial_list_holds_window(voters: Seq<PublicKey>, window: nat)
    requires
        voters.len() > 0,
        window + 2 * voters.len() <= u64::MAX,
    ensures
        spans(initial_list(voters, window), 1, (window + 2 * voters.len()) as int),
        follows_turns(initial_list(voters, window), voters),
        forall|view: u64| #[trigger]
            is_elected(initial_list(voters, window), view) <==> 1 <= view <= window + voters.len(),
        forall|view: u64| 1 <= view <= window + 2 * voters.len() ==> current_leader(
            initial_list(voters, window),
            view,
        ) == Some(turn(voters, view as int)),
{
}

/// The views of the first turn elect for views that the list has at the start with the
/// leader still open.
pub proof fn first_turn_elects_open_views(voters: Seq<PublicKey>, window: nat, view: nat)
    requires
        1 <= view <= voters.len(),
        window + 2 * voters.len() <= u64::MAX,
    ensures
        initial_list(voters, window).contains_key(
            target_view(view, voters.len(), window) as u64,
        ),
        !is_elected(
            initial_list(voters, window),
            target_view(view, voters.len(), window) as u64,
        ),
{
    let n = voters.len();
    lemma_quotient_unique((view - 1) as nat, n, 0, (view - 1) as nat);
    target_rotates_within_next_block(view, n, window);
    assert(n * (0nat + 1) == n) by (nonlinear_arith);
    assert(window + n < target_view(view, n, window) <= window + 2 * n);
}

/// The list always holds the same window: where it knows of the `window + 2 * n` views from
/// the view before `view` on and of no others, the move on to `view` leaves it so from
/// `view` on.
pub proof fn extension_keeps_window(
    list: Map<u64, LeaderInfo>,
    voters: Seq<PublicKey>,
    window: nat,
    view: u64,
)
    requires
        voters.len() > 0,
        view >= 1,
        view + window + 2 * voters.len() - 1 <= u64::MAX,
        spans(list, view - 1, (view - 1) + window + 2 * voters.len() - 1),
    ensures
        spans(
            extended(list, voters, window, view),
            view as int,
            view + window + 2 * voters.len() - 1,
        ),
{
}

/// An election leaves the views that the list knows of as they are.
pub proof fn election_keeps_window(
    list: Map<u64, LeaderInfo>,
    target: u64,
    selected: Option<PublicKey>,
    first: int,
    last: int,
)
    requires
        spans(list, first, last),
    ensures
        spans(with_election(list, target, selected), first, last),
{
}

/// Where the list knows of the views that a window and two turns hold from `view` on, it
/// knows of the view that `view` elects for.
pub proof fn target_is_stored(
    list: Map<u64, LeaderInfo>,
    n: nat,
    window: nat,
    view: u64,
)
    requires
        n > 0,
        view >= 1,
        view + window + 2 * n - 1 <= u64::MAX,
        covers(list, view as int, view + window + 2 * n - 1),
    ensures
        target_view(view as nat, n, window) <= u64::MAX,
        list.contains_key(target_view(view as nat, n, window) as u64),
{
    target_lies_in_stored_views(view as nat, n, window);
}

/// The move on keeps the leaders by turns, keeps what is known of the views to come, and
/// forgets the views that have passed.
pub proof fn extension_keeps_leaders(
    list: Map<u64, LeaderInfo>,
    voters: Seq<PublicKey>,
    window: nat,
    view: u64,
)
    requires
        voters.len() > 0,
        view + window + 2 * voters.len() - 1 <= u64::MAX,
    ensures
        follows_turns(list, voters) ==> follows_turns(
            extended(list, voters, window, view),
            voters,
        ),
        forall|v: u64|
            v >= view && list.contains_key(v) ==> extended(list, voters, window, view)[v]
                == #[trigger] list[v],
        forall|v: u64| v < view ==> !extended(list, voters, window, view).contains_key(v),
{
}

} // verus!
