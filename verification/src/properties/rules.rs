//! What the rules R1 to R5 do to the scores, and what a replica starts with.
use crate::binary32::decode;
use crate::binary32::one;
use crate::binary32::Binary32;
use crate::binary32::Value;
use crate::crypto::PublicKey;
use crate::properties::arithmetic::safe_limit;
use crate::properties::arithmetic::size;
use crate::properties::arithmetic::sum_is_nearest;
use crate::properties::arithmetic::whole_points_add_up;
use crate::properties::arithmetic::whole_points_are_representable;
use crate::properties::scores::listed_replicas_change_once;
use crate::properties::scores::representable_is_exact;
use crate::properties::scores::share_is_at_most_one;
use crate::properties::window::window_is_tf_in_whole_turns;
use crate::reputation::changed;
use crate::reputation::changed_all;
use crate::reputation::constants_are_ones;
use crate::reputation::score_of;
use crate::rounding::distance;
use crate::rounding::representable;
use crate::rounding::round_ratio;
use crate::rounding::rounding_is_nearest;
use crate::rounding::rounding_is_representable;
use crate::swle::SWLE;
use crate::voters::VoterSet;
use crate::votes::SWLEVote;
use vstd::arithmetic::div_mod::lemma_fundamental_div_mod_converse;
use vstd::arithmetic::power2::lemma_pow2_pos;
use vstd::prelude::*;

verus! {

/// What the table of scores holds for a replica, zero where it holds nothing.
pub open spec fn held(swle: SWLE, replica: PublicKey) -> Value {
    if swle.reputation_scores@.contains_key(replica) {
        decode(swle.reputation_scores@[replica].bits)
    } else {
        Value::Finite(0)
    }
}

/// Whether a replica leads a view: it has been elected, or nobody has and it leads by turns.
pub open spec fn leads(swle: SWLE, view: u64, replica: PublicKey) -> bool {
    swle.leader_list@.contains_key(view) && match swle.leader_list@[view].elected_leader {
        Some(leader) => leader == replica,
        None => swle.leader_list@[view].initial_leader == replica,
    }
}

/// A number of whole points.
pub open spec fn points(n: int) -> Value {
    Value::Finite(n * one())
}

/// What is left of a score after a point has been paid.
pub open spec fn less_a_point(score: Value) -> Value {
    score.plus(points(-1)).at_least_zero()
}

/// A score with one more point.
pub open spec fn plus_a_point(score: Value) -> Value {
    score.plus(points(1)).at_least_zero()
}

/// What a replica has when a view has been entered, before any normalization.
pub open spec fn paid(swle: SWLE, view: u64, replica: PublicKey) -> Value {
    if leads(swle, view, replica) {
        less_a_point(held(swle, replica))
    } else {
        held(swle, replica)
    }
}

proof fn lemma_held(swle: SWLE, replica: PublicKey)
    ensures
        held(swle, replica) == score_of(swle.scores(), replica),
        swle.scores().contains_key(replica) == swle.reputation_scores@.contains_key(replica),
        points(1) == Value::Finite(one() as int),
        points(-1) == Value::Finite(-(one() as int)),
{
}

/// Paying a point takes one whole point away where there is one, and gaining a point adds
/// one, up to `2^24`.
pub proof fn whole_points_are_kept(n: int)
    requires
        0 <= n < 0x100_0000,
    ensures
        less_a_point(points(n + 1)) == points(n),
        less_a_point(points(0)) == points(0),
        plus_a_point(points(n)) == points(n + 1),
{
    lemma_pow2_pos(149);
    whole_points_add_up(n + 1, -1);
    whole_points_add_up(0, -1);
    whole_points_add_up(n, 1);
    assert(n * one() >= 0 && (n + 1) * one() >= 0) by (nonlinear_arith)
        requires
            n >= 0,
    ;
    assert(-1 * one() < 0) by (nonlinear_arith)
        requires
            one() > 0,
    ;
}

/// A change of a score adds to it and to no other: what comes out is zero where the sum is
/// not positive, else the number nearest to the sum, which is the sum itself where the
/// format has it.
pub proof fn change_adds_to_one_score(
    swle: &mut SWLE,
    replica: PublicKey,
    delta: Binary32,
    x: int,
    d: int,
)
    requires
        call_ensures(SWLE::update_reputation_score, (swle, replica, delta), ()),
        held(*old(swle), replica) == Value::Finite(x),
        delta.value() == Value::Finite(d),
        size(x + d) <= safe_limit(),
    ensures
        x + d <= 0 ==> held(*final(swle), replica) == Value::Finite(0),
        x + d > 0 && representable(size(x + d)) ==> held(*final(swle), replica) == Value::Finite(
            x + d,
        ),
        x + d > 0 ==> (held(*final(swle), replica) matches Value::Finite(r) && r >= 0
            && representable(r as nat) && forall|z: nat| #[trigger]
            representable(z) ==> distance(size(x + d), r as nat) <= distance(size(x + d), z)),
        forall|k: PublicKey| k != replica ==> #[trigger] held(*final(swle), k) == held(
            *old(swle),
            k,
        ),
        forall|k: PublicKey| #[trigger]
            final(swle).reputation_scores@.contains_key(k) <==> k == replica || old(swle).reputation_scores@.contains_key(k),
        *final(swle) == (SWLE {
            reputation_scores: final(swle).reputation_scores,
            ..*old(swle)
        }),
{
    let r = sum_is_nearest(x, d);
    lemma_held(*old(swle), replica);
    lemma_held(*final(swle), replica);
    assert forall|k: PublicKey| k != replica implies #[trigger] held(*final(swle), k) == held(
        *old(swle),
        k,
    ) by {
        lemma_held(*old(swle), k);
        lemma_held(*final(swle), k);
    }
    assert forall|k: PublicKey| #[trigger]
        final(swle).reputation_scores@.contains_key(k) <==> k == replica || old(swle).reputation_scores@.contains_key(k) by {
        lemma_held(*old(swle), k);
        lemma_held(*final(swle), k);
    }
}

/// A score that is no number, or changes by what is no number, starts again from zero.
pub proof fn change_without_number_gives_zero(swle: &mut SWLE, replica: PublicKey, delta: Binary32)
    requires
        call_ensures(SWLE::update_reputation_score, (swle, replica, delta), ()),
        held(*old(swle), replica) is NotANumber || delta.value() is NotANumber,
    ensures
        held(*final(swle), replica) == Value::Finite(0),
{
    lemma_held(*old(swle), replica);
    lemma_held(*final(swle), replica);
}

proof fn lemma_inside_period(counter: int, theta: int, k: int)
    requires
        theta > 0,
        k * theta < counter < (k + 1) * theta,
    ensures
        counter % theta != 0,
{
    assert((k + 1) * theta == k * theta + theta) by (nonlinear_arith);
    lemma_fundamental_div_mod_converse(counter, theta, k, counter - k * theta);
}

proof fn lemma_end_of_period(counter: int, theta: int, k: int)
    requires
        theta > 0,
        counter == k * theta,
    ensures
        counter % theta == 0,
{
    lemma_fundamental_div_mod_converse(counter, theta, k, 0);
}

/// Rule R1. Within a period, entering a view costs its leader a point and changes nobody
/// else's score.
pub proof fn entry_charges_the_leader(swle: &mut SWLE, view: u64, k: int)
    requires
        call_ensures(SWLE::on_enter_view, (swle, view), ()),
        old(swle).normalization_counter < u64::MAX,
        old(swle).theta > 0,
        k * old(swle).theta < old(swle).normalization_counter + 1 < (k + 1) * old(swle).theta,
    ensures
        forall|p: PublicKey| #[trigger]
            held(*final(swle), p) == (if leads(*old(swle), view, p) {
                less_a_point(held(*old(swle), p))
            } else {
                held(*old(swle), p)
            }),
        final(swle).current_view == view,
        final(swle).normalization_counter == old(swle).normalization_counter + 1,
{
    lemma_inside_period(
        old(swle).normalization_counter + 1,
        old(swle).theta as int,
        k,
    );
    constants_are_ones();
    assert forall|p: PublicKey| #[trigger] held(*final(swle), p) == (if leads(*old(swle), view, p) {
        less_a_point(held(*old(swle), p))
    } else {
        held(*old(swle), p)
    }) by {
        lemma_held(*old(swle), p);
        lemma_held(*final(swle), p);
    }
}

/// Rules R1 and R5. At the end of every period, entering a view first costs its leader a
/// point and then gives every voter one.
pub proof fn entry_ends_every_period(swle: &mut SWLE, view: u64, k: int)
    requires
        call_ensures(SWLE::on_enter_view, (swle, view), ()),
        old(swle).normalization_counter < u64::MAX,
        old(swle).theta > 0,
        k >= 1,
        old(swle).normalization_counter + 1 == k * old(swle).theta,
        old(swle).voter_set@.no_duplicates(),
    ensures
        forall|p: PublicKey| #[trigger]
            held(*final(swle), p) == (if old(swle).voter_set@.contains(p) {
                plus_a_point(paid(*old(swle), view, p))
            } else {
                paid(*old(swle), view, p)
            }),
        final(swle).current_view == view,
        final(swle).normalization_counter == old(swle).normalization_counter + 1,
{
    lemma_end_of_period(
        old(swle).normalization_counter + 1,
        old(swle).theta as int,
        k,
    );
    constants_are_ones();
    let scores = old(swle).scores();
    let leader = if old(swle).leader_list@.contains_key(view) {
        match old(swle).leader_list@[view].elected_leader {
            Some(leader) => Some(leader),
            None => Some(old(swle).leader_list@[view].initial_leader),
        }
    } else {
        None
    };
    let entered = match leader {
        Some(leader) => changed(scores, leader, Value::Finite(-(one() as int))),
        None => scores,
    };
    listed_replicas_change_once(entered, old(swle).voter_set@, Value::Finite(one() as int));
    assert forall|p: PublicKey| #[trigger]
        held(*final(swle), p) == (if old(swle).voter_set@.contains(p) {
            plus_a_point(paid(*old(swle), view, p))
        } else {
            paid(*old(swle), view, p)
        }) by {
        lemma_held(*old(swle), p);
        lemma_held(*final(swle), p);
        assert(score_of(entered, p) == paid(*old(swle), view, p));
        assert(score_of(
            changed_all(entered, old(swle).voter_set@, Value::Finite(one() as int)),
            p,
        ) == held(*final(swle), p));
    }
}

/// In whole points: a voter that does not lead the view gains one at the end of every
/// period, and a voter that leads it and can pay has as many as before.
pub proof fn periods_give_a_point(swle: &mut SWLE, view: u64, k: int, voter: PublicKey, n: int)
    requires
        call_ensures(SWLE::on_enter_view, (swle, view), ()),
        old(swle).normalization_counter < u64::MAX,
        old(swle).theta > 0,
        k >= 1,
        old(swle).normalization_counter + 1 == k * old(swle).theta,
        old(swle).voter_set@.no_duplicates(),
        old(swle).voter_set@.contains(voter),
        held(*old(swle), voter) == points(n),
        0 <= n < 0x100_0000,
    ensures
        held(*final(swle), voter) == (if !leads(*old(swle), view, voter) || n == 0 {
            points(n + 1)
        } else {
            points(n)
        }),
{
    entry_ends_every_period(swle, view, k);
    assert(held(*final(swle), voter) == plus_a_point(paid(*old(swle), view, voter)));
    whole_points_are_kept(n);
    if n > 0 {
        whole_points_are_kept(n - 1);
    } else {
        whole_points_are_kept(0);
    }
}

/// One period is like another: a replica that has entered some whole periods more does to
/// the scores what one that has not does.
pub proof fn periods_are_alike(swle: &mut SWLE, later: &mut SWLE, view: u64, periods: int)
    requires
        call_ensures(SWLE::on_enter_view, (swle, view), ()),
        call_ensures(SWLE::on_enter_view, (later, view), ()),
        old(later).normalization_counter < u64::MAX,
        old(swle).theta > 0,
        periods >= 0,
        *old(later) == (SWLE {
            normalization_counter: (old(swle).normalization_counter + periods * old(swle).theta) as u64,
            ..*old(swle)
        }),
        old(swle).normalization_counter + periods * old(swle).theta < u64::MAX,
    ensures
        forall|p: PublicKey| #[trigger] held(*final(later), p) == held(*final(swle), p),
{
    let theta = old(swle).theta as int;
    let counter = old(swle).normalization_counter + 1;
    assert(periods * theta >= 0) by (nonlinear_arith)
        requires
            periods >= 0,
            theta > 0,
    ;
    vstd::arithmetic::div_mod::lemma_mod_multiples_vanish(periods, counter, theta);
    assert(theta * periods == periods * theta) by (nonlinear_arith);
    assert forall|p: PublicKey| #[trigger] held(*final(later), p) == held(*final(swle), p) by {
        lemma_held(*final(later), p);
        lemma_held(*final(swle), p);
    }
}

/// To enter a view at the end of a period is to enter it within one and then to normalize,
/// however often the voters are listed.
pub proof fn entry_normalizes_all_voters(
    swle: &mut SWLE,
    within: &mut SWLE,
    normalized: &mut SWLE,
    view: u64,
    k: int,
    j: int,
)
    requires
        call_ensures(SWLE::on_enter_view, (swle, view), ()),
        call_ensures(SWLE::on_enter_view, (within, view), ()),
        call_ensures(SWLE::periodic_normalization, (normalized,), ()),
        old(swle).theta > 0,
        old(swle).normalization_counter < u64::MAX,
        old(within).normalization_counter < u64::MAX,
        k >= 1,
        old(swle).normalization_counter + 1 == k * old(swle).theta,
        j * old(within).theta < old(within).normalization_counter + 1 < (j + 1) * old(within).theta,
        *old(within) == (SWLE {
            normalization_counter: old(within).normalization_counter,
            ..*old(swle)
        }),
        *old(normalized) == *final(within),
    ensures
        forall|p: PublicKey| #[trigger] held(*final(swle), p) == held(*final(normalized), p),
{
    lemma_end_of_period(old(swle).normalization_counter + 1, old(swle).theta as int, k);
    lemma_inside_period(old(within).normalization_counter + 1, old(within).theta as int, j);
    assert forall|p: PublicKey| #[trigger] held(*final(swle), p) == held(*final(normalized), p) by {
        lemma_held(*final(normalized), p);
        lemma_held(*final(swle), p);
    }
}

/// Rule R5. A normalization gives every voter a point and nobody else.
pub proof fn normalization_gives_a_point(swle: &mut SWLE)
    requires
        call_ensures(SWLE::periodic_normalization, (swle,), ()),
        old(swle).voter_set@.no_duplicates(),
    ensures
        forall|p: PublicKey| #[trigger]
            held(*final(swle), p) == (if old(swle).voter_set@.contains(p) {
                plus_a_point(held(*old(swle), p))
            } else {
                held(*old(swle), p)
            }),
        *final(swle) == (SWLE {
            reputation_scores: final(swle).reputation_scores,
            ..*old(swle)
        }),
{
    constants_are_ones();
    let scores = old(swle).scores();
    listed_replicas_change_once(scores, old(swle).voter_set@, Value::Finite(one() as int));
    assert forall|p: PublicKey| #[trigger]
        held(*final(swle), p) == (if old(swle).voter_set@.contains(p) {
            plus_a_point(held(*old(swle), p))
        } else {
            held(*old(swle), p)
        }) by {
        lemma_held(*old(swle), p);
        lemma_held(*final(swle), p);
        assert(score_of(
            changed_all(scores, old(swle).voter_set@, Value::Finite(one() as int)),
            p,
        ) == held(*final(swle), p));
    }
}

/// Rule R2. A timeout costs the leader of the view what the replica has set for it and
/// changes nobody else's score.
pub proof fn timeout_charges_the_leader(swle: &mut SWLE, view: u64)
    requires
        call_ensures(SWLE::on_view_timeout, (swle, view), ()),
    ensures
        forall|p: PublicKey| #[trigger]
            held(*final(swle), p) == (if leads(*old(swle), view, p) {
                held(*old(swle), p).plus(old(swle).alpha_1.value()).at_least_zero()
            } else {
                held(*old(swle), p)
            }),
        *final(swle) == (SWLE {
            reputation_scores: final(swle).reputation_scores,
            ..*old(swle)
        }),
{
    assert forall|p: PublicKey| #[trigger] held(*final(swle), p) == (if leads(*old(swle), view, p) {
        held(*old(swle), p).plus(old(swle).alpha_1.value()).at_least_zero()
    } else {
        held(*old(swle), p)
    }) by {
        lemma_held(*old(swle), p);
        lemma_held(*final(swle), p);
    }
}

/// In whole points: where a replica was set up for `n` voters, up to `2^24`, a timeout costs
/// the leader as many points as there are voters, or all that it has.
pub proof fn timeout_costs_a_point_per_voter(
    id: PublicKey,
    voter_set: VoterSet,
    tf: usize,
    start: SWLE,
    swle: &mut SWLE,
    view: u64,
    leader: PublicKey,
    had: int,
)
    requires
        call_ensures(SWLE::new, (id, voter_set, tf), start),
        call_ensures(SWLE::on_view_timeout, (swle, view), ()),
        0 < voter_set@.len() <= 0x100_0000,
        old(swle).alpha_1 == start.alpha_1,
        leads(*old(swle), view, leader),
        held(*old(swle), leader) == points(had),
        0 <= had <= 0x100_0000,
    ensures
        held(*final(swle), leader) == (if had >= voter_set@.len() {
            points(had - voter_set@.len())
        } else {
            points(0)
        }),
{
    let n = voter_set@.len();
    whole_points_are_representable(n);
    representable_is_exact(n * one());
    timeout_charges_the_leader(swle, view);
    assert(held(*final(swle), leader) == points(had).plus(
        Value::Finite(-(n * one() as int)),
    ).at_least_zero());
    assert(-(n * one() as int) == (-n) * one()) by (nonlinear_arith);
    whole_points_add_up(had, -n);
    lemma_pow2_pos(149);
    let left = had - n;
    if left >= 0 {
        assert(left * one() >= 0) by (nonlinear_arith)
            requires
                left >= 0,
        ;
    } else {
        assert(left * one() < 0) by (nonlinear_arith)
            requires
                left < 0,
                one() > 0,
        ;
    }
}

/// Rule R3. A finalized proposal gives its leader a point and nobody else.
pub proof fn finalizing_gives_a_point(swle: &mut SWLE, leader: PublicKey)
    requires
        call_ensures(SWLE::on_proposal_finalized, (swle, leader), ()),
    ensures
        forall|p: PublicKey| #[trigger]
            held(*final(swle), p) == (if p == leader {
                plus_a_point(held(*old(swle), p))
            } else {
                held(*old(swle), p)
            }),
        *final(swle) == (SWLE {
            reputation_scores: final(swle).reputation_scores,
            ..*old(swle)
        }),
{
    constants_are_ones();
    assert forall|p: PublicKey| #[trigger] held(*final(swle), p) == (if p == leader {
        plus_a_point(held(*old(swle), p))
    } else {
        held(*old(swle), p)
    }) by {
        lemma_held(*old(swle), p);
        lemma_held(*final(swle), p);
    }
}

/// Rule R4. A completed view gives its share to every replica that has helped, where each is
/// listed once, and to nobody else.
pub proof fn completion_rewards_the_listed(swle: &mut SWLE, replicas: &[PublicKey])
    requires
        call_ensures(SWLE::on_view_completed, (swle, replicas), ()),
        replicas@.no_duplicates(),
    ensures
        forall|p: PublicKey| #[trigger]
            held(*final(swle), p) == (if replicas@.contains(p) {
                held(*old(swle), p).plus(old(swle).alpha_3.value()).at_least_zero()
            } else {
                held(*old(swle), p)
            }),
        *final(swle) == (SWLE {
            reputation_scores: final(swle).reputation_scores,
            ..*old(swle)
        }),
{
    let share = old(swle).alpha_3.value();
    listed_replicas_change_once(old(swle).scores(), replicas@, share);
    assert forall|p: PublicKey| #[trigger] held(*final(swle), p) == (if replicas@.contains(p) {
        held(*old(swle), p).plus(share).at_least_zero()
    } else {
        held(*old(swle), p)
    }) by {
        lemma_held(*old(swle), p);
        lemma_held(*final(swle), p);
        assert(score_of(changed_all(old(swle).scores(), replicas@, share), p) == held(
            *final(swle),
            p,
        ));
    }
}

proof fn lemma_changes_join(
    scores: Map<PublicKey, Value>,
    first: Seq<PublicKey>,
    second: Seq<PublicKey>,
    delta: Value,
)
    ensures
        changed_all(scores, first + second, delta) == changed_all(
            changed_all(scores, first, delta),
            second,
            delta,
        ),
    decreases second.len(),
{
    if second.len() == 0 {
        assert(first + second =~= first);
    } else {
        assert((first + second).drop_last() =~= first + second.drop_last());
        lemma_changes_join(scores, first, second.drop_last(), delta);
    }
}

/// Every listing counts: to reward two lists one after the other is to reward their
/// concatenation.
pub proof fn completions_join(
    first: &mut SWLE,
    second: &mut SWLE,
    both: &mut SWLE,
    replicas1: &[PublicKey],
    replicas2: &[PublicKey],
    replicas: &[PublicKey],
)
    requires
        call_ensures(SWLE::on_view_completed, (first, replicas1), ()),
        call_ensures(SWLE::on_view_completed, (second, replicas2), ()),
        call_ensures(SWLE::on_view_completed, (both, replicas), ()),
        *old(second) == *final(first),
        *old(both) == *old(first),
        replicas@ == replicas1@ + replicas2@,
    ensures
        forall|p: PublicKey| #[trigger] held(*final(both), p) == held(*final(second), p),
{
    lemma_changes_join(
        old(first).scores(),
        replicas1@,
        replicas2@,
        old(first).alpha_3.value(),
    );
    assert forall|p: PublicKey| #[trigger] held(*final(both), p) == held(*final(second), p) by {
        lemma_held(*final(both), p);
        lemma_held(*final(second), p);
    }
}

/// A replica starts in view 1 with one point for every voter and no votes, and with a list
/// of the views that the window and two turns hold, by turns, the last turn of them open.
/// The window is `tf` rounded up to whole turns; a period is ten turns, but at least 200
/// views.
pub proof fn start_is_fresh(id: PublicKey, voter_set: VoterSet, tf: usize, swle: SWLE)
    requires
        call_ensures(SWLE::new, (id, voter_set, tf), swle),
        0 < voter_set@.len() <= u64::MAX,
        swle.window_size + 2 * voter_set@.len() <= u64::MAX,
    ensures
        swle.id == id,
        swle.voter_set == voter_set,
        swle.current_view == 1,
        swle.normalization_counter == 0,
        tf <= swle.window_size < tf + voter_set@.len(),
        swle.window_size as nat % voter_set@.len() == 0,
        swle.theta >= 200,
        swle.theta >= 10 * voter_set@.len(),
        swle.theta == 200 || swle.theta == 10 * voter_set@.len(),
        forall|p: PublicKey| #[trigger]
            held(swle, p) == (if voter_set@.contains(p) {
                points(1)
            } else {
                points(0)
            }),
        forall|p: PublicKey| #[trigger]
            swle.reputation_scores@.contains_key(p) <==> voter_set@.contains(p),
        forall|view: u64| #[trigger]
            swle.leader_list@.contains_key(view) <==> 1 <= view <= swle.window_size + 2
                * voter_set@.len(),
        forall|view: u64| #[trigger]
            swle.leader_list@.contains_key(view) ==> swle.leader_list@[view].initial_leader
                == voter_set@[(view - 1) % (voter_set@.len() as int)]
                && swle.leader_list@[view].elected_leader == (if view <= swle.window_size
                + voter_set@.len() {
                Some(voter_set@[(view - 1) % (voter_set@.len() as int)])
            } else {
                None
            }),
        swle.collected_votes@ == Map::<u64, Vec<SWLEVote>>::empty(),
{
    window_is_tf_in_whole_turns(tf as nat, voter_set@.len());
    assert forall|p: PublicKey| #[trigger] held(swle, p) == (if voter_set@.contains(p) {
        points(1)
    } else {
        points(0)
    }) by {
        lemma_held(swle, p);
        assert(0 * one() == 0 && 1 * one() == one());
    }
    assert forall|p: PublicKey| #[trigger]
        swle.reputation_scores@.contains_key(p) <==> voter_set@.contains(p) by {
        lemma_held(swle, p);
    }
}

/// What a replica charges for a timeout is the number nearest to the voters, and the share that
/// it gives for a completed view is the number nearest to a point divided by that. Up to `2^24`
/// voters are counted exactly.
pub proof fn start_sets_charge_and_share(
    id: PublicKey,
    voter_set: VoterSet,
    tf: usize,
    swle: SWLE,
) -> (charge: nat)
    requires
        call_ensures(SWLE::new, (id, voter_set, tf), swle),
        voter_set@.len() > 0,
    ensures
        swle.alpha_1.value() == Value::Finite(-(charge as int)),
        voter_set@.len() <= 0x100_0000 ==> swle.alpha_1.value() == points(-voter_set@.len()),
        representable(charge),
        forall|z: nat| #[trigger]
            representable(z) ==> distance(voter_set@.len() * one(), charge) <= distance(
                voter_set@.len() * one(),
                z,
            ),
        swle.alpha_3.value() matches Value::Finite(r) && r >= 0 && representable(r as nat)
            && forall|z: nat| #[trigger]
            representable(z) ==> distance(one() * one(), charge * (r as nat)) <= distance(
                one() * one(),
                charge * z,
            ),
{
    let n = voter_set@.len() * one();
    let charge = round_ratio(n, 1);
    rounding_is_representable(n, 1);
    assert forall|z: nat| #[trigger] representable(z) implies distance(n, charge) <= distance(
        n,
        z,
    ) by {
        rounding_is_nearest(n, 1, z);
    }
    if voter_set@.len() <= 0x100_0000 {
        whole_points_are_representable(voter_set@.len());
        representable_is_exact(n);
        assert(-(n as int) == (-voter_set@.len()) * one()) by (nonlinear_arith)
            requires
                n == voter_set@.len() * one(),
        ;
    }
    lemma_pow2_pos(149);
    share_is_at_most_one(voter_set@.len());
    rounding_is_representable(one() * one(), charge);
    assert forall|z: nat| #[trigger] representable(z) implies distance(
        one() * one(),
        charge * round_ratio(one() * one(), charge),
    ) <= distance(one() * one(), charge * z) by {
        rounding_is_nearest(one() * one(), charge, z);
    }
    charge
}

} // verus!
