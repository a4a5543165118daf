//! What holds of the scores.
use crate::binary32::INFINITY;
use crate::binary32::Value;
use crate::binary32::decode;
use crate::binary32::lemma_magnitude_increases;
use crate::binary32::lemma_magnitude_of_parts;
use crate::binary32::magnitude;
use crate::binary32::nearest_integer;
use crate::binary32::one;
use crate::crypto::PublicKey;
use crate::leader_list::current_leader;
use crate::reputation::ALPHA_0;
use crate::reputation::ALPHA_2;
use crate::reputation::ALPHA_4;
use crate::reputation::changed;
use crate::reputation::changed_all;
use crate::reputation::constants_are_ones;
use crate::reputation::non_negative;
use crate::reputation::score_of;
use crate::rounding::lemma_quotient_unique;
use crate::rounding::lemma_round_double;
use crate::rounding::lemma_round_pow2;
use crate::rounding::lemma_round_small;
use crate::rounding::representable;
use crate::rounding::round_ratio;
use crate::rounding::rounding_is_monotonic;
use crate::rounding::rounding_stays_below;
use crate::swle::SWLE;
use crate::swle::scores_after_entry;
use vstd::arithmetic::power2::lemma_pow2_pos;
use vstd::arithmetic::power2::lemma_pow2_unfold;
use vstd::arithmetic::power2::pow2;
use vstd::prelude::*;

verus! {

/// No change of scores makes one negative, and what it sets is never negative.
pub proof fn changes_keep_scores_non_negative(
    scores: Map<PublicKey, Value>,
    replicas: Seq<PublicKey>,
    delta: Value,
)
    requires
        non_negative(scores),
    ensures
        non_negative(changed_all(scores, replicas, delta)),
    decreases replicas.len(),
{
    if replicas.len() > 0 {
        changes_keep_scores_non_negative(scores, replicas.drop_last(), delta);
        change_gives_non_negative_score(
            changed_all(scores, replicas.drop_last(), delta),
            replicas.last(),
            delta,
        );
    }
}

/// A score that has just changed is not negative, whatever it was before, and the scores of
/// the other replicas are as they were.
pub proof fn change_gives_non_negative_score(
    scores: Map<PublicKey, Value>,
    replica: PublicKey,
    delta: Value,
)
    ensures
        changed(scores, replica, delta)[replica].is_non_negative(),
        forall|k: PublicKey|
            k != replica ==> score_of(changed(scores, replica, delta), k) == #[trigger] score_of(
                scores,
                k,
            ),
        non_negative(scores) ==> non_negative(changed(scores, replica, delta)),
{
}

/// To enter a view makes no score negative.
pub proof fn entry_keeps_scores_non_negative(swle: SWLE, view: u64)
    requires
        non_negative(swle.scores()),
    ensures
        non_negative(scores_after_entry(swle, view)),
{
    let entered = match current_leader(swle.leader_list@, view) {
        Some(leader) => changed(swle.scores(), leader, decode(ALPHA_0)),
        None => swle.scores(),
    };
    match current_leader(swle.leader_list@, view) {
        Some(leader) => change_gives_non_negative_score(swle.scores(), leader, decode(ALPHA_0)),
        None => {},
    }
    changes_keep_scores_non_negative(entered, swle.voter_set@, decode(ALPHA_4));
}

/// Where replicas are listed once each, every one of them changes once and nobody else's
/// score changes.
pub proof fn listed_replicas_change_once(
    scores: Map<PublicKey, Value>,
    replicas: Seq<PublicKey>,
    delta: Value,
)
    requires
        replicas.no_duplicates(),
    ensures
        forall|k: PublicKey| #[trigger]
            score_of(changed_all(scores, replicas, delta), k) == if replicas.contains(k) {
                score_of(scores, k).plus(delta).at_least_zero()
            } else {
                score_of(scores, k)
            },
    decreases replicas.len(),
{
    if replicas.len() > 0 {
        let rest = replicas.drop_last();
        listed_replicas_change_once(scores, rest, delta);
        assert forall|k: PublicKey| #[trigger]
            score_of(changed_all(scores, replicas, delta), k) == if replicas.contains(k) {
                score_of(scores, k).plus(delta).at_least_zero()
            } else {
                score_of(scores, k)
            } by {
            assert(score_of(changed_all(scores, rest, delta), k) == if rest.contains(k) {
                score_of(scores, k).plus(delta).at_least_zero()
            } else {
                score_of(scores, k)
            });
            if rest.contains(k) {
                let i = choose|i: int| 0 <= i < rest.len() && rest[i] == k;
                assert(replicas[i] == k);
                assert(k != replicas.last());
            } else if replicas.contains(k) {
                let i = choose|i: int| 0 <= i < replicas.len() && replicas[i] == k;
                if i < rest.len() {
                    assert(rest[i] == k);
                }
            } else {
                assert(replicas[replicas.len() - 1] == replicas.last());
            }
        }
    }
}

/// A number with a 24-bit significand is its own rounding.
pub proof fn representable_is_exact(x: nat)
    requires
        representable(x),
    ensures
        round_ratio(x, 1) == x,
    decreases x,
{
    if x < 0x100_0000 {
        lemma_round_small(x);
    } else {
        representable_is_exact(x / 2);
        lemma_round_double(x / 2);
    }
}

/// Every finite magnitude of the format has a 24-bit significand.
pub proof fn magnitudes_are_representable(m: nat)
    ensures
        representable(magnitude(m)),
    decreases m,
{
    if m >= 0x100_0000 {
        magnitudes_are_representable((m - 0x80_0000) as nat);
    }
}

/// From a number of at least one and at most `2^24`, one can be taken away without loss.
proof fn lemma_one_less_is_representable(x: nat, unit: nat, s: nat)
    requires
        representable(x),
        unit == pow2(s),
        unit <= x <= unit * 0x100_0000,
    ensures
        representable((x - unit) as nat),
    decreases s,
{
    vstd::arithmetic::power2::lemma2_to64();
    if x >= 0x100_0000 && s > 0 {
        lemma_pow2_unfold(s);
        lemma_one_less_is_representable(x / 2, pow2((s - 1) as nat), (s - 1) as nat);
        assert((x - unit) as nat % 2 == 0);
        assert((x - unit) as nat / 2 == x / 2 - pow2((s - 1) as nat));
    }
}

/// A leader that has at least one point and at most `2^24` pays one for its view and gets
/// it back for its proposal: its score is then what it was.
pub proof fn finalizing_repays_entry(scores: Map<PublicKey, Value>, leader: PublicKey, x: nat)
    requires
        score_of(scores, leader) == Value::Finite(x as int),
        representable(x),
        one() <= x <= one() * 0x100_0000,
    ensures
        score_of(changed(changed(scores, leader, decode(ALPHA_0)), leader, decode(ALPHA_2)), leader)
            == Value::Finite(x as int),
{
    constants_are_ones();
    lemma_one_less_is_representable(x, one(), 149);
    representable_is_exact(x);
    representable_is_exact((x - one()) as nat);
    lemma_within_range(x);
    let y = (x - one()) as nat;
    assert(nearest_integer(x + -(one() as int)) == Value::Finite(y as int));
    assert(nearest_integer(y as int + one() as int) == Value::Finite(x as int));
}

/// A leader with less than one point has none after its view is entered, and one after its
/// proposal.
pub proof fn finalizing_lifts_to_one(scores: Map<PublicKey, Value>, leader: PublicKey, x: nat)
    requires
        score_of(scores, leader) == Value::Finite(x as int),
        x < one(),
    ensures
        score_of(changed(scores, leader, decode(ALPHA_0)), leader) == Value::Finite(0),
        score_of(changed(changed(scores, leader, decode(ALPHA_0)), leader, decode(ALPHA_2)), leader)
            == Value::Finite(one() as int),
{
    constants_are_ones();
    lemma_powers_of_two_are_representable(149);
    representable_is_exact(one());
    lemma_pow2_pos(149);
    lemma_within_range(one());
    assert(nearest_integer(0int + one() as int) == Value::Finite(one() as int));
}

/// Powers of two have a 24-bit significand.
pub proof fn lemma_powers_of_two_are_representable(s: nat)
    ensures
        representable(pow2(s)),
    decreases s,
{
    vstd::arithmetic::power2::lemma2_to64();
    if s > 0 {
        lemma_pow2_unfold(s);
        lemma_powers_of_two_are_representable((s - 1) as nat);
    }
}

/// Numbers up to `2^24` are in the range of the format.
proof fn lemma_within_range(x: nat)
    requires
        x <= one() * 0x100_0000,
    ensures
        x < magnitude(INFINITY as nat),
{
    vstd::arithmetic::power2::lemma2_to64();
    lemma_magnitude_of_parts(0x100_0000, 149);
    lemma_magnitude_increases(149 * 0x80_0000 + 0x100_0000, INFINITY as nat);
}

/// A leader with no more points than there are voters loses them all when its view times
/// out.
pub proof fn timeout_takes_all(
    scores: Map<PublicKey, Value>,
    leader: PublicKey,
    n: nat,
    x: nat,
)
    requires
        score_of(scores, leader) == Value::Finite(x as int),
        x <= round_ratio(n * one(), 1),
    ensures
        score_of(
            changed(
                scores,
                leader,
                Value::Finite(-(round_ratio(n * one(), 1) as int)),
            ),
            leader,
        ) == Value::Finite(0),
{
    lemma_round_small(0);
    lemma_magnitude_increases(0, INFINITY as nat);
}

/// The largest score that the rules can reach, `2^24`.
pub open spec fn highest_score() -> nat {
    one() * 0x100_0000
}

/// Whether every score is a number from zero to the highest score.
pub open spec fn in_bounds(scores: Map<PublicKey, Value>) -> bool {
    forall|k: PublicKey|
        scores.contains_key(k) ==> (#[trigger] scores[k] matches Value::Finite(x) && 0 <= x
            <= highest_score())
}

/// No score grows beyond `2^24` where at most one is added at a time: there another point
/// is lost in rounding.
pub proof fn changes_keep_scores_in_bounds(
    scores: Map<PublicKey, Value>,
    replicas: Seq<PublicKey>,
    delta: int,
)
    requires
        in_bounds(scores),
        delta <= one(),
    ensures
        in_bounds(changed_all(scores, replicas, Value::Finite(delta))),
    decreases replicas.len(),
{
    if replicas.len() > 0 {
        let rest = changed_all(scores, replicas.drop_last(), Value::Finite(delta));
        changes_keep_scores_in_bounds(scores, replicas.drop_last(), delta);
        match score_of(rest, replicas.last()) {
            Value::Finite(x) => lemma_sum_in_bounds(x + delta),
            _ => {},
        }
    }
}

proof fn lemma_sum_in_bounds(sum: int)
    requires
        sum <= highest_score() + one(),
    ensures
        nearest_integer(sum).at_least_zero() matches Value::Finite(x) && 0 <= x
            <= highest_score(),
{
    if sum >= 0 {
        lemma_quotient_unique(0x100_0001, 2, 0x80_0000, 1);
        assert(round_ratio(0x100_0001, 2) == 0x80_0000);
        assert(round_ratio(0x100_0001, 1) == 0x100_0000);
        lemma_round_pow2(0x100_0001, 149);
        rounding_is_monotonic(sum as nat, 0x100_0001 * one(), 1);
        lemma_within_range(round_ratio(sum as nat, 1));
    }
}

/// What a replica gains for a completed view is at most one.
pub proof fn share_is_at_most_one(n: nat)
    requires
        n > 0,
    ensures
        round_ratio(n * one(), 1) >= one(),
        round_ratio(one() * one(), round_ratio(n * one(), 1)) <= one(),
{
    lemma_powers_of_two_are_representable(149);
    lemma_pow2_pos(149);
    representable_is_exact(one());
    assert(n * one() >= one()) by (nonlinear_arith)
        requires
            n >= 1,
    ;
    rounding_is_monotonic(one(), n * one(), 1);
    let q = round_ratio(n * one(), 1);
    assert(one() * one() <= q * one()) by (nonlinear_arith)
        requires
            q >= one(),
    ;
    rounding_stays_below(one() * one(), q, one());
}

} // verus!
