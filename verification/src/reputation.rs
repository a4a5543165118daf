//! The rules by which replicas gain and lose reputation.
use crate::binary32::decode;
use crate::binary32::lemma_magnitude_of_parts;
use crate::binary32::one;
use crate::binary32::Binary32;
use crate::binary32::Value;
use crate::crypto::PublicKey;
use vstd::arithmetic::power2::lemma_pow2_adds;
use vstd::prelude::*;

verus! {

/// What a leader loses when its view is entered (rule R1): the encoding of -1.
pub const ALPHA_0: u32 = 0xbf80_0000;

/// What a leader gains when its proposal is finalized (rule R3): the encoding of 1.
pub const ALPHA_2: u32 = 0x3f80_0000;

/// What every replica gains at a periodic normalization (rule R5): the encoding of 1.
pub const ALPHA_4: u32 = 0x3f80_0000;

/// The score that every voter starts with: the encoding of 1.
pub const INITIAL_SCORE: u32 = 0x3f80_0000;

/// The encodings of the constants stand for 1, or -1 where something is lost.
pub proof fn constants_are_ones()
    ensures
        decode(INITIAL_SCORE) == Value::Finite(one() as int),
        decode(ALPHA_0) == Value::Finite(-(one() as int)),
        decode(ALPHA_2) == Value::Finite(one() as int),
        decode(ALPHA_4) == Value::Finite(one() as int),
{
    vstd::arithmetic::power2::lemma2_to64();
    lemma_magnitude_of_parts(0x80_0000, 126);
    lemma_pow2_adds(23, 126);
}

/// What the scores stand for.
pub open spec fn score_values(scores: Map<PublicKey, Binary32>) -> Map<PublicKey, Value> {
    scores.map_values(|s: Binary32| s.value())
}

/// The score of a replica; zero where it has none.
pub open spec fn score_of(scores: Map<PublicKey, Value>, replica: PublicKey) -> Value {
    if scores.contains_key(replica) {
        scores[replica]
    } else {
        Value::Finite(0)
    }
}

/// The scores after one replica's has changed by `delta`. No score falls below zero.
pub open spec fn changed(
    scores: Map<PublicKey, Value>,
    replica: PublicKey,
    delta: Value,
) -> Map<PublicKey, Value> {
    scores.insert(replica, score_of(scores, replica).plus(delta).at_least_zero())
}

/// The scores after those of the listed replicas have changed by `delta`, one by one.
pub open spec fn changed_all(
    scores: Map<PublicKey, Value>,
    replicas: Seq<PublicKey>,
    delta: Value,
) -> Map<PublicKey, Value>
    decreases replicas.len(),
{
    if replicas.len() == 0 {
        scores
    } else {
        changed(changed_all(scores, replicas.drop_last(), delta), replicas.last(), delta)
    }
}

/// The scores after `delta` has been added to those of the listed replicas, one by one.
pub open spec fn raised_all(
    scores: Map<PublicKey, Value>,
    replicas: Seq<PublicKey>,
    delta: Value,
) -> Map<PublicKey, Value>
    decreases replicas.len(),
{
    if replicas.len() == 0 {
        scores
    } else {
        let rest = raised_all(scores, replicas.drop_last(), delta);
        rest.insert(replicas.last(), score_of(rest, replicas.last()).plus(delta))
    }
}

/// Whether a score lets a replica stand for election.
pub open spec fn qualifies(score: Value) -> bool {
    score.ge(decode(ALPHA_0).negated())
}

/// Whether no score is negative.
pub open spec fn non_negative(scores: Map<PublicKey, Value>) -> bool {
    forall|k: PublicKey| scores.contains_key(k) ==> (#[trigger] scores[k]).is_non_negative()
}

pub proof fn lemma_score_values_insert(
    scores: Map<PublicKey, Binary32>,
    replica: PublicKey,
    score: Binary32,
)
    ensures
        score_values(scores.insert(replica, score)) == score_values(scores).insert(
            replica,
            score.value(),
        ),
{
    assert(score_values(scores.insert(replica, score)) =~= score_values(scores).insert(
        replica,
        score.value(),
    ));
}

} // verus!
