//! The replicas that may stand for election.
use crate::binary32::decode;
use crate::binary32::Value;
use crate::crypto::PublicKey;
use crate::leader_list::LeaderInfo;
use crate::reputation::qualifies;
use crate::reputation::raised_all;
use crate::reputation::score_of;
use crate::reputation::ALPHA_4;
use vstd::prelude::*;

verus! {

/// The replicas that lead the `count` views from `target` on by turns and whose score
/// qualifies them, in the order of the views.
pub open spec fn qualified(
    list: Map<u64, LeaderInfo>,
    scores: Map<PublicKey, Value>,
    target: u64,
    count: nat,
) -> Seq<PublicKey>
    decreases count,
{
    if count == 0 {
        Seq::empty()
    } else {
        let earlier = qualified(list, scores, target, (count - 1) as nat);
        let view = (target + count - 1) as u64;
        if list.contains_key(view) && qualifies(score_of(scores, list[view].initial_leader)) {
            earlier.push(list[view].initial_leader)
        } else {
            earlier
        }
    }
}

/// The candidates for view `target`: the qualified replicas of one turn; where there are
/// none, those that a normalization would qualify.
pub open spec fn candidates(
    list: Map<u64, LeaderInfo>,
    scores: Map<PublicKey, Value>,
    voters: Seq<PublicKey>,
    target: u64,
) -> Seq<PublicKey> {
    let first = qualified(list, scores, target, voters.len());
    if first.len() > 0 {
        first
    } else {
        qualified(list, raised_all(scores, voters, decode(ALPHA_4)), target, voters.len())
    }
}

} // verus!
