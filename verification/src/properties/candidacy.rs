//! What holds of the candidates.
use crate::binary32::Value;
use crate::binary32::decode;
use crate::binary32::one;
use crate::candidates::candidates;
use crate::candidates::qualified;
use crate::crypto::PublicKey;
use crate::leader_list::LeaderInfo;
use crate::leader_list::follows_turns;
use crate::properties::certificates::lemma_occurs_iff_contained;
use crate::properties::scores::lemma_powers_of_two_are_representable;
use crate::properties::scores::representable_is_exact;
use crate::reputation::ALPHA_4;
use crate::reputation::constants_are_ones;
use crate::reputation::non_negative;
use crate::reputation::qualifies;
use crate::reputation::raised_all;
use crate::reputation::score_of;
use crate::rounding::rounding_is_monotonic;
use crate::voters::turn;
use crate::votes::leads_from;
use crate::votes::occurrences;
use vstd::arithmetic::div_mod::lemma_fundamental_div_mod;
use vstd::prelude::*;

verus! {

/// At most one candidate comes from each view of a turn, and each of them leads one of
/// those views by turns and has a score that qualifies it.
pub proof fn qualified_replicas_lead_and_qualify(
    list: Map<u64, LeaderInfo>,
    scores: Map<PublicKey, Value>,
    target: u64,
    count: nat,
)
    requires
        target + count <= u64::MAX + 1,
    ensures
        qualified(list, scores, target, count).len() <= count,
        forall|i: int|
            0 <= i < qualified(list, scores, target, count).len() ==> qualifies(
                score_of(scores, #[trigger] qualified(list, scores, target, count)[i]),
            ) && exists|view: u64|
                target <= view < target + count && #[trigger] leads_from(
                    list,
                    target,
                    qualified(list, scores, target, count)[i],
                    view,
                ),
    decreases count,
{
    if count > 0 {
        let before = (count - 1) as nat;
        let earlier = qualified(list, scores, target, before);
        let all = qualified(list, scores, target, count);
        qualified_replicas_lead_and_qualify(list, scores, target, before);
        assert forall|i: int| 0 <= i < all.len() implies qualifies(
            score_of(scores, #[trigger] all[i]),
        ) && exists|view: u64|
            target <= view < target + count && #[trigger] leads_from(
                list,
                target,
                all[i],
                view,
            ) by {
            if i < earlier.len() {
                assert(all[i] == earlier[i]);
                let view = choose|view: u64|
                    target <= view < target + before && #[trigger] leads_from(
                        list,
                        target,
                        earlier[i],
                        view,
                    );
                assert(leads_from(list, target, all[i], view));
            } else {
                let view = (target + count - 1) as u64;
                assert(leads_from(list, target, all[i], view));
            }
        }
    }
}

/// Every replica that leads a view of the turn by turns and whose score qualifies it is
/// among the qualified ones.
pub proof fn qualified_replicas_are_complete(
    list: Map<u64, LeaderInfo>,
    scores: Map<PublicKey, Value>,
    target: u64,
    count: nat,
    view: u64,
)
    requires
        target <= view < target + count,
        list.contains_key(view),
        qualifies(score_of(scores, list[view].initial_leader)),
    ensures
        qualified(list, scores, target, count).contains(list[view].initial_leader),
    decreases count,
{
    let all = qualified(list, scores, target, count);
    if view == target + count - 1 {
        assert(all[all.len() - 1] == list[view].initial_leader);
    } else {
        let earlier = qualified(list, scores, target, (count - 1) as nat);
        qualified_replicas_are_complete(list, scores, target, (count - 1) as nat, view);
        let i = choose|i: int|
            0 <= i < earlier.len() && earlier[i] == list[view].initial_leader;
        assert(all[i] == list[view].initial_leader);
    }
}

/// Two views less than a turn apart are led by different replicas, where no voter comes
/// twice.
proof fn lemma_turns_differ_within_a_turn(voters: Seq<PublicKey>, view1: int, view2: int)
    requires
        voters.no_duplicates(),
        1 <= view1 < view2 < view1 + voters.len(),
    ensures
        turn(voters, view1) != turn(voters, view2),
{
    let n = voters.len() as int;
    lemma_fundamental_div_mod(view1 - 1, n);
    lemma_fundamental_div_mod(view2 - 1, n);
    let (p, q) = ((view1 - 1) / n, (view2 - 1) / n);
    let (a, b) = ((view1 - 1) % n, (view2 - 1) % n);
    assert(a != b) by (nonlinear_arith)
        requires
            view1 - 1 == n * p + a,
            view2 - 1 == n * q + b,
            0 < view2 - view1 < n,
    ;
}

/// Nobody qualifies twice within a turn, where no voter comes twice and the list goes by
/// turns.
pub proof fn qualified_replicas_are_distinct(
    list: Map<u64, LeaderInfo>,
    scores: Map<PublicKey, Value>,
    voters: Seq<PublicKey>,
    target: u64,
    count: nat,
)
    requires
        voters.no_duplicates(),
        follows_turns(list, voters),
        count <= voters.len(),
        target + count <= u64::MAX + 1,
    ensures
        qualified(list, scores, target, count).no_duplicates(),
    decreases count,
{
    if count > 0 {
        let before = (count - 1) as nat;
        let earlier = qualified(list, scores, target, before);
        let all = qualified(list, scores, target, count);
        let last = (target + count - 1) as u64;
        qualified_replicas_are_distinct(list, scores, voters, target, before);
        qualified_replicas_lead_and_qualify(list, scores, target, before);
        if all.len() > earlier.len() {
            assert forall|i: int| 0 <= i < earlier.len() implies #[trigger] earlier[i]
                != list[last].initial_leader by {
                let view = choose|view: u64|
                    target <= view < target + before && #[trigger] leads_from(
                        list,
                        target,
                        earlier[i],
                        view,
                    );
                lemma_turns_differ_within_a_turn(voters, view as int, last as int);
            }
        }
    }
}

/// A list without duplicates names nobody twice.
proof fn lemma_distinct_occur_once(replicas: Seq<PublicKey>, replica: PublicKey)
    requires
        replicas.no_duplicates(),
    ensures
        occurrences(replicas, replica) <= 1,
    decreases replicas.len(),
{
    if replicas.len() > 0 {
        let rest = replicas.drop_last();
        assert(rest.no_duplicates());
        lemma_distinct_occur_once(rest, replica);
        lemma_occurs_iff_contained(rest, replica);
    }
}

/// A vote with the candidates that its voter has found names nobody twice, where no voter
/// comes twice and the list goes by turns.
pub proof fn candidates_are_named_once(
    list: Map<u64, LeaderInfo>,
    scores: Map<PublicKey, Value>,
    voters: Seq<PublicKey>,
    target: u64,
)
    requires
        voters.no_duplicates(),
        follows_turns(list, voters),
        target + voters.len() <= u64::MAX + 1,
    ensures
        candidates(list, scores, voters, target).no_duplicates(),
        forall|replica: PublicKey| #[trigger]
            occurrences(candidates(list, scores, voters, target), replica) <= 1,
{
    let raised = raised_all(scores, voters, decode(ALPHA_4));
    qualified_replicas_are_distinct(list, scores, voters, target, voters.len());
    qualified_replicas_are_distinct(list, raised, voters, target, voters.len());
    assert forall|replica: PublicKey| #[trigger]
        occurrences(candidates(list, scores, voters, target), replica) <= 1 by {
        lemma_distinct_occur_once(candidates(list, scores, voters, target), replica);
    }
}

/// Adding one to scores that are not negative keeps them so and lifts the listed replicas
/// to at least one.
pub proof fn lemma_raised_scores_qualify(
    scores: Map<PublicKey, Value>,
    replicas: Seq<PublicKey>,
)
    requires
        non_negative(scores),
    ensures
        non_negative(raised_all(scores, replicas, decode(ALPHA_4))),
        forall|k: PublicKey|
            replicas.contains(k) ==> #[trigger] qualifies(
                score_of(raised_all(scores, replicas, decode(ALPHA_4)), k),
            ),
    decreases replicas.len(),
{
    constants_are_ones();
    if replicas.len() > 0 {
        let rest = replicas.drop_last();
        let before = raised_all(scores, rest, decode(ALPHA_4));
        let after = raised_all(scores, replicas, decode(ALPHA_4));
        lemma_raised_scores_qualify(scores, rest);
        let last = replicas.last();
        assert(score_of(before, last).is_non_negative());
        lemma_adding_one_qualifies(score_of(before, last));
        assert forall|k: PublicKey| replicas.contains(k) implies #[trigger] qualifies(
            score_of(after, k),
        ) by {
            if k != last {
                let i = choose|i: int| 0 <= i < replicas.len() && replicas[i] == k;
                assert(rest[i] == k);
                assert(qualifies(score_of(before, k)));
            }
        }
    }
}

/// A score that is not negative is at least one once one has been added.
proof fn lemma_adding_one_qualifies(score: Value)
    requires
        score.is_non_negative(),
    ensures
        qualifies(score.plus(decode(ALPHA_4))),
        score.plus(decode(ALPHA_4)).is_non_negative(),
{
    constants_are_ones();
    match score {
        Value::Finite(x) => {
            rounding_is_monotonic(one(), (x + one()) as nat, 1);
            lemma_powers_of_two_are_representable(149);
            representable_is_exact(one());
        },
        _ => {},
    }
}

/// There is always a candidate: where no score is negative and the list knows the leader
/// by turns of some view of the turn, the election does not go without.
pub proof fn candidates_never_run_out(
    list: Map<u64, LeaderInfo>,
    scores: Map<PublicKey, Value>,
    voters: Seq<PublicKey>,
    target: u64,
    view: u64,
)
    requires
        non_negative(scores),
        target + voters.len() <= u64::MAX + 1,
        target <= view < target + voters.len(),
        list.contains_key(view),
        voters.contains(list[view].initial_leader),
    ensures
        0 < candidates(list, scores, voters, target).len() <= voters.len(),
{
    let raised = raised_all(scores, voters, decode(ALPHA_4));
    lemma_raised_scores_qualify(scores, voters);
    qualified_replicas_lead_and_qualify(list, scores, target, voters.len());
    qualified_replicas_lead_and_qualify(list, raised, target, voters.len());
    qualified_replicas_are_complete(list, raised, target, voters.len(), view);
    assert(qualified(list, raised, target, voters.len()).len() > 0);
}

} // verus!
