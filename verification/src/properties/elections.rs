//! What the steps of an election do, from the candidates to the entry in the leader list.
use crate::binary32::decode;
use crate::binary32::one;
use crate::binary32::Binary32;
use crate::binary32::Value;
use crate::candidates::qualified;
use crate::crypto::PublicKey;
use crate::leader_list::is_elected;
use crate::leader_list::last_elected;
use crate::leader_list::LeaderInfo;
use crate::properties::candidacy::lemma_raised_scores_qualify;
use crate::properties::certificates::rank_is_first_view_led;
use crate::properties::leaders::lemma_last_elected_is_elected;
use crate::properties::leaders::lemma_open_since_last_election;
use crate::properties::rules::held;
use crate::properties::rules::leads;
use crate::properties::rules::points;
use crate::replica_map::ReplicaMap;
use crate::reputation::constants_are_ones;
use crate::reputation::qualifies;
use crate::reputation::raised_all;
use crate::reputation::score_of;
use crate::reputation::ALPHA_4;
use crate::swle::votes_for;
use crate::swle::SWLE;
use crate::target_view::target_rotates_within_next_block;
use crate::voters::VoterSet;
use crate::votes::contents;
use crate::votes::eligible;
use crate::votes::leads_from;
use crate::votes::named;
use crate::votes::occurrences;
use crate::votes::rank;
use crate::votes::selects;
use crate::votes::LeaderCertificate;
use crate::votes::SWLEVote;
use crate::votes::VoteContent;
use vstd::arithmetic::div_mod::lemma_fundamental_div_mod_converse;
use vstd::prelude::*;

verus! {

/// By turns the voters lead in their order, round after round.
pub proof fn turns_go_round(voter_set: VoterSet, view: u64, leader: PublicKey, round: int, i: int)
    requires
        call_ensures(SWLE::get_initial_leader, (view, &voter_set), leader),
        view >= 1,
        0 <= i < voter_set@.len(),
        view == round * voter_set@.len() + i + 1,
    ensures
        leader == voter_set@[i],
{
    lemma_fundamental_div_mod_converse(view - 1, voter_set@.len() as int, round, i);
}

/// A view that the list has is led by whoever has been elected, else by turns; of other
/// views no leader is known.
pub proof fn known_views_are_led(
    swle: SWLE,
    view: u64,
    leader: Option<PublicKey>,
    replica: PublicKey,
)
    requires
        call_ensures(SWLE::get_current_leader, (&swle, view), leader),
    ensures
        leader is Some <==> swle.leader_list@.contains_key(view),
        leader == Some(replica) <==> leads(swle, view, replica),
{
}

/// A vote is counted as often as it names a replica, and every vote is counted.
pub proof fn every_name_counts(votes: Seq<VoteContent>, vote: VoteContent, replica: PublicKey)
    ensures
        named(Seq::empty(), replica) == 0,
        named(votes.push(vote), replica) == named(votes, replica)
            + vote.candidates.to_multiset().count(replica),
{
    assert(votes.push(vote).drop_last() =~= votes);
    lemma_occurrences_are_counted(vote.candidates, replica);
}

proof fn lemma_occurrences_are_counted(candidates: Seq<PublicKey>, replica: PublicKey)
    ensures
        occurrences(candidates, replica) == candidates.to_multiset().count(replica),
    decreases candidates.len(),
{
    candidates.to_multiset_ensures();
    if candidates.len() > 0 {
        let rest = candidates.drop_last();
        lemma_occurrences_are_counted(rest, replica);
        rest.to_multiset_ensures();
        assert(candidates =~= rest.push(candidates.last()));
    } else {
        assert(candidates =~= Seq::empty());
    }
}

/// What votes say is what each of them says, in their order.
pub proof fn contents_are_those_of_each_vote(votes: Seq<SWLEVote>, i: int)
    requires
        0 <= i < votes.len(),
    ensures
        contents(votes).len() == votes.len(),
        contents(votes)[i].voter == votes[i].voter,
        contents(votes)[i].determined_leader == votes[i].determined_leader,
        contents(votes)[i].candidates == votes[i].candidates@,
        contents(votes)[i].block_hash == votes[i].block_hash,
        contents(votes)[i].signature == votes[i].signature,
{
}

/// Whether a number of names is more than a third of the other voters, rounded down: one
/// more than there may be faulty voters.
pub open spec fn is_enough(names: nat, n: nat) -> bool {
    names >= (n - 1) / 3 + 1
}

proof fn lemma_selection(
    list: Map<u64, LeaderInfo>,
    votes: Seq<VoteContent>,
    n: nat,
    target: u64,
    selected: Option<PublicKey>,
    replica: PublicKey,
    view: u64,
)
    requires
        selects(list, votes, n, target, selected),
        n > 0,
    ensures
        is_enough(named(votes, replica), n) ==> selected is Some,
        selected matches Some(leader) ==> is_enough(named(votes, leader), n),
        is_enough(named(votes, replica), n) ==> rank(list, target, selected->0) <= rank(
            list,
            target,
            replica,
        ),
        is_enough(named(votes, replica), n) && target <= view && list.contains_key(view)
            && list[view].initial_leader == replica && view < u64::MAX ==> exists|earlier: u64|
            target <= earlier <= view && #[trigger] list.contains_key(earlier)
                && list[earlier].initial_leader == selected->0,
{
    assert(is_enough(named(votes, replica), n) <==> eligible(votes, n, replica));
    if is_enough(named(votes, replica), n) {
        let leader = selected->0;
        rank_is_first_view_led(list, target, replica);
        rank_is_first_view_led(list, target, leader);
        if target <= view && list.contains_key(view) && list[view].initial_leader == replica && view
            < u64::MAX {
            assert(leads_from(list, target, replica, view));
            let earlier = rank(list, target, leader);
            assert(earlier <= view);
            assert(exists|v: u64| leads_from(list, target, leader, v));
            assert(list.contains_key(earlier));
        }
    }
}

/// Every replica that is named often enough counts: where there is one, somebody is selected;
/// who is selected is named often enough; and for every view from the target on that a replica
/// named often enough leads by turns, the selected leader leads that view or an earlier one.
pub proof fn enough_names_select(
    swle: SWLE,
    votes: Vec<SWLEVote>,
    target: u64,
    certificate: LeaderCertificate,
    replica: PublicKey,
    view: u64,
)
    requires
        call_ensures(
            SWLE::select_candidate_and_create_certificate,
            (&swle, votes, target),
            certificate,
        ),
        swle.voter_set@.len() > 0,
    ensures
        certificate.target_view == target,
        certificate.votes == votes,
        named(contents(votes@), replica) >= (swle.voter_set@.len() - 1) / 3 + 1
            ==> certificate.selected_leader is Some,
        certificate.selected_leader matches Some(leader) ==> named(contents(votes@), leader) >= (
        swle.voter_set@.len() - 1) / 3 + 1,
        named(contents(votes@), replica) >= (swle.voter_set@.len() - 1) / 3 + 1 ==> rank(
            swle.leader_list@,
            target,
            certificate.selected_leader->0,
        ) <= rank(swle.leader_list@, target, replica),
        named(contents(votes@), replica) >= (swle.voter_set@.len() - 1) / 3 + 1 && target <= view
            && view < u64::MAX && swle.leader_list@.contains_key(view)
            && swle.leader_list@[view].initial_leader == replica ==> exists|earlier: u64|
            target <= earlier <= view && #[trigger] swle.leader_list@.contains_key(earlier)
                && swle.leader_list@[earlier].initial_leader == certificate.selected_leader->0,
{
    lemma_selection(
        swle.leader_list@,
        contents(votes@),
        swle.voter_set@.len(),
        target,
        certificate.selected_leader,
        replica,
        view,
    );
}

/// A certificate comes if and only if three times the votes are more than twice the other
/// voters. It holds the votes as they were collected.
pub proof fn quorum_makes_a_certificate(
    swle: SWLE,
    target: u64,
    certificate: Option<LeaderCertificate>,
    i: int,
)
    requires
        call_ensures(SWLE::try_generate_certificate, (&swle, target), certificate),
        swle.voter_set@.len() > 0,
    ensures
        !swle.collected_votes@.contains_key(target) ==> certificate is None,
        swle.collected_votes@.contains_key(target) ==> (certificate is Some <==> 3
            * swle.collected_votes@[target]@.len() > 2 * (swle.voter_set@.len() - 1)),
        (certificate matches Some(c) ==> {
            &&& c.target_view == target
            &&& c.votes@.len() == swle.collected_votes@[target]@.len()
            &&& 0 <= i < c.votes@.len() ==> c.votes@[i]@ == swle.collected_votes@[target]@[i]@
        }),
{
    match certificate {
        Some(c) => {
            let votes = swle.collected_votes@[target]@;
            assert(contents(c.votes@).len() == contents(votes).len());
            if 0 <= i < c.votes@.len() {
                assert(contents(c.votes@)[i] == contents(votes)[i]);
            }
        },
        None => {},
    }
}

/// The certificate that comes with a quorum selects by the votes that have been collected:
/// every replica that is named often enough counts.
pub proof fn certificate_selects_by_names(
    swle: SWLE,
    target: u64,
    certificate: LeaderCertificate,
    replica: PublicKey,
    view: u64,
)
    requires
        call_ensures(SWLE::try_generate_certificate, (&swle, target), Some(certificate)),
        swle.voter_set@.len() > 0,
    ensures
        named(contents(swle.collected_votes@[target]@), replica) >= (swle.voter_set@.len() - 1) / 3
            + 1 ==> certificate.selected_leader is Some,
        certificate.selected_leader matches Some(leader) ==> named(
            contents(swle.collected_votes@[target]@),
            leader,
        ) >= (swle.voter_set@.len() - 1) / 3 + 1,
        named(contents(swle.collected_votes@[target]@), replica) >= (swle.voter_set@.len() - 1) / 3
            + 1 && target <= view && view < u64::MAX && swle.leader_list@.contains_key(view)
            && swle.leader_list@[view].initial_leader == replica ==> exists|earlier: u64|
            target <= earlier <= view && #[trigger] swle.leader_list@.contains_key(earlier)
                && swle.leader_list@[earlier].initial_leader == certificate.selected_leader->0,
{
    lemma_selection(
        swle.leader_list@,
        contents(swle.collected_votes@[target]@),
        swle.voter_set@.len(),
        target,
        certificate.selected_leader,
        replica,
        view,
    );
}

/// A vote comes after those collected before it for the same view, and leaves those for other
/// views as they are.
pub proof fn votes_add_up(swle: &mut SWLE, vote: SWLEVote, target: u64, view: u64)
    requires
        call_ensures(SWLE::add_vote, (swle, vote, target), ()),
    ensures
        final(swle).collected_votes@.contains_key(target),
        old(swle).collected_votes@.contains_key(target) ==> final(swle).collected_votes@[target]@
            == old(swle).collected_votes@[target]@.push(vote),
        !old(swle).collected_votes@.contains_key(target) ==> final(swle).collected_votes@[target]@
            == seq![vote],
        view != target ==> (final(swle).collected_votes@.contains_key(view) <==> old(swle).collected_votes@.contains_key(view)),
        view != target && old(swle).collected_votes@.contains_key(view) ==> final(swle).collected_votes@[view] == old(swle).collected_votes@[view],
        *final(swle) == (SWLE { collected_votes: final(swle).collected_votes, ..*old(swle) }),
{
    assert(final(swle).collected_votes@.dom().contains(view) <==> old(swle).collected_votes@.dom().insert(target).contains(view));
    assert(final(swle).collected_votes@.dom().contains(target));
    assert(seq![vote] =~= Seq::<SWLEVote>::empty().push(vote));
}

/// Whether a score is at least one point.
pub open spec fn has_a_point(score: Value) -> bool {
    match score {
        Value::Finite(x) => x >= one(),
        Value::PositiveInfinity => true,
        _ => false,
    }
}

/// Whether the list has a view whose leader by turns has at least one point.
pub open spec fn is_led_with_a_point(swle: SWLE, view: u64) -> bool {
    swle.leader_list@.contains_key(view) && has_a_point(
        held(swle, swle.leader_list@[view].initial_leader),
    )
}

/// Whether the list has a view whose leader by turns would have at least one point if every
/// voter gained one.
pub open spec fn would_be_led_with_a_point(swle: SWLE, view: u64) -> bool {
    let leader = swle.leader_list@[view].initial_leader;
    swle.leader_list@.contains_key(view) && has_a_point(
        if swle.voter_set@.contains(leader) {
            held(swle, leader).plus(points(1))
        } else {
            held(swle, leader)
        },
    )
}

/// Whether replicas are the leaders by turns of some views from `target` to before `end`, in
/// the order of those views.
pub open spec fn lead_in_order(
    list: Map<u64, LeaderInfo>,
    replicas: Seq<PublicKey>,
    views: Seq<u64>,
    target: u64,
    end: int,
) -> bool {
    &&& views.len() == replicas.len()
    &&& forall|i: int|
        0 <= i < views.len() ==> target <= #[trigger] views[i] < end && list.contains_key(views[i])
            && list[views[i]].initial_leader == replicas[i]
    &&& forall|i: int, j: int| 0 <= i < j < views.len() ==> views[i] < views[j]
}

proof fn lemma_qualified_views(
    list: Map<u64, LeaderInfo>,
    scores: Map<PublicKey, Value>,
    target: u64,
    count: nat,
) -> (views: Seq<u64>)
    requires
        target + count <= u64::MAX + 1,
    ensures
        lead_in_order(list, qualified(list, scores, target, count), views, target, target + count),
        forall|view: u64|
            target <= view < target + count ==> (#[trigger] views.contains(view)
                <==> list.contains_key(view) && has_a_point(
                score_of(scores, list[view].initial_leader),
            )),
    decreases count,
{
    constants_are_ones();
    if count == 0 {
        Seq::empty()
    } else {
        let before = (count - 1) as nat;
        let earlier = lemma_qualified_views(list, scores, target, before);
        let last = (target + count - 1) as u64;
        assert(qualifies(score_of(scores, list[last].initial_leader)) <==> has_a_point(
            score_of(scores, list[last].initial_leader),
        ));
        let views = if list.contains_key(last) && has_a_point(
            score_of(scores, list[last].initial_leader),
        ) {
            earlier.push(last)
        } else {
            earlier
        };
        assert forall|view: u64| target <= view < target + count implies (#[trigger] views.contains(
            view,
        ) <==> list.contains_key(view) && has_a_point(
            score_of(scores, list[view].initial_leader),
        )) by {
            if view == last {
                if views.len() > earlier.len() {
                    assert(views[views.len() - 1] == last);
                } else if views.contains(last) {
                    let i = choose|i: int| 0 <= i < views.len() && views[i] == last;
                    assert(earlier[i] < target + before);
                }
            } else {
                if earlier.contains(view) {
                    let i = choose|i: int| 0 <= i < earlier.len() && earlier[i] == view;
                    assert(views[i] == view);
                }
                if views.contains(view) {
                    let i = choose|i: int| 0 <= i < views.len() && views[i] == view;
                    assert(earlier[i] == view);
                }
                assert(earlier.contains(view) <==> views.contains(view));
            }
        }
        views
    }
}

/// Where some view of the turn is led by a replica with a point, the candidates are the
/// leaders by turns of the views of the turn whose leaders have a point, of all these views and
/// of no others, in the order of the views.
pub proof fn candidates_have_a_point(
    swle: SWLE,
    target: u64,
    candidates: Vec<PublicKey>,
    view: u64,
) -> (views: Seq<u64>)
    requires
        call_ensures(SWLE::generate_candidates, (&swle, target), candidates),
        target + swle.voter_set@.len() <= u64::MAX + 1,
        target <= view < target + swle.voter_set@.len(),
        is_led_with_a_point(swle, view),
    ensures
        lead_in_order(
            swle.leader_list@,
            candidates@,
            views,
            target,
            target + swle.voter_set@.len(),
        ),
        forall|v: u64|
            target <= v < target + swle.voter_set@.len() ==> (#[trigger] views.contains(v)
                <==> is_led_with_a_point(swle, v)),
        forall|i: int|
            0 <= i < candidates@.len() ==> has_a_point(held(swle, #[trigger] candidates@[i])),
{
    let n = swle.voter_set@.len();
    let views = lemma_qualified_views(swle.leader_list@, swle.scores(), target, n);
    assert(views.contains(view));
    assert(qualified(swle.leader_list@, swle.scores(), target, n).len() > 0);
    assert forall|i: int| 0 <= i < candidates@.len() implies has_a_point(
        held(swle, #[trigger] candidates@[i]),
    ) by {
        assert(views.contains(views[i]));
    }
    views
}

proof fn lemma_raised_once(
    scores: Map<PublicKey, Value>,
    replicas: Seq<PublicKey>,
    delta: Value,
    k: PublicKey,
)
    requires
        replicas.no_duplicates(),
    ensures
        score_of(raised_all(scores, replicas, delta), k) == (if replicas.contains(k) {
            score_of(scores, k).plus(delta)
        } else {
            score_of(scores, k)
        }),
    decreases replicas.len(),
{
    if replicas.len() > 0 {
        let rest = replicas.drop_last();
        let last = replicas.len() - 1;
        lemma_raised_once(scores, rest, delta, k);
        if rest.contains(k) {
            let i = choose|i: int| 0 <= i < rest.len() && rest[i] == k;
            assert(replicas[i] == k);
            assert(replicas[i] != replicas[last]);
        } else if replicas.contains(k) {
            let i = choose|i: int| 0 <= i < replicas.len() && replicas[i] == k;
            if i < last {
                assert(rest[i] == k);
            }
        } else {
            assert(replicas[last] == replicas.last());
        }
    }
}

/// Where no view of the turn is led by a replica with a point, the candidates are the leaders
/// by turns of the views of the turn whose leaders would have one if every voter gained one, of
/// all these views and of no others, in the order of the views.
pub proof fn candidates_would_have_a_point(
    swle: SWLE,
    target: u64,
    candidates: Vec<PublicKey>,
) -> (views: Seq<u64>)
    requires
        call_ensures(SWLE::generate_candidates, (&swle, target), candidates),
        target + swle.voter_set@.len() <= u64::MAX + 1,
        swle.voter_set@.no_duplicates(),
        forall|v: u64|
            target <= v < target + swle.voter_set@.len() ==> !#[trigger] is_led_with_a_point(
                swle,
                v,
            ),
    ensures
        lead_in_order(
            swle.leader_list@,
            candidates@,
            views,
            target,
            target + swle.voter_set@.len(),
        ),
        forall|v: u64|
            target <= v < target + swle.voter_set@.len() ==> (#[trigger] views.contains(v)
                <==> would_be_led_with_a_point(swle, v)),
{
    let n = swle.voter_set@.len();
    let scores = swle.scores();
    let none = lemma_qualified_views(swle.leader_list@, scores, target, n);
    assert(none.len() == 0) by {
        if none.len() > 0 {
            assert(none.contains(none[0]));
            assert(is_led_with_a_point(swle, none[0]));
        }
    }
    constants_are_ones();
    let raised = raised_all(scores, swle.voter_set@, Value::Finite(one() as int));
    let views = lemma_qualified_views(swle.leader_list@, raised, target, n);
    assert forall|v: u64| target <= v < target + n implies (#[trigger] views.contains(v)
        <==> would_be_led_with_a_point(swle, v)) by {
        let leader = swle.leader_list@[v].initial_leader;
        lemma_raised_once(scores, swle.voter_set@, Value::Finite(one() as int), leader);
        assert(points(1) == Value::Finite(one() as int));
        assert(held(swle, leader) == score_of(scores, leader));
    }
    views
}

/// Where nobody who leads a view of the turn has a point and no score is negative, everybody who
/// leads one stands: the candidates are the leaders by turns of all views of the turn that the
/// list has, in the order of the views, however often the voters are listed.
pub proof fn everybody_stands_if_nobody_has_a_point(
    swle: SWLE,
    target: u64,
    candidates: Vec<PublicKey>,
) -> (views: Seq<u64>)
    requires
        call_ensures(SWLE::generate_candidates, (&swle, target), candidates),
        target + swle.voter_set@.len() <= u64::MAX + 1,
        swle.well_formed(),
        forall|v: u64|
            target <= v < target + swle.voter_set@.len() ==> !#[trigger] is_led_with_a_point(
                swle,
                v,
            ),
    ensures
        lead_in_order(
            swle.leader_list@,
            candidates@,
            views,
            target,
            target + swle.voter_set@.len(),
        ),
        forall|v: u64|
            target <= v < target + swle.voter_set@.len() ==> (#[trigger] views.contains(v)
                <==> swle.leader_list@.contains_key(v)),
{
    let n = swle.voter_set@.len();
    let scores = swle.scores();
    let none = lemma_qualified_views(swle.leader_list@, scores, target, n);
    assert(none.len() == 0) by {
        if none.len() > 0 {
            assert(none.contains(none[0]));
            assert(is_led_with_a_point(swle, none[0]));
        }
    }
    constants_are_ones();
    let raised = raised_all(scores, swle.voter_set@, decode(ALPHA_4));
    lemma_raised_scores_qualify(scores, swle.voter_set@);
    let views = lemma_qualified_views(swle.leader_list@, raised, target, n);
    assert forall|v: u64| target <= v < target + n implies (#[trigger] views.contains(v)
        <==> swle.leader_list@.contains_key(v)) by {
        if swle.leader_list@.contains_key(v) {
            let leader = swle.leader_list@[v].initial_leader;
            assert(0 <= (v - 1) % (n as int) < n);
            assert(swle.voter_set@.contains(leader));
            assert(qualifies(score_of(raised, leader)));
        }
    }
    views
}

/// A view elects for the next turn of views, the window further on: for the place that its own
/// place comes to when the turn is moved round by the number of turns before it. The last view
/// of as many turns as there are voters elects for the last place.
pub proof fn targets_move_round(swle: SWLE, view: u64, target: u64, turns: nat, place: nat)
    requires
        call_ensures(SWLE::compute_target_view, (&swle, view), target),
        place < swle.voter_set@.len(),
        view == turns * swle.voter_set@.len() + place + 1,
    ensures
        place + 1 == swle.voter_set@.len() && (turns + 1) % swle.voter_set@.len() == 0 ==> target
            == swle.window_size + (turns + 2) * swle.voter_set@.len(),
        !(place + 1 == swle.voter_set@.len() && (turns + 1) % swle.voter_set@.len() == 0)
            ==> target == swle.window_size + (turns + 1) * swle.voter_set@.len() + (place + turns)
            % swle.voter_set@.len() + 1,
{
    let n = swle.voter_set@.len();
    lemma_fundamental_div_mod_converse(view - 1, n as int, turns as int, place as int);
    target_rotates_within_next_block(view as nat, n, swle.window_size as nat);
    assert(n * (turns + 1) == (turns + 1) * n) by (nonlinear_arith);
    assert((turns + 2) * n == (turns + 1) * n + n) by (nonlinear_arith);
    assert((turns + 1) * n == turns * n + n) by (nonlinear_arith);
    if place + 1 == n {
        lemma_fundamental_div_mod_converse(view as int, n as int, (turns + 1) as int, 0);
    } else {
        lemma_fundamental_div_mod_converse(view as int, n as int, turns as int, (place + 1) as int);
    }
}

/// Before the first view, the end of the turn after the window is elected for.
pub proof fn target_before_the_first_view(swle: SWLE, target: u64)
    requires
        call_ensures(SWLE::compute_target_view, (&swle, 0u64), target),
        swle.voter_set@.len() > 0,
    ensures
        target == swle.window_size + swle.voter_set@.len(),
{
    let n = swle.voter_set@.len();
    lemma_fundamental_div_mod_converse(0, n as int, 0, 0);
    lemma_fundamental_div_mod_converse(n - 1, n as int, 0, n - 1);
}

/// Whether a view is open and no leader has been elected for any view between it and `target`.
pub open spec fn is_open_up_to(list: Map<u64, LeaderInfo>, view: u64, target: u64) -> bool {
    &&& 1 <= view < target
    &&& list[view].elected_leader is None
    &&& forall|v: u64|
        view < v < target && #[trigger] list.contains_key(v) ==> list[v].elected_leader is None
}

/// An outcome is entered for its target: the selected leader, or the leader by turns where
/// there is none. The open views right before the target get their leaders by turns. Nothing
/// else changes.
pub proof fn outcome_is_entered(swle: &mut SWLE, certificate: LeaderCertificate, view: u64)
    requires
        call_ensures(SWLE::update_leader_list, (swle, &certificate), ()),
    ensures
        final(swle).leader_list@.contains_key(view) <==> old(swle).leader_list@.contains_key(view),
        old(swle).leader_list@.contains_key(view) ==> final(swle).leader_list@[view].initial_leader
            == old(swle).leader_list@[view].initial_leader,
        old(swle).leader_list@.contains_key(view) ==> final(swle).leader_list@[view].elected_leader
            == (if view == certificate.target_view {
            match certificate.selected_leader {
                Some(leader) => Some(leader),
                None => Some(old(swle).leader_list@[view].initial_leader),
            }
        } else if is_open_up_to(old(swle).leader_list@, view, certificate.target_view) {
            Some(old(swle).leader_list@[view].initial_leader)
        } else {
            old(swle).leader_list@[view].elected_leader
        }),
        *final(swle) == (SWLE { leader_list: final(swle).leader_list, ..*old(swle) }),
{
    let list = old(swle).leader_list@;
    let target = certificate.target_view;
    let last = last_elected(list, target as nat);
    lemma_last_elected_is_elected(list, target as nat);
    if list.contains_key(view) && view != target {
        if last < view < target {
            assert forall|v: u64| view < v < target && #[trigger] list.contains_key(v) implies list[
                v
            ].elected_leader is None by {
                lemma_open_since_last_election(list, target as nat, v);
            }
        } else if 1 <= view < target && view < last {
            assert(is_elected(list, last as u64));
            assert(list.contains_key(last as u64));
        }
    }
}

/// The move to a view drops the views before it, adds one view, open and led by turns, as the
/// last of those that the window and two turns hold from there on, and leaves the others as
/// they are.
pub proof fn list_moves_on(swle: &mut SWLE, new_view: u64, view: u64)
    requires
        call_ensures(SWLE::extend_leader_list, (swle, new_view), ()),
        old(swle).voter_set@.len() > 0,
        new_view + old(swle).window_size + 2 * old(swle).voter_set@.len() - 1 <= u64::MAX,
    ensures
        final(swle).leader_list@.contains_key(view) <==> view >= new_view && (old(swle).leader_list@.contains_key(view) || view == new_view + old(swle).window_size + 2 * old(swle).voter_set@.len() - 1),
        view >= new_view && old(swle).leader_list@.contains_key(view) ==> final(swle).leader_list@[view] == old(swle).leader_list@[view],
        final(swle).leader_list@.contains_key(view) && !old(swle).leader_list@.contains_key(view)
            ==> {
            &&& final(swle).leader_list@[view].elected_leader is None
            &&& final(swle).leader_list@[view].initial_leader == old(swle).voter_set@[(view - 1) % (
            old(swle).voter_set@.len() as int)]
        },
        *final(swle) == (SWLE { leader_list: final(swle).leader_list, ..*old(swle) }),
{
}

/// The threshold is the least number of voters that is two thirds of them or more.
pub proof fn threshold_is_two_thirds(voter_set: VoterSet, votes: usize)
    requires
        call_ensures(VoterSet::threshold, (&voter_set,), votes),
    ensures
        3 * votes >= 2 * voter_set@.len(),
        votes > 0 ==> 3 * (votes - 1) < 2 * voter_set@.len(),
{
}

/// Taking a voter out takes the last one and leaves the others in their order; from no voters
/// none comes.
pub proof fn voters_come_out_backwards(voter_set: &mut VoterSet, voter: Option<PublicKey>, i: int)
    requires
        call_ensures(VoterSet::next, (voter_set,), voter),
    ensures
        old(voter_set)@.len() == 0 ==> voter is None && final(voter_set)@.len() == 0,
        old(voter_set)@.len() > 0 ==> voter == Some(old(voter_set)@[old(voter_set)@.len() - 1])
            && final(voter_set)@.len() == old(voter_set)@.len() - 1,
        0 <= i < final(voter_set)@.len() ==> final(voter_set)@[i] == old(voter_set)@[i],
{
}

/// The voters of a set are those that it was made of, in their order.
pub proof fn voters_are_those_given(
    given: Vec<PublicKey>,
    voter_set: VoterSet,
    voters: Vec<PublicKey>,
)
    requires
        call_ensures(VoterSet::new, (given,), voter_set),
        call_ensures(VoterSet::get_voters, (&voter_set,), voters),
    ensures
        voters@ == given@,
{
}

/// A copy of a replica's state leads, scores and has collected what the state has.
pub proof fn copies_are_alike(swle: SWLE, copy: SWLE, view: u64, replica: PublicKey, i: int)
    requires
        call_ensures(SWLE::clone, (&swle,), copy),
    ensures
        copy.id == swle.id,
        copy.voter_set@ == swle.voter_set@,
        copy.current_view == swle.current_view,
        copy.window_size == swle.window_size,
        copy.normalization_counter == swle.normalization_counter,
        copy.theta == swle.theta,
        copy.alpha_1 == swle.alpha_1,
        copy.alpha_3 == swle.alpha_3,
        held(copy, replica) == held(swle, replica),
        copy.leader_list@.contains_key(view) <==> swle.leader_list@.contains_key(view),
        leads(copy, view, replica) <==> leads(swle, view, replica),
        copy.collected_votes@.contains_key(view) <==> swle.collected_votes@.contains_key(view),
        swle.collected_votes@.contains_key(view) ==> {
            &&& copy.collected_votes@[view]@.len() == swle.collected_votes@[view]@.len()
            &&& 0 <= i < swle.collected_votes@[view]@.len() ==> copy.collected_votes@[view]@[i]@
                == swle.collected_votes@[view]@[i]@
        },
{
    assert(copy.collected_votes@.dom().contains(view) <==> swle.collected_votes@.dom().contains(
        view,
    ));
    let (mine, its) = (votes_for(swle, view), votes_for(copy, view));
    assert(contents(its) == contents(mine));
    assert(contents(its).len() == its.len() && contents(mine).len() == mine.len());
    if 0 <= i < mine.len() {
        assert(contents(its)[i] == contents(mine)[i]);
    }
}

/// A table gives back what was set last for a replica and leaves the other replicas alone.
pub proof fn table_gives_back(
    table: &mut ReplicaMap<Binary32>,
    replica: PublicKey,
    score: Binary32,
    other: PublicKey,
    found: Option<Binary32>,
    before: Option<Binary32>,
)
    requires
        call_ensures(ReplicaMap::<Binary32>::get, (&*old(table), &other), before),
        call_ensures(ReplicaMap::<Binary32>::insert, (table, replica, score), ()),
        call_ensures(ReplicaMap::<Binary32>::get, (&*final(table), &other), found),
    ensures
        found == (if other == replica {
            Some(score)
        } else {
            before
        }),
{
}

} // verus!
