//! Sliding-window leader election.
//!
//! A replica keeps the leaders of the views in a sliding window, the reputation of all
//! replicas, and the votes of the elections that are under way.
use crate::binary32::decode;
use crate::binary32::one;
use crate::binary32::Binary32;
use crate::binary32::Value;
use crate::candidates::candidates;
use crate::candidates::qualified;
use crate::crypto::PublicKey;
use crate::leader_list::current_leader;
use crate::leader_list::extended;
use crate::leader_list::follows_turns;
use crate::leader_list::initial_list;
use crate::leader_list::last_elected;
use crate::leader_list::spans;
use crate::leader_list::with_election;
use crate::leader_list::LeaderInfo;
use crate::properties::leaders::election_keeps_turns;
use crate::properties::scores::change_gives_non_negative_score;
use crate::properties::window::extension_keeps_leaders;
use crate::replica_map::ReplicaMap;
use crate::reputation::changed;
use crate::reputation::changed_all;
use crate::reputation::constants_are_ones;
use crate::reputation::lemma_score_values_insert;
use crate::reputation::non_negative;
use crate::reputation::raised_all;
use crate::reputation::score_values;
use crate::reputation::ALPHA_0;
use crate::reputation::ALPHA_2;
use crate::reputation::ALPHA_4;
use crate::reputation::INITIAL_SCORE;
use crate::rounding::round_ratio;
use crate::target_view::round_up;
use crate::target_view::target_view;
use crate::voters::turn;
use crate::voters::VoterSet;
use crate::votes::contents;
use crate::votes::copy_votes;
use crate::votes::eligible;
use crate::votes::faults;
use crate::votes::leads_from;
use crate::votes::lemma_first_led_is_rank;
use crate::votes::named;
use crate::votes::occurrences;
use crate::votes::quorum;
use crate::votes::rank;
use crate::votes::selects;
use crate::votes::LeaderCertificate;
use crate::votes::SWLEVote;
use std::collections::HashMap;
use vstd::prelude::*;

verus! {

broadcast use vstd::std_specs::hash::group_hash_axioms;

/// The state of the election at one replica.
#[derive(Debug)]
pub struct SWLE {
    /// This replica.
    pub id: PublicKey,
    /// The replicas that vote.
    pub voter_set: VoterSet,
    /// The current view.
    pub current_view: u64,
    /// The size of the sliding window in views, a whole number of turns.
    pub window_size: usize,
    /// The leaders of the views from `current_view` to
    /// `current_view + window_size + 2 * n - 1`, where there are `n` voters.
    pub leader_list: HashMap<u64, LeaderInfo>,
    /// The reputation of the replicas.
    pub reputation_scores: ReplicaMap<Binary32>,
    /// How many views have been entered.
    pub normalization_counter: u64,
    /// The number of views from one normalization to the next: ten turns, but at least 200
    /// views.
    pub theta: u64,
    /// What a leader loses when its view times out (rule R2).
    pub alpha_1: Binary32,
    /// What a replica gains when it has helped a view to complete (rule R4).
    pub alpha_3: Binary32,
    /// The votes collected so far, by the view that they elect for.
    pub collected_votes: HashMap<u64, Vec<SWLEVote>>,
}

/// The number of views from one normalization to the next, for `n` voters: `max(200, 10n)`.
pub open spec fn normalization_period(n: nat) -> nat {
    if 10 * n > 200 {
        10 * n
    } else {
        200
    }
}

impl SWLE {
    /// The scores, by what they stand for.
    pub open spec fn scores(self) -> Map<PublicKey, Value> {
        score_values(self.reputation_scores@)
    }

    /// Whether there are voters, the list has the leaders by turns of those voters, no score
    /// is negative, and a normalization comes at some time.
    pub open spec fn well_formed(self) -> bool {
        &&& self.voter_set@.len() > 0
        &&& self.theta > 0
        &&& follows_turns(self.leader_list@, self.voter_set@)
        &&& non_negative(self.scores())
    }

    /// The state of a replica at the start. The window is `tf` rounded up to whole turns.
    pub fn new(id: PublicKey, voter_set: VoterSet, tf: usize) -> (swle: Self)
        requires
            voter_set@.len() > 0,
            tf + voter_set@.len() <= usize::MAX,
            round_up(tf as nat, voter_set@.len()) + 2 * voter_set@.len() <= usize::MAX,
            10 * voter_set@.len() <= u64::MAX,
        ensures
            swle.id == id,
            swle.voter_set == voter_set,
            swle.current_view == 1,
            swle.window_size == round_up(tf as nat, voter_set@.len()),
            swle.leader_list@ == initial_list(voter_set@, swle.window_size as nat),
            swle.scores() == Map::new(
                |k: PublicKey| voter_set@.contains(k),
                |k: PublicKey| Value::Finite(one() as int),
            ),
            swle.normalization_counter == 0,
            swle.theta == normalization_period(voter_set@.len()),
            swle.alpha_1.value() == Value::Finite(
                -(round_ratio(voter_set@.len() * one(), 1) as int),
            ),
            swle.alpha_3.value() == Value::Finite(
                round_ratio(one() * one(), round_ratio(voter_set@.len() * one(), 1)) as int,
            ),
            swle.collected_votes@ == Map::<u64, Vec<SWLEVote>>::empty(),
            swle.well_formed(),
    {
        let n: usize = voter_set.voters.len();
        let alpha_1: Binary32 = Binary32::from_count(n as u64).negate();
        let alpha_3: Binary32 = Binary32::inverse_of_count(n as u64);
        proof {
            vstd::arithmetic::div_mod::lemma_fundamental_div_mod(tf + n - 1, n as int);
            assert((tf + n - 1) / (n as int) * n <= tf + n - 1) by (nonlinear_arith)
                requires
                    tf + n - 1 == n * ((tf + n - 1) / (n as int)) + (tf + n - 1) % (n as int),
                    (tf + n - 1) % (n as int) >= 0,
            ;
        }
        let window_size: usize = (tf + n - 1) / n * n;
        let theta: u64 = if 10 * n as u64 > 200 {
            10 * n as u64
        } else {
            200
        };

        let mut reputation_scores: ReplicaMap<Binary32> = ReplicaMap::new();
        let initial_score: Binary32 = Binary32::from_bits(INITIAL_SCORE);
        proof {
            constants_are_ones();
            assert(score_values(reputation_scores@) =~= Map::empty());
        }
        let mut i: usize = 0;
        while i < n
            invariant
                i <= n == voter_set@.len(),
                initial_score.value() == Value::Finite(one() as int),
                score_values(reputation_scores@) == Map::new(
                    |k: PublicKey| voter_set@.take(i as int).contains(k),
                    |k: PublicKey| Value::Finite(one() as int),
                ),
            decreases n - i,
        {
            proof {
                lemma_score_values_insert(
                    reputation_scores@,
                    voter_set@[i as int],
                    initial_score,
                );
                let (before, after) = (voter_set@.take(i as int), voter_set@.take(i + 1));
                assert(after =~= before.push(voter_set@[i as int]));
                assert forall|k: PublicKey| after.contains(k) <==> before.contains(k) || k
                    == voter_set@[i as int] by {
                    if before.contains(k) {
                        let j = choose|j: int| 0 <= j < before.len() && before[j] == k;
                        assert(after[j] == k);
                    }
                    assert(after[i as int] == voter_set@[i as int]);
                }
            }
            reputation_scores.insert(voter_set.voters[i], initial_score);
            i = i + 1;
        }
        assert(voter_set@.take(n as int) =~= voter_set@);

        let last: u64 = (window_size + 2 * n) as u64;
        let elected: u64 = (window_size + n) as u64;
        let mut leader_list: HashMap<u64, LeaderInfo> = HashMap::new();
        let mut view: u64 = 0;
        while view < last
            invariant
                view <= last,
                n == voter_set@.len(),
                n > 0,
                last == window_size + 2 * n,
                elected == window_size + n,
                leader_list@ == initial_list(voter_set@, window_size as nat).restrict(
                    Set::new(|v: u64| v <= view),
                ),
            decreases last - view,
        {
            view = view + 1;
            let initial_leader: PublicKey = Self::get_initial_leader(view, &voter_set);
            let elected_leader: Option<PublicKey> = if view <= elected {
                Some(initial_leader)
            } else {
                None
            };
            leader_list.insert(view, LeaderInfo { elected_leader, initial_leader });
        }

        Self {
            id,
            voter_set,
            current_view: 1,
            window_size,
            leader_list,
            reputation_scores,
            normalization_counter: 0,
            theta,
            alpha_1,
            alpha_3,
            collected_votes: HashMap::new(),
        }
    }

    /// The replica that leads a view by turns.
    pub fn get_initial_leader(view: u64, voter_set: &VoterSet) -> (leader: PublicKey)
        requires
            view >= 1,
            voter_set@.len() > 0,
        ensures
            leader == turn(voter_set@, view as int),
    {
        let index: usize = ((view - 1) % (voter_set.voters.len() as u64)) as usize;
        voter_set.voters[index]
    }

    /// The leader of a view: the elected one, else the one by turns; `None` where the view
    /// is not in the list.
    pub fn get_current_leader(&self, view: u64) -> (leader: Option<PublicKey>)
        ensures
            leader == current_leader(self.leader_list@, view),
    {
        match self.leader_list.get(&view) {
            Some(info) => match info.elected_leader {
                Some(leader) => Some(leader),
                None => Some(info.initial_leader),
            },
            None => None,
        }
    }

    /// Changes the score of a replica, down to zero at most.
    pub fn update_reputation_score(&mut self, replica: PublicKey, delta: Binary32)
        ensures
            final(self).scores() == changed(old(self).scores(), replica, delta.value()),
            *final(self) == (SWLE {
                reputation_scores: final(self).reputation_scores,
                ..*old(self)
            }),
            old(self).well_formed() ==> final(self).well_formed(),
    {
        let current_score: Binary32 = match self.reputation_scores.get(&replica) {
            Some(score) => score,
            None => Binary32::from_bits(0),
        };
        let new_score: Binary32 = current_score.plus(delta).max_with_zero();
        proof {
            lemma_score_values_insert(self.reputation_scores@, replica, new_score);
            change_gives_non_negative_score(self.scores(), replica, delta.value());
        }
        self.reputation_scores.insert(replica, new_score);
    }

    /// Raises the scores of all voters (rule R5).
    pub fn periodic_normalization(&mut self)
        ensures
            final(self).scores() == changed_all(
                old(self).scores(),
                old(self).voter_set@,
                decode(ALPHA_4),
            ),
            *final(self) == (SWLE {
                reputation_scores: final(self).reputation_scores,
                ..*old(self)
            }),
            old(self).well_formed() ==> final(self).well_formed(),
    {
        let mut i: usize = 0;
        while i < self.voter_set.voters.len()
            invariant
                i <= self.voter_set@.len(),
                self.scores() == changed_all(
                    old(self).scores(),
                    old(self).voter_set@.take(i as int),
                    decode(ALPHA_4),
                ),
                *self == (SWLE { reputation_scores: self.reputation_scores, ..*old(self) }),
                old(self).well_formed() ==> self.well_formed(),
            decreases self.voter_set@.len() - i,
        {
            let replica: PublicKey = self.voter_set.voters[i];
            self.update_reputation_score(replica, Binary32::from_bits(ALPHA_4));
            i = i + 1;
            assert(old(self).voter_set@.take(i as int).drop_last() =~= old(self).voter_set@.take(
                i - 1,
            ));
        }
        assert(old(self).voter_set@.take(i as int) =~= old(self).voter_set@);
    }

    /// Enters a view: its leader pays for it (rule R1), and at the end of a period all
    /// voters gain (rule R5).
    pub fn on_enter_view(&mut self, view: u64)
        requires
            old(self).normalization_counter < u64::MAX,
            old(self).theta > 0,
        ensures
            final(self).scores() == scores_after_entry(*old(self), view),
            *final(self) == (SWLE {
                reputation_scores: final(self).reputation_scores,
                current_view: view,
                normalization_counter: (old(self).normalization_counter + 1) as u64,
                ..*old(self)
            }),
            old(self).well_formed() ==> final(self).well_formed(),
    {
        if let Some(leader) = self.get_current_leader(view) {
            self.update_reputation_score(leader, Binary32::from_bits(ALPHA_0));
        }
        self.current_view = view;
        self.normalization_counter = self.normalization_counter + 1;
        if self.normalization_counter % self.theta == 0 {
            self.periodic_normalization();
        }
    }

    /// Makes the leader of a view pay for its timeout (rule R2).
    pub fn on_view_timeout(&mut self, view: u64)
        ensures
            final(self).scores() == (match current_leader(old(self).leader_list@, view) {
                Some(leader) => changed(old(self).scores(), leader, old(self).alpha_1.value()),
                None => old(self).scores(),
            }),
            *final(self) == (SWLE {
                reputation_scores: final(self).reputation_scores,
                ..*old(self)
            }),
            old(self).well_formed() ==> final(self).well_formed(),
    {
        if let Some(leader) = self.get_current_leader(view) {
            self.update_reputation_score(leader, self.alpha_1);
        }
    }

    /// Rewards a leader for a finalized proposal (rule R3).
    pub fn on_proposal_finalized(&mut self, leader: PublicKey)
        ensures
            final(self).scores() == changed(old(self).scores(), leader, decode(ALPHA_2)),
            *final(self) == (SWLE {
                reputation_scores: final(self).reputation_scores,
                ..*old(self)
            }),
            old(self).well_formed() ==> final(self).well_formed(),
    {
        self.update_reputation_score(leader, Binary32::from_bits(ALPHA_2));
    }

    /// Rewards the replicas that have helped a view to complete (rule R4).
    pub fn on_view_completed(&mut self, consensus_promoting_replicas: &[PublicKey])
        ensures
            final(self).scores() == changed_all(
                old(self).scores(),
                consensus_promoting_replicas@,
                old(self).alpha_3.value(),
            ),
            *final(self) == (SWLE {
                reputation_scores: final(self).reputation_scores,
                ..*old(self)
            }),
            old(self).well_formed() ==> final(self).well_formed(),
    {
        let ghost replicas = consensus_promoting_replicas@;
        let mut i: usize = 0;
        while i < consensus_promoting_replicas.len()
            invariant
                i <= replicas.len(),
                replicas == consensus_promoting_replicas@,
                self.scores() == changed_all(
                    old(self).scores(),
                    replicas.take(i as int),
                    old(self).alpha_3.value(),
                ),
                *self == (SWLE { reputation_scores: self.reputation_scores, ..*old(self) }),
                old(self).well_formed() ==> self.well_formed(),
            decreases replicas.len() - i,
        {
            self.update_reputation_score(consensus_promoting_replicas[i], self.alpha_3);
            i = i + 1;
            assert(replicas.take(i as int).drop_last() =~= replicas.take(i - 1));
        }
        assert(replicas.take(i as int) =~= replicas);
    }

    /// The replicas that lead a turn of views from `target_view` on and whose score in the
    /// given table qualifies them.
    fn qualified_replicas(&self, scores: &ReplicaMap<Binary32>, target_view: u64) -> (replicas: Vec<
        PublicKey,
    >)
        requires
            target_view + self.voter_set@.len() <= u64::MAX + 1,
        ensures
            replicas@ == qualified(
                self.leader_list@,
                score_values(scores@),
                target_view,
                self.voter_set@.len(),
            ),
    {
        let mut replicas: Vec<PublicKey> = Vec::new();
        let required: Binary32 = Binary32::from_bits(ALPHA_0).negate();
        let n: usize = self.voter_set.voters.len();
        let mut i: usize = 0;
        while i < n
            invariant
                i <= n == self.voter_set@.len(),
                target_view + n <= u64::MAX + 1,
                required.value() == decode(ALPHA_0).negated(),
                replicas@ == qualified(
                    self.leader_list@,
                    score_values(scores@),
                    target_view,
                    i as nat,
                ),
            decreases n - i,
        {
            let view: u64 = target_view + i as u64;
            if let Some(info) = self.leader_list.get(&view) {
                let candidate: PublicKey = info.initial_leader;
                let score: Binary32 = match scores.get(&candidate) {
                    Some(score) => score,
                    None => Binary32::from_bits(0),
                };
                if score.at_least(required) {
                    replicas.push(candidate);
                }
            }
            i = i + 1;
        }
        replicas
    }

    /// The candidates for a view: the replicas that lead a turn from there on and whose
    /// score qualifies them; where there are none, those that a normalization would
    /// qualify.
    pub fn generate_candidates(&self, target_view: u64) -> (replicas: Vec<PublicKey>)
        requires
            target_view + self.voter_set@.len() <= u64::MAX + 1,
        ensures
            replicas@ == candidates(
                self.leader_list@,
                self.scores(),
                self.voter_set@,
                target_view,
            ),
    {
        let replicas: Vec<PublicKey> = self.qualified_replicas(
            &self.reputation_scores,
            target_view,
        );
        if replicas.len() > 0 {
            return replicas;
        }
        let mut scores: ReplicaMap<Binary32> = self.reputation_scores.clone();
        let raise: Binary32 = Binary32::from_bits(ALPHA_4);
        let mut i: usize = 0;
        while i < self.voter_set.voters.len()
            invariant
                i <= self.voter_set@.len(),
                raise.value() == decode(ALPHA_4),
                score_values(scores@) == raised_all(
                    self.scores(),
                    self.voter_set@.take(i as int),
                    decode(ALPHA_4),
                ),
            decreases self.voter_set@.len() - i,
        {
            let replica: PublicKey = self.voter_set.voters[i];
            let current_score: Binary32 = match scores.get(&replica) {
                Some(score) => score,
                None => Binary32::from_bits(0),
            };
            let raised: Binary32 = current_score.plus(raise);
            proof {
                lemma_score_values_insert(scores@, replica, raised);
            }
            scores.insert(replica, raised);
            i = i + 1;
            assert(self.voter_set@.take(i as int).drop_last() =~= self.voter_set@.take(i - 1));
        }
        assert(self.voter_set@.take(i as int) =~= self.voter_set@);
        self.qualified_replicas(&scores, target_view)
    }

    /// The view for which a view elects a leader.
    pub fn compute_target_view(&self, current_view: u64) -> (target: u64)
        requires
            self.voter_set@.len() > 0,
            current_view + self.voter_set@.len() <= u64::MAX,
            target_view(
                current_view as nat,
                self.voter_set@.len(),
                self.window_size as nat,
            ) <= u64::MAX,
        ensures
            target == target_view(
                current_view as nat,
                self.voter_set@.len(),
                self.window_size as nat,
            ),
    {
        let n: u64 = self.voter_set.voters.len() as u64;
        let tz: u64 = self.window_size as u64;
        let shift: u64 = current_view / n % n;
        proof {
            let whole = current_view + n - 1;
            vstd::arithmetic::div_mod::lemma_fundamental_div_mod(whole, n as int);
            assert(whole / (n as int) * n <= whole) by (nonlinear_arith)
                requires
                    whole == n * (whole / (n as int)) + whole % (n as int),
                    whole % (n as int) >= 0,
            ;
        }
        assert(current_view == 0 ==> shift == 0) by {
            vstd::arithmetic::div_mod::lemma_basic_div(0, n as int);
            vstd::arithmetic::div_mod::lemma_small_mod(0, n as nat);
        }
        let end_of_turn: u64 = (current_view + n - 1) / n * n;
        if current_view + shift <= end_of_turn {
            current_view + n + tz + shift
        } else if current_view % n == 0 && shift == 1 {
            current_view + n + tz
        } else {
            current_view + tz + (current_view - 1) / n % n
        }
    }

    /// Enters the outcome of an election into the leader list: the selected leader for the
    /// target view, the leaders by turns for the open views since the last election before
    /// it.
    pub fn update_leader_list(&mut self, certificate: &LeaderCertificate)
        ensures
            final(self).leader_list@ == with_election(
                old(self).leader_list@,
                certificate.target_view,
                certificate.selected_leader,
            ),
            *final(self) == (SWLE { leader_list: final(self).leader_list, ..*old(self) }),
            old(self).well_formed() ==> final(self).well_formed(),
    {
        let target_view: u64 = certificate.target_view;
        let ghost list = self.leader_list@;
        let ghost updated = with_election(list, target_view, certificate.selected_leader);

        let mut v_star: u64 = 0;
        let mut view: u64 = target_view;
        while view > 1
            invariant_except_break
                v_star == 0,
                last_elected(list, target_view as nat) == last_elected(list, view as nat),
            invariant
                view <= target_view,
                list == self.leader_list@,
                *self == *old(self),
            ensures
                v_star == last_elected(list, target_view as nat),
            decreases view,
        {
            view = view - 1;
            if let Some(info) = self.leader_list.get(&view) {
                if info.elected_leader.is_some() {
                    v_star = view;
                    break;
                }
            }
        }

        let selected: Option<LeaderInfo> = match self.leader_list.get(&target_view) {
            Some(info) => {
                let elected_leader: Option<PublicKey> = match certificate.selected_leader {
                    Some(leader) => Some(leader),
                    None => Some(info.initial_leader),
                };
                Some(LeaderInfo { elected_leader, initial_leader: info.initial_leader })
            },
            None => None,
        };
        if let Some(info) = selected {
            self.leader_list.insert(target_view, info);
        }
        let mut next: u64 = v_star;
        while next < target_view && next + 1 < target_view
            invariant
                v_star == last_elected(list, target_view as nat),
                v_star <= next,
                updated == with_election(list, target_view, certificate.selected_leader),
                self.leader_list@ == Map::new(
                    |v: u64| list.contains_key(v),
                    |v: u64|
                        if v <= next || v >= target_view {
                            updated[v]
                        } else {
                            list[v]
                        },
                ),
                *self == (SWLE { leader_list: self.leader_list, ..*old(self) }),
            decreases target_view - next,
        {
            next = next + 1;
            let filled: Option<LeaderInfo> = match self.leader_list.get(&next) {
                Some(info) => {
                    if info.elected_leader.is_none() {
                        let elected_leader: Option<PublicKey> = Some(info.initial_leader);
                        Some(LeaderInfo { elected_leader, initial_leader: info.initial_leader })
                    } else {
                        None
                    }
                },
                None => None,
            };
            if let Some(info) = filled {
                self.leader_list.insert(next, info);
            }
        }
        proof {
            assert(self.leader_list@ =~= updated);
            election_keeps_turns(
                list,
                target_view,
                certificate.selected_leader,
                self.voter_set@,
            );
        }
    }

    /// Moves the leader list on to a view: drops the views that have passed, and adds the
    /// last of the views that a window and two turns hold from `new_view` on, its leader
    /// still open. A list that held this many views from the view before holds them from
    /// `new_view` on.
    pub fn extend_leader_list(&mut self, new_view: u64)
        requires
            new_view + old(self).window_size + 2 * old(self).voter_set@.len() - 1 <= u64::MAX,
            old(self).voter_set@.len() > 0 || (new_view + old(self).window_size > 0 && old(
                self,
            ).leader_list@.contains_key((new_view + old(self).window_size - 1) as u64)),
        ensures
            final(self).leader_list@ == extended(
                old(self).leader_list@,
                old(self).voter_set@,
                old(self).window_size as nat,
                new_view,
            ),
            *final(self) == (SWLE { leader_list: final(self).leader_list, ..*old(self) }),
            old(self).well_formed() ==> final(self).well_formed(),
            old(self).voter_set@.len() > 0 && new_view >= 1 && spans(
                old(self).leader_list@,
                new_view - 1,
                new_view + old(self).window_size + 2 * old(self).voter_set@.len() - 2,
            ) ==> spans(
                final(self).leader_list@,
                new_view as int,
                new_view + old(self).window_size + 2 * old(self).voter_set@.len() - 1,
            ),
    {
        let n: u128 = self.voter_set.voters.len() as u128;
        let new_target_view: u64 = (new_view as u128 + self.window_size as u128 + 2 * n - 1) as u64;
        if !self.leader_list.contains_key(&new_target_view) {
            let initial_leader: PublicKey = Self::get_initial_leader(
                new_target_view,
                &self.voter_set,
            );
            self.leader_list.insert(
                new_target_view,
                LeaderInfo { elected_leader: None, initial_leader },
            );
        }
        let ghost list = self.leader_list@;
        let mut kept: HashMap<u64, LeaderInfo> = HashMap::new();
        for entry in it: self.leader_list.iter()
            invariant
                list == self.leader_list@,
                forall|v: u64| #[trigger]
                    kept@.contains_key(v) ==> v >= new_view && list.contains_key(v) && kept@[v]
                        == list[v],
                forall|v: u64| #[trigger]
                    list.contains_key(v) && v >= new_view ==> kept@.contains_key(v) || exists|i: int|
                        it.index() <= i < it.seq().len() && *(#[trigger] it.seq()[i]).0 == v,
        {
            let (view, info) = entry;
            if *view >= new_view {
                kept.insert(*view, *info);
            }
        }
        self.leader_list = kept;
        proof {
            let expected = extended(
                old(self).leader_list@,
                old(self).voter_set@,
                old(self).window_size as nat,
                new_view,
            );
            assert forall|v: u64| kept@.contains_key(v) <==> expected.contains_key(v) by {
                assert(v >= new_view && list.contains_key(v) ==> kept@.contains_key(v));
                assert(list.contains_key(v) <==> old(self).leader_list@.contains_key(v) || v
                    == new_target_view);
            }
            assert(kept@ =~= expected);
            if self.voter_set@.len() > 0 {
                extension_keeps_leaders(
                    old(self).leader_list@,
                    self.voter_set@,
                    self.window_size as nat,
                    new_view,
                );
            }
        }
    }

    /// Collects a vote for the leader of a view.
    pub fn add_vote(&mut self, vote: SWLEVote, target_view: u64)
        ensures
            final(self).collected_votes@.dom() == old(self).collected_votes@.dom().insert(
                target_view,
            ),
            final(self).collected_votes@[target_view]@ == votes_for(
                *old(self),
                target_view,
            ).push(vote),
            forall|view: u64|
                view != target_view && old(self).collected_votes@.contains_key(view)
                    ==> #[trigger] final(self).collected_votes@[view] == old(
                    self,
                ).collected_votes@[view],
            *final(self) == (SWLE { collected_votes: final(self).collected_votes, ..*old(self) }),
            old(self).well_formed() ==> final(self).well_formed(),
    {
        self.collected_votes.entry(target_view).or_insert(Vec::new()).push(vote);
    }

    /// The first view from `target_view` on that a replica leads by turns; the largest
    /// number where it leads none.
    fn first_view_led(&self, target_view: u64, replica: PublicKey) -> (view: u64)
        ensures
            view == rank(self.leader_list@, target_view, replica),
    {
        let ghost list = self.leader_list@;
        let mut found: bool = false;
        let mut first: u64 = u64::MAX;
        for entry in it: self.leader_list.iter()
            invariant
                list == self.leader_list@,
                found ==> leads_from(list, target_view, replica, first),
                !found ==> first == u64::MAX,
                forall|v: u64| #[trigger]
                    leads_from(list, target_view, replica, v) ==> (found && first <= v) || exists|
                        i: int,
                    |
                        it.index() <= i < it.seq().len() && *(#[trigger] it.seq()[i]).0 == v,
        {
            let (view, info) = entry;
            if *view >= target_view && info.initial_leader == replica {
                if !found || *view < first {
                    first = *view;
                }
                found = true;
            }
        }
        proof {
            if found {
                lemma_first_led_is_rank(list, target_view, replica, first);
            }
        }
        first
    }

    /// How often the votes name each replica as a candidate, up to the largest number.
    fn count_candidates(votes: &Vec<SWLEVote>) -> (count: ReplicaMap<usize>)
        ensures
            forall|k: PublicKey| #[trigger]
                count_of(count@, k) == at_most_max(named(contents(votes@), k)),
    {
        let mut count: ReplicaMap<usize> = ReplicaMap::new();
        let ghost all = contents(votes@);
        let mut i: usize = 0;
        while i < votes.len()
            invariant
                i <= votes@.len(),
                all == contents(votes@),
                forall|k: PublicKey| #[trigger]
                    count_of(count@, k) == at_most_max(named(all.take(i as int), k)),
            decreases votes@.len() - i,
        {
            let candidates: &Vec<PublicKey> = &votes[i].candidates;
            let mut j: usize = 0;
            assert(candidates@.take(0) =~= Seq::empty());
            while j < candidates.len()
                invariant
                    j <= candidates@.len(),
                    forall|k: PublicKey| #[trigger]
                        count_of(count@, k) == at_most_max(
                            named(all.take(i as int), k) + occurrences(
                                candidates@.take(j as int),
                                k,
                            ),
                        ),
                decreases candidates@.len() - j,
            {
                let candidate: PublicKey = candidates[j];
                let so_far: usize = match count.get(&candidate) {
                    Some(so_far) => so_far,
                    None => 0,
                };
                assert(so_far == count_of(count@, candidate));
                assert(candidates@.take(j + 1).drop_last() =~= candidates@.take(j as int));
                let ghost before = count@;
                count.insert(
                    candidate,
                    if so_far < usize::MAX {
                        so_far + 1
                    } else {
                        so_far
                    },
                );
                j = j + 1;
                assert forall|k: PublicKey| #[trigger] count_of(count@, k) == at_most_max(
                    named(all.take(i as int), k) + occurrences(candidates@.take(j as int), k),
                ) by {
                    assert(k != candidate ==> count_of(count@, k) == count_of(before, k));
                }
            }
            assert(candidates@.take(j as int) =~= candidates@);
            assert(all.take(i + 1).drop_last() =~= all.take(i as int));
            assert(all.take(i + 1).last().candidates == candidates@);
            i = i + 1;
        }
        assert(all.take(i as int) =~= all);
        count
    }

    /// Selects the leader of a view from the votes: among the replicas that the votes name
    /// more often than there may be faulty voters, the one that comes first by turns. A
    /// replica that the list does not have as a leader by turns comes last.
    pub fn select_candidate_and_create_certificate(
        &self,
        votes: Vec<SWLEVote>,
        target_view: u64,
    ) -> (certificate: LeaderCertificate)
        requires
            self.voter_set@.len() > 0,
        ensures
            certificate.target_view == target_view,
            certificate.votes == votes,
            selects(
                self.leader_list@,
                contents(votes@),
                self.voter_set@.len(),
                target_view,
                certificate.selected_leader,
            ),
    {
        let f: usize = (self.voter_set.voters.len() - 1) / 3;
        let count: ReplicaMap<usize> = Self::count_candidates(&votes);
        let named_replicas: Vec<PublicKey> = count.replicas();
        let ghost list = self.leader_list@;
        let ghost content = contents(votes@);
        let ghost n = self.voter_set@.len();
        let mut selected_leader: Option<PublicKey> = None;
        let mut lowest: u64 = u64::MAX;
        let mut i: usize = 0;
        while i < named_replicas.len()
            invariant
                i <= named_replicas@.len(),
                f == faults(n),
                0 < n == self.voter_set@.len() <= usize::MAX,
                list == self.leader_list@,
                forall|k: PublicKey| #[trigger] count_of(count@, k) == at_most_max(named(content, k)),
                match selected_leader {
                    Some(leader) => eligible(content, n, leader) && lowest == rank(
                        list,
                        target_view,
                        leader,
                    ),
                    None => true,
                },
                forall|j: int|
                    0 <= j < i && eligible(content, n, #[trigger] named_replicas@[j])
                        ==> selected_leader is Some && lowest <= rank(
                        list,
                        target_view,
                        named_replicas@[j],
                    ),
            decreases named_replicas@.len() - i,
        {
            let replica: PublicKey = named_replicas[i];
            let times: usize = match count.get(&replica) {
                Some(times) => times,
                None => 0,
            };
            assert(times == count_of(count@, replica));
            if times >= f + 1 {
                let first: u64 = self.first_view_led(target_view, replica);
                if selected_leader.is_none() || first < lowest {
                    selected_leader = Some(replica);
                    lowest = first;
                }
            }
            i = i + 1;
        }
        assert forall|k: PublicKey| #[trigger] eligible(content, n, k) implies selected_leader is Some
            && lowest <= rank(list, target_view, k) by {
            assert(count_of(count@, k) >= 1);
            assert(named_replicas@.contains(k));
        }
        LeaderCertificate { target_view, selected_leader, votes }
    }

    /// The certificate for a view, once enough votes have been collected.
    pub fn try_generate_certificate(&self, target_view: u64) -> (certificate: Option<
        LeaderCertificate,
    >)
        requires
            self.collected_votes@.contains_key(target_view) ==> 0 < self.voter_set@.len() && 2 * (
            self.voter_set@.len() - 1) <= usize::MAX,
        ensures
            certificate is Some <==> self.collected_votes@.contains_key(target_view) && votes_for(
                *self,
                target_view,
            ).len() >= quorum(self.voter_set@.len()),
            match certificate {
                Some(certificate) => {
                    &&& certificate.target_view == target_view
                    &&& contents(certificate.votes@) == contents(votes_for(*self, target_view))
                    &&& selects(
                        self.leader_list@,
                        contents(votes_for(*self, target_view)),
                        self.voter_set@.len(),
                        target_view,
                        certificate.selected_leader,
                    )
                },
                None => true,
            },
    {
        if let Some(votes) = self.collected_votes.get(&target_view) {
            let threshold: usize = 2 * (self.voter_set.voters.len() - 1) / 3 + 1;
            if votes.len() >= threshold {
                return Some(
                    self.select_candidate_and_create_certificate(copy_votes(votes), target_view),
                );
            }
        }
        None
    }
}

/// What a table of counts holds for a replica.
spec fn count_of(count: Map<PublicKey, usize>, replica: PublicKey) -> nat {
    if count.contains_key(replica) {
        count[replica] as nat
    } else {
        0
    }
}

/// A count that stops at the largest number.
spec fn at_most_max(count: nat) -> nat {
    if count < usize::MAX {
        count
    } else {
        usize::MAX as nat
    }
}

impl Clone for SWLE {
    fn clone(&self) -> (copy: Self)
        ensures
            copy.id == self.id,
            copy.voter_set@ == self.voter_set@,
            copy.current_view == self.current_view,
            copy.window_size == self.window_size,
            copy.leader_list@ == self.leader_list@,
            copy.reputation_scores@ == self.reputation_scores@,
            copy.normalization_counter == self.normalization_counter,
            copy.theta == self.theta,
            copy.alpha_1 == self.alpha_1,
            copy.alpha_3 == self.alpha_3,
            copy.collected_votes@.dom() == self.collected_votes@.dom(),
            forall|view: u64| #[trigger]
                contents(votes_for(copy, view)) == contents(votes_for(*self, view)),
    {
        let mut collected_votes: HashMap<u64, Vec<SWLEVote>> = HashMap::new();
        let ghost collected = self.collected_votes@;
        for entry in it: self.collected_votes.iter()
            invariant
                collected == self.collected_votes@,
                forall|v: u64| #[trigger]
                    collected_votes@.contains_key(v) ==> collected.contains_key(v) && contents(
                        collected_votes@[v]@,
                    ) == contents(collected[v]@),
                forall|v: u64| #[trigger]
                    collected.contains_key(v) ==> collected_votes@.contains_key(v) || exists|i: int|
                        it.index() <= i < it.seq().len() && *(#[trigger] it.seq()[i]).0 == v,
        {
            let (view, votes) = entry;
            collected_votes.insert(*view, copy_votes(votes));
        }
        proof {
            assert forall|v: u64| collected_votes@.contains_key(v) <==> collected.contains_key(v) by {
                if collected.contains_key(v) {
                    assert(collected_votes@.contains_key(v));
                }
            }
            assert(collected_votes@.dom() =~= collected.dom());
        }
        SWLE {
            id: self.id,
            voter_set: self.voter_set.clone(),
            current_view: self.current_view,
            window_size: self.window_size,
            leader_list: self.leader_list.clone(),
            reputation_scores: self.reputation_scores.clone(),
            normalization_counter: self.normalization_counter,
            theta: self.theta,
            alpha_1: self.alpha_1,
            alpha_3: self.alpha_3,
            collected_votes,
        }
    }
}

/// The votes collected so far for the leader of a view.
pub open spec fn votes_for(swle: SWLE, view: u64) -> Seq<SWLEVote> {
    if swle.collected_votes@.contains_key(view) {
        swle.collected_votes@[view]@
    } else {
        Seq::empty()
    }
}

/// The scores after a replica has entered a view.
pub open spec fn scores_after_entry(swle: SWLE, view: u64) -> Map<PublicKey, Value> {
    let entered = match current_leader(swle.leader_list@, view) {
        Some(leader) => changed(swle.scores(), leader, decode(ALPHA_0)),
        None => swle.scores(),
    };
    if (swle.normalization_counter + 1) % (swle.theta as int) == 0 {
        changed_all(entered, swle.voter_set@, decode(ALPHA_4))
    } else {
        entered
    }
}

} // verus!
