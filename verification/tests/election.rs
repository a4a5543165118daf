use swle::binary32::Binary32;
use swle::crypto::Digest;
use swle::crypto::PublicKey;
use swle::crypto::Signature;
use swle::reputation::ALPHA_0;
use swle::reputation::ALPHA_2;
use swle::reputation::ALPHA_4;
use swle::swle::SWLE;
use swle::voters::VoterSet;
use swle::votes::LeaderCertificate;
use swle::votes::SWLEVote;

fn key(i: u128) -> PublicKey {
    PublicKey { high: 0x5157_4c45_0000 + i, low: 7 * i + 1 }
}

fn create_test_voter_set(n: usize) -> VoterSet {
    let voters: Vec<PublicKey> = (0..n as u128).map(key).collect();
    VoterSet::new(voters)
}

fn score(swle: &SWLE, replica: &PublicKey) -> f32 {
    f32::from_bits(swle.reputation_scores.get(replica).unwrap().to_bits())
}

fn number(x: f32) -> Binary32 {
    Binary32::from_bits(x.to_bits())
}

fn vote(voter: PublicKey, candidates: Vec<PublicKey>) -> SWLEVote {
    SWLEVote {
        voter,
        determined_leader: candidates.first().copied().unwrap_or(voter),
        candidates,
        block_hash: Digest { high: 1, low: 2 },
        signature: Signature { r_high: 1, r_low: 2, s_high: 3, s_low: 4 },
    }
}

#[test]
fn test_swle_initialization() {
    let voter_set = create_test_voter_set(4);
    let id = voter_set.voters[0];
    let swle = SWLE::new(id, voter_set, 100);

    assert_eq!(swle.current_view, 1);
    assert_eq!(swle.reputation_scores.len(), 4);
    assert!(swle.leader_list.len() > 0);
}

#[test]
fn test_reputation_scoring() {
    let voter_set = create_test_voter_set(4);
    let id = voter_set.voters[0];
    let mut swle = SWLE::new(id, voter_set.clone(), 100);

    let leader = voter_set.voters[0];

    // R1: a view is entered
    swle.on_enter_view(1);
    assert_eq!(score(&swle, &leader), 0.0);

    // R3: a proposal is finalized
    swle.on_proposal_finalized(leader);
    assert_eq!(score(&swle, &leader), 1.0);

    // R2: a view times out
    swle.on_view_timeout(1);
    let expected_score = f32::max(0.0, 0.0 + f32::from_bits(swle.alpha_1.to_bits()));
    assert_eq!(score(&swle, &leader), expected_score);
}

#[test]
fn test_candidate_generation() {
    let voter_set = create_test_voter_set(4);
    let id = voter_set.voters[0];
    let mut swle = SWLE::new(id, voter_set.clone(), 100);

    for voter in voter_set.iter() {
        swle.update_reputation_score(*voter, number(5.0));
    }

    let candidates = swle.generate_candidates(10);
    assert!(candidates.len() > 0);
    assert!(candidates.len() <= 4);
}

#[test]
fn test_target_view_computation() {
    let voter_set = create_test_voter_set(4);
    let id = voter_set.voters[0];
    let swle = SWLE::new(id, voter_set, 4);

    let target = swle.compute_target_view(1);
    assert_eq!(target, 9);

    let target2 = swle.compute_target_view(5);
    assert_eq!(target2, 14);
}

#[test]
fn test_leader_list_update() {
    let voter_set = create_test_voter_set(4);
    let id = voter_set.voters[0];
    let mut swle = SWLE::new(id, voter_set.clone(), 100);

    let certificate = LeaderCertificate {
        target_view: 10,
        selected_leader: Some(voter_set.voters[1]),
        votes: vec![],
    };

    swle.update_leader_list(&certificate);

    if let Some(leader_info) = swle.leader_list.get(&10) {
        assert_eq!(leader_info.elected_leader, Some(voter_set.voters[1]));
    }
}

#[test]
fn test_periodic_normalization() {
    let voter_set = create_test_voter_set(4);
    let id = voter_set.voters[0];
    let mut swle = SWLE::new(id, voter_set.clone(), 100);

    swle.theta = 2;

    let initial_scores: Vec<f32> = voter_set.voters.iter().map(|v| score(&swle, v)).collect();

    swle.on_enter_view(1);
    swle.on_enter_view(2);

    let after_scores: Vec<f32> = voter_set.voters.iter().map(|v| score(&swle, v)).collect();

    assert_ne!(initial_scores, after_scores);
    assert_eq!(after_scores, vec![1.0, 1.0, 2.0, 2.0]);
}

#[test]
fn constants_are_the_numbers_of_the_rules() {
    assert_eq!(f32::from_bits(ALPHA_0), -1.0);
    assert_eq!(f32::from_bits(ALPHA_2), 1.0);
    assert_eq!(f32::from_bits(ALPHA_4), 1.0);
    for n in [1usize, 2, 3, 4, 7, 10, 31, 100] {
        let swle = SWLE::new(key(0), create_test_voter_set(n), 5);
        assert_eq!(f32::from_bits(swle.alpha_1.to_bits()), -1.0 * (n as f32));
        assert_eq!(f32::from_bits(swle.alpha_3.to_bits()), 1.0 / (n as f32));
    }
}

#[test]
fn voter_set_gives_its_voters() {
    let mut set = create_test_voter_set(5);
    assert_eq!(set.get_voters(), set.voters);
    assert_eq!(set.iter().copied().collect::<Vec<PublicKey>>(), set.voters);
    assert_eq!(set.next(), Some(key(4)));
    assert_eq!(set.next(), Some(key(3)));
    assert_eq!(set.voters, vec![key(0), key(1), key(2)]);
    assert_eq!(VoterSet::new(vec![]).next(), None);
}

#[test]
fn threshold_takes_a_third_away() {
    let expected: Vec<usize> = vec![0, 1, 2, 2, 3, 4, 4, 5, 6, 6, 7];
    for (n, threshold) in expected.iter().enumerate() {
        let set = create_test_voter_set(n);
        assert_eq!(set.threshold(), *threshold);
        assert_eq!(set.threshold(), n - (n as f64 / 3.0).floor() as usize);
    }
}

#[test]
fn window_is_rounded_up_to_whole_turns() {
    for (tf, n, window) in [(100, 4, 100), (101, 4, 104), (4, 4, 4), (1, 4, 4), (0, 4, 0), (10, 3, 12)] {
        let swle = SWLE::new(key(0), create_test_voter_set(n), tf);
        assert_eq!(swle.window_size, window);
    }
}

#[test]
fn normalization_period_is_two_hundred_or_ten_turns() {
    assert_eq!(SWLE::new(key(0), create_test_voter_set(4), 1).theta, 200);
    assert_eq!(SWLE::new(key(0), create_test_voter_set(20), 1).theta, 200);
    assert_eq!(SWLE::new(key(0), create_test_voter_set(21), 1).theta, 210);
}

#[test]
fn leader_list_starts_by_turns() {
    let swle = SWLE::new(key(0), create_test_voter_set(4), 8);
    assert_eq!(swle.leader_list.len(), 16);
    for view in 1..=16u64 {
        let info = swle.leader_list.get(&view).unwrap();
        let by_turns = key(((view - 1) % 4) as u128);
        assert_eq!(info.initial_leader, by_turns);
        assert_eq!(info.elected_leader, if view <= 12 { Some(by_turns) } else { None });
        assert_eq!(swle.get_current_leader(view), Some(by_turns));
    }
    assert_eq!(swle.get_current_leader(0), None);
    assert_eq!(swle.get_current_leader(17), None);
}

#[test]
fn every_voter_leads_once_per_turn() {
    let set = create_test_voter_set(5);
    for first in 1..20u64 {
        let mut seen: Vec<PublicKey> = (first..first + 5)
            .map(|view| SWLE::get_initial_leader(view, &set))
            .collect();
        seen.sort_by_key(|k| k.high);
        assert_eq!(seen, set.voters);
        assert_eq!(
            SWLE::get_initial_leader(first, &set),
            SWLE::get_initial_leader(first + 5, &set)
        );
    }
}

#[test]
fn targets_fill_the_next_turn() {
    let swle = SWLE::new(key(0), create_test_voter_set(4), 4);
    let targets: Vec<u64> = (1..=20u64).map(|v| swle.compute_target_view(v)).collect();
    assert_eq!(
        targets,
        vec![9, 10, 11, 12, 14, 15, 16, 13, 19, 20, 17, 18, 24, 21, 22, 24, 25, 26, 27, 28]
    );
    assert_eq!(swle.compute_target_view(0), 8);
    for v in 1..200u64 {
        let target = swle.compute_target_view(v);
        assert!(v + 4 <= target && target <= v + 4 + 7);
    }
}

#[test]
fn scores_never_fall_below_zero() {
    let set = create_test_voter_set(4);
    let mut swle = SWLE::new(key(0), set.clone(), 4);
    swle.on_view_timeout(3);
    assert_eq!(score(&swle, &key(2)), 0.0);
    swle.on_enter_view(3);
    assert_eq!(score(&swle, &key(2)), 0.0);
    swle.update_reputation_score(key(3), number(f32::NEG_INFINITY));
    assert_eq!(score(&swle, &key(3)), 0.0);
    swle.update_reputation_score(key(3), number(f32::NAN));
    assert_eq!(score(&swle, &key(3)), 0.0);
    swle.update_reputation_score(key(3), number(f32::INFINITY));
    assert_eq!(score(&swle, &key(3)), f32::INFINITY);
}

#[test]
fn unknown_replicas_start_from_zero() {
    let mut swle = SWLE::new(key(0), create_test_voter_set(4), 4);
    assert!(swle.reputation_scores.get(&key(9)).is_none());
    swle.on_proposal_finalized(key(9));
    assert_eq!(score(&swle, &key(9)), 1.0);
    assert_eq!(swle.reputation_scores.len(), 5);
}

#[test]
fn entering_an_unknown_view_costs_nobody() {
    let mut swle = SWLE::new(key(0), create_test_voter_set(4), 4);
    swle.on_enter_view(1000);
    swle.on_view_timeout(1000);
    for i in 0..4u128 {
        assert_eq!(score(&swle, &key(i)), 1.0);
    }
    assert_eq!(swle.current_view, 1000);
    assert_eq!(swle.normalization_counter, 1);
}

#[test]
fn helpers_of_a_view_gain_a_share() {
    for n in [3usize, 4, 7, 10, 11] {
        let set = create_test_voter_set(n);
        let mut swle = SWLE::new(key(0), set.clone(), 4);
        let share = 1.0 / (n as f32);
        let mut expected: f32 = 1.0;
        for _ in 0..50 {
            swle.on_view_completed(&set.voters[0..2]);
            expected = f32::max(0.0, expected + share);
            assert_eq!(score(&swle, &key(0)), expected);
            assert_eq!(score(&swle, &key(1)), expected);
            assert_eq!(score(&swle, &key(2)), 1.0);
        }
    }
}

#[test]
fn a_replica_listed_twice_gains_twice() {
    let mut swle = SWLE::new(key(0), create_test_voter_set(4), 4);
    swle.on_view_completed(&[key(1), key(1)]);
    assert_eq!(score(&swle, &key(1)), 1.5);
}

#[test]
fn finalizing_repays_the_entry() {
    let mut swle = SWLE::new(key(0), create_test_voter_set(4), 4);
    for start in [1.0f32, 1.25, 3.1415927, 16777216.0, 12345.678] {
        swle.reputation_scores.insert(key(1), number(start));
        swle.on_enter_view(2);
        assert_eq!(score(&swle, &key(1)), start - 1.0);
        swle.on_proposal_finalized(key(1));
        assert_eq!(score(&swle, &key(1)), start);
    }
    swle.reputation_scores.insert(key(1), number(0.3));
    swle.on_enter_view(2);
    assert_eq!(score(&swle, &key(1)), 0.0);
    swle.on_proposal_finalized(key(1));
    assert_eq!(score(&swle, &key(1)), 1.0);
}

#[test]
fn normalization_comes_at_the_end_of_a_period() {
    let mut swle = SWLE::new(key(0), create_test_voter_set(4), 4);
    swle.normalization_counter = 198;
    swle.on_enter_view(1000);
    assert_eq!(score(&swle, &key(0)), 1.0);
    swle.on_enter_view(1000);
    for i in 0..4u128 {
        assert_eq!(score(&swle, &key(i)), 2.0);
    }
    assert_eq!(swle.normalization_counter, 200);
}

#[test]
fn candidates_follow_the_views_and_need_a_point() {
    let mut swle = SWLE::new(key(0), create_test_voter_set(4), 8);
    swle.update_reputation_score(key(2), number(-0.5));
    assert_eq!(swle.generate_candidates(6), vec![key(1), key(3), key(0)]);
    assert_eq!(swle.generate_candidates(15), vec![key(3)]);
    assert_eq!(swle.generate_candidates(17), vec![]);
}

#[test]
fn candidates_come_from_a_normalization_when_nobody_qualifies() {
    let set = create_test_voter_set(4);
    let mut swle = SWLE::new(key(0), set.clone(), 8);
    for voter in set.iter() {
        swle.update_reputation_score(*voter, number(-0.75));
    }
    assert_eq!(swle.generate_candidates(2), vec![key(1), key(2), key(3), key(0)]);
    assert_eq!(score(&swle, &key(0)), 0.25);
}

#[test]
fn an_election_fills_the_gap_before_it() {
    let mut swle = SWLE::new(key(0), create_test_voter_set(4), 4);
    let certificate = LeaderCertificate {
        target_view: 11,
        selected_leader: Some(key(0)),
        votes: vec![],
    };
    swle.update_leader_list(&certificate);
    assert_eq!(swle.leader_list[&8].elected_leader, Some(key(3)));
    assert_eq!(swle.leader_list[&9].elected_leader, Some(key(0)));
    assert_eq!(swle.leader_list[&10].elected_leader, Some(key(1)));
    assert_eq!(swle.leader_list[&11].elected_leader, Some(key(0)));
    assert_eq!(swle.leader_list[&11].initial_leader, key(2));
    assert_eq!(swle.leader_list[&12].elected_leader, None);

    swle.update_leader_list(&certificate);
    assert_eq!(swle.leader_list[&11].elected_leader, Some(key(0)));
    assert_eq!(swle.leader_list[&12].elected_leader, None);
}

#[test]
fn an_election_without_selection_goes_by_turns() {
    let mut swle = SWLE::new(key(0), create_test_voter_set(4), 4);
    let certificate = LeaderCertificate { target_view: 10, selected_leader: None, votes: vec![] };
    swle.update_leader_list(&certificate);
    assert_eq!(swle.leader_list[&9].elected_leader, Some(key(0)));
    assert_eq!(swle.leader_list[&10].elected_leader, Some(key(1)));
}

#[test]
fn an_election_for_an_unknown_view_fills_up_to_it() {
    let mut swle = SWLE::new(key(0), create_test_voter_set(4), 4);
    let certificate =
        LeaderCertificate { target_view: 20, selected_leader: Some(key(0)), votes: vec![] };
    swle.update_leader_list(&certificate);
    assert_eq!(swle.leader_list.len(), 12);
    for view in 1..=12u64 {
        assert!(swle.leader_list[&view].elected_leader.is_some());
    }
    let early = LeaderCertificate { target_view: 0, selected_leader: Some(key(1)), votes: vec![] };
    swle.update_leader_list(&early);
    assert_eq!(swle.leader_list.len(), 12);
}

#[test]
fn the_list_moves_on_with_the_views() {
    let mut swle = SWLE::new(key(0), create_test_voter_set(4), 4);
    for view in 1..=30u64 {
        swle.extend_leader_list(view);
        assert_eq!(swle.leader_list.len(), 12);
        for v in view..=view + 11 {
            assert_eq!(swle.leader_list[&v].initial_leader, key(((v - 1) % 4) as u128));
        }
        assert!(swle.leader_list[&(view + 11)].elected_leader.is_none());
        assert!(swle.leader_list.contains_key(&swle.compute_target_view(view)));
    }
    swle.extend_leader_list(30);
    assert_eq!(swle.leader_list.len(), 12);
}

#[test]
fn the_list_holds_the_window_of_the_current_view() {
    let mut swle = SWLE::new(key(0), create_test_voter_set(4), 4);
    let mut views: Vec<u64> = swle.leader_list.keys().copied().collect();
    views.sort();
    assert_eq!(views, (1..=12).collect::<Vec<u64>>());
    swle.on_enter_view(2);
    swle.extend_leader_list(2);
    let mut views: Vec<u64> = swle.leader_list.keys().copied().collect();
    views.sort();
    assert_eq!(views, (2..=13).collect::<Vec<u64>>());
    assert_eq!(swle.leader_list[&13].initial_leader, key(0));
    assert_eq!(swle.leader_list[&13].elected_leader, None);
    let elected =
        LeaderCertificate { target_view: 10, selected_leader: Some(key(3)), votes: vec![] };
    swle.update_leader_list(&elected);
    swle.on_enter_view(3);
    swle.extend_leader_list(3);
    let mut views: Vec<u64> = swle.leader_list.keys().copied().collect();
    views.sort();
    assert_eq!(views, (3..=14).collect::<Vec<u64>>());
    assert_eq!(swle.leader_list[&10].elected_leader, Some(key(3)));
}

#[test]
fn votes_are_collected_in_order() {
    let mut swle = SWLE::new(key(0), create_test_voter_set(4), 4);
    assert!(swle.try_generate_certificate(9).is_none());
    swle.add_vote(vote(key(0), vec![key(1), key(2)]), 9);
    swle.add_vote(vote(key(1), vec![key(2)]), 9);
    swle.add_vote(vote(key(2), vec![key(3)]), 10);
    assert!(swle.try_generate_certificate(9).is_none());
    swle.add_vote(vote(key(3), vec![key(3), key(2)]), 9);
    let certificate = swle.try_generate_certificate(9).unwrap();
    assert_eq!(certificate.target_view, 9);
    assert_eq!(certificate.selected_leader, Some(key(2)));
    let voters: Vec<PublicKey> = certificate.votes.iter().map(|v| v.voter).collect();
    assert_eq!(voters, vec![key(0), key(1), key(3)]);
    assert_eq!(certificate.votes[2].candidates, vec![key(3), key(2)]);
    assert_eq!(certificate.votes[0].block_hash, Digest { high: 1, low: 2 });
    assert_eq!(
        certificate.votes[0].signature,
        Signature { r_high: 1, r_low: 2, s_high: 3, s_low: 4 }
    );
    assert!(swle.try_generate_certificate(10).is_none());
    assert_eq!(certificate.clone().votes.len(), 3);
}

#[test]
fn certificates_need_a_quorum() {
    let quorums: Vec<usize> = vec![1, 1, 2, 3, 3, 4, 5, 5, 6, 7];
    for (i, quorum) in quorums.iter().enumerate() {
        let mut swle = SWLE::new(key(0), create_test_voter_set(i + 1), 4);
        for votes in 1..=*quorum {
            assert!(swle.try_generate_certificate(9).is_none());
            swle.add_vote(vote(key(votes as u128), vec![]), 9);
        }
        let certificate = swle.try_generate_certificate(9).unwrap();
        assert_eq!(certificate.selected_leader, None);
    }
}

#[test]
fn the_earliest_eligible_candidate_is_selected() {
    let swle = SWLE::new(key(0), create_test_voter_set(4), 4);
    let votes = vec![
        vote(key(0), vec![key(1), key(3)]),
        vote(key(1), vec![key(3), key(1)]),
        vote(key(2), vec![key(0)]),
    ];
    let at_six = swle.select_candidate_and_create_certificate(votes.clone(), 6);
    assert_eq!(at_six.selected_leader, Some(key(1)));
    let at_seven = swle.select_candidate_and_create_certificate(votes.clone(), 7);
    assert_eq!(at_seven.selected_leader, Some(key(3)));
    let mut turned = votes.clone();
    turned.reverse();
    let reversed = swle.select_candidate_and_create_certificate(turned, 7);
    assert_eq!(reversed.selected_leader, Some(key(3)));
}

#[test]
fn a_candidate_below_the_bound_is_not_selected() {
    let swle = SWLE::new(key(0), create_test_voter_set(7), 7);
    let two = vec![vote(key(0), vec![key(5)]), vote(key(1), vec![key(5)])];
    assert_eq!(swle.select_candidate_and_create_certificate(two, 3).selected_leader, None);
    let three = vec![
        vote(key(0), vec![key(5)]),
        vote(key(1), vec![key(5), key(4)]),
        vote(key(2), vec![key(4), key(5)]),
    ];
    let certificate = swle.select_candidate_and_create_certificate(three, 3);
    assert_eq!(certificate.selected_leader, Some(key(5)));
    let repeated = vec![vote(key(0), vec![key(6), key(6), key(6)])];
    let certificate = swle.select_candidate_and_create_certificate(repeated, 3);
    assert_eq!(certificate.selected_leader, Some(key(6)));
}

#[test]
fn a_single_eligible_candidate_needs_no_turn() {
    let swle = SWLE::new(key(0), create_test_voter_set(4), 4);
    let votes = vec![vote(key(0), vec![key(9)]), vote(key(1), vec![key(9), key(2)])];
    let certificate = swle.select_candidate_and_create_certificate(votes, 3);
    assert_eq!(certificate.selected_leader, Some(key(9)));
}

#[test]
fn targets_collide_only_at_the_end_of_a_round() {
    for n in 1..7usize {
        let swle = SWLE::new(key(0), create_test_voter_set(n), n);
        let rounds = (n * n) as u64;
        let mut seen: Vec<u64> = Vec::new();
        for v in 1..4 * rounds + 1 {
            let target = swle.compute_target_view(v);
            if n == 1 || v % rounds != 0 {
                assert!(!seen.contains(&target));
            } else {
                assert!(seen.contains(&target));
            }
            seen.push(target);
        }
    }
}

#[test]
fn the_first_turn_elects_for_open_views() {
    for n in 1..8usize {
        let swle = SWLE::new(key(0), create_test_voter_set(n), 2 * n);
        for v in 1..=n as u64 {
            let target = swle.compute_target_view(v);
            assert!(swle.leader_list[&target].elected_leader.is_none());
        }
    }
}

#[test]
fn thresholds_share_a_correct_voter() {
    for n in 1..50usize {
        let faults = (n - 1) / 3;
        let threshold = create_test_voter_set(n).threshold();
        assert!(2 * threshold - n > faults);
        let quorum = 2 * (n - 1) / 3 + 1;
        assert!(faults < quorum && quorum <= n - faults);
        assert_eq!(2 * quorum > n + faults, n % 3 != 2);
        assert_eq!(quorum == threshold, n % 3 != 2);
    }
}

#[test]
fn a_selected_leader_is_named_by_more_than_the_faulty_voters() {
    let swle = SWLE::new(key(0), create_test_voter_set(4), 4);
    let votes = vec![
        vote(key(0), vec![key(3)]),
        vote(key(1), vec![key(2)]),
        vote(key(2), vec![key(2)]),
    ];
    let certificate = swle.select_candidate_and_create_certificate(votes, 1);
    assert_eq!(certificate.selected_leader, Some(key(2)));
    let naming = certificate.votes.iter().filter(|v| v.candidates.contains(&key(2))).count();
    assert_eq!(naming, 2);
}

#[test]
fn scores_stop_growing_at_the_highest() {
    let mut swle = SWLE::new(key(0), create_test_voter_set(4), 4);
    swle.reputation_scores.insert(key(1), number(16777215.0));
    for _ in 0..3 {
        swle.on_proposal_finalized(key(1));
        assert_eq!(score(&swle, &key(1)), 16777216.0);
    }
}

#[test]
fn a_timeout_takes_as_many_points_as_there_are_voters() {
    let mut swle = SWLE::new(key(0), create_test_voter_set(4), 4);
    swle.reputation_scores.insert(key(1), number(6.5));
    swle.on_view_timeout(2);
    assert_eq!(score(&swle, &key(1)), 2.5);
    swle.on_view_timeout(2);
    assert_eq!(score(&swle, &key(1)), 0.0);
}

#[test]
fn a_copy_goes_its_own_way() {
    let mut swle = SWLE::new(key(0), create_test_voter_set(4), 4);
    swle.add_vote(vote(key(1), vec![key(2)]), 9);
    let copy = swle.clone();
    swle.on_enter_view(2);
    swle.add_vote(vote(key(2), vec![key(2)]), 9);
    assert_eq!(copy.current_view, 1);
    assert_eq!(score(&copy, &key(1)), 1.0);
    assert_eq!(score(&swle, &key(1)), 0.0);
    assert_eq!(copy.collected_votes[&9].len(), 1);
    assert_eq!(copy.collected_votes[&9][0].voter, key(1));
    assert_eq!(copy.leader_list.len(), swle.leader_list.len());
    assert_eq!(copy.voter_set.voters, swle.voter_set.voters);
}

#[test]
fn nobody_is_a_candidate_twice() {
    let mut swle = SWLE::new(key(0), create_test_voter_set(4), 4);
    for target in 1..=12u64 {
        let mut candidates = swle.generate_candidates(target);
        assert_eq!(candidates.len() as u64, 4.min(13 - target));
        assert_eq!(candidates[0], key(((target - 1) % 4) as u128));
        candidates.sort_by_key(|k| (k.high, k.low));
        candidates.dedup();
        assert_eq!(candidates.len() as u64, 4.min(13 - target));
    }
    for i in 0..4u128 {
        swle.reputation_scores.insert(key(i), number(0.0));
    }
    assert_eq!(swle.generate_candidates(6), vec![key(1), key(2), key(3), key(0)]);
}

#[test]
fn replicas_with_different_lists_agree() {
    let mut ahead = SWLE::new(key(0), create_test_voter_set(4), 4);
    let behind = SWLE::new(key(1), create_test_voter_set(4), 8);
    ahead.extend_leader_list(2);
    let elected =
        LeaderCertificate { target_view: 9, selected_leader: Some(key(3)), votes: vec![] };
    ahead.update_leader_list(&elected);
    for target in 2..10u64 {
        let votes = vec![
            vote(key(0), vec![key(3), key(1), key(2)]),
            vote(key(1), vec![key(2), key(1), key(3)]),
        ];
        let first = ahead.select_candidate_and_create_certificate(votes.clone(), target);
        let second = behind.select_candidate_and_create_certificate(votes, target);
        assert_eq!(first.selected_leader, second.selected_leader);
        let leader = first.selected_leader.unwrap();
        let expected = (target..target + 4)
            .map(|view| SWLE::get_initial_leader(view, &behind.voter_set))
            .find(|k| *k != key(0))
            .unwrap();
        assert_eq!(leader, expected);
    }
}
