use dfa_learning_toolkit::dfa_learning_toolkit::dfa::{State, StateLabel, DFA};
use dfa_learning_toolkit::dfa_learning_toolkit::state_partition::PartitionError;

fn state(label: StateLabel, transitions: Vec<Option<usize>>) -> State {
    State { label, transitions }
}

fn four_state_apta() -> DFA {
    DFA {
        states: vec![
            state(StateLabel::Unknown, vec![Some(1), Some(2)]),
            state(StateLabel::Accepting, vec![Some(3), None]),
            state(StateLabel::Rejecting, vec![None, None]),
            state(StateLabel::Unknown, vec![None, None]),
        ],
        alphabet: vec![0, 1],
        start_state_id: 0,
    }
}

/// Two branches that spell the same word and end in contrary labels:
/// 0 -0-> 1 -0-> 3 (Accepting) and 0 -1-> 2 -0-> 4 (Rejecting).
fn two_branches() -> DFA {
    DFA {
        states: vec![
            state(StateLabel::Unknown, vec![Some(1), Some(2)]),
            state(StateLabel::Unknown, vec![Some(3), None]),
            state(StateLabel::Unknown, vec![Some(4), None]),
            state(StateLabel::Accepting, vec![None, None]),
            state(StateLabel::Rejecting, vec![None, None]),
        ],
        alphabet: vec![0, 1],
        start_state_id: 0,
    }
}

fn unlabelled(n: usize) -> DFA {
    let mut states = Vec::new();
    for _ in 0..n {
        states.push(state(StateLabel::Unknown, vec![None]));
    }
    DFA { states, alphabet: vec![0], start_state_id: 0 }
}

#[test]
fn merging_accepting_with_rejecting_fails() {
    let apta = four_state_apta();
    assert!(apta.is_valid_safe());
    let mut part = apta.to_state_partition();
    assert_eq!(part.merge_states(1, 2), Ok(false));
    assert_ne!(part.find(1), part.find(2));
    assert_eq!(part.find(1), Some(1));
    assert_eq!(part.find(2), Some(2));
}

#[test]
fn merge_out_of_range_is_an_error() {
    let apta = four_state_apta();
    let mut part = apta.to_state_partition();
    assert_eq!(part.merge_states(0, 4), Err(PartitionError::StateOutOfRange));
    assert_eq!(part.merge_states(9, 1), Err(PartitionError::StateOutOfRange));
    assert_eq!(part.find(4), None);
    assert_eq!(part.log_len(), 0);
    assert_eq!(part.block_count(), 4);
}

#[test]
fn initial_partition_has_one_block_per_state() {
    let apta = four_state_apta();
    let mut part = apta.to_state_partition();
    assert_eq!(part.len(), 4);
    assert_eq!(part.symbols(), 2);
    assert_eq!(part.block_count(), 4);
    assert_eq!(part.labelled_block_count(), 2);
    for x in 0..4 {
        assert_eq!(part.find(x), Some(x));
    }
    assert_eq!(part.block_label(0), Some(StateLabel::Unknown));
    assert_eq!(part.block_label(1), Some(StateLabel::Accepting));
    assert_eq!(part.block_label(2), Some(StateLabel::Rejecting));
    assert_eq!(part.block_label(4), None);
    assert_eq!(part.block_target(0, 0), Some(1));
    assert_eq!(part.block_target(0, 1), Some(2));
    assert_eq!(part.block_target(1, 0), Some(3));
    assert_eq!(part.block_target(1, 1), None);
    assert_eq!(part.block_target(0, 2), None);
    assert_eq!(part.block_target(4, 0), None);
}

#[test]
fn merge_closes_over_forced_pairs() {
    let apta = four_state_apta();
    let mut part = apta.to_state_partition();
    // 0 and 1 both have a transition on symbol 0, to 1 and to 3: merging 0
    // and 1 forces 1 and 3 together.
    assert_eq!(part.merge_states(0, 1), Ok(true));
    assert_eq!(part.find(0), Some(0));
    assert_eq!(part.find(1), Some(0));
    assert_eq!(part.find(3), Some(0));
    assert_eq!(part.find(2), Some(2));
    assert_eq!(part.block_count(), 2);
    assert_eq!(part.block_label(3), Some(StateLabel::Accepting));
    assert_eq!(part.block_target(3, 0), Some(0));
    assert_eq!(part.block_target(1, 1), Some(2));
    assert_eq!(part.labelled_block_count(), 2);
}

#[test]
fn merge_of_states_in_one_block_changes_nothing() {
    let apta = four_state_apta();
    let mut part = apta.to_state_partition();
    assert_eq!(part.merge_states(0, 1), Ok(true));
    assert_eq!(part.merge_states(3, 1), Ok(true));
    assert_eq!(part.merge_states(2, 2), Ok(true));
    assert_eq!(part.block_count(), 2);
}

#[test]
fn conflict_along_matching_paths_is_detected() {
    let apta = two_branches();
    let mut part = apta.to_state_partition();
    // 1 and 2 are unlabelled, but symbol 0 leads from them to 3 and to 4.
    assert_eq!(part.merge_states(1, 2), Ok(false));
    assert_eq!(part.block_label(3), Some(StateLabel::Accepting));
    assert_eq!(part.block_label(4), Some(StateLabel::Rejecting));
    assert_ne!(part.find(3), part.find(4));
    // The join of 1 and 2 that came before the conflict is still there.
    assert_eq!(part.find(1), part.find(2));
}

#[test]
fn larger_block_keeps_its_root() {
    let mut part = unlabelled(4).to_state_partition();
    assert_eq!(part.merge_states(3, 2), Ok(true));
    assert_eq!(part.find(2), Some(3));
    assert_eq!(part.merge_states(0, 2), Ok(true));
    assert_eq!(part.find(0), Some(3));
    assert_eq!(part.merge_states(1, 0), Ok(true));
    assert_eq!(part.find(1), Some(3));
    assert_eq!(part.block_count(), 1);
}

#[test]
fn rollback_restores_the_baseline() {
    let apta = four_state_apta();
    let base = apta.to_state_partition();
    let mut part = base.copy();
    assert_eq!(part.merge_states(0, 1), Ok(true));
    assert_eq!(part.merge_states(0, 2), Ok(false));
    assert!(part.log_len() > 0);
    assert_eq!(part.rollback_changes_from(&base), Ok(()));
    assert_eq!(part.log_len(), 0);
    assert_eq!(part.block_count(), 4);
    for x in 0..4 {
        assert_eq!(part.block_label(x), base.block_label(x));
        for s in 0..2 {
            assert_eq!(part.block_target(x, s), base.block_target(x, s));
        }
    }
    for x in 0..4 {
        assert_eq!(part.find(x), Some(x));
    }
}

#[test]
fn rollback_to_a_later_snapshot_keeps_what_was_committed() {
    let apta = four_state_apta();
    let mut part = apta.to_state_partition();
    assert_eq!(part.merge_states(0, 1), Ok(true));
    let committed = part.copy();
    assert_eq!(committed.log_len(), part.log_len());
    assert_eq!(part.merge_states(3, 2), Ok(false));
    assert_eq!(part.find(3), Some(0));
    assert_eq!(part.rollback_changes_from(&committed), Ok(()));
    assert_eq!(part.log_len(), committed.log_len());
    assert_eq!(part.find(1), Some(0));
    assert_eq!(part.find(3), Some(0));
    assert_eq!(part.find(2), Some(2));
    assert_eq!(part.block_label(0), Some(StateLabel::Accepting));
}

#[test]
fn rollback_after_every_trial_merge() {
    let apta = four_state_apta();
    let part = apta.to_state_partition();
    let mut snapshot = part.copy();
    let mut total = 0;
    let mut valid = 0;
    for i in 0..4 {
        for j in (i + 1)..4 {
            total += 1;
            if snapshot.merge_states(i, j) == Ok(true) {
                valid += 1;
            }
            assert_eq!(snapshot.rollback_changes_from(&part), Ok(()));
            assert_eq!(snapshot.block_count(), 4);
        }
    }
    assert_eq!(total, 6);
    assert_eq!(valid, 5);
}

#[test]
fn rollback_rejects_a_foreign_baseline() {
    let apta = four_state_apta();
    let mut part = apta.to_state_partition();
    let other = unlabelled(4).to_state_partition();
    assert_eq!(part.rollback_changes_from(&other), Err(PartitionError::BaselineMismatch));
    let smaller = unlabelled(3).to_state_partition();
    let mut one_symbol = unlabelled(4).to_state_partition();
    assert_eq!(one_symbol.rollback_changes_from(&smaller), Err(PartitionError::BaselineMismatch));
    let mut ahead = apta.to_state_partition();
    assert_eq!(ahead.merge_states(0, 1), Ok(true));
    assert_eq!(part.rollback_changes_from(&ahead), Err(PartitionError::BaselineMismatch));
    assert_eq!(part.block_count(), 4);
}

#[test]
fn find_is_idempotent() {
    let mut part = unlabelled(5).to_state_partition();
    assert_eq!(part.merge_states(0, 1), Ok(true));
    assert_eq!(part.merge_states(2, 3), Ok(true));
    assert_eq!(part.merge_states(1, 3), Ok(true));
    for x in 0..5 {
        let r = part.find(x).unwrap();
        assert_eq!(part.find(r), Some(r));
        assert_eq!(part.find(x), Some(r));
    }
    assert_eq!(part.find(0), part.find(3));
    assert_ne!(part.find(0), part.find(4));
}

#[test]
fn quotient_of_a_partition() {
    let apta = four_state_apta();
    let mut part = apta.to_state_partition();
    assert_eq!(part.merge_states(0, 1), Ok(true));
    let dfa = part.to_dfa(&apta.alphabet, 3).unwrap();
    assert_eq!(
        dfa,
        DFA {
            states: vec![
                state(StateLabel::Accepting, vec![Some(0), Some(1)]),
                state(StateLabel::Rejecting, vec![None, None]),
            ],
            alphabet: vec![0, 1],
            start_state_id: 0,
        }
    );
    assert!(dfa.is_valid_safe());
    assert_eq!(part.to_dfa(&vec![0], 0), None);
    assert_eq!(part.to_dfa(&apta.alphabet, 4), None);
}

#[test]
fn failed_merge_is_logged() {
    let apta = four_state_apta();
    let mut part = apta.to_state_partition();
    assert_eq!(part.merge_states(1, 2), Ok(false));
    assert!(part.log_len() > 0);
    let base = apta.to_state_partition();
    assert_eq!(part.rollback_changes_from(&base), Ok(()));
    assert_eq!(part.log_len(), 0);
    assert_eq!(part.block_label(1), Some(StateLabel::Accepting));
}

#[test]
fn every_merge_of_two_blocks_that_goes_through_removes_a_block() {
    let mut part = two_branches().to_state_partition();
    let mut blocks = part.block_count();
    assert_eq!(blocks, 5);
    for (i, j) in [(0, 1), (3, 0), (2, 4), (1, 3)] {
        let apart = part.find(i) != part.find(j);
        let before = part.copy();
        match part.merge_states(i, j) {
            Ok(true) => {
                if apart {
                    assert!(part.block_count() < blocks);
                } else {
                    assert_eq!(part.block_count(), blocks);
                }
                blocks = part.block_count();
            }
            _ => {
                assert_eq!(part.rollback_changes_from(&before), Ok(()));
                assert_eq!(part.block_count(), blocks);
            }
        }
    }
    assert!(blocks >= 1);
}
