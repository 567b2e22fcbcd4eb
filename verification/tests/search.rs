use dfa_learning_toolkit::dfa_learning_toolkit::dfa::{State, StateLabel, DFA};
use dfa_learning_toolkit::dfa_learning_toolkit::edsm::{edsm_search, exhaustive_edsm};
use dfa_learning_toolkit::dfa_learning_toolkit::merge_data::MergeData;
use dfa_learning_toolkit::dfa_learning_toolkit::rpni::{rpni, rpni_search};

fn node(label: StateLabel, transitions: Vec<Option<usize>>) -> State {
    State { label, transitions }
}

fn small_apta() -> DFA {
    DFA {
        states: vec![
            node(StateLabel::Unknown, vec![Some(1), Some(2)]),
            node(StateLabel::Accepting, vec![Some(3), None]),
            node(StateLabel::Rejecting, vec![None, None]),
            node(StateLabel::Unknown, vec![None, None]),
        ],
        alphabet: vec![0, 1],
        start_state_id: 0,
    }
}

fn small_result() -> DFA {
    DFA {
        states: vec![
            node(StateLabel::Accepting, vec![Some(0), Some(1)]),
            node(StateLabel::Rejecting, vec![None, None]),
        ],
        alphabet: vec![0, 1],
        start_state_id: 0,
    }
}

fn chain() -> DFA {
    DFA {
        states: vec![
            node(StateLabel::Unknown, vec![Some(1)]),
            node(StateLabel::Accepting, vec![Some(2)]),
            node(StateLabel::Accepting, vec![None]),
        ],
        alphabet: vec![7],
        start_state_id: 0,
    }
}

#[test]
fn rpni_on_the_small_apta() {
    let (dfa, data) = rpni(small_apta());
    assert_eq!(dfa, small_result());
    assert_eq!(data.attempted_merges_count, 2);
    assert_eq!(data.valid_merges_count, 1);
    assert!(dfa.is_valid_safe());
}

#[test]
fn rpni_folds_a_chain_into_one_state() {
    let (dfa, data) = rpni(chain());
    assert_eq!(
        dfa,
        DFA { states: vec![node(StateLabel::Accepting, vec![Some(0)])], alphabet: vec![7], start_state_id: 0 }
    );
    assert_eq!(data.attempted_merges_count, 1);
    assert_eq!(data.valid_merges_count, 1);
}

#[test]
fn rpni_is_repeatable() {
    let (first, first_data) = rpni(small_apta());
    let (second, second_data) = rpni(small_apta());
    assert_eq!(first, second);
    assert_eq!(first_data.attempted_merges_count, second_data.attempted_merges_count);
    assert_eq!(first_data.valid_merges_count, second_data.valid_merges_count);
}

#[test]
fn rpni_keeps_a_start_state_that_is_not_the_first() {
    let dfa = DFA {
        states: vec![
            node(StateLabel::Rejecting, vec![None]),
            node(StateLabel::Accepting, vec![Some(0)]),
        ],
        alphabet: vec![0],
        start_state_id: 1,
    };
    let (found, data) = rpni(dfa.clone());
    assert_eq!(found, dfa);
    assert_eq!(data.attempted_merges_count, 1);
    assert_eq!(data.valid_merges_count, 0);
}

#[test]
fn edsm_on_the_small_apta() {
    let (dfa, data) = exhaustive_edsm(small_apta());
    assert_eq!(dfa, small_result());
    assert_eq!(data.attempted_merges_count, 10);
    assert_eq!(data.valid_merges_count, 6);
}

#[test]
fn edsm_prefers_the_merge_with_more_evidence() {
    // 0 and 1 are unlabelled; 2 and 3 are both accepting. Only the merge
    // of 2 and 3 saves a labelled block, so it is committed first although
    // three pairs come before it.
    let dfa = DFA {
        states: vec![
            node(StateLabel::Unknown, vec![None]),
            node(StateLabel::Unknown, vec![None]),
            node(StateLabel::Accepting, vec![None]),
            node(StateLabel::Accepting, vec![None]),
        ],
        alphabet: vec![0],
        start_state_id: 0,
    };
    let mut data = MergeData::new();
    let found = edsm_search(&dfa, &mut data);
    assert_eq!(
        found,
        DFA { states: vec![node(StateLabel::Accepting, vec![None])], alphabet: vec![0], start_state_id: 0 }
    );
    // Rounds of 6, 5 and 4 trial merges, each followed by a commit, and a
    // last round without candidates.
    assert_eq!(data.attempted_merges_count, 18);
    assert_eq!(data.valid_merges_count, 18);
}

#[test]
fn edsm_ends_within_one_round_less_than_states() {
    let (dfa, data) = exhaustive_edsm(chain());
    assert_eq!(dfa.states.len(), 1);
    assert!(data.valid_merges_count >= 1);
    assert!(data.attempted_merges_count >= data.valid_merges_count);
}

#[test]
fn edsm_is_repeatable() {
    let (first, first_data) = exhaustive_edsm(small_apta());
    let (second, second_data) = exhaustive_edsm(small_apta());
    assert_eq!(first, second);
    assert_eq!(first_data.attempted_merges_count, second_data.attempted_merges_count);
    assert_eq!(first_data.valid_merges_count, second_data.valid_merges_count);
}

#[test]
fn searches_add_to_the_counts_they_are_given() {
    let mut data = MergeData::new();
    let apta = small_apta();
    let first = rpni_search(&apta, &mut data);
    assert_eq!(data.attempted_merges_count, 2);
    let second = rpni_search(&apta, &mut data);
    assert_eq!(first, second);
    assert_eq!(data.attempted_merges_count, 4);
    assert_eq!(data.valid_merges_count, 2);
}

#[test]
fn counters_stop_at_the_top() {
    let mut data = MergeData::new();
    data.record(true);
    data.record(false);
    assert_eq!(data.attempted_merges_count, 2);
    assert_eq!(data.valid_merges_count, 1);
    data.attempted_merges_count = u64::MAX;
    data.valid_merges_count = u64::MAX - 1;
    data.record(true);
    data.record(true);
    assert_eq!(data.attempted_merges_count, u64::MAX);
    assert_eq!(data.valid_merges_count, u64::MAX);
}

#[test]
fn new_telemetry_has_counted_nothing_and_taken_no_time() {
    let data = MergeData::new();
    assert_eq!(data.attempted_merges_count, 0);
    assert_eq!(data.valid_merges_count, 0);
    assert_eq!(data.duration, std::time::Duration::new(0, 0));
    assert_eq!(data.duration.as_nanos(), 0);
}
