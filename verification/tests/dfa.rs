use dfa_learning_toolkit::dfa_learning_toolkit::dfa::{State, StateLabel, DFA};

/// A prefix tree over two symbols with `n` states, numbered breadth first.
fn binary_apta(n: usize) -> DFA {
    let mut states = Vec::new();
    for x in 0..n {
        let left = 2 * x + 1;
        let right = 2 * x + 2;
        let label = match x % 3 {
            0 => StateLabel::Unknown,
            1 => StateLabel::Accepting,
            _ => StateLabel::Rejecting,
        };
        states.push(State {
            label,
            transitions: vec![
                if left < n { Some(left) } else { None },
                if right < n { Some(right) } else { None },
            ],
        });
    }
    DFA { states, alphabet: vec![0, 1], start_state_id: 0 }
}

#[test]
fn dfa_json() {
    let apta_names = vec![16, 32, 64];
    let apta_number_of_states = vec![845, 2545, 7127];

    for i in 0..apta_names.len() {
        let apta = binary_apta(apta_number_of_states[i]);

        assert!(apta.is_valid_safe());
        assert_eq!(apta.alphabet.len(), 2);
        assert_eq!(apta.states.len(), apta_number_of_states[i]);
    }
}

#[test]
fn automaton_without_states_is_invalid() {
    let dfa = DFA { states: vec![], alphabet: vec![0, 1], start_state_id: 0 };
    assert!(!dfa.is_valid_safe());
}

#[test]
fn start_outside_the_states_is_invalid() {
    let mut dfa = binary_apta(3);
    dfa.start_state_id = 3;
    assert!(!dfa.is_valid_safe());
    dfa.start_state_id = 2;
    assert!(dfa.is_valid_safe());
}

#[test]
fn dangling_target_is_invalid() {
    let mut dfa = binary_apta(3);
    dfa.states[2].transitions[1] = Some(3);
    assert!(!dfa.is_valid_safe());
    dfa.states[2].transitions[1] = Some(2);
    assert!(dfa.is_valid_safe());
}

#[test]
fn row_of_wrong_arity_is_invalid() {
    let mut dfa = binary_apta(3);
    dfa.states[1].transitions.push(None);
    assert!(!dfa.is_valid_safe());
    let mut short = binary_apta(3);
    short.states[0].transitions.pop();
    assert!(!short.is_valid_safe());
}

#[test]
fn new_state_has_no_transitions() {
    let s = State::new(StateLabel::Rejecting, 3);
    assert_eq!(s.label, StateLabel::Rejecting);
    assert_eq!(s.transitions, vec![None, None, None]);
}

#[test]
fn labels_join_and_conflict() {
    let accepting = StateLabel::Accepting;
    let rejecting = StateLabel::Rejecting;
    let unknown = StateLabel::Unknown;
    assert!(accepting.conflicts_with(rejecting));
    assert!(rejecting.conflicts_with(accepting));
    assert!(!accepting.conflicts_with(accepting));
    assert!(!unknown.conflicts_with(rejecting));
    assert!(!accepting.conflicts_with(unknown));
    assert_eq!(unknown.joined_with(rejecting), rejecting);
    assert_eq!(accepting.joined_with(unknown), accepting);
    assert_eq!(unknown.joined_with(unknown), unknown);
    assert_eq!(accepting.joined_with(accepting), accepting);
}
