//! The automaton model: states with a label and one optional successor per
//! symbol, an alphabet, and a start state.

use vstd::prelude::*;

verus! {

/// What the sample says about the strings that end in a state.
#[derive(Clone, Copy, Debug, PartialEq, Eq, Structural)]
pub enum StateLabel {
    Accepting,
    Rejecting,
    Unknown,
}

/// One state: its label and, for each symbol position of the alphabet, the
/// id of the successor state, if the transition is specified.
#[derive(Clone, Debug, PartialEq, Eq)]
pub struct State {
    pub label: StateLabel,
    pub transitions: Vec<Option<usize>>,
}

/// A deterministic automaton whose states are identified by their position
/// in `states`.
#[derive(Clone, Debug, PartialEq, Eq)]
pub struct DFA {
    pub states: Vec<State>,
    pub alphabet: Vec<usize>,
    pub start_state_id: usize,
}

/// The mathematical content of a [`DFA`].
pub struct DfaView {
    pub labels: Seq<StateLabel>,
    pub trans: Seq<Seq<Option<usize>>>,
    pub alphabet: Seq<usize>,
    pub start: usize,
}

impl DfaView {
    /// Number of states.
    pub open spec fn len(self) -> nat {
        self.labels.len()
    }

    /// Number of symbols.
    pub open spec fn symbols(self) -> nat {
        self.alphabet.len()
    }

    /// Every state has one transition slot per symbol.
    pub open spec fn arity_ok(self) -> bool {
        forall|x: int| 0 <= x < self.trans.len() ==> (#[trigger] self.trans[x]).len() == self.symbols()
    }

    /// No transition leads to an id that is not a state.
    pub open spec fn targets_ok(self) -> bool {
        forall|x: int, s: int|
            0 <= x < self.trans.len() && 0 <= s < self.trans[x].len() ==> match #[trigger] self.trans[x][s] {
                Some(t) => t < self.len(),
                None => true,
            }
    }

    /// The first `upto` states have one slot per symbol and no dangling
    /// target.
    pub open spec fn rows_ok(self, upto: int) -> bool {
        forall|x: int|
            0 <= x < upto ==> {
                &&& (#[trigger] self.trans[x]).len() == self.symbols()
                &&& forall|s: int|
                    0 <= s < self.trans[x].len() ==> match #[trigger] self.trans[x][s] {
                        Some(t) => t < self.len(),
                        None => true,
                    }
            }
    }

    /// Structural well-formedness: the start state exists, the transition
    /// table has the arity of the alphabet, and no target dangles.
    pub open spec fn valid(self) -> bool {
        &&& self.trans.len() == self.len()
        &&& self.start < self.len()
        &&& self.arity_ok()
        &&& self.targets_ok()
    }
}

impl View for DFA {
    type V = DfaView;

    open spec fn view(&self) -> DfaView {
        DfaView {
            labels: Seq::new(self.states.len() as nat, |x: int| self.states[x].label),
            trans: Seq::new(self.states.len() as nat, |x: int| self.states[x].transitions@),
            alphabet: self.alphabet@,
            start: self.start_state_id,
        }
    }
}

impl StateLabel {
    /// The label of a block that holds states labelled `self` and `other`,
    /// where the two do not conflict.
    pub open spec fn join(self, other: StateLabel) -> StateLabel {
        if self == StateLabel::Unknown {
            other
        } else {
            self
        }
    }

    /// One label accepts what the other rejects.
    pub open spec fn conflicts(self, other: StateLabel) -> bool {
        self != StateLabel::Unknown && other != StateLabel::Unknown && self != other
    }

    /// Whether two labels contradict each other.
    pub fn conflicts_with(self, other: StateLabel) -> (r: bool)
        ensures
            r == self.conflicts(other),
    {
        match (self, other) {
            (StateLabel::Accepting, StateLabel::Rejecting) => true,
            (StateLabel::Rejecting, StateLabel::Accepting) => true,
            _ => false,
        }
    }

    /// The combined label of two labels that may be joined.
    pub fn joined_with(self, other: StateLabel) -> (r: StateLabel)
        ensures
            r == self.join(other),
    {
        match self {
            StateLabel::Unknown => other,
            _ => self,
        }
    }
}

impl State {
    /// A state with the given label and no transition on any of `symbols`
    /// symbols.
    pub fn new(label: StateLabel, symbols: usize) -> (r: State)
        ensures
            r.label == label,
            r.transitions@ == Seq::new(symbols as nat, |s: int| None::<usize>),
    {
        let mut transitions: Vec<Option<usize>> = Vec::new();
        let mut s: usize = 0;
        while s < symbols
            invariant
                s <= symbols,
                transitions@ == Seq::new(s as nat, |k: int| None::<usize>),
            decreases symbols - s,
        {
            transitions.push(None);
            s += 1;
            assert(transitions@ =~= Seq::new(s as nat, |k: int| None::<usize>));
        }
        State { label, transitions }
    }
}

impl DFA {
    /// Reports whether the automaton is structurally well-formed; it never
    /// fails on malformed input.
    pub fn is_valid_safe(&self) -> (ok: bool)
        ensures
            ok == self@.valid(),
    {
        let n: usize = self.states.len();
        let k: usize = self.alphabet.len();
        if self.start_state_id >= n {
            return false;
        }
        let mut x: usize = 0;
        while x < n
            invariant
                x <= n,
                n == self.states.len(),
                k == self.alphabet.len(),
                self.start_state_id < n,
                self@.rows_ok(x as int),
            decreases n - x,
        {
            let row = &self.states[x].transitions;
            assert(row@ == self@.trans[x as int]);
            if row.len() != k {
                return false;
            }
            let mut s: usize = 0;
            while s < k
                invariant
                    s <= k,
                    x < n,
                    n == self.states.len(),
                    k == self.alphabet.len(),
                    row@ == self@.trans[x as int],
                    row.len() == k,
                    forall|c: int|
                        0 <= c < s ==> match #[trigger] row@[c] {
                            Some(t) => t < n,
                            None => true,
                        },
                decreases k - s,
            {
                match row[s] {
                    Some(t) => {
                        if t >= n {
                            assert(!self@.targets_ok()) by {
                                let bad = self@.trans[x as int][s as int];
                                assert(bad == Some(t));
                            }
                            return false;
                        }
                    },
                    None => {},
                }
                s += 1;
            }
            x += 1;
        }
        true
    }
}

} // verus!
