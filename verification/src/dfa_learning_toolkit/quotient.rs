//! Reading a partition: the label and the transitions of a block, the
//! number of blocks, and the automaton that has the blocks for states.

use vstd::prelude::*;
use crate::dfa_learning_toolkit::dfa::{StateLabel, State, DFA};
use crate::dfa_learning_toolkit::blocks::{fixed_points, labelled_roots, lemma_roots_below, lemma_quotient_valid};
use crate::dfa_learning_toolkit::forest::lemma_blocks_wf;
use crate::dfa_learning_toolkit::state_partition::{StatePartition, copy_of};

verus! {

impl StatePartition {
    /// The label of the block of `x`; `None` if `x` is not a state.
    pub fn block_label(&self, x: usize) -> (l: Option<StateLabel>)
        requires
            self.wf(),
        ensures
            l == (if x < self@.len() {
                Some(self@.blocks().block_label(x as int))
            } else {
                None
            }),
    {
        if x >= self.len() {
            return None;
        }
        let r = self.root_index(x);
        Some(self.stored_label(r))
    }

    /// The root of the block that the block of `x` leads to on the symbol
    /// at position `s`; `None` if it has no such transition, or if `x` is
    /// not a state or `s` not a position of the alphabet.
    pub fn block_target(&self, x: usize, s: usize) -> (t: Option<usize>)
        requires
            self.wf(),
        ensures
            t == (if x < self@.len() && s < self@.symbols() {
                self@.blocks().block_target(x as int, s as int)
            } else {
                None
            }),
    {
        if x >= self.len() || s >= self.symbols() {
            return None;
        }
        let r = self.root_index(x);
        match self.stored_target(r, s) {
            Some(u) => Some(self.root_index(u)),
            None => None,
        }
    }

    /// Number of blocks.
    pub fn block_count(&self) -> (c: usize)
        requires
            self.wf(),
        ensures
            c == self@.blocks().num_blocks(),
    {
        let n = self.len();
        let mut count: usize = 0;
        let mut x: usize = 0;
        while x < n
            invariant
                self.wf(),
                n == self@.len(),
                x <= n,
                count <= x,
                count == fixed_points(self@.blocks().root, x as int),
            decreases n - x,
        {
            if self.is_root(x) {
                count += 1;
            }
            x += 1;
        }
        proof {
            lemma_blocks_wf(self@.forest);
        }
        count
    }

    /// Number of blocks whose label is known.
    pub fn labelled_block_count(&self) -> (c: usize)
        requires
            self.wf(),
        ensures
            c == self@.blocks().num_labelled(),
    {
        let n = self.len();
        let mut count: usize = 0;
        let mut x: usize = 0;
        while x < n
            invariant
                self.wf(),
                n == self@.len(),
                x <= n,
                count <= x,
                count == labelled_roots(self@.blocks().root, self@.blocks().label, x as int),
            decreases n - x,
        {
            if self.is_root(x) {
                match self.stored_label(x) {
                    StateLabel::Unknown => {},
                    _ => {
                        count += 1;
                    },
                }
            }
            x += 1;
        }
        proof {
            lemma_blocks_wf(self@.forest);
        }
        count
    }

    /// The automaton that has the blocks for states: the blocks in the
    /// order of their roots, each with its label and its transitions, over
    /// `alphabet`, starting in the block of `start`. `None` if `alphabet`
    /// has not as many symbols as the partition or `start` is not a state.
    pub fn to_dfa(&self, alphabet: &Vec<usize>, start: usize) -> (d: Option<DFA>)
        requires
            self.wf(),
        ensures
            match d {
                Some(a) => {
                    &&& alphabet.len() == self@.symbols()
                    &&& start < self@.len()
                    &&& a@ == self@.blocks().quotient(alphabet@, start)
                    &&& a@.valid()
                    &&& a@.len() == self@.blocks().num_blocks()
                },
                None => alphabet.len() != self@.symbols() || start >= self@.len(),
            },
    {
        let n = self.len();
        let k = self.symbols();
        if alphabet.len() != k || start >= n {
            return None;
        }
        let ghost b = self@.blocks();
        proof {
            lemma_blocks_wf(self@.forest);
        }
        let mut index: Vec<usize> = Vec::new();
        let mut count: usize = 0;
        let mut x: usize = 0;
        while x < n
            invariant
                self.wf(),
                n == self@.len(),
                b == self@.blocks(),
                x <= n,
                count <= x,
                index.len() == x,
                count == fixed_points(b.root, x as int),
                forall|y: int| 0 <= y < x ==> #[trigger] index[y] == fixed_points(b.root, y),
            decreases n - x,
        {
            index.push(count);
            if self.is_root(x) {
                count += 1;
            }
            x += 1;
        }
        let mut states: Vec<State> = Vec::new();
        x = 0;
        while x < n
            invariant
                self.wf(),
                n == self@.len(),
                k == self@.symbols(),
                b == self@.blocks(),
                b.wf(),
                b.len() == n,
                x <= n,
                index.len() == n,
                forall|y: int| 0 <= y < n ==> #[trigger] index[y] == fixed_points(b.root, y),
                states.len() == b.roots_below(x as int).len(),
                forall|c: int|
                    0 <= c < states.len() ==> (#[trigger] states[c]).label == b.label[b.roots_below(x as int)[c] as int]
                        && states[c].transitions@ == b.quotient_row(b.roots_below(x as int)[c] as int),
            decreases n - x,
        {
            if self.is_root(x) {
                let mut row: Vec<Option<usize>> = Vec::new();
                let mut s: usize = 0;
                while s < k
                    invariant
                        self.wf(),
                        n == self@.len(),
                        k == self@.symbols(),
                        b == self@.blocks(),
                        b.wf(),
                        b.len() == n,
                        x < n,
                        s <= k,
                        index.len() == n,
                        forall|y: int| 0 <= y < n ==> #[trigger] index[y] == fixed_points(b.root, y),
                        row.len() == s,
                        forall|c: int| 0 <= c < s ==> #[trigger] row[c] == b.quotient_row(x as int)[c],
                    decreases k - s,
                {
                    let cell = match self.stored_target(x, s) {
                        Some(t) => {
                            let r = self.root_index(t);
                            Some(index[r])
                        },
                        None => None,
                    };
                    row.push(cell);
                    s += 1;
                }
                assert(row@ =~= b.quotient_row(x as int));
                states.push(State { label: self.stored_label(x), transitions: row });
            }
            x += 1;
        }
        let first = index[self.root_index(start)];
        let a = DFA { states, alphabet: copy_of(alphabet), start_state_id: first };
        proof {
            let q = b.quotient(alphabet@, start);
            lemma_roots_below(b, n as int);
            assert(a@.labels =~= q.labels);
            assert(a@.trans =~= q.trans);
            lemma_quotient_valid(b, alphabet@, start);
        }
        Some(a)
    }
}

} // verus!
