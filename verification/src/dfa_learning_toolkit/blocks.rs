//! The partition of an automaton's states as a mathematical object: which
//! block each state is in, and the label and transitions that each block has
//! gathered. The merge of two states with everything it forces is defined
//! here as a function of that object.

use vstd::prelude::*;
use crate::dfa_learning_toolkit::dfa::{StateLabel, DfaView};

verus! {

/// How many positions below `upto` hold the value `r`.
pub open spec fn occurrences(root: Seq<usize>, r: usize, upto: int) -> nat
    decreases upto,
{
    if upto <= 0 {
        0
    } else {
        occurrences(root, r, upto - 1) + if root[upto - 1] == r {
            1nat
        } else {
            0nat
        }
    }
}

/// How many positions below `upto` hold their own index.
pub open spec fn fixed_points(root: Seq<usize>, upto: int) -> nat
    decreases upto,
{
    if upto <= 0 {
        0
    } else {
        fixed_points(root, upto - 1) + if root[upto - 1] == upto - 1 {
            1nat
        } else {
            0nat
        }
    }
}

/// How many positions below `upto` hold their own index and have a known
/// label.
pub open spec fn labelled_roots(root: Seq<usize>, label: Seq<StateLabel>, upto: int) -> nat
    decreases upto,
{
    if upto <= 0 {
        0
    } else {
        labelled_roots(root, label, upto - 1) + if root[upto - 1] == upto - 1 && label[upto - 1]
            != StateLabel::Unknown {
            1nat
        } else {
            0nat
        }
    }
}

/// Every pair names two states of an automaton with `n` states.
pub open spec fn pairs_in_range(pairs: Seq<(usize, usize)>, n: nat) -> bool {
    forall|k: int| 0 <= k < pairs.len() ==> (#[trigger] pairs[k]).0 < n && pairs[k].1 < n
}

/// The two states of every pair are in one class.
pub open spec fn pairs_joined(pairs: Seq<(usize, usize)>, class: Seq<usize>) -> bool {
    forall|k: int| 0 <= k < pairs.len() ==> class[(#[trigger] pairs[k]).0 as int] == class[pairs[k].1 as int]
}

/// A partition of the states `0..len()` into blocks. `root[x]` is the state
/// that stands for the block of `x`. `label` and `trans` are kept per state;
/// those of a block are the ones of its root, and those of any other state
/// are what its block had gathered when the state last was a root.
pub struct Blocks {
    pub root: Seq<usize>,
    pub label: Seq<StateLabel>,
    pub trans: Seq<Seq<Option<usize>>>,
    pub symbols: nat,
}

impl Blocks {
    /// Number of states.
    pub open spec fn len(self) -> nat {
        self.root.len()
    }

    /// The state `x` stands for its block.
    pub open spec fn is_root(self, x: int) -> bool {
        0 <= x < self.len() && self.root[x] == x
    }

    /// The representation is sound: roots stand for themselves, every state
    /// has one slot per symbol, and no target dangles.
    pub open spec fn wf(self) -> bool {
        &&& self.len() <= usize::MAX
        &&& self.label.len() == self.len()
        &&& self.trans.len() == self.len()
        &&& forall|x: int|
            0 <= x < self.len() ==> (#[trigger] self.root[x]) < self.len() && self.root[self.root[x] as int]
                == self.root[x]
        &&& forall|x: int| 0 <= x < self.len() ==> (#[trigger] self.trans[x]).len() == self.symbols
        &&& forall|x: int, s: int|
            0 <= x < self.len() && 0 <= s < self.symbols ==> match #[trigger] self.trans[x][s] {
                Some(t) => t < self.len(),
                None => true,
            }
    }

    /// Whether two states are in one block.
    pub open spec fn same_block(self, x: int, y: int) -> bool {
        self.root[x] == self.root[y]
    }

    /// Number of states in the block that `r` stands for.
    pub open spec fn block_size(self, r: usize) -> nat {
        occurrences(self.root, r, self.len() as int)
    }

    /// Number of blocks.
    pub open spec fn num_blocks(self) -> nat {
        fixed_points(self.root, self.len() as int)
    }

    /// The label of the block of `x`.
    pub open spec fn block_label(self, x: int) -> StateLabel {
        self.label[self.root[x] as int]
    }

    /// The block that the block of `x` leads to on symbol `s`, by its root.
    pub open spec fn block_target(self, x: int, s: int) -> Option<usize> {
        match self.trans[self.root[x] as int][s] {
            Some(t) => Some(self.root[t as int]),
            None => None,
        }
    }

    /// The classes given by `class` are made of whole blocks: every state is
    /// in the class of its root.
    pub open spec fn carried_by(self, class: Seq<usize>) -> bool {
        &&& class.len() == self.len()
        &&& forall|x: int| 0 <= x < self.len() ==> class[#[trigger] self.root[x] as int] == class[x]
    }

    /// Every block of this partition lies within one block of `coarser`.
    pub open spec fn refines(self, coarser: Blocks) -> bool {
        self.carried_by(coarser.root)
    }

    /// Whatever transition is kept for a state, the block of the state has
    /// one on that symbol, to the same class.
    pub open spec fn resolved_in(self, class: Seq<usize>) -> bool {
        forall|x: int, s: int|
            0 <= x < self.len() && 0 <= s < self.symbols ==> match #[trigger] self.trans[x][s] {
                Some(t) => match self.trans[self.root[x] as int][s] {
                    Some(u) => class[u as int] == class[t as int],
                    None => false,
                },
                None => true,
            }
    }

    /// The partition is deterministic: on each symbol, all transitions kept
    /// for the states of a block lead into one block, the one that the
    /// block itself leads to.
    pub open spec fn deterministic(self) -> bool {
        self.resolved_in(self.root)
    }

    /// States of one class that both have a transition kept on a symbol
    /// lead to one class.
    pub open spec fn respected_by(self, class: Seq<usize>) -> bool {
        forall|x: int, y: int, s: int|
            #![trigger self.trans[x][s], self.trans[y][s]]
            0 <= x < self.len() && 0 <= y < self.len() && 0 <= s < self.symbols && class[x] == class[y] ==> match (
                self.trans[x][s],
                self.trans[y][s],
            ) {
                (Some(t), Some(u)) => class[t as int] == class[u as int],
                _ => true,
            }
    }

    /// No state has a label kept that differs from the label of its block.
    pub open spec fn labels_agree(self) -> bool {
        forall|x: int|
            0 <= x < self.len() && #[trigger] self.label[x] != StateLabel::Unknown ==> self.label[self.root[x] as int]
                == self.label[x]
    }

    /// The root of the block reached from the block of `x` by the symbols
    /// of `word`, if the transitions are there.
    pub open spec fn walk(self, x: usize, word: Seq<usize>) -> Option<usize>
        decreases word.len(),
    {
        if word.len() == 0 {
            Some(self.root[x as int])
        } else if word[0] >= self.symbols {
            None
        } else {
            match self.trans[self.root[x as int] as int][word[0] as int] {
                Some(t) => self.walk(t, word.skip(1)),
                None => None,
            }
        }
    }

    /// The roots below `upto`, in ascending order.
    pub open spec fn roots_below(self, upto: int) -> Seq<usize>
        decreases upto,
    {
        if upto <= 0 {
            Seq::empty()
        } else if self.root[upto - 1] == upto - 1 {
            self.roots_below(upto - 1).push((upto - 1) as usize)
        } else {
            self.roots_below(upto - 1)
        }
    }

    /// The position of the block of `x` among the blocks in the order of
    /// their roots.
    pub open spec fn block_index(self, x: int) -> nat {
        fixed_points(self.root, self.root[x] as int)
    }

    /// The transitions of the block of the root `r`, each target named by
    /// the position of its block.
    pub open spec fn quotient_row(self, r: int) -> Seq<Option<usize>> {
        Seq::new(
            self.symbols,
            |s: int|
                match self.trans[r][s] {
                    Some(t) => Some(self.block_index(t as int) as usize),
                    None => None,
                },
        )
    }

    /// The automaton that has one state for each block, in the order of the
    /// roots, with the label and the transitions of the block, and that
    /// starts in the block of `start`.
    pub open spec fn quotient(self, alphabet: Seq<usize>, start: usize) -> DfaView {
        let reps = self.roots_below(self.len() as int);
        DfaView {
            labels: Seq::new(reps.len(), |k: int| self.label[reps[k] as int]),
            trans: Seq::new(reps.len(), |k: int| self.quotient_row(reps[k] as int)),
            alphabet: alphabet,
            start: self.block_index(start as int) as usize,
        }
    }

    /// Number of blocks whose label is known.
    pub open spec fn num_labelled(self) -> nat {
        labelled_roots(self.root, self.label, self.len() as int)
    }

    /// The block of `gone` joins the block of `keep`: its states move over,
    /// the labels are joined, and `keep` takes each transition of `gone` on a
    /// symbol on which it had none.
    pub open spec fn absorb(self, keep: usize, gone: usize) -> Blocks {
        Blocks {
            root: Seq::new(
                self.len(),
                |x: int|
                    if self.root[x] == gone {
                        keep
                    } else {
                        self.root[x]
                    },
            ),
            label: self.label.update(keep as int, self.label[keep as int].join(self.label[gone as int])),
            trans: self.trans.update(
                keep as int,
                Seq::new(
                    self.symbols,
                    |s: int|
                        match self.trans[keep as int][s] {
                            Some(t) => Some(t),
                            None => self.trans[gone as int][s],
                        },
                ),
            ),
            symbols: self.symbols,
        }
    }

    /// The pairs of targets that joining `gone` to `keep` forces together:
    /// one for each of the first `upto` symbols on which both have a
    /// transition, in the order of the symbols.
    pub open spec fn forced(self, keep: usize, gone: usize, upto: int) -> Seq<(usize, usize)>
        decreases upto,
    {
        if upto <= 0 {
            Seq::empty()
        } else {
            let rest = self.forced(keep, gone, upto - 1);
            match (self.trans[keep as int][upto - 1], self.trans[gone as int][upto - 1]) {
                (Some(t), Some(u)) => rest.push((t, u)),
                _ => rest,
            }
        }
    }

    /// Which of the two distinct roots stays the root when their blocks are
    /// joined: the one of the larger block, and the first where they are
    /// equal in size.
    pub open spec fn keeps_first(self, a: usize, b: usize) -> bool {
        self.block_size(a) >= self.block_size(b)
    }

    /// One step of a merge on the states `x` and `y`: the partition after
    /// it, the pairs it forces, and whether it went without a conflict.
    /// States of one block need nothing; blocks with conflicting labels are
    /// left as they are.
    pub open spec fn merge_step(self, x: usize, y: usize) -> (Blocks, Seq<(usize, usize)>, bool) {
        let rx = self.root[x as int];
        let ry = self.root[y as int];
        if rx == ry {
            (self, Seq::empty(), true)
        } else if self.label[rx as int].conflicts(self.label[ry as int]) {
            (self, Seq::empty(), false)
        } else if self.keeps_first(rx, ry) {
            (self.absorb(rx, ry), self.forced(rx, ry, self.symbols as int), true)
        } else {
            (self.absorb(ry, rx), self.forced(ry, rx, self.symbols as int), true)
        }
    }

    /// Works off the queue of pairs that have to be joined, first in first
    /// out, each step adding the pairs that it forces. Stops at the first
    /// conflict, with the partition as it then is and `false`.
    pub open spec fn close(self, queue: Seq<(usize, usize)>) -> (Blocks, bool)
        decreases self.num_blocks(), queue.len(),
        when self.wf() && pairs_in_range(queue, self.len())
        via Self::close_decreases
    {
        if queue.len() == 0 {
            (self, true)
        } else {
            let step = self.merge_step(queue[0].0, queue[0].1);
            if !step.2 {
                (self, false)
            } else {
                step.0.close(queue.skip(1) + step.1)
            }
        }
    }

    #[via_fn]
    proof fn close_decreases(self, queue: Seq<(usize, usize)>) {
        if queue.len() != 0 {
            let x = queue[0].0;
            let y = queue[0].1;
            let rx = self.root[x as int];
            let ry = self.root[y as int];
            if rx != ry {
                lemma_absorb_fixed_points(self, rx, ry, self.len() as int);
                lemma_absorb_fixed_points(self, ry, rx, self.len() as int);
            }
        }
    }

    /// The merge of the states `i` and `j` with all that it forces: the
    /// partition it leaves, and whether it went through without a conflict.
    pub open spec fn merge(self, i: usize, j: usize) -> (Blocks, bool) {
        self.close(seq![(i, j)])
    }
}

/// Joining one block to another removes exactly one root.
pub proof fn lemma_absorb_fixed_points(b: Blocks, keep: usize, gone: usize, upto: int)
    requires
        b.wf(),
        b.is_root(keep as int),
        b.is_root(gone as int),
        keep != gone,
        0 <= upto <= b.len(),
    ensures
        fixed_points(b.absorb(keep, gone).root, upto) + (if gone < upto {
            1nat
        } else {
            0nat
        }) == fixed_points(b.root, upto),
    decreases upto,
{
    if upto > 0 {
        lemma_absorb_fixed_points(b, keep, gone, upto - 1);
        let x = upto - 1;
        assert(b.root[b.root[x] as int] == b.root[x]);
    }
}

/// What joining one block to another does to the size of each block.
pub proof fn lemma_absorb_occurrences(b: Blocks, keep: usize, gone: usize, r: usize, upto: int)
    requires
        keep != gone,
        0 <= upto <= b.len(),
    ensures
        occurrences(b.absorb(keep, gone).root, r, upto) == (if r == keep {
            occurrences(b.root, keep, upto) + occurrences(b.root, gone, upto)
        } else if r == gone {
            0
        } else {
            occurrences(b.root, r, upto)
        }),
    decreases upto,
{
    if upto > 0 {
        lemma_absorb_occurrences(b, keep, gone, r, upto - 1);
    }
}

/// Two different values together occur at most once per position.
pub proof fn lemma_occurrences_disjoint(root: Seq<usize>, a: usize, b: usize, upto: int)
    requires
        a != b,
        0 <= upto,
    ensures
        occurrences(root, a, upto) + occurrences(root, b, upto) <= upto,
    decreases upto,
{
    if upto > 0 {
        lemma_occurrences_disjoint(root, a, b, upto - 1);
    }
}

/// A value that some position below `upto` holds occurs at least once.
pub proof fn lemma_occurrences_positive(root: Seq<usize>, r: usize, at: int, upto: int)
    requires
        0 <= at < upto,
        root[at] == r,
    ensures
        occurrences(root, r, upto) >= 1,
    decreases upto,
{
    if at < upto - 1 {
        lemma_occurrences_positive(root, r, at, upto - 1);
    }
}

/// Joining two blocks keeps the representation sound.
pub proof fn lemma_absorb_wf(b: Blocks, keep: usize, gone: usize)
    requires
        b.wf(),
        b.is_root(keep as int),
        b.is_root(gone as int),
        keep != gone,
    ensures
        b.absorb(keep, gone).wf(),
        b.absorb(keep, gone).len() == b.len(),
        b.absorb(keep, gone).symbols == b.symbols,
        b.absorb(keep, gone).num_blocks() + 1 == b.num_blocks(),
{
    let a = b.absorb(keep, gone);
    lemma_absorb_fixed_points(b, keep, gone, b.len() as int);
    assert forall|x: int| 0 <= x < a.len() implies (#[trigger] a.root[x]) < a.len() && a.root[a.root[x] as int]
        == a.root[x] by {
        assert(b.root[b.root[x] as int] == b.root[x]);
    }
    assert forall|x: int, s: int| 0 <= x < a.len() && 0 <= s < a.symbols implies match #[trigger] a.trans[x][s] {
        Some(t) => t < a.len(),
        None => true,
    } by {
        let tk = b.trans[keep as int][s];
        let tg = b.trans[gone as int][s];
        let tx = b.trans[x][s];
    }
}

/// A step of a merge keeps the partition sound. It either leaves the
/// partition as it is and forces nothing, or removes one block.
pub proof fn lemma_merge_step(b: Blocks, x: usize, y: usize)
    requires
        b.wf(),
        x < b.len(),
        y < b.len(),
    ensures
        b.merge_step(x, y).0.wf(),
        b.merge_step(x, y).0.len() == b.len(),
        b.merge_step(x, y).0.symbols == b.symbols,
        pairs_in_range(b.merge_step(x, y).1, b.len()),
        (b.merge_step(x, y).0 == b && b.merge_step(x, y).1.len() == 0) || (b.merge_step(x, y).2 && b.merge_step(
            x,
            y,
        ).0.num_blocks() + 1 == b.num_blocks()),
{
    let rx = b.root[x as int];
    let ry = b.root[y as int];
    assert(b.root[rx as int] == rx);
    assert(b.root[ry as int] == ry);
    if rx != ry && !b.label[rx as int].conflicts(b.label[ry as int]) {
        lemma_absorb_wf(b, rx, ry);
        lemma_absorb_wf(b, ry, rx);
        lemma_forced_in_range(b, rx, ry, b.symbols as int);
        lemma_forced_in_range(b, ry, rx, b.symbols as int);
    }
}

/// The number of roots below a bound grows with the bound, and a root is
/// not counted below itself.
pub proof fn lemma_fixed_points_grow(root: Seq<usize>, low: int, high: int)
    requires
        0 <= low <= high,
    ensures
        fixed_points(root, low) <= fixed_points(root, high),
        fixed_points(root, high) <= high,
        low < high && root[low] == low ==> fixed_points(root, low) < fixed_points(root, high),
    decreases high - low,
{
    if low < high {
        lemma_fixed_points_grow(root, low, high - 1);
    } else {
        lemma_fixed_points_bound(root, high);
    }
}

/// There are no more roots below a bound than states.
pub proof fn lemma_fixed_points_bound(root: Seq<usize>, upto: int)
    requires
        0 <= upto,
    ensures
        fixed_points(root, upto) <= upto,
    decreases upto,
{
    if upto > 0 {
        lemma_fixed_points_bound(root, upto - 1);
    }
}

/// The list of the roots below a bound has one entry for each of them, and
/// each root stands at the position of its block.
pub proof fn lemma_roots_below(b: Blocks, upto: int)
    requires
        0 <= upto <= b.len(),
    ensures
        b.roots_below(upto).len() == fixed_points(b.root, upto),
        forall|k: int|
            0 <= k < b.roots_below(upto).len() ==> {
                let r = #[trigger] b.roots_below(upto)[k];
                r < upto && b.root[r as int] == r && fixed_points(b.root, r as int) == k
            },
    decreases upto,
{
    if upto > 0 {
        lemma_roots_below(b, upto - 1);
    }
}

/// The quotient of a sound partition is a valid automaton with one state
/// for each block.
pub proof fn lemma_quotient_valid(b: Blocks, alphabet: Seq<usize>, start: usize)
    requires
        b.wf(),
        alphabet.len() == b.symbols,
        start < b.len(),
    ensures
        b.quotient(alphabet, start).valid(),
        b.quotient(alphabet, start).len() == b.num_blocks(),
{
    let q = b.quotient(alphabet, start);
    let n = b.len() as int;
    let reps = b.roots_below(n);
    lemma_roots_below(b, n);
    assert forall|x: int| 0 <= x < n implies b.block_index(x) < b.num_blocks() by {
        let r = b.root[x];
        assert(b.root[r as int] == r);
        lemma_fixed_points_grow(b.root, r as int, n);
    }
    assert forall|k: int, s: int| 0 <= k < q.trans.len() && 0 <= s < q.trans[k].len() implies match #[trigger] q.trans[k][s] {
        Some(t) => t < q.len(),
        None => true,
    } by {
        let r = reps[k];
        match b.trans[r as int][s] {
            Some(t) => {
                assert(b.block_index(t as int) < b.num_blocks());
            },
            None => {},
        }
    }
    assert forall|k: int| 0 <= k < q.trans.len() implies (#[trigger] q.trans[k]).len() == q.symbols() by {}
}

/// The pairs that a join forces name states.
pub proof fn lemma_forced_in_range(b: Blocks, keep: usize, gone: usize, upto: int)
    requires
        b.wf(),
        keep < b.len(),
        gone < b.len(),
        0 <= upto <= b.symbols,
    ensures
        pairs_in_range(b.forced(keep, gone, upto), b.len()),
        b.forced(keep, gone, upto).len() <= upto,
    decreases upto,
{
    if upto > 0 {
        lemma_forced_in_range(b, keep, gone, upto - 1);
        let tk = b.trans[keep as int][upto - 1];
        let tg = b.trans[gone as int][upto - 1];
    }
}

} // verus!
