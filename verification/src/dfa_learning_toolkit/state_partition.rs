//! The state partition: a union-find over the states of an automaton in
//! which every block carries a label and its transitions, every change is
//! logged, and a merge closes over all the merges that it forces.

use vstd::prelude::*;
use crate::dfa_learning_toolkit::dfa::{StateLabel, DFA, DfaView};
use crate::dfa_learning_toolkit::blocks::{occurrences, fixed_points};
use crate::dfa_learning_toolkit::forest::{Forest, roots, ranked, lemma_root_of, lemma_blocks_wf, lemma_forest_compress, lemma_forest_link};
use crate::dfa_learning_toolkit::history::{UndoEntry, PartitionView, lemma_record, lemma_extends_refl, lemma_extends_trans};

verus! {

/// A misuse of a partition that is reported rather than carried out.
#[derive(Clone, Copy, Debug, PartialEq, Eq, Structural)]
pub enum PartitionError {
    /// A state id is not below the number of states.
    StateOutOfRange,
    /// The baseline has other dimensions than the partition, or a longer
    /// log, so the partition cannot have grown out of it.
    BaselineMismatch,
}

/// A partition of the states of an automaton into blocks, with an undo log.
pub struct StatePartition {
    parent: Vec<usize>,
    size: Vec<usize>,
    label: Vec<StateLabel>,
    transitions: Vec<Vec<Option<usize>>>,
    symbols: usize,
    undo_log: Vec<UndoEntry>,
}

impl View for StatePartition {
    type V = PartitionView;

    closed spec fn view(&self) -> PartitionView {
        PartitionView {
            forest: Forest {
                parent: self.parent@,
                size: self.size@,
                label: self.label@,
                trans: Seq::new(self.transitions.len() as nat, |x: int| self.transitions[x]@),
                symbols: self.symbols as nat,
            },
            log: self.undo_log@,
        }
    }
}

/// A copy of a vector of plain values.
pub(crate) fn copy_of<T: Copy>(v: &Vec<T>) -> (r: Vec<T>)
    ensures
        r@ == v@,
{
    let mut r: Vec<T> = Vec::new();
    let mut k: usize = 0;
    while k < v.len()
        invariant
            k <= v.len(),
            r@ == v@.take(k as int),
        decreases v.len() - k,
    {
        r.push(v[k]);
        k += 1;
        assert(r@ =~= v@.take(k as int));
    }
    assert(v@.take(v.len() as int) =~= v@);
    r
}

/// The partition of the states of `d` in which every state is alone.
pub open spec fn initial_partition(d: DfaView) -> PartitionView {
    PartitionView {
        forest: Forest {
            parent: Seq::new(d.len(), |x: int| x as usize),
            size: Seq::new(d.len(), |x: int| 1usize),
            label: d.labels,
            trans: d.trans,
            symbols: d.symbols(),
        },
        log: Seq::empty(),
    }
}

/// Among the first `upto` states of the partition into single states, each
/// state occurs once as a root.
proof fn lemma_identity_occurrences(root: Seq<usize>, r: usize, upto: int)
    requires
        0 <= upto <= root.len(),
        forall|x: int| 0 <= x < root.len() ==> #[trigger] root[x] == x,
    ensures
        occurrences(root, r, upto) == (if r < upto {
            1nat
        } else {
            0nat
        }),
    decreases upto,
{
    if upto > 0 {
        lemma_identity_occurrences(root, r, upto - 1);
    }
}

/// The partition into single states of a valid automaton is sound.
pub proof fn lemma_initial_partition(d: DfaView)
    requires
        d.valid(),
        d.len() <= usize::MAX,
    ensures
        initial_partition(d).wf(),
        initial_partition(d).blocks().root == Seq::new(d.len(), |x: int| x as usize),
        initial_partition(d).blocks().num_blocks() == d.len(),
{
    let v = initial_partition(d);
    let f = v.forest;
    assert(ranked(f.parent, f.size));
    let r = roots(f.parent, f.size);
    assert(r =~= Seq::new(d.len(), |x: int| x as usize));
    assert forall|x: int| 0 <= x < f.len() && #[trigger] f.parent[x] == x implies f.size[x] == occurrences(
        r,
        x as usize,
        f.len() as int,
    ) by {
        lemma_identity_occurrences(r, x as usize, f.len() as int);
    }
    assert forall|x: int, s: int| 0 <= x < f.len() && 0 <= s < f.symbols implies match #[trigger] f.trans[x][s] {
        Some(t) => t < f.len(),
        None => true,
    } by {
        assert(f.trans[x].len() == d.symbols());
    }
    lemma_identity_fixed_points(r, f.len() as int);
}

/// Where every state is its own root, every state is a block.
proof fn lemma_identity_fixed_points(root: Seq<usize>, upto: int)
    requires
        0 <= upto <= root.len(),
        forall|x: int| 0 <= x < root.len() ==> #[trigger] root[x] == x,
    ensures
        fixed_points(root, upto) == upto,
    decreases upto,
{
    if upto > 0 {
        lemma_identity_fixed_points(root, upto - 1);
    }
}

impl DFA {
    /// Builds the partition in which every state is a block of its own,
    /// with the state's label and transitions.
    pub fn to_state_partition(&self) -> (p: StatePartition)
        requires
            self@.valid(),
        ensures
            p@ == initial_partition(self@),
            p.wf(),
    {
        let n: usize = self.states.len();
        let mut parent: Vec<usize> = Vec::new();
        let mut size: Vec<usize> = Vec::new();
        let mut label: Vec<StateLabel> = Vec::new();
        let mut transitions: Vec<Vec<Option<usize>>> = Vec::new();
        let mut x: usize = 0;
        while x < n
            invariant
                x <= n,
                n == self.states.len(),
                parent@ == Seq::new(x as nat, |y: int| y as usize),
                size@ == Seq::new(x as nat, |y: int| 1usize),
                label@ == self@.labels.take(x as int),
                transitions.len() == x,
                forall|y: int| 0 <= y < x ==> (#[trigger] transitions[y])@ == self@.trans[y],
            decreases n - x,
        {
            parent.push(x);
            size.push(1);
            label.push(self.states[x].label);
            transitions.push(copy_of(&self.states[x].transitions));
            x += 1;
            assert(parent@ =~= Seq::new(x as nat, |y: int| y as usize));
            assert(size@ =~= Seq::new(x as nat, |y: int| 1usize));
            assert(label@ =~= self@.labels.take(x as int));
        }
        let p = StatePartition { parent, size, label, transitions, symbols: self.alphabet.len(), undo_log: Vec::new() };
        proof {
            assert(self@.labels.take(n as int) =~= self@.labels);
            assert(p@.forest.trans =~= self@.trans);
            assert(p@.log =~= Seq::empty());
            lemma_initial_partition(self@);
        }
        p
    }
}

impl StatePartition {
    /// The partition is sound, and so is every state that its log leads
    /// back to.
    pub open spec fn wf(&self) -> bool {
        self@.wf()
    }

    /// Number of states.
    pub fn len(&self) -> (n: usize)
        ensures
            n == self@.len(),
    {
        self.parent.len()
    }

    /// Number of symbols.
    pub fn symbols(&self) -> (k: usize)
        ensures
            k == self@.symbols(),
    {
        self.symbols
    }

    /// A deep snapshot, with a log of its own that records the same
    /// history.
    pub fn copy(&self) -> (p: StatePartition)
        ensures
            p@ == self@,
    {
        let mut transitions: Vec<Vec<Option<usize>>> = Vec::new();
        let mut x: usize = 0;
        while x < self.transitions.len()
            invariant
                x <= self.transitions.len(),
                transitions.len() == x,
                forall|y: int| 0 <= y < x ==> (#[trigger] transitions[y])@ == self.transitions[y]@,
            decreases self.transitions.len() - x,
        {
            transitions.push(copy_of(&self.transitions[x]));
            x += 1;
        }
        let p = StatePartition {
            parent: copy_of(&self.parent),
            size: copy_of(&self.size),
            label: copy_of(&self.label),
            transitions,
            symbols: self.symbols,
            undo_log: copy_of(&self.undo_log),
        };
        assert(p@.forest.trans =~= self@.forest.trans);
        p
    }

    /// Number of logged changes.
    pub fn log_len(&self) -> (n: usize)
        ensures
            n == self@.log.len(),
    {
        self.undo_log.len()
    }

    /// Whether the state `x` is the root of its block.
    pub(crate) fn is_root(&self, x: usize) -> (r: bool)
        requires
            self.wf(),
            x < self@.len(),
        ensures
            r == (self@.blocks().root[x as int] == x),
    {
        proof {
            lemma_blocks_wf(self@.forest);
        }
        self.parent[x] == x
    }

    /// The label kept for the state `x`.
    pub(crate) fn stored_label(&self, x: usize) -> (l: StateLabel)
        requires
            self.wf(),
            x < self@.len(),
        ensures
            l == self@.forest.label[x as int],
    {
        self.label[x]
    }

    /// The size kept for the state `x`.
    pub(crate) fn stored_size(&self, x: usize) -> (n: usize)
        requires
            self.wf(),
            x < self@.len(),
        ensures
            n == self@.forest.size[x as int],
    {
        self.size[x]
    }

    /// The transition kept for the state `x` on the symbol `s`.
    pub(crate) fn stored_target(&self, x: usize, s: usize) -> (t: Option<usize>)
        requires
            self.wf(),
            x < self@.len(),
            s < self@.symbols(),
        ensures
            t == self@.forest.trans[x as int][s as int],
            match t {
                Some(u) => u < self@.len(),
                None => true,
            },
    {
        assert(self@.forest.trans[x as int].len() == self@.symbols());
        self.transitions[x][s]
    }

    /// The root of the block of `x`, found without changing anything.
    pub(crate) fn root_index(&self, x: usize) -> (r: usize)
        requires
            self.wf(),
            x < self@.len(),
        ensures
            r == self@.blocks().root[x as int],
            r < self@.len(),
    {
        let mut cur: usize = x;
        while self.parent[cur] != cur
            invariant
                self@.wf(),
                cur < self@.len(),
                self@.forest.root(cur as int) == self@.forest.root(x as int),
            decreases usize::MAX - self@.forest.size[cur as int],
        {
            cur = self.parent[cur];
        }
        proof {
            lemma_root_of(self@.forest.parent, self@.forest.size, cur as int);
        }
        cur
    }

    /// Points `x` straight at its root `r`, and logs it.
    pub(crate) fn record_compress(&mut self, x: usize, r: usize)
        requires
            old(self)@.wf(),
            x < old(self)@.len(),
            r == old(self)@.forest.root(x as int),
        ensures
            final(self)@.wf(),
            final(self)@.extends(old(self)@),
            final(self)@.forest == old(self)@.forest.with_parent(x as int, r),
            final(self)@.blocks() == old(self)@.blocks(),
    {
        let old_parent = self.parent[x];
        let ghost before = self@;
        self.undo_log.push(UndoEntry::Compress { index: x, old_parent });
        self.parent[x] = r;
        proof {
            let g = before.forest.with_parent(x as int, r);
            let e = UndoEntry::Compress { index: x, old_parent };
            lemma_forest_compress(before.forest, x as int);
            assert(self@.forest == g);
            assert(e.undone(g).parent =~= before.forest.parent);
            lemma_record(before, g, e);
            assert(self@ == before.recorded(g, e));
        }
    }

    /// Gives the state `x` the label `l`, and logs it.
    pub(crate) fn record_label(&mut self, x: usize, l: StateLabel)
        requires
            old(self)@.wf(),
            x < old(self)@.len(),
        ensures
            final(self)@.wf(),
            final(self)@.extends(old(self)@),
            final(self)@.forest == old(self)@.forest.with_label(x as int, l),
            final(self)@.log.len() == old(self)@.log.len() + 1,
    {
        let old_label = self.label[x];
        let ghost before = self@;
        self.undo_log.push(UndoEntry::Label { index: x, old_label });
        self.label[x] = l;
        proof {
            let g = before.forest.with_label(x as int, l);
            let e = UndoEntry::Label { index: x, old_label };
            assert(self@.forest == g);
            assert(e.undone(g).label =~= before.forest.label);
            lemma_record(before, g, e);
            assert(self@ == before.recorded(g, e));
        }
    }

    /// Sets the transition of the state `x` on the symbol `s`, and logs it.
    pub(crate) fn record_target(&mut self, x: usize, s: usize, t: Option<usize>)
        requires
            old(self)@.wf(),
            x < old(self)@.len(),
            s < old(self)@.symbols(),
            match t {
                Some(u) => u < old(self)@.len(),
                None => true,
            },
        ensures
            final(self)@.wf(),
            final(self)@.extends(old(self)@),
            final(self)@.forest == old(self)@.forest.with_target(x as int, s as int, t),
    {
        let ghost before = self@;
        assert(before.forest.trans[x as int].len() == before.symbols());
        let old_target = self.transitions[x][s];
        self.undo_log.push(UndoEntry::Transition { index: x, symbol: s, old_target });
        self.transitions[x][s] = t;
        proof {
            let g = before.forest.with_target(x as int, s as int, t);
            let e = UndoEntry::Transition { index: x, symbol: s, old_target };
            assert(self@.forest.trans =~= g.trans);
            assert(self@.forest == g);
            assert forall|y: int, c: int| 0 <= y < g.len() && 0 <= c < g.symbols implies match #[trigger] g.trans[y][c] {
                Some(u) => u < g.len(),
                None => true,
            } by {
                let was = before.forest.trans[y][c];
            }
            assert(g.wf());
            assert(e.undone(g).trans[x as int] =~= before.forest.trans[x as int]);
            assert(e.undone(g).trans =~= before.forest.trans);
            lemma_record(before, g, e);
            assert(self@ == before.recorded(g, e));
        }
    }

    /// Hangs the root `gone` under the root `keep`, and logs it.
    pub(crate) fn record_link(&mut self, keep: usize, gone: usize)
        requires
            old(self)@.wf(),
            keep < old(self)@.len(),
            gone < old(self)@.len(),
            old(self)@.forest.parent[keep as int] == keep,
            old(self)@.forest.parent[gone as int] == gone,
            keep != gone,
        ensures
            final(self)@.wf(),
            final(self)@.extends(old(self)@),
            final(self)@.forest == old(self)@.forest.linked(
                keep,
                gone,
                (old(self)@.forest.size[keep as int] + old(self)@.forest.size[gone as int]) as usize,
            ),
            final(self)@.blocks().root == old(self)@.blocks().absorb(keep, gone).root,
    {
        let ghost before = self@;
        proof {
            lemma_forest_link(before.forest, keep, gone);
        }
        let old_size = self.size[keep];
        let total = old_size + self.size[gone];
        self.undo_log.push(UndoEntry::Link { child: gone, root: keep, old_size });
        self.size[keep] = total;
        self.parent[gone] = keep;
        proof {
            let g = before.forest.linked(keep, gone, total);
            let e = UndoEntry::Link { child: gone, root: keep, old_size };
            assert(self@.forest == g);
            assert(e.undone(g).parent =~= before.forest.parent);
            assert(e.undone(g).size =~= before.forest.size);
            lemma_record(before, g, e);
            assert(self@ == before.recorded(g, e));
        }
    }

    /// Takes back the latest logged change.
    pub(crate) fn undo_last(&mut self)
        requires
            old(self)@.wf(),
            old(self)@.log.len() > 0,
        ensures
            final(self)@ == old(self)@.back(),
            final(self)@.wf(),
    {
        let ghost before = self@;
        let last = self.undo_log.pop();
        assert(self.undo_log@ =~= before.log.drop_last());
        match last {
            Some(UndoEntry::Link { child, root, old_size }) => {
                self.parent[child] = child;
                self.size[root] = old_size;
            },
            Some(UndoEntry::Compress { index, old_parent }) => {
                self.parent[index] = old_parent;
            },
            Some(UndoEntry::Label { index, old_label }) => {
                self.label[index] = old_label;
            },
            Some(UndoEntry::Transition { index, symbol, old_target }) => {
                self.transitions[index][symbol] = old_target;
            },
            None => {},
        }
        proof {
            assert(self@.forest.trans =~= before.back().forest.trans);
            assert(self@.forest == before.back().forest);
        }
    }

    /// The root of the block of `x`; shortens the path from `x` to it.
    pub(crate) fn find_root(&mut self, x: usize) -> (r: usize)
        requires
            old(self)@.wf(),
            x < old(self)@.len(),
        ensures
            final(self)@.wf(),
            final(self)@.extends(old(self)@),
            final(self)@.blocks() == old(self)@.blocks(),
            r == old(self)@.blocks().root[x as int],
            r < old(self)@.len(),
            final(self)@.forest.parent[r as int] == r,
            final(self)@.forest.parent[x as int] == r,
    {
        let r = self.root_index(x);
        let mut cur: usize = x;
        proof {
            lemma_extends_refl(self@);
        }
        while self.parent[cur] != r
            invariant
                self@.wf(),
                self@.extends(old(self)@),
                self@.blocks() == old(self)@.blocks(),
                self@.len() == old(self)@.len(),
                cur < self@.len(),
                x < self@.len(),
                self@.forest.root(cur as int) == r,
                cur == x || self@.forest.parent[x as int] == r,
                self@.forest.size[x as int] <= self@.forest.size[cur as int],
            decreases usize::MAX - self@.forest.size[cur as int],
        {
            let next = self.parent[cur];
            let ghost mid = self@;
            proof {
                lemma_root_of(mid.forest.parent, mid.forest.size, cur as int);
                assert(mid.blocks().root[next as int] == r);
            }
            self.record_compress(cur, r);
            proof {
                lemma_extends_trans(self@, mid, old(self)@);
                assert(self@.blocks().root[next as int] == r);
            }
            cur = next;
        }
        proof {
            lemma_root_of(self@.forest.parent, self@.forest.size, cur as int);
        }
        r
    }

    /// The root of the block of `x`; `None` if `x` is not a state. The
    /// states on the path from `x` to the root are pointed straight at the
    /// root, which is logged and changes no block. The root is its own
    /// root.
    pub fn find(&mut self, x: usize) -> (r: Option<usize>)
        requires
            old(self).wf(),
        ensures
            final(self).wf(),
            final(self)@.extends(old(self)@),
            final(self)@.blocks() == old(self)@.blocks(),
            x < old(self)@.len() ==> r == Some(old(self)@.blocks().root[x as int]) && final(self)@.forest.parent[x as int]
                == r.unwrap() && final(self)@.blocks().root[r.unwrap() as int] == r.unwrap(),
            x >= old(self)@.len() ==> r.is_none() && final(self)@ == old(self)@,
    {
        if x >= self.parent.len() {
            proof {
                lemma_extends_refl(self@);
            }
            return None;
        }
        let r = self.find_root(x);
        proof {
            lemma_blocks_wf(self@.forest);
        }
        Some(r)
    }
}

} // verus!
