//! The undo log of a partition: what each entry restores, the states that a
//! log leads back through, and what it means for one partition to have grown
//! out of another.

use vstd::prelude::*;
use crate::dfa_learning_toolkit::dfa::StateLabel;
use crate::dfa_learning_toolkit::blocks::Blocks;
use crate::dfa_learning_toolkit::forest::Forest;

verus! {

/// One recorded change to the forest, with what stood there before.
#[derive(Clone, Copy, Debug)]
pub enum UndoEntry {
    /// The root `child` was hung under `root`, whose size was `old_size`.
    Link { child: usize, root: usize, old_size: usize },
    /// The parent of `index` was `old_parent` before the path was shortened.
    Compress { index: usize, old_parent: usize },
    /// The label of `index` was `old_label`.
    Label { index: usize, old_label: StateLabel },
    /// The transition of `index` on `symbol` was `old_target`.
    Transition { index: usize, symbol: usize, old_target: Option<usize> },
}

impl UndoEntry {
    /// The entry names places that the forest has.
    pub open spec fn fits(self, f: Forest) -> bool {
        match self {
            UndoEntry::Link { child, root, old_size } => child < f.len() && root < f.len(),
            UndoEntry::Compress { index, old_parent } => index < f.len(),
            UndoEntry::Label { index, old_label } => index < f.len(),
            UndoEntry::Transition { index, symbol, old_target } => index < f.len() && symbol < f.symbols,
        }
    }

    /// The forest with the recorded change taken back.
    pub open spec fn undone(self, f: Forest) -> Forest {
        match self {
            UndoEntry::Link { child, root, old_size } => Forest {
                parent: f.parent.update(child as int, child),
                size: f.size.update(root as int, old_size),
                ..f
            },
            UndoEntry::Compress { index, old_parent } => Forest {
                parent: f.parent.update(index as int, old_parent),
                ..f
            },
            UndoEntry::Label { index, old_label } => Forest { label: f.label.update(index as int, old_label), ..f },
            UndoEntry::Transition { index, symbol, old_target } => Forest {
                trans: f.trans.update(index as int, f.trans[index as int].update(symbol as int, old_target)),
                ..f
            },
        }
    }
}

/// The mathematical content of a state partition: the forest as it stands,
/// and the log of the changes that led to it, oldest first.
pub struct PartitionView {
    pub forest: Forest,
    pub log: Seq<UndoEntry>,
}

impl PartitionView {
    /// Number of states.
    pub open spec fn len(self) -> nat {
        self.forest.len()
    }

    /// Number of symbols.
    pub open spec fn symbols(self) -> nat {
        self.forest.symbols
    }

    /// The partition that is stored.
    pub open spec fn blocks(self) -> Blocks {
        self.forest.blocks()
    }

    /// The partition before its latest recorded change.
    pub open spec fn back(self) -> PartitionView {
        PartitionView { forest: self.log.last().undone(self.forest), log: self.log.drop_last() }
    }

    /// The forest is sound, and so is every forest that the log leads back
    /// to.
    pub open spec fn wf(self) -> bool
        decreases self.log.len(),
    {
        &&& self.forest.wf()
        &&& self.log.len() > 0 ==> self.log.last().fits(self.forest) && self.back().wf()
    }

    /// The partition as it was when its log had `len` entries; itself, if
    /// the log is no longer than that.
    pub open spec fn rewind(self, len: nat) -> PartitionView
        decreases self.log.len(),
    {
        if self.log.len() <= len {
            self
        } else {
            self.back().rewind(len)
        }
    }

    /// This partition with the forest `g` reached by a change that `e`
    /// takes back.
    pub open spec fn recorded(self, g: Forest, e: UndoEntry) -> PartitionView {
        PartitionView { forest: g, log: self.log.push(e) }
    }

    /// This partition has grown out of `base`: taking back the changes
    /// recorded since the log was as long as that of `base` gives `base`
    /// exactly.
    pub open spec fn extends(self, base: PartitionView) -> bool {
        base.log.len() <= self.log.len() && self.rewind(base.log.len()) == base
    }

    /// `base` has the dimensions of this partition and a log that is no
    /// longer.
    pub open spec fn can_rewind_to(self, base: PartitionView) -> bool {
        &&& base.len() == self.len()
        &&& base.symbols() == self.symbols()
        &&& base.log.len() <= self.log.len()
    }
}

/// Recording a change that the entry takes back exactly gives a partition
/// that has grown out of the one before.
pub proof fn lemma_record(v: PartitionView, g: Forest, e: UndoEntry)
    requires
        v.wf(),
        g.wf(),
        e.fits(g),
        e.undone(g) == v.forest,
    ensures
        v.recorded(g, e).wf(),
        v.recorded(g, e).back() == v,
        v.recorded(g, e).extends(v),
{
    let w = v.recorded(g, e);
    assert(w.log.drop_last() =~= v.log);
    assert(w.back() == v);
    assert(w.rewind(v.log.len()) == w.back().rewind(v.log.len()));
}

/// Rewinding keeps soundness and the dimensions, and cuts the log.
pub proof fn lemma_rewind(v: PartitionView, len: nat)
    requires
        v.wf(),
    ensures
        v.rewind(len).wf(),
        v.rewind(len).len() == v.len(),
        v.rewind(len).symbols() == v.symbols(),
        len <= v.log.len() ==> v.rewind(len).log == v.log.take(len as int),
        len >= v.log.len() ==> v.rewind(len) == v,
    decreases v.log.len(),
{
    if v.log.len() > len {
        lemma_rewind(v.back(), len);
        assert(v.back().log.take(len as int) =~= v.log.take(len as int));
    } else {
        assert(v.log.take(v.log.len() as int) =~= v.log);
    }
}

/// Rewinding in two steps is rewinding in one.
pub proof fn lemma_rewind_twice(v: PartitionView, first: nat, second: nat)
    requires
        second <= first,
    ensures
        v.rewind(first).rewind(second) == v.rewind(second),
    decreases v.log.len(),
{
    if v.log.len() > first {
        lemma_rewind_twice(v.back(), first, second);
    }
}

/// A partition has grown out of itself.
pub proof fn lemma_extends_refl(v: PartitionView)
    ensures
        v.extends(v),
{
}

/// Growing out of a partition that has grown out of a third.
pub proof fn lemma_extends_trans(a: PartitionView, b: PartitionView, c: PartitionView)
    requires
        a.extends(b),
        b.extends(c),
    ensures
        a.extends(c),
{
    lemma_rewind_twice(a, b.log.len(), c.log.len());
}

} // verus!
