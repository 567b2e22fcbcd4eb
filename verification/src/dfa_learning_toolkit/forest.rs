//! The union-find forest that stores a partition: parent links with the
//! sizes that bound them, and the facts about roots that the operations on
//! the forest rest on.

use vstd::prelude::*;
use crate::dfa_learning_toolkit::dfa::StateLabel;
use crate::dfa_learning_toolkit::blocks::{Blocks, occurrences, lemma_absorb_occurrences, lemma_occurrences_disjoint, lemma_occurrences_positive};

verus! {

/// Parent links stay inside the forest, and every state that is not a root
/// is smaller than its parent.
pub open spec fn ranked(parent: Seq<usize>, size: Seq<usize>) -> bool {
    &&& size.len() == parent.len()
    &&& forall|x: int|
        0 <= x < parent.len() ==> (#[trigger] parent[x]) < parent.len() && (parent[x] != x ==> size[x]
            < size[parent[x] as int])
}

/// The root that the parent links lead to from `x`.
pub open spec fn root_of(parent: Seq<usize>, size: Seq<usize>, x: int) -> usize
    decreases usize::MAX - size[x],
    when ranked(parent, size) && 0 <= x < parent.len()
{
    if parent[x] == x {
        x as usize
    } else {
        root_of(parent, size, parent[x] as int)
    }
}

/// The root of every state.
pub open spec fn roots(parent: Seq<usize>, size: Seq<usize>) -> Seq<usize> {
    Seq::new(parent.len(), |x: int| root_of(parent, size, x))
}

/// A root is a state, is its own parent and root, and is at least as large
/// as every state below it.
pub proof fn lemma_root_of(parent: Seq<usize>, size: Seq<usize>, x: int)
    requires
        ranked(parent, size),
        0 <= x < parent.len(),
    ensures
        root_of(parent, size, x) < parent.len(),
        parent[root_of(parent, size, x) as int] == root_of(parent, size, x),
        root_of(parent, size, root_of(parent, size, x) as int) == root_of(parent, size, x),
        size[x] <= size[root_of(parent, size, x) as int],
        parent[x] != x ==> size[x] < size[root_of(parent, size, x) as int],
        parent[x] == x ==> root_of(parent, size, x) == x,
    decreases usize::MAX - size[x],
{
    if parent[x] != x {
        lemma_root_of(parent, size, parent[x] as int);
    }
}

/// Pointing a state straight at its root changes no state's root.
pub proof fn lemma_compress(parent: Seq<usize>, size: Seq<usize>, x: int, y: int)
    requires
        ranked(parent, size),
        0 <= x < parent.len(),
        0 <= y < parent.len(),
    ensures
        ranked(parent.update(x, root_of(parent, size, x)), size),
        root_of(parent.update(x, root_of(parent, size, x)), size, y) == root_of(parent, size, y),
    decreases usize::MAX - size[y],
{
    let r = root_of(parent, size, x);
    let after = parent.update(x, r);
    lemma_root_of(parent, size, x);
    assert(ranked(after, size));
    if y == x {
        if r != x {
            assert(after[r as int] == r);
            assert(root_of(after, size, r as int) == r);
        }
    } else if parent[y] != y {
        lemma_compress(parent, size, x, parent[y] as int);
    }
}

/// Hanging the root `gone` under the root `keep`, which takes the size
/// `total`, sends the states of `gone` to `keep` and leaves the others.
pub proof fn lemma_link(parent: Seq<usize>, size: Seq<usize>, keep: usize, gone: usize, total: usize, y: int)
    requires
        ranked(parent, size),
        keep < parent.len(),
        gone < parent.len(),
        parent[keep as int] == keep,
        parent[gone as int] == gone,
        keep != gone,
        size[keep as int] <= total,
        size[gone as int] < total,
        0 <= y < parent.len(),
    ensures
        ranked(parent.update(gone as int, keep), size.update(keep as int, total)),
        root_of(parent.update(gone as int, keep), size.update(keep as int, total), y) == (if root_of(
            parent,
            size,
            y,
        ) == gone {
            keep
        } else {
            root_of(parent, size, y)
        }),
    decreases usize::MAX - size[y],
{
    let after = parent.update(gone as int, keep);
    let sized = size.update(keep as int, total);
    assert(ranked(after, sized));
    if y == gone {
        assert(root_of(after, sized, keep as int) == keep);
    } else if parent[y] != y {
        lemma_link(parent, size, keep, gone, total, parent[y] as int);
        lemma_root_of(parent, size, y);
        if y == keep {
        } else {
            assert(sized[y] == size[y]);
        }
    }
}

/// The stored form of a partition: the union-find forest over the states,
/// with the label and transitions kept per state.
pub struct Forest {
    pub parent: Seq<usize>,
    pub size: Seq<usize>,
    pub label: Seq<StateLabel>,
    pub trans: Seq<Seq<Option<usize>>>,
    pub symbols: nat,
}

impl Forest {
    /// Number of states.
    pub open spec fn len(self) -> nat {
        self.parent.len()
    }

    /// The root of the block of `x`.
    pub open spec fn root(self, x: int) -> usize {
        root_of(self.parent, self.size, x)
    }

    /// The partition that the forest stores.
    pub open spec fn blocks(self) -> Blocks {
        Blocks { root: roots(self.parent, self.size), label: self.label, trans: self.trans, symbols: self.symbols }
    }

    /// The forest is sound: links are ranked, each root knows the size of
    /// its block, every state has one slot per symbol, and no target
    /// dangles.
    pub open spec fn wf(self) -> bool {
        &&& ranked(self.parent, self.size)
        &&& self.len() <= usize::MAX
        &&& self.label.len() == self.len()
        &&& self.trans.len() == self.len()
        &&& forall|x: int| 0 <= x < self.len() ==> (#[trigger] self.trans[x]).len() == self.symbols
        &&& forall|x: int, s: int|
            0 <= x < self.len() && 0 <= s < self.symbols ==> match #[trigger] self.trans[x][s] {
                Some(t) => t < self.len(),
                None => true,
            }
        &&& forall|r: int|
            0 <= r < self.len() && #[trigger] self.parent[r] == r ==> self.size[r] == occurrences(
                roots(self.parent, self.size),
                r as usize,
                self.len() as int,
            )
    }

    /// The forest with `p` for the parent of `x`.
    pub open spec fn with_parent(self, x: int, p: usize) -> Forest {
        Forest { parent: self.parent.update(x, p), ..self }
    }

    /// The forest with the label `l` kept for `x`.
    pub open spec fn with_label(self, x: int, l: StateLabel) -> Forest {
        Forest { label: self.label.update(x, l), ..self }
    }

    /// The forest with `t` for the transition of `x` on the symbol `s`.
    pub open spec fn with_target(self, x: int, s: int, t: Option<usize>) -> Forest {
        Forest { trans: self.trans.update(x, self.trans[x].update(s, t)), ..self }
    }

    /// The root `gone` hangs under the root `keep`, which takes the size
    /// `total`.
    pub open spec fn linked(self, keep: usize, gone: usize, total: usize) -> Forest {
        Forest {
            parent: self.parent.update(gone as int, keep),
            size: self.size.update(keep as int, total),
            ..self
        }
    }
}

/// A sound forest stores a sound partition, whose roots are the states that
/// are their own parent.
pub proof fn lemma_blocks_wf(f: Forest)
    requires
        f.wf(),
    ensures
        f.blocks().wf(),
        f.blocks().len() == f.len(),
        forall|x: int| 0 <= x < f.len() ==> (f.parent[x] == x <==> #[trigger] f.blocks().root[x] == x),
        forall|r: int|
            0 <= r < f.len() && f.parent[r] == r ==> #[trigger] f.size[r] == f.blocks().block_size(r as usize),
{
    let b = f.blocks();
    assert forall|x: int| 0 <= x < b.len() implies (#[trigger] b.root[x]) < b.len() && b.root[b.root[x] as int]
        == b.root[x] by {
        lemma_root_of(f.parent, f.size, x);
    }
    assert forall|x: int| 0 <= x < f.len() implies (f.parent[x] == x <==> #[trigger] b.root[x] == x) by {
        lemma_root_of(f.parent, f.size, x);
    }
}

/// Two different roots of a sound forest have blocks that fit into the
/// forest together, and neither block is empty.
pub proof fn lemma_root_sizes(f: Forest, a: usize, b: usize)
    requires
        f.wf(),
        a < f.len(),
        b < f.len(),
        f.parent[a as int] == a,
        f.parent[b as int] == b,
        a != b,
    ensures
        f.size[a as int] + f.size[b as int] <= f.len(),
        f.size[a as int] >= 1,
        f.size[b as int] >= 1,
{
    let r = roots(f.parent, f.size);
    lemma_occurrences_disjoint(r, a, b, f.len() as int);
    lemma_root_of(f.parent, f.size, a as int);
    lemma_root_of(f.parent, f.size, b as int);
    lemma_occurrences_positive(r, a, a as int, f.len() as int);
    lemma_occurrences_positive(r, b, b as int, f.len() as int);
}

/// Path compression keeps the forest sound and the partition as it was.
pub proof fn lemma_forest_compress(f: Forest, x: int)
    requires
        f.wf(),
        0 <= x < f.len(),
    ensures
        f.with_parent(x, f.root(x)).wf(),
        f.with_parent(x, f.root(x)).blocks() == f.blocks(),
{
    let g = f.with_parent(x, f.root(x));
    lemma_compress(f.parent, f.size, x, x);
    assert forall|y: int| 0 <= y < f.len() implies root_of(g.parent, g.size, y) == root_of(f.parent, f.size, y) by {
        lemma_compress(f.parent, f.size, x, y);
    }
    assert(roots(g.parent, g.size) =~= roots(f.parent, f.size));
    lemma_root_of(f.parent, f.size, x);
    assert forall|r: int| 0 <= r < g.len() && #[trigger] g.parent[r] == r implies g.size[r] == occurrences(
        roots(g.parent, g.size),
        r as usize,
        g.len() as int,
    ) by {
        if r == x {
            assert(f.root(x) == x);
            assert(f.parent[r] == r);
        } else {
            assert(f.parent[r] == r);
        }
    }
}

/// Linking two roots keeps the forest sound and joins their blocks.
pub proof fn lemma_forest_link(f: Forest, keep: usize, gone: usize)
    requires
        f.wf(),
        keep < f.len(),
        gone < f.len(),
        f.parent[keep as int] == keep,
        f.parent[gone as int] == gone,
        keep != gone,
    ensures
        f.size[keep as int] + f.size[gone as int] <= f.len(),
        f.linked(keep, gone, (f.size[keep as int] + f.size[gone as int]) as usize).wf(),
        f.linked(keep, gone, (f.size[keep as int] + f.size[gone as int]) as usize).blocks().root
            == f.blocks().absorb(keep, gone).root,
{
    lemma_root_sizes(f, keep, gone);
    let total = (f.size[keep as int] + f.size[gone as int]) as usize;
    let g = f.linked(keep, gone, total);
    let before = roots(f.parent, f.size);
    let after = roots(g.parent, g.size);
    lemma_link(f.parent, f.size, keep, gone, total, keep as int);
    assert forall|y: int| 0 <= y < f.len() implies after[y] == (if before[y] == gone {
        keep
    } else {
        before[y]
    }) by {
        lemma_link(f.parent, f.size, keep, gone, total, y);
    }
    assert(after =~= f.blocks().absorb(keep, gone).root);
    assert forall|r: int| 0 <= r < g.len() && #[trigger] g.parent[r] == r implies g.size[r] == occurrences(
        after,
        r as usize,
        g.len() as int,
    ) by {
        lemma_absorb_occurrences(f.blocks(), keep, gone, r as usize, f.len() as int);
        assert(f.parent[r] == r);
        assert(f.parent[keep as int] == keep);
        assert(f.parent[gone as int] == gone);
    }
}

} // verus!
