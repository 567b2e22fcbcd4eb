//! Merging two states of a partition with everything that the merge forces,
//! and rolling a partition back to a snapshot.

use vstd::prelude::*;
use crate::dfa_learning_toolkit::blocks::{pairs_in_range, lemma_merge_step};
use crate::dfa_learning_toolkit::forest::lemma_blocks_wf;
use crate::dfa_learning_toolkit::history::{lemma_rewind, lemma_extends_refl, lemma_extends_trans};
use crate::dfa_learning_toolkit::state_partition::{StatePartition, PartitionError};

verus! {

impl StatePartition {
    /// Joins the block of the root `gone` to that of the root `keep`, and
    /// queues the pairs of targets that this forces together.
    fn unite(&mut self, keep: usize, gone: usize, queue: &mut Vec<(usize, usize)>)
        requires
            old(self)@.wf(),
            keep < old(self)@.len(),
            gone < old(self)@.len(),
            old(self)@.forest.parent[keep as int] == keep,
            old(self)@.forest.parent[gone as int] == gone,
            keep != gone,
        ensures
            final(self)@.wf(),
            final(self)@.extends(old(self)@),
            final(self)@.blocks() == old(self)@.blocks().absorb(keep, gone),
            final(queue)@ == old(queue)@ + old(self)@.blocks().forced(keep, gone, old(self)@.symbols() as int),
    {
        let ghost start = self@;
        let ghost b = start.blocks();
        let l = self.stored_label(keep).joined_with(self.stored_label(gone));
        self.record_label(keep, l);
        let ghost labelled = self@;
        self.record_link(keep, gone);
        let ghost linked = self@;
        proof {
            lemma_extends_trans(linked, labelled, start);
            assert(labelled.blocks().root == b.root);
            assert(labelled.blocks().absorb(keep, gone).root =~= b.absorb(keep, gone).root);
        }
        let k = self.symbols();
        let mut s: usize = 0;
        while s < k
            invariant
                s <= k,
                k == start.symbols(),
                keep < start.len(),
                gone < start.len(),
                keep != gone,
                start.wf(),
                b == start.blocks(),
                self@.wf(),
                self@.extends(start),
                self@.len() == start.len(),
                self@.symbols() == start.symbols(),
                self@.forest.parent == linked.forest.parent,
                self@.forest.size == linked.forest.size,
                self@.forest.label == linked.forest.label,
                self@.forest.trans.len() == start.len(),
                forall|x: int|
                    0 <= x < start.len() && x != keep ==> #[trigger] self@.forest.trans[x] == start.forest.trans[x],
                self@.forest.trans[keep as int].len() == k,
                forall|c: int|
                    0 <= c < k ==> #[trigger] self@.forest.trans[keep as int][c] == (if c < s {
                        b.absorb(keep, gone).trans[keep as int][c]
                    } else {
                        start.forest.trans[keep as int][c]
                    }),
                queue@ == old(queue)@ + b.forced(keep, gone, s as int),
            decreases k - s,
        {
            let tk = self.stored_target(keep, s);
            let tg = self.stored_target(gone, s);
            let ghost mid = self@;
            assert(start.forest.trans[keep as int].len() == k);
            match (tk, tg) {
                (Some(a), Some(c)) => {
                    queue.push((a, c));
                },
                (None, Some(c)) => {
                    self.record_target(keep, s, Some(c));
                    proof {
                        lemma_extends_trans(self@, mid, start);
                    }
                },
                _ => {},
            }
            s += 1;
            proof {
                assert(queue@ =~= old(queue)@ + b.forced(keep, gone, s as int));
            }
        }
        proof {
            let a = b.absorb(keep, gone);
            assert(self@.blocks().root == linked.blocks().root);
            assert(self@.blocks().trans[keep as int] =~= a.trans[keep as int]);
            assert(self@.blocks().trans =~= a.trans);
            assert(self@.blocks().label =~= a.label);
        }
    }

    /// One step of a merge on the states `x` and `y`: joins their blocks
    /// unless they are one block already or their labels conflict. A
    /// conflict is logged as a write of the label that stays as it is.
    fn join(&mut self, x: usize, y: usize, queue: &mut Vec<(usize, usize)>) -> (ok: bool)
        requires
            old(self)@.wf(),
            x < old(self)@.len(),
            y < old(self)@.len(),
        ensures
            final(self)@.wf(),
            final(self)@.extends(old(self)@),
            !ok ==> final(self)@.log.len() > old(self)@.log.len(),
            ok == old(self)@.blocks().merge_step(x, y).2,
            final(self)@.blocks() == old(self)@.blocks().merge_step(x, y).0,
            final(queue)@ == old(queue)@ + old(self)@.blocks().merge_step(x, y).1,
    {
        let ghost start = self@;
        let rx = self.find_root(x);
        let ghost mid = self@;
        let ry = self.find_root(y);
        let ghost found = self@;
        proof {
            lemma_extends_trans(found, mid, start);
            lemma_blocks_wf(found.forest);
            assert(found.blocks().root[rx as int] == rx);
        }
        if rx == ry {
            assert(queue@ =~= old(queue)@ + Seq::<(usize, usize)>::empty());
            return true;
        }
        let label_x = self.stored_label(rx);
        if label_x.conflicts_with(self.stored_label(ry)) {
            self.record_label(rx, label_x);
            proof {
                assert(self@.forest.label =~= found.forest.label);
                assert(self@.forest == found.forest);
                lemma_extends_trans(self@, found, start);
                assert(queue@ =~= old(queue)@ + Seq::<(usize, usize)>::empty());
            }
            return false;
        }
        if self.stored_size(rx) >= self.stored_size(ry) {
            self.unite(rx, ry, queue);
        } else {
            self.unite(ry, rx, queue);
        }
        proof {
            lemma_extends_trans(self@, found, start);
        }
        true
    }

    /// Attempts to put the states `i` and `j` into one block, together with
    /// every pair of states that this forces into one block. `Ok(true)`
    /// when all of it went through; `Ok(false)` at the first pair of blocks
    /// with conflicting labels, with the joins made until then left in
    /// place and logged, and the conflict logged after them: the caller
    /// rolls back. An id that is not a state is an error, and nothing
    /// changes.
    pub fn merge_states(&mut self, i: usize, j: usize) -> (res: Result<bool, PartitionError>)
        requires
            old(self).wf(),
        ensures
            final(self).wf(),
            final(self)@.extends(old(self)@),
            (i >= old(self)@.len() || j >= old(self)@.len()) ==> res == Err::<bool, PartitionError>(
                PartitionError::StateOutOfRange,
            ) && final(self)@ == old(self)@,
            (i < old(self)@.len() && j < old(self)@.len()) ==> res == Ok::<bool, PartitionError>(
                old(self)@.blocks().merge(i, j).1,
            ) && final(self)@.blocks() == old(self)@.blocks().merge(i, j).0,
            res == Ok::<bool, PartitionError>(false) ==> final(self)@.log.len() > old(self)@.log.len(),
    {
        let n = self.len();
        proof {
            lemma_extends_refl(self@);
        }
        if i >= n || j >= n {
            return Err(PartitionError::StateOutOfRange);
        }
        let mut queue: Vec<(usize, usize)> = Vec::new();
        queue.push((i, j));
        let mut head: usize = 0;
        let ghost target = old(self)@.blocks().merge(i, j);
        assert(queue@.skip(0) =~= seq![(i, j)]);
        while head < queue.len()
            invariant
                self@.wf(),
                self@.extends(old(self)@),
                self@.len() == n,
                old(self)@.len() == n,
                i < n,
                j < n,
                target == old(self)@.blocks().merge(i, j),
                head <= queue.len(),
                pairs_in_range(queue@, n as nat),
                self@.blocks().close(queue@.skip(head as int)) == target,
            decreases self@.blocks().num_blocks(), queue.len() - head,
        {
            let pair = queue[head];
            let ghost before = self@;
            let ghost pending = queue@.skip(head as int);
            let ghost step = before.blocks().merge_step(pair.0, pair.1);
            proof {
                lemma_blocks_wf(before.forest);
                lemma_merge_step(before.blocks(), pair.0, pair.1);
                assert(pending[0] == pair);
                assert(pairs_in_range(pending, n as nat));
                assert(before.blocks().close(pending) == (if !step.2 {
                    (before.blocks(), false)
                } else {
                    step.0.close(pending.skip(1) + step.1)
                }));
            }
            head += 1;
            let ok = self.join(pair.0, pair.1, &mut queue);
            proof {
                lemma_extends_trans(self@, before, old(self)@);
                lemma_rewind(self@, before.log.len());
                assert(queue@.skip(head as int) =~= pending.skip(1) + step.1);
            }
            if !ok {
                return Ok(false);
            }
        }
        assert(queue@.skip(head as int) =~= Seq::<(usize, usize)>::empty());
        proof {
            lemma_blocks_wf(self@.forest);
        }
        Ok(true)
    }

    /// Takes back every change made since the partition was as `baseline`
    /// is: the changes logged after the log had the length of that of
    /// `baseline`, latest first. A baseline with other dimensions or a
    /// longer log is an error, and nothing changes.
    pub fn rollback_changes_from(&mut self, baseline: &StatePartition) -> (res: Result<(), PartitionError>)
        requires
            old(self).wf(),
        ensures
            final(self).wf(),
            match res {
                Ok(_) => old(self)@.can_rewind_to(baseline@) && final(self)@ == old(self)@.rewind(baseline@.log.len()),
                Err(e) => e == PartitionError::BaselineMismatch && !old(self)@.can_rewind_to(baseline@)
                    && final(self)@ == old(self)@,
            },
            old(self)@.extends(baseline@) ==> res.is_ok() && final(self)@ == baseline@,
    {
        let mark = baseline.log_len();
        proof {
            lemma_rewind(self@, mark as nat);
        }
        if self.len() != baseline.len() || self.symbols() != baseline.symbols() || self.log_len() < mark {
            return Err(PartitionError::BaselineMismatch);
        }
        while self.log_len() > mark
            invariant
                self@.wf(),
                self@.log.len() >= mark,
                self@.rewind(mark as nat) == old(self)@.rewind(mark as nat),
            decreases self@.log.len(),
        {
            self.undo_last();
        }
        Ok(())
    }
}

} // verus!
