//! What holds of merging and rolling back, whatever the partition and the
//! states.

use vstd::prelude::*;
use crate::dfa_learning_toolkit::blocks::{Blocks, pairs_in_range, pairs_joined, lemma_merge_step};
use crate::dfa_learning_toolkit::closure::{keeps, lemma_close_sound, lemma_close_keeps, lemma_close_deterministic, lemma_close_least, lemma_keeps_trans};
use crate::dfa_learning_toolkit::history::{PartitionView, lemma_rewind, lemma_extends_trans};

verus! {

/// Every way of grouping the states that is made of whole blocks of `b`, is
/// respected by the transitions of `b` and has `i` and `j` in one class has
/// `x` and `y` in one class: joining `i` and `j` forces `x` and `y`
/// together.
pub open spec fn must_join(b: Blocks, i: usize, j: usize, x: int, y: int) -> bool {
    forall|class: Seq<usize>|
        #![trigger b.carried_by(class)]
        b.carried_by(class) && b.respected_by(class) && class[i as int] == class[j as int] ==> class[x] == class[y]
}

/// A merge loses no block: states that were in one block still are, and
/// where the merge went through, the two merged states are in one block.
pub proof fn law_merge_joins(b: Blocks, i: usize, j: usize)
    requires
        b.wf(),
        i < b.len(),
        j < b.len(),
    ensures
        b.merge(i, j).0.wf(),
        b.merge(i, j).0.len() == b.len(),
        forall|x: int, y: int|
            0 <= x < b.len() && 0 <= y < b.len() && b.same_block(x, y) ==> #[trigger] b.merge(i, j).0.same_block(x, y),
        b.merge(i, j).1 ==> b.merge(i, j).0.same_block(i as int, j as int),
{
    let queue = seq![(i, j)];
    let m = b.merge(i, j).0;
    lemma_close_sound(b, queue);
    assert forall|x: int, y: int| 0 <= x < b.len() && 0 <= y < b.len() && b.same_block(x, y) implies #[trigger] m.same_block(
        x,
        y,
    ) by {
        assert(m.root[b.root[x] as int] == m.root[x]);
        assert(m.root[b.root[y] as int] == m.root[y]);
    }
    if b.merge(i, j).1 {
        assert(queue[0] == (i, j));
    }
}

/// A merge joins only what joining the two states forces, whether it goes
/// through or stops at a conflict.
pub proof fn law_merge_joins_only_forced(b: Blocks, i: usize, j: usize, x: int, y: int)
    requires
        b.wf(),
        i < b.len(),
        j < b.len(),
        0 <= x < b.len(),
        0 <= y < b.len(),
        b.merge(i, j).0.same_block(x, y),
    ensures
        must_join(b, i, j, x, y),
{
    let queue = seq![(i, j)];
    let m = b.merge(i, j).0;
    lemma_close_sound(b, queue);
    assert forall|class: Seq<usize>|
        #![trigger b.carried_by(class)]
        b.carried_by(class) && b.respected_by(class) && class[i as int] == class[j as int] implies class[x]
        == class[y] by {
        assert(queue[0] == (i, j));
        lemma_close_least(b, queue, class);
        assert(class[m.root[x] as int] == class[x]);
        assert(class[m.root[y] as int] == class[y]);
    }
}

/// In a deterministic partition that keeps the transitions of `b` and whose
/// blocks are made of blocks of `b`, the blocks are respected by the
/// transitions of `b`.
pub proof fn lemma_deterministic_respects(b: Blocks, m: Blocks)
    requires
        b.wf(),
        m.wf(),
        m.len() == b.len(),
        m.symbols == b.symbols,
        keeps(b, m),
        m.deterministic(),
    ensures
        b.respected_by(m.root),
{
    assert forall|x: int, y: int, s: int|
        #![trigger b.trans[x][s], b.trans[y][s]]
        0 <= x < b.len() && 0 <= y < b.len() && 0 <= s < b.symbols && m.root[x] == m.root[y] implies match (
        b.trans[x][s],
        b.trans[y][s],
    ) {
        (Some(t), Some(u)) => m.root[t as int] == m.root[u as int],
        _ => true,
    } by {
        let at_x = m.trans[x][s];
        let at_y = m.trans[y][s];
        let at_root = m.trans[m.root[x] as int][s];
        if b.trans[x][s].is_some() && b.trans[y][s].is_some() {
            assert(at_x == b.trans[x][s]);
            assert(at_y == b.trans[y][s]);
        }
    }
}

/// Union-find soundness: after a merge that went through on a
/// deterministic partition, two states are in one block if and only if
/// joining the two merged states forces them together.
pub proof fn law_merge_joins_exactly_forced(b: Blocks, i: usize, j: usize, x: int, y: int)
    requires
        b.wf(),
        b.deterministic(),
        i < b.len(),
        j < b.len(),
        0 <= x < b.len(),
        0 <= y < b.len(),
        b.merge(i, j).1,
    ensures
        b.merge(i, j).0.same_block(x, y) <==> must_join(b, i, j, x, y),
{
    let queue = seq![(i, j)];
    let m = b.merge(i, j).0;
    if m.same_block(x, y) {
        law_merge_joins_only_forced(b, i, j, x, y);
    }
    if must_join(b, i, j, x, y) {
        law_merge_joins(b, i, j);
        law_merge_stays_deterministic(b, i, j);
        lemma_close_sound(b, queue);
        lemma_close_keeps(b, queue);
        lemma_deterministic_respects(b, m);
        assert(b.carried_by(m.root));
    }
}

/// Closure completeness: a merge that goes through on a deterministic
/// partition leaves a deterministic partition.
pub proof fn law_merge_stays_deterministic(b: Blocks, i: usize, j: usize)
    requires
        b.wf(),
        b.deterministic(),
        i < b.len(),
        j < b.len(),
        b.merge(i, j).1,
    ensures
        b.merge(i, j).0.deterministic(),
{
    let queue = seq![(i, j)];
    let m = b.merge(i, j).0;
    lemma_close_sound(b, queue);
    assert forall|x: int, s: int| 0 <= x < b.len() && 0 <= s < b.symbols implies match #[trigger] b.trans[x][s] {
        Some(t) => match b.trans[b.root[x] as int][s] {
            Some(u) => m.root[u as int] == m.root[t as int],
            None => false,
        },
        None => true,
    } by {
        match b.trans[x][s] {
            Some(t) => {
                match b.trans[b.root[x] as int][s] {
                    Some(u) => {
                        assert(m.root[b.root[u as int] as int] == m.root[u as int]);
                        assert(m.root[b.root[t as int] as int] == m.root[t as int]);
                    },
                    None => {},
                }
            },
            None => {},
        }
    }
    lemma_close_deterministic(b, queue);
}

/// The partition after the merges of `pairs`, one after the other, and
/// whether all of them went through; it stops at the first that does not.
pub open spec fn merge_all(b: Blocks, pairs: Seq<(usize, usize)>) -> (Blocks, bool)
    decreases pairs.len(),
{
    if pairs.len() == 0 {
        (b, true)
    } else {
        let m = b.merge(pairs[0].0, pairs[0].1);
        if !m.1 {
            (m.0, false)
        } else {
            merge_all(m.0, pairs.skip(1))
        }
    }
}

/// Every way of grouping the states that is made of whole blocks of `b`, is
/// respected by the transitions of `b` and joins every pair of `pairs` has
/// `x` and `y` in one class: the merges of `pairs` force `x` and `y`
/// together.
pub open spec fn must_join_all(b: Blocks, pairs: Seq<(usize, usize)>, x: int, y: int) -> bool {
    forall|class: Seq<usize>|
        #![trigger b.carried_by(class)]
        b.carried_by(class) && b.respected_by(class) && pairs_joined(pairs, class) ==> class[x] == class[y]
}

/// Merges that all go through on a deterministic partition leave a
/// deterministic partition that keeps what the first had, has every old
/// block within one block, and has the states of every merged pair in one
/// block.
pub proof fn lemma_merge_all(b: Blocks, pairs: Seq<(usize, usize)>)
    requires
        b.wf(),
        b.deterministic(),
        pairs_in_range(pairs, b.len()),
        merge_all(b, pairs).1,
    ensures
        merge_all(b, pairs).0.wf(),
        merge_all(b, pairs).0.len() == b.len(),
        merge_all(b, pairs).0.symbols == b.symbols,
        merge_all(b, pairs).0.deterministic(),
        b.refines(merge_all(b, pairs).0),
        keeps(b, merge_all(b, pairs).0),
        pairs_joined(pairs, merge_all(b, pairs).0.root),
    decreases pairs.len(),
{
    let fin = merge_all(b, pairs).0;
    if pairs.len() == 0 {
        assert(b.refines(b));
        assert(keeps(b, b));
    } else {
        let i = pairs[0].0;
        let j = pairs[0].1;
        let m = b.merge(i, j).0;
        let queue = seq![(i, j)];
        lemma_close_sound(b, queue);
        lemma_close_keeps(b, queue);
        law_merge_stays_deterministic(b, i, j);
        assert(queue[0] == (i, j));
        assert(m.root[i as int] == m.root[j as int]);
        lemma_merge_all(m, pairs.skip(1));
        lemma_keeps_trans(b, m, fin);
        assert forall|z: int| 0 <= z < b.len() implies fin.root[#[trigger] b.root[z] as int] == fin.root[z] by {
            assert(m.root[b.root[z] as int] == m.root[z]);
            assert(fin.root[m.root[z] as int] == fin.root[z]);
            assert(fin.root[m.root[b.root[z] as int] as int] == fin.root[b.root[z] as int]);
        }
        assert forall|k: int| 0 <= k < pairs.len() implies fin.root[(#[trigger] pairs[k]).0 as int] == fin.root[pairs[k].1
            as int] by {
            if k == 0 {
                assert(fin.root[m.root[i as int] as int] == fin.root[i as int]);
                assert(fin.root[m.root[j as int] as int] == fin.root[j as int]);
            } else {
                assert(pairs.skip(1)[k - 1] == pairs[k]);
            }
        }
    }
}

/// Merges join only what they must: classes that are made of whole blocks,
/// are respected by the transitions and join every merged pair are still
/// made of whole blocks after the merges.
pub proof fn lemma_merge_all_least(b: Blocks, pairs: Seq<(usize, usize)>, class: Seq<usize>)
    requires
        b.wf(),
        pairs_in_range(pairs, b.len()),
        b.carried_by(class),
        b.respected_by(class),
        pairs_joined(pairs, class),
    ensures
        merge_all(b, pairs).0.carried_by(class),
        merge_all(b, pairs).0.respected_by(class),
    decreases pairs.len(),
{
    if pairs.len() != 0 {
        let i = pairs[0].0;
        let j = pairs[0].1;
        let queue = seq![(i, j)];
        assert(queue[0] == pairs[0]);
        lemma_close_sound(b, queue);
        lemma_close_least(b, queue, class);
        if b.merge(i, j).1 {
            assert forall|k: int| 0 <= k < pairs.skip(1).len() implies class[(#[trigger] pairs.skip(1)[k]).0 as int]
                == class[pairs.skip(1)[k].1 as int] by {
                assert(pairs.skip(1)[k] == pairs[k + 1]);
            }
            lemma_merge_all_least(b.merge(i, j).0, pairs.skip(1), class);
        }
    }
}

/// Union-find soundness over any sequence of merges that all go through,
/// from a deterministic partition: afterwards two states are in one block
/// if and only if the merged pairs force them together, directly or
/// through other states and through the transitions.
pub proof fn law_merges_join_exactly_forced(b: Blocks, pairs: Seq<(usize, usize)>, x: int, y: int)
    requires
        b.wf(),
        b.deterministic(),
        pairs_in_range(pairs, b.len()),
        merge_all(b, pairs).1,
        0 <= x < b.len(),
        0 <= y < b.len(),
    ensures
        merge_all(b, pairs).0.same_block(x, y) <==> must_join_all(b, pairs, x, y),
{
    let fin = merge_all(b, pairs).0;
    lemma_merge_all(b, pairs);
    if fin.same_block(x, y) {
        assert forall|class: Seq<usize>|
            #![trigger b.carried_by(class)]
            b.carried_by(class) && b.respected_by(class) && pairs_joined(pairs, class) implies class[x] == class[y] by {
            lemma_merge_all_least(b, pairs, class);
            assert(class[fin.root[x] as int] == class[x]);
            assert(class[fin.root[y] as int] == class[y]);
        }
    }
    if must_join_all(b, pairs, x, y) {
        lemma_deterministic_respects(b, fin);
        assert(b.carried_by(fin.root));
    }
}

/// States of one block of `m` that are led along one word in `b` end in one
/// block of `m`, where the blocks of `m` are made of blocks of `b` and are
/// respected by the transitions of `b`.
pub proof fn lemma_walk_together(b: Blocks, m: Blocks, x: usize, y: usize, word: Seq<usize>)
    requires
        b.wf(),
        b.carried_by(m.root),
        b.respected_by(m.root),
        x < b.len(),
        y < b.len(),
        m.root[x as int] == m.root[y as int],
        b.walk(x, word).is_some(),
        b.walk(y, word).is_some(),
    ensures
        b.walk(x, word).unwrap() < b.len(),
        b.walk(y, word).unwrap() < b.len(),
        b.is_root(b.walk(x, word).unwrap() as int),
        b.is_root(b.walk(y, word).unwrap() as int),
        m.root[b.walk(x, word).unwrap() as int] == m.root[b.walk(y, word).unwrap() as int],
    decreases word.len(),
{
    let rx = b.root[x as int];
    let ry = b.root[y as int];
    assert(b.root[rx as int] == rx);
    assert(b.root[ry as int] == ry);
    assert(m.root[rx as int] == m.root[x as int]);
    assert(m.root[ry as int] == m.root[y as int]);
    if word.len() != 0 {
        let s = word[0] as int;
        let t = b.trans[rx as int][s];
        let u = b.trans[ry as int][s];
        lemma_walk_together(b, m, t.unwrap(), u.unwrap(), word.skip(1));
    }
}

/// Conflict detection: where one word leads from `i` to a block with one
/// label and from `j` to a block with the contrary label, the merge of `i`
/// and `j` does not go through.
pub proof fn law_conflict_detected(b: Blocks, i: usize, j: usize, word: Seq<usize>)
    requires
        b.wf(),
        b.deterministic(),
        i < b.len(),
        j < b.len(),
        b.walk(i, word).is_some(),
        b.walk(j, word).is_some(),
        b.label[b.walk(i, word).unwrap() as int].conflicts(b.label[b.walk(j, word).unwrap() as int]),
    ensures
        !b.merge(i, j).1,
{
    if b.merge(i, j).1 {
        let queue = seq![(i, j)];
        let m = b.merge(i, j).0;
        law_merge_joins(b, i, j);
        law_merge_stays_deterministic(b, i, j);
        lemma_close_sound(b, queue);
        lemma_close_keeps(b, queue);
        lemma_deterministic_respects(b, m);
        lemma_walk_together(b, m, i, j, word);
        let p = b.walk(i, word).unwrap() as int;
        let q = b.walk(j, word).unwrap() as int;
        assert(b.root[p] == p);
        assert(b.root[q] == q);
        assert(m.label[m.root[p] as int] == b.label[b.root[p] as int]);
        assert(m.label[m.root[q] as int] == b.label[b.root[q] as int]);
    }
}

/// No merge, whether it goes through or not, leaves a block whose label
/// differs from a label kept for one of its states.
pub proof fn law_no_mixed_labels(b: Blocks, i: usize, j: usize)
    requires
        b.wf(),
        b.labels_agree(),
        i < b.len(),
        j < b.len(),
    ensures
        b.merge(i, j).0.labels_agree(),
{
    lemma_close_keeps(b, seq![(i, j)]);
}

/// A merge of states of two blocks that goes through leaves fewer blocks.
pub proof fn law_merge_removes_a_block(b: Blocks, i: usize, j: usize)
    requires
        b.wf(),
        i < b.len(),
        j < b.len(),
        !b.same_block(i as int, j as int),
        b.merge(i, j).1,
    ensures
        b.merge(i, j).0.num_blocks() < b.num_blocks(),
{
    let queue = seq![(i, j)];
    let step = b.merge_step(i, j);
    assert(queue[0] == (i, j));
    lemma_merge_step(b, i, j);
    lemma_close_sound(step.0, queue.skip(1) + step.1);
}

/// Rollback exactness: a partition that has grown out of `base`, by
/// whatever changes, and is rewound to the length of the log of `base` is
/// `base`, forest and log alike; so it has the same blocks, labels and
/// transitions.
pub proof fn law_rollback_exact(base: PartitionView, grown: PartitionView)
    requires
        grown.wf(),
        grown.extends(base),
    ensures
        grown.can_rewind_to(base),
        grown.rewind(base.log.len()) == base,
        grown.rewind(base.log.len()).blocks() == base.blocks(),
{
    lemma_rewind(grown, base.log.len());
}

/// Growing is transitive: after any number of changes, each of which made
/// the partition grow out of the one before, the last has grown out of the
/// first.
pub proof fn law_growth_composes(steps: Seq<PartitionView>)
    requires
        steps.len() > 0,
        forall|k: int| 0 <= k < steps.len() - 1 ==> (#[trigger] steps[k + 1]).extends(steps[k]),
    ensures
        steps.last().extends(steps[0]),
    decreases steps.len(),
{
    if steps.len() > 1 {
        let shorter = steps.drop_last();
        assert forall|k: int| 0 <= k < shorter.len() - 1 implies (#[trigger] shorter[k + 1]).extends(shorter[k]) by {
            assert(steps[k + 1].extends(steps[k]));
        }
        law_growth_composes(shorter);
        assert(steps[steps.len() - 2 + 1].extends(steps[steps.len() - 2]));
        lemma_extends_trans(steps.last(), shorter.last(), steps[0]);
    }
}

} // verus!
