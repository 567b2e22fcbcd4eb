//! What the closure of a merge does to a partition: facts about one join,
//! and by induction about the whole run.

use vstd::prelude::*;
use crate::dfa_learning_toolkit::dfa::StateLabel;
use crate::dfa_learning_toolkit::blocks::{Blocks, pairs_in_range, pairs_joined, lemma_merge_step};

verus! {

/// If the forced pairs are joined in `class`, then any two targets that the
/// two roots have on one symbol are in one class.
pub proof fn lemma_forced_gives(b: Blocks, keep: usize, gone: usize, upto: int, class: Seq<usize>, s: int)
    requires
        pairs_joined(b.forced(keep, gone, upto), class),
        0 <= s < upto,
    ensures
        match (b.trans[keep as int][s], b.trans[gone as int][s]) {
            (Some(t), Some(u)) => class[t as int] == class[u as int],
            _ => true,
        },
    decreases upto,
{
    let all = b.forced(keep, gone, upto);
    let rest = b.forced(keep, gone, upto - 1);
    assert forall|k: int| 0 <= k < rest.len() implies class[(#[trigger] rest[k]).0 as int] == class[rest[k].1
        as int] by {
        assert(all[k] == rest[k]);
    }
    if s < upto - 1 {
        lemma_forced_gives(b, keep, gone, upto - 1, class, s);
    } else {
        match (b.trans[keep as int][s], b.trans[gone as int][s]) {
            (Some(t), Some(u)) => {
                assert(all[all.len() - 1] == (t, u));
            },
            _ => {},
        }
    }
}

/// If any two targets that the two roots have on one symbol are in one
/// class, then the forced pairs are joined in `class`.
pub proof fn lemma_forced_joined(b: Blocks, keep: usize, gone: usize, upto: int, class: Seq<usize>)
    requires
        forall|s: int|
            0 <= s < upto ==> match (#[trigger] b.trans[keep as int][s], b.trans[gone as int][s]) {
                (Some(t), Some(u)) => class[t as int] == class[u as int],
                _ => true,
            },
    ensures
        pairs_joined(b.forced(keep, gone, upto), class),
    decreases upto,
{
    if upto > 0 {
        lemma_forced_joined(b, keep, gone, upto - 1, class);
        let tk = b.trans[keep as int][upto - 1];
    }
}

/// After a join every old block lies within one new block, and the two
/// roots are in one block.
pub proof fn lemma_absorb_refines(b: Blocks, keep: usize, gone: usize)
    requires
        b.wf(),
        b.is_root(keep as int),
        b.is_root(gone as int),
        keep != gone,
    ensures
        b.refines(b.absorb(keep, gone)),
        b.absorb(keep, gone).root[keep as int] == keep,
        b.absorb(keep, gone).root[gone as int] == keep,
{
    let a = b.absorb(keep, gone);
    assert forall|x: int| 0 <= x < b.len() implies a.root[#[trigger] b.root[x] as int] == a.root[x] by {
        assert(b.root[b.root[x] as int] == b.root[x]);
    }
}

/// A join of blocks whose labels do not conflict keeps every transition and
/// every known label, of states and of blocks.
pub proof fn lemma_absorb_keeps(b: Blocks, keep: usize, gone: usize)
    requires
        b.wf(),
        b.is_root(keep as int),
        b.is_root(gone as int),
        keep != gone,
        !b.label[keep as int].conflicts(b.label[gone as int]),
    ensures
        keeps(b, b.absorb(keep, gone)),
        b.labels_agree() ==> b.absorb(keep, gone).labels_agree(),
{
    let a = b.absorb(keep, gone);
    assert forall|x: int, s: int| 0 <= x < b.len() && 0 <= s < b.symbols && (#[trigger] b.trans[x][s]).is_some()
        implies a.trans[x][s] == b.trans[x][s] by {}
    assert forall|x: int| 0 <= x < b.len() && b.label[#[trigger] b.root[x] as int] != StateLabel::Unknown implies
        a.label[a.root[x] as int] == b.label[b.root[x] as int] by {
        assert(b.root[b.root[x] as int] == b.root[x]);
    }
    if b.labels_agree() {
        assert forall|x: int| 0 <= x < a.len() && #[trigger] a.label[x] != StateLabel::Unknown implies a.label[a.root[x]
            as int] == a.label[x] by {
            assert(b.root[b.root[x] as int] == b.root[x]);
            if x != keep {
                assert(b.label[x] == a.label[x]);
                assert(b.label[b.root[x] as int] == b.label[x]);
            }
        }
    }
}

/// From `b` to `a`, a transition that is kept stays, a label that is known
/// stays, and so does the known label of the block of every state.
pub open spec fn keeps(b: Blocks, a: Blocks) -> bool {
    &&& forall|x: int, s: int|
        0 <= x < b.len() && 0 <= s < b.symbols && (#[trigger] b.trans[x][s]).is_some() ==> a.trans[x][s]
            == b.trans[x][s]
    &&& forall|x: int| 0 <= x < b.len() && #[trigger] b.label[x] != StateLabel::Unknown ==> a.label[x] == b.label[x]
    &&& forall|x: int|
        0 <= x < b.len() && b.label[#[trigger] b.root[x] as int] != StateLabel::Unknown ==> a.label[a.root[x] as int]
            == b.label[b.root[x] as int]
}

/// If the transitions of `b` are resolved in `class`, and so are the pairs
/// that a join forces, then the transitions after the join are resolved in
/// `class`.
pub proof fn lemma_absorb_resolved(b: Blocks, keep: usize, gone: usize, class: Seq<usize>)
    requires
        b.wf(),
        b.is_root(keep as int),
        b.is_root(gone as int),
        keep != gone,
        b.resolved_in(class),
        pairs_joined(b.forced(keep, gone, b.symbols as int), class),
    ensures
        b.absorb(keep, gone).resolved_in(class),
{
    let a = b.absorb(keep, gone);
    assert forall|x: int, s: int| 0 <= x < a.len() && 0 <= s < a.symbols implies match #[trigger] a.trans[x][s] {
        Some(t) => match a.trans[a.root[x] as int][s] {
            Some(u) => class[u as int] == class[t as int],
            None => false,
        },
        None => true,
    } by {
        lemma_forced_gives(b, keep, gone, b.symbols as int, class, s);
        assert(b.root[b.root[x] as int] == b.root[x]);
        let row_keep = b.trans[keep as int][s];
        let row_gone = b.trans[gone as int][s];
        let row_x = b.trans[x][s];
        let row_root = b.trans[b.root[x] as int][s];
        if x == keep {
        } else if b.root[x] == gone {
        } else {
        }
    }
}

/// If `class` is made of whole blocks of `b`, is respected by the
/// transitions of `b`, and has the two roots in one class, then the same
/// holds after the join, and the forced pairs are joined in `class`.
pub proof fn lemma_absorb_least(b: Blocks, keep: usize, gone: usize, class: Seq<usize>)
    requires
        b.wf(),
        b.is_root(keep as int),
        b.is_root(gone as int),
        keep != gone,
        b.carried_by(class),
        b.respected_by(class),
        class[keep as int] == class[gone as int],
    ensures
        b.absorb(keep, gone).carried_by(class),
        b.absorb(keep, gone).respected_by(class),
        pairs_joined(b.forced(keep, gone, b.symbols as int), class),
{
    let a = b.absorb(keep, gone);
    assert forall|s: int| 0 <= s < b.symbols implies match (#[trigger] b.trans[keep as int][s], b.trans[gone as int][s]) {
        (Some(t), Some(u)) => class[t as int] == class[u as int],
        _ => true,
    } by {
        let tg = b.trans[gone as int][s];
    }
    lemma_forced_joined(b, keep, gone, b.symbols as int, class);
    assert forall|x: int| 0 <= x < a.len() implies class[#[trigger] a.root[x] as int] == class[x] by {
        assert(class[b.root[x] as int] == class[x]);
    }
    assert forall|x: int, y: int, s: int|
        #![trigger a.trans[x][s], a.trans[y][s]]
        0 <= x < a.len() && 0 <= y < a.len() && 0 <= s < a.symbols && class[x] == class[y] implies match (
        a.trans[x][s],
        a.trans[y][s],
    ) {
        (Some(t), Some(u)) => class[t as int] == class[u as int],
        _ => true,
    } by {
        let bx = b.trans[x][s];
        let by_ = b.trans[y][s];
        let bk = b.trans[keep as int][s];
        let bg = b.trans[gone as int][s];
        assert(a.trans[x][s] == if x == keep {
            match bk {
                Some(t) => Some(t),
                None => bg,
            }
        } else {
            bx
        });
        assert(a.trans[y][s] == if y == keep {
            match bk {
                Some(t) => Some(t),
                None => bg,
            }
        } else {
            by_
        });
    }
}

/// The closure leaves a sound partition of the same states in which every
/// old block lies within one block; and where it went through, the two
/// states of every queued pair are in one block.
pub proof fn lemma_close_sound(b: Blocks, queue: Seq<(usize, usize)>)
    requires
        b.wf(),
        pairs_in_range(queue, b.len()),
    ensures
        b.close(queue).0.wf(),
        b.close(queue).0.len() == b.len(),
        b.close(queue).0.symbols == b.symbols,
        b.refines(b.close(queue).0),
        b.close(queue).0.num_blocks() <= b.num_blocks(),
        b.close(queue).1 ==> pairs_joined(queue, b.close(queue).0.root),
    decreases b.num_blocks(), queue.len(),
{
    let fin = b.close(queue).0;
    if queue.len() == 0 {
        assert(b.refines(b));
    } else {
        let x = queue[0].0;
        let y = queue[0].1;
        let step = b.merge_step(x, y);
        lemma_merge_step(b, x, y);
        if !step.2 {
            assert(b.refines(b));
        } else {
            let next = step.0;
            let rest = queue.skip(1) + step.1;
            lemma_step_refines(b, x, y);
            lemma_close_sound(next, rest);
            assert forall|z: int| 0 <= z < b.len() implies fin.root[#[trigger] b.root[z] as int] == fin.root[z] by {
                assert(b.root[b.root[z] as int] == b.root[z]);
                assert(next.root[b.root[z] as int] == next.root[z]);
                assert(fin.root[next.root[z] as int] == fin.root[z]);
                assert(fin.root[next.root[b.root[z] as int] as int] == fin.root[b.root[z] as int]);
            }
            if b.close(queue).1 {
                assert forall|k: int| 0 <= k < queue.len() implies fin.root[(#[trigger] queue[k]).0 as int]
                    == fin.root[queue[k].1 as int] by {
                    if k == 0 {
                        assert(fin.root[next.root[x as int] as int] == fin.root[x as int]);
                        assert(fin.root[next.root[y as int] as int] == fin.root[y as int]);
                    } else {
                        assert(rest[k - 1] == queue[k]);
                    }
                }
            }
        }
    }
}

/// After a step every old block lies within one new block, and where the
/// step went through, the two states are in one block.
pub proof fn lemma_step_refines(b: Blocks, x: usize, y: usize)
    requires
        b.wf(),
        x < b.len(),
        y < b.len(),
    ensures
        b.refines(b.merge_step(x, y).0),
        b.merge_step(x, y).2 ==> b.merge_step(x, y).0.root[x as int] == b.merge_step(x, y).0.root[y as int],
        keeps(b, b.merge_step(x, y).0),
        b.labels_agree() ==> b.merge_step(x, y).0.labels_agree(),
{
    let rx = b.root[x as int];
    let ry = b.root[y as int];
    assert(b.root[rx as int] == rx);
    assert(b.root[ry as int] == ry);
    if rx == ry || b.label[rx as int].conflicts(b.label[ry as int]) {
        assert(b.refines(b));
        assert(keeps(b, b));
    } else if b.keeps_first(rx, ry) {
        lemma_absorb_refines(b, rx, ry);
        lemma_absorb_keeps(b, rx, ry);
    } else {
        lemma_absorb_refines(b, ry, rx);
        lemma_absorb_keeps(b, ry, rx);
    }
}

/// Keeping is transitive along partitions that refine one another.
pub proof fn lemma_keeps_trans(a: Blocks, b: Blocks, c: Blocks)
    requires
        a.wf(),
        b.wf(),
        a.len() == b.len(),
        a.symbols == b.symbols,
        keeps(a, b),
        keeps(b, c),
    ensures
        keeps(a, c),
{
    assert forall|x: int, s: int| 0 <= x < a.len() && 0 <= s < a.symbols && (#[trigger] a.trans[x][s]).is_some()
        implies c.trans[x][s] == a.trans[x][s] by {
        assert(b.trans[x][s] == a.trans[x][s]);
    }
    assert forall|x: int| 0 <= x < a.len() && a.label[#[trigger] a.root[x] as int] != StateLabel::Unknown implies
        c.label[c.root[x] as int] == a.label[a.root[x] as int] by {
        assert(b.label[b.root[x] as int] == a.label[a.root[x] as int]);
    }
}

/// The closure keeps every transition and every known label, of states and
/// of blocks, and keeps the labels of states in agreement with those of
/// their blocks.
pub proof fn lemma_close_keeps(b: Blocks, queue: Seq<(usize, usize)>)
    requires
        b.wf(),
        pairs_in_range(queue, b.len()),
    ensures
        keeps(b, b.close(queue).0),
        b.labels_agree() ==> b.close(queue).0.labels_agree(),
    decreases b.num_blocks(), queue.len(),
{
    if queue.len() != 0 {
        let x = queue[0].0;
        let y = queue[0].1;
        let step = b.merge_step(x, y);
        lemma_merge_step(b, x, y);
        if step.2 {
            let rest = queue.skip(1) + step.1;
            lemma_step_refines(b, x, y);
            lemma_close_keeps(step.0, rest);
            lemma_keeps_trans(b, step.0, step.0.close(rest).0);
        }
    }
}

/// Where the closure went through from a partition whose transitions are
/// resolved in the blocks that it ends with, it ends deterministic.
pub proof fn lemma_close_deterministic(b: Blocks, queue: Seq<(usize, usize)>)
    requires
        b.wf(),
        pairs_in_range(queue, b.len()),
        b.close(queue).1,
        b.resolved_in(b.close(queue).0.root),
    ensures
        b.close(queue).0.deterministic(),
    decreases b.num_blocks(), queue.len(),
{
    let fin = b.close(queue).0;
    if queue.len() != 0 {
        let x = queue[0].0;
        let y = queue[0].1;
        let step = b.merge_step(x, y);
        let rx = b.root[x as int];
        let ry = b.root[y as int];
        lemma_merge_step(b, x, y);
        let next = step.0;
        let rest = queue.skip(1) + step.1;
        lemma_close_sound(next, rest);
        assert(pairs_joined(step.1, fin.root)) by {
            assert forall|k: int| 0 <= k < step.1.len() implies fin.root[(#[trigger] step.1[k]).0 as int]
                == fin.root[step.1[k].1 as int] by {
                assert(rest[queue.len() - 1 + k] == step.1[k]);
            }
        }
        assert(b.root[rx as int] == rx);
        assert(b.root[ry as int] == ry);
        if rx == ry {
        } else if b.keeps_first(rx, ry) {
            lemma_absorb_resolved(b, rx, ry, fin.root);
        } else {
            lemma_absorb_resolved(b, ry, rx, fin.root);
        }
        lemma_close_deterministic(next, rest);
    }
}

/// The closure joins only what it must: any classes that are made of whole
/// blocks, are respected by the transitions and join the queued pairs are
/// still made of whole blocks afterwards.
pub proof fn lemma_close_least(b: Blocks, queue: Seq<(usize, usize)>, class: Seq<usize>)
    requires
        b.wf(),
        pairs_in_range(queue, b.len()),
        b.carried_by(class),
        b.respected_by(class),
        pairs_joined(queue, class),
    ensures
        b.close(queue).0.carried_by(class),
        b.close(queue).0.respected_by(class),
    decreases b.num_blocks(), queue.len(),
{
    if queue.len() != 0 {
        let x = queue[0].0;
        let y = queue[0].1;
        let step = b.merge_step(x, y);
        let rx = b.root[x as int];
        let ry = b.root[y as int];
        lemma_merge_step(b, x, y);
        if step.2 {
            let next = step.0;
            let rest = queue.skip(1) + step.1;
            assert(b.root[rx as int] == rx);
            assert(b.root[ry as int] == ry);
            assert(class[rx as int] == class[ry as int]) by {
                assert(class[queue[0].0 as int] == class[queue[0].1 as int]);
            }
            if rx == ry {
            } else if b.keeps_first(rx, ry) {
                lemma_absorb_least(b, rx, ry, class);
            } else {
                lemma_absorb_least(b, ry, rx, class);
            }
            assert(pairs_joined(rest, class)) by {
                assert forall|k: int| 0 <= k < rest.len() implies class[(#[trigger] rest[k]).0 as int] == class[rest[k].1
                    as int] by {
                    if k < queue.len() - 1 {
                        assert(rest[k] == queue[k + 1]);
                    } else {
                        assert(rest[k] == step.1[k - (queue.len() - 1)]);
                    }
                }
            }
            lemma_close_least(next, rest, class);
        }
    }
}

} // verus!
