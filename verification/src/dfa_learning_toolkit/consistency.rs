//! The automaton that a search gives is the automaton it was given with
//! states folded together: every state has a place in it, every transition
//! is followed, and every known label is kept.

use vstd::prelude::*;
use crate::dfa_learning_toolkit::dfa::{StateLabel, DfaView};
use crate::dfa_learning_toolkit::blocks::{Blocks, fixed_points, lemma_roots_below, lemma_fixed_points_grow};
use crate::dfa_learning_toolkit::closure::{lemma_close_sound, lemma_close_keeps};
use crate::dfa_learning_toolkit::forest::lemma_blocks_wf;
use crate::dfa_learning_toolkit::laws::{law_merge_stays_deterministic, law_merge_removes_a_block};
use crate::dfa_learning_toolkit::state_partition::{initial_partition, lemma_initial_partition};
use crate::dfa_learning_toolkit::rpni::{absorbed, try_reds, rpni_from, rpni_partition, rpni_outcome};
use crate::dfa_learning_toolkit::edsm::{Tally, scan, edsm_from, edsm_partition, edsm_outcome, lemma_scan_from};

verus! {

/// The partition `b` folds the automaton `d`: it is a sound and
/// deterministic partition of the states of `d` in which every state has
/// kept the transitions and the known label that it has in `d`, and no
/// block has another label than one of its states.
pub open spec fn folds(b: Blocks, d: DfaView) -> bool {
    &&& b.wf()
    &&& b.len() == d.len()
    &&& b.symbols == d.symbols()
    &&& b.deterministic()
    &&& b.labels_agree()
    &&& forall|x: int, s: int|
        0 <= x < d.len() && 0 <= s < d.symbols() && (#[trigger] d.trans[x][s]).is_some() ==> b.trans[x][s]
            == d.trans[x][s]
    &&& forall|x: int| 0 <= x < d.len() && #[trigger] d.labels[x] != StateLabel::Unknown ==> b.label[x] == d.labels[x]
}

/// For every state, the position of its block among the blocks.
pub open spec fn fold_map(b: Blocks) -> Seq<usize> {
    Seq::new(b.len(), |x: int| b.block_index(x) as usize)
}

/// The map `h` takes the automaton `d` onto the automaton `q`: start to
/// start, every transition of `d` to a transition of `q` on the same
/// symbol, and every state with a known label to a state with that label.
pub open spec fn maps_onto(d: DfaView, h: Seq<usize>, q: DfaView) -> bool {
    &&& h.len() == d.len()
    &&& q.alphabet == d.alphabet
    &&& forall|x: int| 0 <= x < d.len() ==> (#[trigger] h[x]) < q.len()
    &&& q.start == h[d.start as int]
    &&& forall|x: int, s: int|
        0 <= x < d.len() && 0 <= s < d.symbols() ==> match #[trigger] d.trans[x][s] {
            Some(t) => q.trans[h[x] as int][s] == Some(h[t as int]),
            None => true,
        }
    &&& forall|x: int| 0 <= x < d.len() && #[trigger] d.labels[x] != StateLabel::Unknown ==> q.labels[h[x] as int] == d.labels[x]
}

/// A root stands in the list of the roots at the position of its block.
pub proof fn lemma_root_position(b: Blocks, r: int)
    requires
        b.wf(),
        b.is_root(r),
    ensures
        fixed_points(b.root, r) < b.num_blocks(),
        b.num_blocks() <= b.len(),
        b.roots_below(b.len() as int).len() == b.num_blocks(),
        b.roots_below(b.len() as int)[fixed_points(b.root, r) as int] == r,
{
    let n = b.len() as int;
    let k = fixed_points(b.root, r) as int;
    lemma_fixed_points_grow(b.root, r, n);
    lemma_roots_below(b, n);
    let other = b.roots_below(n)[k] as int;
    if other < r {
        lemma_fixed_points_grow(b.root, other, r);
    } else if r < other {
        lemma_fixed_points_grow(b.root, r, other);
    }
}

/// The partition into single states folds a valid automaton.
pub proof fn lemma_initial_folds(d: DfaView)
    requires
        d.valid(),
        d.len() <= usize::MAX,
    ensures
        folds(initial_partition(d).blocks(), d),
{
    lemma_initial_partition(d);
    lemma_blocks_wf(initial_partition(d).forest);
    let b = initial_partition(d).blocks();
    assert forall|x: int, s: int| 0 <= x < b.len() && 0 <= s < b.symbols implies match #[trigger] b.trans[x][s] {
        Some(t) => match b.trans[b.root[x] as int][s] {
            Some(u) => b.root[u as int] == b.root[t as int],
            None => false,
        },
        None => true,
    } by {}
}

/// A merge that goes through on a partition that folds an automaton leaves
/// a partition that folds it.
pub proof fn lemma_merge_folds(b: Blocks, d: DfaView, i: usize, j: usize)
    requires
        folds(b, d),
        i < b.len(),
        j < b.len(),
        b.merge(i, j).1,
    ensures
        folds(b.merge(i, j).0, d),
{
    let queue = seq![(i, j)];
    let m = b.merge(i, j).0;
    lemma_close_sound(b, queue);
    lemma_close_keeps(b, queue);
    law_merge_stays_deterministic(b, i, j);
    assert forall|x: int, s: int| 0 <= x < d.len() && 0 <= s < d.symbols() && (#[trigger] d.trans[x][s]).is_some()
        implies m.trans[x][s] == d.trans[x][s] by {
        assert(b.trans[x][s] == d.trans[x][s]);
    }
    assert forall|x: int| 0 <= x < d.len() && #[trigger] d.labels[x] != StateLabel::Unknown implies m.label[x]
        == d.labels[x] by {
        assert(b.label[x] == d.labels[x]);
    }
}

/// Trying the red states keeps a partition folding the automaton.
pub proof fn lemma_try_reds_folds(b: Blocks, red: Seq<bool>, q: usize, from: int, d: DfaView)
    requires
        folds(b, d),
        red.len() == b.len(),
        q < b.len(),
        0 <= from,
    ensures
        folds(try_reds(b, red, q, from).0, d),
    decreases red.len() - from,
{
    if from < red.len() {
        if red[from] && b.merge(from as usize, q).1 {
            lemma_merge_folds(b, d, from as usize, q);
        } else {
            lemma_try_reds_folds(b, red, q, from + 1, d);
        }
    }
}

/// The pass of RPNI keeps a partition folding the automaton.
pub proof fn lemma_rpni_from_folds(b: Blocks, red: Seq<bool>, q: int, d: DfaView)
    requires
        folds(b, d),
        red.len() == b.len(),
        0 <= q,
    ensures
        folds(rpni_from(b, red, q).0, d),
    decreases red.len() - q,
{
    if q < red.len() {
        if red[q] || absorbed(b, red, q) {
            lemma_rpni_from_folds(b, red, q + 1, d);
        } else {
            let t = try_reds(b, red, q as usize, 0);
            lemma_try_reds_folds(b, red, q as usize, 0, d);
            lemma_rpni_from_folds(
                t.0,
                if t.1 {
                    red
                } else {
                    red.update(q, true)
                },
                q + 1,
                d,
            );
        }
    }
}

/// The rounds of exhaustive EDSM keep a partition folding the automaton.
pub proof fn lemma_edsm_from_folds(b: Blocks, d: DfaView)
    requires
        folds(b, d),
    ensures
        folds(edsm_from(b).0, d),
    decreases b.num_blocks(),
{
    lemma_scan_from(b, 0, Tally { best: None, left: 0, attempted: 0, valid: 0 });
    match scan(b).best {
        Some(pair) => {
            lemma_merge_folds(b, d, pair.0, pair.1);
            law_merge_removes_a_block(b, pair.0, pair.1);
            lemma_edsm_from_folds(b.merge(pair.0, pair.1).0, d);
        },
        None => {},
    }
}

/// The automaton that has the blocks of a folding partition for states is
/// the automaton folded: the map from each state to its block takes the
/// one onto the other.
pub proof fn lemma_quotient_maps_onto(b: Blocks, d: DfaView)
    requires
        d.valid(),
        folds(b, d),
    ensures
        maps_onto(d, fold_map(b), b.quotient(d.alphabet, d.start)),
        b.quotient(d.alphabet, d.start).len() == b.num_blocks(),
{
    let q = b.quotient(d.alphabet, d.start);
    let h = fold_map(b);
    let n = b.len() as int;
    lemma_roots_below(b, n);
    assert forall|x: int| 0 <= x < d.len() implies (#[trigger] h[x]) < q.len() by {
        assert(b.root[b.root[x] as int] == b.root[x]);
        lemma_root_position(b, b.root[x] as int);
    }
    assert forall|x: int, s: int| 0 <= x < d.len() && 0 <= s < d.symbols() implies match #[trigger] d.trans[x][s] {
        Some(t) => q.trans[h[x] as int][s] == Some(h[t as int]),
        None => true,
    } by {
        match d.trans[x][s] {
            Some(t) => {
                let r = b.root[x] as int;
                assert(b.root[r] == r);
                lemma_root_position(b, r);
                assert(b.trans[x][s] == Some(t));
                assert(h[x] as int == fixed_points(b.root, r));
                assert(q.trans[h[x] as int] == b.quotient_row(r));
                let u = b.trans[r][s];
                assert(u.is_some());
                assert(b.root[u.unwrap() as int] == b.root[t as int]);
                assert(d.trans[x].len() == d.symbols());
            },
            None => {},
        }
    }
    assert forall|x: int| 0 <= x < d.len() && #[trigger] d.labels[x] != StateLabel::Unknown implies q.labels[h[x] as int]
        == d.labels[x] by {
        let r = b.root[x] as int;
        assert(b.root[r] == r);
        lemma_root_position(b, r);
        assert(h[x] as int == fixed_points(b.root, r));
        assert(b.label[x] == d.labels[x]);
    }
}

/// What RPNI gives is the automaton it was given, folded along the blocks
/// that the pass ends with.
pub proof fn law_rpni_folds_the_automaton(d: DfaView)
    requires
        d.valid(),
        d.len() <= usize::MAX,
    ensures
        folds(rpni_partition(d), d),
        maps_onto(d, fold_map(rpni_partition(d)), rpni_outcome(d).dfa),
        rpni_outcome(d).dfa.len() == rpni_partition(d).num_blocks(),
{
    lemma_initial_folds(d);
    lemma_rpni_from_folds(initial_partition(d).blocks(), Seq::new(d.len(), |x: int| x == d.start), 0, d);
    lemma_quotient_maps_onto(rpni_partition(d), d);
}

/// What exhaustive EDSM gives is the automaton it was given, folded along
/// the blocks that the last round ends with.
pub proof fn law_edsm_folds_the_automaton(d: DfaView)
    requires
        d.valid(),
        d.len() <= usize::MAX,
    ensures
        folds(edsm_partition(d), d),
        maps_onto(d, fold_map(edsm_partition(d)), edsm_outcome(d).dfa),
        edsm_outcome(d).dfa.len() == edsm_partition(d).num_blocks(),
{
    lemma_initial_folds(d);
    lemma_edsm_from_folds(initial_partition(d).blocks(), d);
    lemma_quotient_maps_onto(edsm_partition(d), d);
}

} // verus!
