//! RPNI: one pass over the states in ascending order. A state that no red
//! state has taken in yet is merged into the first red state, in ascending
//! order, with which the merge goes through, and becomes red itself if
//! there is none.

use vstd::prelude::*;
use crate::dfa_learning_toolkit::dfa::{DFA, DfaView};
use crate::dfa_learning_toolkit::blocks::Blocks;
use crate::dfa_learning_toolkit::closure::lemma_close_sound;
use crate::dfa_learning_toolkit::forest::lemma_blocks_wf;
use crate::dfa_learning_toolkit::history::lemma_rewind;
use crate::dfa_learning_toolkit::state_partition::{StatePartition, initial_partition};
use crate::dfa_learning_toolkit::merge_data::{MergeData, SearchOutcome, capped, clock_now, clock_elapsed};

verus! {

/// The state `q` is in the block of a red state.
pub open spec fn absorbed(b: Blocks, red: Seq<bool>, q: int) -> bool {
    exists|r: int| 0 <= r < red.len() && #[trigger] red[r] && b.root[r] == b.root[q]
}

/// Tries to merge `q` into the red states from `from` on, in ascending
/// order: the partition after the first merge that goes through, or the
/// partition as it was; whether one went through; and how many were
/// attempted.
pub open spec fn try_reds(b: Blocks, red: Seq<bool>, q: usize, from: int) -> (Blocks, bool, nat)
    decreases red.len() - from,
{
    if from < 0 || from >= red.len() {
        (b, false, 0)
    } else if red[from] {
        let m = b.merge(from as usize, q);
        if m.1 {
            (m.0, true, 1)
        } else {
            let rest = try_reds(b, red, q, from + 1);
            (rest.0, rest.1, rest.2 + 1)
        }
    } else {
        try_reds(b, red, q, from + 1)
    }
}

/// The pass from the state `q` on: the final partition, and the numbers of
/// merges attempted and gone through.
pub open spec fn rpni_from(b: Blocks, red: Seq<bool>, q: int) -> (Blocks, nat, nat)
    decreases red.len() - q,
{
    if q < 0 || q >= red.len() {
        (b, 0, 0)
    } else if red[q] || absorbed(b, red, q) {
        rpni_from(b, red, q + 1)
    } else {
        let t = try_reds(b, red, q as usize, 0);
        let rest = rpni_from(
            t.0,
            if t.1 {
                red
            } else {
                red.update(q, true)
            },
            q + 1,
        );
        (
            rest.0,
            t.2 + rest.1,
            rest.2 + if t.1 {
                1nat
            } else {
                0nat
            },
        )
    }
}

/// What RPNI gives on the automaton `d`: the pass starts from the
/// partition into single states with the start state red, and ends with
/// the automaton that has the final blocks for states.
pub open spec fn rpni_outcome(d: DfaView) -> SearchOutcome {
    let run = rpni_from(initial_partition(d).blocks(), Seq::new(d.len(), |x: int| x == d.start), 0);
    SearchOutcome { dfa: run.0.quotient(d.alphabet, d.start), attempted: run.1, valid: run.2 }
}

/// The partition of the states of `d` that RPNI ends with.
pub open spec fn rpni_partition(d: DfaView) -> Blocks {
    rpni_from(initial_partition(d).blocks(), Seq::new(d.len(), |x: int| x == d.start), 0).0
}

/// RPNI determinism: automata with the same content give the same
/// automaton and the same counts.
pub proof fn law_rpni_repeatable(first: DFA, second: DFA)
    requires
        first@ == second@,
    ensures
        rpni_outcome(first@) == rpni_outcome(second@),
{
}

/// Attempts on a sound partition leave a sound partition of the same
/// states.
pub proof fn lemma_try_reds(b: Blocks, red: Seq<bool>, q: usize, from: int)
    requires
        b.wf(),
        red.len() == b.len(),
        q < b.len(),
        0 <= from,
    ensures
        try_reds(b, red, q, from).0.wf(),
        try_reds(b, red, q, from).0.len() == b.len(),
        try_reds(b, red, q, from).0.symbols == b.symbols,
        !try_reds(b, red, q, from).1 ==> try_reds(b, red, q, from).0 == b,
    decreases red.len() - from,
{
    if from < red.len() {
        if red[from] {
            lemma_close_sound(b, seq![(from as usize, q)]);
        }
        lemma_try_reds(b, red, q, from + 1);
    }
}

/// Whether the state `q` is in the block of a red state.
fn is_absorbed(part: &StatePartition, red: &Vec<bool>, q: usize) -> (r: bool)
    requires
        part.wf(),
        red.len() == part@.len(),
        q < part@.len(),
    ensures
        r == absorbed(part@.blocks(), red@, q as int),
{
    let n = part.len();
    let root_q = part.root_index(q);
    let mut r: usize = 0;
    while r < n
        invariant
            part.wf(),
            n == part@.len(),
            red.len() == n,
            q < n,
            r <= n,
            root_q == part@.blocks().root[q as int],
            forall|c: int| 0 <= c < r ==> !(#[trigger] red@[c] && part@.blocks().root[c] == part@.blocks().root[q as int]),
        decreases n - r,
    {
        if red[r] && part.root_index(r) == root_q {
            return true;
        }
        r += 1;
    }
    false
}

/// Attempts to merge `q` into the red states in ascending order, rolling
/// back after each attempt that fails, until one goes through.
fn merge_into_red(
    part: &mut StatePartition,
    baseline: &StatePartition,
    red: &Vec<bool>,
    q: usize,
    stats: &mut MergeData,
) -> (merged: bool)
    requires
        old(part).wf(),
        old(part)@ == baseline@,
        red.len() == old(part)@.len(),
        q < old(part)@.len(),
    ensures
        final(part).wf(),
        final(part)@.len() == old(part)@.len(),
        merged == try_reds(old(part)@.blocks(), red@, q, 0).1,
        final(part)@.blocks() == try_reds(old(part)@.blocks(), red@, q, 0).0,
        !merged ==> final(part)@ == old(part)@,
        final(stats).attempted_merges_count == capped(
            old(stats).attempted_merges_count as nat + try_reds(old(part)@.blocks(), red@, q, 0).2,
        ),
        final(stats).valid_merges_count == capped(
            old(stats).valid_merges_count as nat + if merged {
                1nat
            } else {
                0nat
            },
        ),
        final(stats).duration == old(stats).duration,
{
    let n = part.len();
    let ghost b = part@.blocks();
    let ghost tried: nat = 0;
    let mut r: usize = 0;
    while r < n
        invariant
            part.wf(),
            part@ == baseline@,
            part@ == old(part)@,
            b == part@.blocks(),
            n == part@.len(),
            red.len() == n,
            q < n,
            r <= n,
            try_reds(b, red@, q, 0).0 == try_reds(b, red@, q, r as int).0,
            try_reds(b, red@, q, 0).1 == try_reds(b, red@, q, r as int).1,
            try_reds(b, red@, q, 0).2 == try_reds(b, red@, q, r as int).2 + tried,
            stats.attempted_merges_count == capped(old(stats).attempted_merges_count as nat + tried),
            stats.valid_merges_count == old(stats).valid_merges_count,
            stats.duration == old(stats).duration,
        decreases n - r,
    {
        if red[r] {
            let res = part.merge_states(r, q);
            match res {
                Ok(true) => {
                    stats.record(true);
                    proof {
                        lemma_blocks_wf(baseline@.forest);
                        lemma_close_sound(b, seq![(r, q)]);
                        lemma_rewind(part@, baseline@.log.len());
                    }
                    return true;
                },
                _ => {
                    stats.record(false);
                    let _back = part.rollback_changes_from(baseline);
                    proof {
                        tried = tried + 1;
                    }
                },
            }
        }
        r += 1;
    }
    false
}

/// Runs RPNI on `automaton`, counting its merges into `stats`.
pub fn rpni_search(automaton: &DFA, stats: &mut MergeData) -> (d: DFA)
    requires
        automaton@.valid(),
    ensures
        d@ == rpni_outcome(automaton@).dfa,
        d@.valid(),
        final(stats).attempted_merges_count == capped(
            old(stats).attempted_merges_count as nat + rpni_outcome(automaton@).attempted,
        ),
        final(stats).valid_merges_count == capped(
            old(stats).valid_merges_count as nat + rpni_outcome(automaton@).valid,
        ),
        final(stats).duration == old(stats).duration,
{
    let n = automaton.states.len();
    let mut part = automaton.to_state_partition();
    let mut baseline = part.copy();
    let mut red: Vec<bool> = Vec::new();
    let mut x: usize = 0;
    while x < n
        invariant
            x <= n,
            red@ == Seq::new(x as nat, |y: int| y == automaton.start_state_id),
        decreases n - x,
    {
        red.push(x == automaton.start_state_id);
        x += 1;
        assert(red@ =~= Seq::new(x as nat, |y: int| y == automaton.start_state_id));
    }
    let ghost b0 = part@.blocks();
    let ghost red0 = red@;
    let ghost tried: nat = 0;
    let ghost went: nat = 0;
    let mut q: usize = 0;
    proof {
        lemma_blocks_wf(part@.forest);
    }
    while q < n
        invariant
            part.wf(),
            part@ == baseline@,
            part@.len() == n,
            part@.symbols() == automaton@.symbols(),
            red.len() == n,
            q <= n,
            rpni_from(b0, red0, 0).0 == rpni_from(part@.blocks(), red@, q as int).0,
            rpni_from(b0, red0, 0).1 == rpni_from(part@.blocks(), red@, q as int).1 + tried,
            rpni_from(b0, red0, 0).2 == rpni_from(part@.blocks(), red@, q as int).2 + went,
            stats.attempted_merges_count == capped(old(stats).attempted_merges_count as nat + tried),
            stats.valid_merges_count == capped(old(stats).valid_merges_count as nat + went),
            stats.duration == old(stats).duration,
        decreases n - q,
    {
        let taken = red[q] || is_absorbed(&part, &red, q);
        if !taken {
            let ghost before = part@.blocks();
            proof {
                lemma_blocks_wf(part@.forest);
                lemma_try_reds(before, red@, q, 0);
            }
            let merged = merge_into_red(&mut part, &baseline, &red, q, stats);
            proof {
                let t = try_reds(before, red@, q, 0);
                tried = tried + t.2;
                if merged {
                    went = went + 1;
                }
            }
            if merged {
                baseline = part.copy();
            } else {
                red[q] = true;
            }
        }
        q += 1;
    }
    match part.to_dfa(&automaton.alphabet, automaton.start_state_id) {
        Some(d) => d,
        None => vstd::pervasive::unreached(),
    }
}

/// Runs RPNI on `automaton` and reports the automaton it found with the
/// counts of its merges and the time it took.
pub fn rpni(automaton: DFA) -> (r: (DFA, MergeData))
    requires
        automaton@.valid(),
    ensures
        r.0@ == rpni_outcome(automaton@).dfa,
        r.0@.valid(),
        r.1.attempted_merges_count == capped(rpni_outcome(automaton@).attempted),
        r.1.valid_merges_count == capped(rpni_outcome(automaton@).valid),
{
    let begun = clock_now();
    let mut stats = MergeData::new();
    let d = rpni_search(&automaton, &mut stats);
    stats.duration = clock_elapsed(&begun);
    (d, stats)
}

} // verus!
