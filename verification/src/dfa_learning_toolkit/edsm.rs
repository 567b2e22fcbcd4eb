//! Exhaustive EDSM: in every round each pair of states of different blocks
//! is merged on trial from a common baseline, and the merge with the most
//! evidence among those that go through is committed; the search ends with
//! the first round in which none goes through.
//!
//! The evidence of a merge is the number of blocks with a known label that
//! it saves: each join of two labelled blocks in its closure is one
//! agreement between labels.

use vstd::prelude::*;
use crate::dfa_learning_toolkit::dfa::{DFA, DfaView};
use crate::dfa_learning_toolkit::blocks::{Blocks, lemma_fixed_points_grow};
use crate::dfa_learning_toolkit::closure::lemma_close_sound;
use crate::dfa_learning_toolkit::forest::lemma_blocks_wf;
use crate::dfa_learning_toolkit::history::lemma_rewind;
use crate::dfa_learning_toolkit::laws::law_merge_removes_a_block;
use crate::dfa_learning_toolkit::state_partition::{StatePartition, initial_partition, lemma_initial_partition};
use crate::dfa_learning_toolkit::merge_data::{MergeData, SearchOutcome, capped, clock_now, clock_elapsed};

verus! {

/// The evidence for merging `i` and `j`: how many labelled blocks fewer
/// there are after the merge.
pub open spec fn evidence(b: Blocks, i: usize, j: usize) -> int {
    b.num_labelled() - b.merge(i, j).0.num_labelled()
}

/// What a round knows after some of its pairs: the best pair so far with
/// the number of labelled blocks that its merge leaves, and the numbers of
/// merges attempted and gone through.
pub struct Tally {
    pub best: Option<(usize, usize)>,
    pub left: nat,
    pub attempted: nat,
    pub valid: nat,
}

/// The tally after the pair `i`, `j`. States of one block are no
/// candidates. A merge that goes through replaces the best pair only if it
/// leaves strictly fewer labelled blocks, so that among equals the first
/// pair stays.
pub open spec fn scan_pair(b: Blocks, i: usize, j: usize, t: Tally) -> Tally {
    if b.root[i as int] == b.root[j as int] {
        t
    } else {
        let m = b.merge(i, j);
        if !m.1 {
            Tally { attempted: t.attempted + 1, ..t }
        } else if t.best.is_none() || m.0.num_labelled() < t.left {
            Tally { best: Some((i, j)), left: m.0.num_labelled(), attempted: t.attempted + 1, valid: t.valid + 1 }
        } else {
            Tally { attempted: t.attempted + 1, valid: t.valid + 1, ..t }
        }
    }
}

/// The tally after the pairs of `i` with the states from `j` on.
pub open spec fn scan_row(b: Blocks, i: usize, j: int, t: Tally) -> Tally
    decreases b.len() - j,
{
    if j < 0 || j >= b.len() {
        t
    } else {
        scan_row(b, i, j + 1, scan_pair(b, i, j as usize, t))
    }
}

/// The tally after the pairs of the states from `i` on, each with the
/// states after it.
pub open spec fn scan_from(b: Blocks, i: int, t: Tally) -> Tally
    decreases b.len() - i,
{
    if i < 0 || i >= b.len() {
        t
    } else {
        scan_from(b, i + 1, scan_row(b, i as usize, i + 1, t))
    }
}

/// The tally of a whole round: all pairs `i < j`, in ascending order of
/// `i` and then of `j`.
pub open spec fn scan(b: Blocks) -> Tally {
    scan_from(b, 0, Tally { best: None, left: 0, attempted: 0, valid: 0 })
}

/// The best pair of a tally is a pair of states of different blocks whose
/// merge goes through and leaves as many labelled blocks as noted.
pub open spec fn tally_ok(b: Blocks, t: Tally) -> bool {
    match t.best {
        Some(pair) => {
            &&& pair.0 < pair.1 < b.len()
            &&& !b.same_block(pair.0 as int, pair.1 as int)
            &&& b.merge(pair.0, pair.1).1
            &&& t.left == b.merge(pair.0, pair.1).0.num_labelled()
        },
        None => true,
    }
}

/// The pairs of one state with those after it keep a tally sound.
pub proof fn lemma_scan_row(b: Blocks, i: usize, j: int, t: Tally)
    requires
        b.wf(),
        tally_ok(b, t),
        i < j,
    ensures
        tally_ok(b, scan_row(b, i, j, t)),
    decreases b.len() - j,
{
    if j < b.len() {
        lemma_scan_row(b, i, j + 1, scan_pair(b, i, j as usize, t));
    }
}

/// The pairs of a round keep a tally sound.
pub proof fn lemma_scan_from(b: Blocks, i: int, t: Tally)
    requires
        b.wf(),
        tally_ok(b, t),
        0 <= i,
    ensures
        tally_ok(b, scan_from(b, i, t)),
    decreases b.len() - i,
{
    if i < b.len() {
        lemma_scan_row(b, i as usize, i + 1, t);
        lemma_scan_from(b, i + 1, scan_row(b, i as usize, i + 1, t));
    }
}

/// The states `i < j` are a candidate: they are in different blocks, and
/// their merge goes through.
pub open spec fn candidate(b: Blocks, i: int, j: int) -> bool {
    0 <= i < j < b.len() && !b.same_block(i, j) && b.merge(i as usize, j as usize).1
}

/// The pair `i`, `j` comes before the pair `p`, `q` in a round.
pub open spec fn comes_before(i: int, j: int, p: int, q: int) -> bool {
    i < p || (i == p && j < q)
}

/// The tally has a best pair, and it is to be preferred to the pair `p`,
/// `q`, or is that pair: it has more evidence, or as much and comes first.
pub open spec fn preferred(b: Blocks, t: Tally, p: int, q: int) -> bool {
    match t.best {
        Some(pair) => {
            let mine = evidence(b, pair.0, pair.1);
            let other = evidence(b, p as usize, q as usize);
            mine > other || (mine == other && (pair == (p as usize, q as usize) || comes_before(
                pair.0 as int,
                pair.1 as int,
                p,
                q,
            )))
        },
        None => false,
    }
}

/// The tally has seen the pairs before `i`, `j`: its best pair is one of
/// them, and is to be preferred to every candidate among them.
pub open spec fn seen_until(b: Blocks, t: Tally, i: int, j: int) -> bool {
    &&& match t.best {
        Some(pair) => comes_before(pair.0 as int, pair.1 as int, i, j),
        None => true,
    }
    &&& forall|p: int, q: int|
        #![trigger candidate(b, p, q)]
        candidate(b, p, q) && comes_before(p, q, i, j) ==> preferred(b, t, p, q)
}

/// The tally after the rest of a row has seen the whole row.
pub proof fn lemma_scan_row_best(b: Blocks, i: usize, j: int, t: Tally)
    requires
        b.wf(),
        tally_ok(b, t),
        i < j <= b.len(),
        seen_until(b, t, i as int, j),
    ensures
        seen_until(b, scan_row(b, i, j, t), i as int, b.len() as int),
        tally_ok(b, scan_row(b, i, j, t)),
    decreases b.len() - j,
{
    if j < b.len() {
        let next = scan_pair(b, i, j as usize, t);
        assert forall|p: int, q: int|
            #![trigger candidate(b, p, q)]
            candidate(b, p, q) && comes_before(p, q, i as int, j + 1) implies preferred(b, next, p, q) by {
            if comes_before(p, q, i as int, j) {
                assert(preferred(b, t, p, q));
            }
        }
        lemma_scan_row_best(b, i, j + 1, next);
    }
}

/// The tally after the rest of a round has seen every pair.
pub proof fn lemma_scan_from_best(b: Blocks, i: int, t: Tally)
    requires
        b.wf(),
        tally_ok(b, t),
        0 <= i <= b.len(),
        seen_until(b, t, i, i + 1),
    ensures
        seen_until(b, scan_from(b, i, t), b.len() as int, b.len() as int + 1),
        tally_ok(b, scan_from(b, i, t)),
    decreases b.len() - i,
{
    if i < b.len() {
        let next = scan_row(b, i as usize, i + 1, t);
        lemma_scan_row_best(b, i as usize, i + 1, t);
        assert forall|p: int, q: int|
            #![trigger candidate(b, p, q)]
            candidate(b, p, q) && comes_before(p, q, i + 1, i + 2) implies preferred(b, next, p, q) by {
            assert(comes_before(p, q, i, b.len() as int));
        }
        lemma_scan_from_best(b, i + 1, next);
    }
}

/// Highest score first: the pair that a round commits is a candidate, and
/// against every candidate it has more evidence, or as much and comes
/// first, with the smaller `i` and then the smaller `j`. A round commits
/// nothing only if there is no candidate.
pub proof fn law_scan_picks_best(b: Blocks, p: int, q: int)
    requires
        b.wf(),
    ensures
        candidate(b, p, q) ==> preferred(b, scan(b), p, q),
        match scan(b).best {
            Some(pair) => candidate(b, pair.0 as int, pair.1 as int),
            None => !candidate(b, p, q),
        },
{
    let empty = Tally { best: None, left: 0, attempted: 0, valid: 0 };
    lemma_scan_from_best(b, 0, empty);
}

/// The search from the partition `b` on: the final partition, the numbers
/// of merges attempted and gone through, and the number of rounds that
/// committed a merge. Committing a merge is one more attempt that goes
/// through.
pub open spec fn edsm_from(b: Blocks) -> (Blocks, nat, nat, nat)
    decreases b.num_blocks(),
    when b.wf()
    via edsm_from_decreases
{
    let t = scan(b);
    match t.best {
        None => (b, t.attempted, t.valid, 0),
        Some(pair) => {
            let rest = edsm_from(b.merge(pair.0, pair.1).0);
            (rest.0, t.attempted + 1 + rest.1, t.valid + 1 + rest.2, rest.3 + 1)
        },
    }
}

#[via_fn]
proof fn edsm_from_decreases(b: Blocks) {
    lemma_scan_from(b, 0, Tally { best: None, left: 0, attempted: 0, valid: 0 });
    match scan(b).best {
        Some(pair) => {
            law_merge_removes_a_block(b, pair.0, pair.1);
        },
        None => {},
    }
}

/// What exhaustive EDSM gives on the automaton `d`.
pub open spec fn edsm_outcome(d: DfaView) -> SearchOutcome {
    let run = edsm_from(initial_partition(d).blocks());
    SearchOutcome { dfa: run.0.quotient(d.alphabet, d.start), attempted: run.1, valid: run.2 }
}

/// The partition of the states of `d` that exhaustive EDSM ends with.
pub open spec fn edsm_partition(d: DfaView) -> Blocks {
    edsm_from(initial_partition(d).blocks()).0
}

/// The number of rounds of exhaustive EDSM on `d` that commit a merge.
pub open spec fn edsm_rounds(d: DfaView) -> nat {
    edsm_from(initial_partition(d).blocks()).3
}

/// The search ends with a sound partition of the same states, and every
/// round that commits a merge costs at least one block.
pub proof fn lemma_edsm_from(b: Blocks)
    requires
        b.wf(),
    ensures
        edsm_from(b).0.wf(),
        edsm_from(b).0.len() == b.len(),
        edsm_from(b).0.symbols == b.symbols,
        edsm_from(b).3 + edsm_from(b).0.num_blocks() <= b.num_blocks(),
        scan(edsm_from(b).0).best.is_none(),
    decreases b.num_blocks(),
{
    lemma_scan_from(b, 0, Tally { best: None, left: 0, attempted: 0, valid: 0 });
    match scan(b).best {
        Some(pair) => {
            law_merge_removes_a_block(b, pair.0, pair.1);
            lemma_close_sound(b, seq![(pair.0, pair.1)]);
            lemma_edsm_from(b.merge(pair.0, pair.1).0);
        },
        None => {},
    }
}

/// EDSM monotonicity: every round that commits a merge leaves fewer blocks
/// than it found, and on an automaton with `N` states there are at most
/// `N - 1` such rounds.
pub proof fn law_edsm_rounds(d: DfaView)
    requires
        d.valid(),
        d.len() <= usize::MAX,
    ensures
        edsm_rounds(d) <= d.len() - 1,
        forall|b: Blocks|
            b.wf() && (#[trigger] scan(b)).best.is_some() ==> b.merge(
                scan(b).best.unwrap().0,
                scan(b).best.unwrap().1,
            ).0.num_blocks() < b.num_blocks(),
{
    let b = initial_partition(d).blocks();
    lemma_initial_partition(d);
    lemma_blocks_wf(initial_partition(d).forest);
    lemma_edsm_from(b);
    let fin = edsm_from(b).0;
    let r = fin.root[0];
    assert(fin.root[r as int] == r);
    lemma_fixed_points_grow(fin.root, r as int, fin.len() as int);
    assert forall|c: Blocks| c.wf() && (#[trigger] scan(c)).best.is_some() implies c.merge(
        scan(c).best.unwrap().0,
        scan(c).best.unwrap().1,
    ).0.num_blocks() < c.num_blocks() by {
        lemma_scan_from(c, 0, Tally { best: None, left: 0, attempted: 0, valid: 0 });
        law_merge_removes_a_block(c, scan(c).best.unwrap().0, scan(c).best.unwrap().1);
    }
}

/// Automata with the same content give the same automaton, the same counts
/// and the same number of rounds.
pub proof fn law_edsm_repeatable(first: DFA, second: DFA)
    requires
        first@ == second@,
    ensures
        edsm_outcome(first@) == edsm_outcome(second@),
        edsm_rounds(first@) == edsm_rounds(second@),
{
}

/// One round: merges every pair of states of different blocks on trial,
/// rolls back after each, and gives the best pair.
fn scan_round(part: &mut StatePartition, baseline: &StatePartition, stats: &mut MergeData) -> (best: Option<
    (usize, usize),
>)
    requires
        old(part).wf(),
        old(part)@ == baseline@,
    ensures
        final(part).wf(),
        final(part)@ == old(part)@,
        best == scan(old(part)@.blocks()).best,
        final(stats).attempted_merges_count == capped(
            old(stats).attempted_merges_count as nat + scan(old(part)@.blocks()).attempted,
        ),
        final(stats).valid_merges_count == capped(
            old(stats).valid_merges_count as nat + scan(old(part)@.blocks()).valid,
        ),
        final(stats).duration == old(stats).duration,
{
    let n = part.len();
    let ghost b = part@.blocks();
    let ghost t = Tally { best: None, left: 0, attempted: 0, valid: 0 };
    let mut best: Option<(usize, usize)> = None;
    let mut best_left: usize = 0;
    let mut i: usize = 0;
    proof {
        lemma_blocks_wf(part@.forest);
    }
    while i < n
        invariant
            part.wf(),
            part@ == baseline@,
            part@ == old(part)@,
            b == part@.blocks(),
            b.len() == n,
            n == part@.len(),
            i <= n,
            scan(b) == scan_from(b, i as int, t),
            best == t.best,
            best.is_some() ==> best_left == t.left,
            stats.attempted_merges_count == capped(old(stats).attempted_merges_count as nat + t.attempted),
            stats.valid_merges_count == capped(old(stats).valid_merges_count as nat + t.valid),
            stats.duration == old(stats).duration,
        decreases n - i,
    {
        let root_i = part.root_index(i);
        let ghost row_start = t;
        let mut j: usize = i + 1;
        while j < n
            invariant
                part.wf(),
                part@ == baseline@,
                part@ == old(part)@,
                b == part@.blocks(),
                b.len() == n,
                n == part@.len(),
                i < n,
                i < j <= n,
                root_i == b.root[i as int],
                scan_row(b, i, i + 1, row_start) == scan_row(b, i, j as int, t),
                best == t.best,
                best.is_some() ==> best_left == t.left,
                stats.attempted_merges_count == capped(old(stats).attempted_merges_count as nat + t.attempted),
                stats.valid_merges_count == capped(old(stats).valid_merges_count as nat + t.valid),
                stats.duration == old(stats).duration,
            decreases n - j,
        {
            if part.root_index(j) != root_i {
                let res = part.merge_states(i, j);
                match res {
                    Ok(true) => {
                        let left = part.labelled_block_count();
                        stats.record(true);
                        if best.is_none() || left < best_left {
                            best = Some((i, j));
                            best_left = left;
                        }
                    },
                    _ => {
                        stats.record(false);
                    },
                }
                let _back = part.rollback_changes_from(baseline);
            }
            proof {
                t = scan_pair(b, i, j, t);
            }
            j += 1;
        }
        i += 1;
    }
    best
}

/// Runs exhaustive EDSM on `automaton`, counting its merges into `stats`.
pub fn edsm_search(automaton: &DFA, stats: &mut MergeData) -> (d: DFA)
    requires
        automaton@.valid(),
    ensures
        d@ == edsm_outcome(automaton@).dfa,
        d@.valid(),
        final(stats).attempted_merges_count == capped(
            old(stats).attempted_merges_count as nat + edsm_outcome(automaton@).attempted,
        ),
        final(stats).valid_merges_count == capped(
            old(stats).valid_merges_count as nat + edsm_outcome(automaton@).valid,
        ),
        final(stats).duration == old(stats).duration,
{
    let mut part = automaton.to_state_partition();
    let ghost b0 = part@.blocks();
    let ghost tried: nat = 0;
    let ghost went: nat = 0;
    let mut done = false;
    while !done
        invariant
            part.wf(),
            part@.len() == automaton@.len(),
            part@.symbols() == automaton@.symbols(),
            edsm_from(b0).0 == (if done {
                part@.blocks()
            } else {
                edsm_from(part@.blocks()).0
            }),
            edsm_from(b0).1 == tried + (if done {
                0nat
            } else {
                edsm_from(part@.blocks()).1
            }),
            edsm_from(b0).2 == went + (if done {
                0nat
            } else {
                edsm_from(part@.blocks()).2
            }),
            stats.attempted_merges_count == capped(old(stats).attempted_merges_count as nat + tried),
            stats.valid_merges_count == capped(old(stats).valid_merges_count as nat + went),
            stats.duration == old(stats).duration,
        decreases
                part@.blocks().num_blocks() + (if done {
                    0nat
                } else {
                    1nat
                }),
    {
        let baseline = part.copy();
        let ghost b = part@.blocks();
        proof {
            lemma_blocks_wf(part@.forest);
            lemma_scan_from(b, 0, Tally { best: None, left: 0, attempted: 0, valid: 0 });
        }
        let best = scan_round(&mut part, &baseline, stats);
        proof {
            tried = tried + scan(b).attempted;
            went = went + scan(b).valid;
        }
        match best {
            Some(pair) => {
                let _res = part.merge_states(pair.0, pair.1);
                stats.record(true);
                proof {
                    law_merge_removes_a_block(b, pair.0, pair.1);
                    lemma_close_sound(b, seq![(pair.0, pair.1)]);
                    lemma_rewind(part@, baseline@.log.len());
                    tried = tried + 1;
                    went = went + 1;
                }
            },
            None => {
                done = true;
            },
        }
    }
    match part.to_dfa(&automaton.alphabet, automaton.start_state_id) {
        Some(d) => d,
        None => vstd::pervasive::unreached(),
    }
}

/// Runs exhaustive EDSM on `automaton` and reports the automaton it found
/// with the counts of its merges and the time it took.
pub fn exhaustive_edsm(automaton: DFA) -> (r: (DFA, MergeData))
    requires
        automaton@.valid(),
    ensures
        r.0@ == edsm_outcome(automaton@).dfa,
        r.0@.valid(),
        r.1.attempted_merges_count == capped(edsm_outcome(automaton@).attempted),
        r.1.valid_merges_count == capped(edsm_outcome(automaton@).valid),
{
    let begun = clock_now();
    let mut stats = MergeData::new();
    let d = edsm_search(&automaton, &mut stats);
    stats.duration = clock_elapsed(&begun);
    (d, stats)
}

} // verus!
