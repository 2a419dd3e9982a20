//! Bot policy engine: the two heuristic decision policies that choose which
//! dice to bank from the current roll. Both are pure functions of the state
//! (the amateur policy also draws one byte from the supplied generator to
//! decide a cosmetic reordering); neither mutates the state.

use vstd::prelude::*;

use crate::model::{BotLevel, State};
use crate::rng::DiceRng;
use crate::rules::{face_score, spec_face_score, spec_sum_score, sum_score, REROLL_EV};

verus! {

use crate::model::{state_wf, strictly_increasing};

/// A policy's choice: the offsets into `last_faces` to bank this turn.
pub struct BotDecision {
    pub pick_indices: Vec<usize>,
}

/// How many entries of `faces` show `target`.
pub open spec fn spec_count_face(faces: Seq<u8>, target: u8) -> int
    decreases faces.len(),
{
    if faces.len() == 0 {
        0
    } else {
        spec_count_face(faces.drop_last(), target) + (if faces.last() == target {
            1int
        } else {
            0int
        })
    }
}

/// Whether some entry of `faces` shows `target`.
pub open spec fn spec_has_face(faces: Seq<u8>, target: u8) -> bool {
    exists|j: int| 0 <= j < faces.len() && faces[j] == target
}

/// The offset of the first strictly lowest-scoring face: a left-to-right scan
/// that moves only on a strictly smaller score, so the first occurrence wins
/// ties.
pub open spec fn spec_lowest_idx(faces: Seq<u8>) -> int
    decreases faces.len(),
{
    if faces.len() <= 1 {
        0
    } else {
        let prev = spec_lowest_idx(faces.drop_last());
        if spec_face_score(faces.last()) < spec_face_score(faces[prev]) {
            faces.len() - 1
        } else {
            prev
        }
    }
}

/// The first lowest-scoring offset is in range and scores no more than any
/// face.
pub proof fn lemma_lowest_is_min(faces: Seq<u8>)
    requires
        faces.len() > 0,
    ensures
        0 <= spec_lowest_idx(faces) < faces.len(),
        forall|j: int|
            0 <= j < faces.len() ==> spec_face_score(faces[spec_lowest_idx(faces)])
                <= spec_face_score(#[trigger] faces[j]),
    decreases faces.len(),
{
    if faces.len() > 1 {
        lemma_lowest_is_min(faces.drop_last());
        let prev = spec_lowest_idx(faces.drop_last());
        assert(faces.drop_last()[prev] == faces[prev]);
        assert forall|j: int|
            0 <= j < faces.len() implies spec_face_score(faces[spec_lowest_idx(faces)])
            <= spec_face_score(#[trigger] faces[j]) by {
            if j < faces.len() - 1 {
                assert(faces.drop_last()[j] == faces[j]);
            }
        }
    }
}

/// How many faces other than the selected lowest one show a 1.
pub open spec fn spec_extra_ones_count(faces: Seq<u8>) -> int {
    spec_count_face(faces, 1) - (if faces[spec_lowest_idx(faces)] == 1 {
        1int
    } else {
        0int
    })
}

/// The amateur policy's projected end-of-turn score after banking the lowest
/// die and every other face-1 die: the banked total, the selection's score,
/// and the re-roll estimate for the dice that would remain after the
/// tentative selection and the extra face-1 dice are all taken.
pub open spec fn spec_amateur_line(faces: Seq<u8>, banked: u32, remaining: int) -> int {
    banked + spec_face_score(faces[spec_lowest_idx(faces)]) + spec_extra_ones_count(faces) + (
    REROLL_EV as int) * (remaining - 1 - spec_extra_ones_count(faces))
}

/// Which offsets the amateur policy banks: every face-3 offset when any
/// exists; otherwise the first lowest-scoring offset, plus every face-1
/// offset when a leader exists and the projection stays at or below it.
pub open spec fn spec_amateur_picks(
    faces: Seq<u8>,
    leader: Option<u32>,
    banked: u32,
    remaining: int,
    x: usize,
) -> bool {
    if spec_has_face(faces, 3) {
        x < faces.len() && faces[x as int] == 3
    } else {
        ||| x as int == spec_lowest_idx(faces)
        ||| (leader matches Some(l) && spec_amateur_line(faces, banked, remaining) <= l && x
            < faces.len() && faces[x as int] == 1)
    }
}

/// The pro policy's projected end-of-turn score after banking every face-1
/// die.
pub open spec fn spec_pro_line(faces: Seq<u8>, banked: u32, remaining: int) -> int {
    banked + spec_count_face(faces, 1) + (REROLL_EV as int) * (remaining - spec_count_face(
        faces,
        1,
    ))
}

/// Whether the pro policy banks all face-1 offsets: some exist and the
/// projection stays at or below the leader (a maximal sentinel when none
/// exists).
pub open spec fn spec_pro_takes_ones(
    faces: Seq<u8>,
    leader: Option<u32>,
    banked: u32,
    remaining: int,
) -> bool {
    let l = match leader {
        Option::Some(v) => v,
        Option::None => u32::MAX,
    };
    spec_count_face(faces, 1) > 0 && spec_pro_line(faces, banked, remaining) <= l
}

/// Which offsets the pro policy banks: every face-3 offset when any exists;
/// otherwise all face-1 offsets when their projection clears the leader;
/// otherwise the first lowest-scoring offset.
pub open spec fn spec_pro_picks(
    faces: Seq<u8>,
    leader: Option<u32>,
    banked: u32,
    remaining: int,
    x: usize,
) -> bool {
    if spec_has_face(faces, 3) {
        x < faces.len() && faces[x as int] == 3
    } else if spec_pro_takes_ones(faces, leader, banked, remaining) {
        x < faces.len() && faces[x as int] == 1
    } else {
        x as int == spec_lowest_idx(faces)
    }
}

/// Which offsets the policy of the given level banks.
pub open spec fn spec_policy_picks(
    level: BotLevel,
    faces: Seq<u8>,
    leader: Option<u32>,
    banked: u32,
    remaining: int,
    x: usize,
) -> bool {
    match level {
        BotLevel::Amateur => spec_amateur_picks(faces, leader, banked, remaining, x),
        BotLevel::Pro => spec_pro_picks(faces, leader, banked, remaining, x),
    }
}

/// Returns the ascending offsets of the entries of `faces` that show
/// `target`.
fn idxs_with_face(faces: &Vec<u8>, target: u8) -> (r: Vec<usize>)
    ensures
        strictly_increasing(r@),
        r@.no_duplicates(),
        forall|x: usize| r@.contains(x) <==> (x < faces@.len() && faces@[x as int] == target),
        forall|k: int| 0 <= k < r@.len() ==> #[trigger] r@[k] < faces@.len(),
        r@.len() == spec_count_face(faces@, target),
        r@.len() <= faces@.len(),
        r@.len() > 0 <==> spec_has_face(faces@, target),
{
    let mut r: Vec<usize> = Vec::new();
    let mut i: usize = 0;
    while i < faces.len()
        invariant
            0 <= i <= faces@.len(),
            strictly_increasing(r@),
            r@.len() <= i,
            forall|k: int| 0 <= k < r@.len() ==> #[trigger] r@[k] < i,
            forall|x: usize| r@.contains(x) <==> (x < i && faces@[x as int] == target),
            r@.len() == spec_count_face(faces@.subrange(0, i as int), target),
        decreases faces@.len() - i,
    {
        proof {
            assert(faces@.subrange(0, i + 1).drop_last() =~= faces@.subrange(0, i as int));
            assert(faces@.subrange(0, i + 1).last() == faces@[i as int]);
        }
        if faces[i] == target {
            let ghost r0 = r@;
            r.push(i);
            proof {
                crate::lemma_push_contains(r0, i);
                assert forall|a: int, b: int| 0 <= a < b < r@.len() implies r@[a] < r@[b] by {
                    if b == r@.len() - 1 {
                        assert(r@[a] == r0[a]);
                    } else {
                        assert(r@[a] == r0[a] && r@[b] == r0[b]);
                    }
                }
            }
        } else {
            proof {
                assert forall|x: usize| r@.contains(x) <==> (x < i + 1 && faces@[x as int]
                    == target) by {
                    if x == i {
                        assert(faces@[x as int] != target);
                    }
                }
            }
        }
        i = i + 1;
    }
    proof {
        assert(faces@.subrange(0, i as int) =~= faces@);
        assert forall|a: int, b: int|
            (0 <= a < r@.len() && 0 <= b < r@.len() && a != b) implies r@[a] != r@[b] by {
            if a < b {
            } else {
            }
        }
        assert forall|k: int| 0 <= k < r@.len() implies #[trigger] r@[k] < faces@.len() by {
            assert(r@.contains(r@[k]));
        }
        if r@.len() > 0 {
            assert(r@.contains(r@[0]));
            assert(faces@[r@[0] as int] == target);
        }
        if spec_has_face(faces@, target) {
            let j = choose|j: int| 0 <= j < faces@.len() && faces@[j] == target;
            assert(r@.contains(j as usize));
        }
    }
    r
}

/// Returns the offset of the first strictly lowest-scoring face.
fn lowest_score_idx(faces: &Vec<u8>) -> (r: usize)
    requires
        faces@.len() > 0,
    ensures
        r as int == spec_lowest_idx(faces@),
        r < faces@.len(),
{
    let mut lowest: usize = 0;
    let mut i: usize = 1;
    while i < faces.len()
        invariant
            1 <= i <= faces@.len(),
            lowest < i,
            lowest as int == spec_lowest_idx(faces@.subrange(0, i as int)),
        decreases faces@.len() - i,
    {
        proof {
            assert(faces@.subrange(0, i + 1).drop_last() =~= faces@.subrange(0, i as int));
            assert(faces@.subrange(0, i + 1).last() == faces@[i as int]);
            assert(faces@.subrange(0, i + 1)[lowest as int] == faces@[lowest as int]);
        }
        let a = face_score(faces[lowest]);
        let b = face_score(faces[i]);
        if b < a {
            lowest = i;
        }
        i = i + 1;
    }
    proof {
        assert(faces@.subrange(0, i as int) =~= faces@);
    }
    lowest
}

/// Returns the entries of `v` in reverse order.
fn reversed_vec(v: Vec<usize>) -> (r: Vec<usize>)
    ensures
        r@.len() == v@.len(),
        forall|t: int| 0 <= t < v@.len() ==> r@[t] == v@[v@.len() - 1 - t],
{
    let n = v.len();
    let mut r: Vec<usize> = Vec::new();
    let mut t: usize = 0;
    while t < n
        invariant
            0 <= t <= n,
            n == v@.len(),
            r@.len() == t,
            forall|u: int| 0 <= u < t ==> r@[u] == v@[n - 1 - u],
        decreases n - t,
    {
        r.push(v[n - 1 - t]);
        t = t + 1;
    }
    r
}

/// Chooses the dice the amateur policy banks: every face-3 offset when any
/// exists; otherwise the first lowest-scoring offset, joined by every other
/// face-1 offset when the projected end-of-turn score stays at or below the
/// leader to beat. With probability one fifth (drawn from the generator when
/// more than one die shows) the selection's order is reversed — a cosmetic
/// quirk that consumes generator state but changes neither the set nor the
/// score.
pub(crate) fn amateur_policy(state: &State, rng: &mut DiceRng) -> (d: BotDecision)
    requires
        state_wf(*state),
        state.phase is Normal,
        state.last_faces@.len() > 0,
    ensures
        d.pick_indices@.len() > 0,
        d.pick_indices@.no_duplicates(),
        forall|k: int|
            0 <= k < d.pick_indices@.len() ==> #[trigger] d.pick_indices@[k]
                < state.last_faces@.len(),
        forall|x: usize|
            d.pick_indices@.contains(x) <==> spec_amateur_picks(
                state.last_faces@,
                state.leader_to_beat,
                state.players@[state.turn_idx as int].total_score,
                state.remaining_dice as int,
                x,
            ),
        spec_has_face(state.last_faces@, 3) ==> strictly_increasing(d.pick_indices@),
        final(rng).seed() == old(rng).seed(),
        final(rng).taken() == old(rng).taken() + (if !spec_has_face(state.last_faces@, 3)
            && state.last_faces@.len() > 1 {
            1int
        } else {
            0int
        }),
{
    let ghost faces0 = state.last_faces@;
    let threes = idxs_with_face(&state.last_faces, 3);
    if threes.len() > 0 {
        return BotDecision { pick_indices: threes };
    }
    let lowest = lowest_score_idx(&state.last_faces);
    proof {
        lemma_lowest_is_min(faces0);
    }
    let mut picks: Vec<usize> = Vec::new();
    picks.push(lowest);
    proof {
        assert forall|x: usize| picks@.contains(x) <==> x == lowest by {
            if picks@.contains(x) {
                let t = choose|t: int| 0 <= t < picks@.len() && picks@[t] == x;
                assert(t == 0);
            }
            assert(picks@[0] == lowest);
        }
    }
    match state.leader_to_beat {
        Option::Some(leader) => {
            let banked = sum_score(state.players[state.turn_idx].picks.as_slice());
            let ones = idxs_with_face(&state.last_faces, 1);
            let n = state.last_faces.len();
            proof {
                if state.last_faces@[lowest as int] == 1 {
                    assert(ones@.contains(lowest));
                    assert(ones@.len() > 0);
                } else {
                    if spec_has_face(faces0, 1) {
                        let j = choose|j: int| 0 <= j < faces0.len() && faces0[j] == 1;
                        assert(spec_face_score(faces0[j]) == 1);
                        assert(spec_face_score(faces0[spec_lowest_idx(faces0)]) <= 1);
                        assert(crate::model::is_face(faces0[spec_lowest_idx(faces0)]));
                        assert(faces0[spec_lowest_idx(faces0)] == 1);
                    }
                    assert(!spec_has_face(faces0, 1));
                    assert(ones@.len() == 0);
                }
            }
            let extra_count = if state.last_faces[lowest] == 1 {
                ones.len() - 1
            } else {
                ones.len()
            };
            proof {
                assert(banked == state.players@[state.turn_idx as int].total_score);
                assert(extra_count as int == spec_extra_ones_count(faces0));
                assert(extra_count < n);
                assert(n == state.remaining_dice);
                assert(spec_face_score(faces0[lowest as int]) <= 6);
                assert(banked + 6 * state.remaining_dice <= u32::MAX);
            }
            let remaining_after = state.remaining_dice - 1 - extra_count;
            let ev_line = banked + (extra_count as u32) + (face_score(state.last_faces[lowest])
                as u32) + REROLL_EV * (remaining_after as u32);
            proof {
                assert(ev_line == spec_amateur_line(
                    faces0,
                    state.players@[state.turn_idx as int].total_score,
                    state.remaining_dice as int,
                ));
            }
            if ev_line <= leader {
                let mut k: usize = 0;
                while k < ones.len()
                    invariant
                        0 <= k <= ones@.len(),
                        strictly_increasing(ones@),
                        forall|j: int| 0 <= j < ones@.len() ==> #[trigger] ones@[j] < faces0.len(),
                        forall|x: usize|
                            ones@.contains(x) <==> (x < faces0.len() && faces0[x as int] == 1),
                        picks@.len() >= 1,
                        picks@[0] == lowest,
                        forall|t: int| 1 <= t < picks@.len() ==> #[trigger] picks@[t] != lowest,
                        forall|t: int|
                            1 <= t < picks@.len() ==> exists|j: int|
                                0 <= j < k && ones@[j] == #[trigger] picks@[t],
                        forall|a: int, b: int| 1 <= a < b < picks@.len() ==> picks@[a] < picks@[b],
                        forall|x: usize|
                            picks@.contains(x) <==> (x == lowest || (x != lowest && exists|j: int|
                                0 <= j < k && ones@[j] == x)),
                    decreases ones@.len() - k,
                {
                    let o = ones[k];
                    if o != lowest {
                        let ghost picks0 = picks@;
                        picks.push(o);
                        proof {
                            crate::lemma_push_contains(picks0, o);
                            assert(picks0.contains(lowest)) by {
                                assert(picks0[0] == lowest);
                            }
                            assert forall|t: int|
                                1 <= t < picks@.len() implies exists|j: int|
                                0 <= j < k + 1 && ones@[j] == #[trigger] picks@[t] by {
                                if t < picks@.len() - 1 {
                                    assert(picks@[t] == picks0[t]);
                                    let j = choose|j: int|
                                        0 <= j < k && ones@[j] == #[trigger] picks0[t];
                                    assert(ones@[j] == picks@[t]);
                                } else {
                                    assert(ones@[k as int] == picks@[t]);
                                }
                            }
                            assert forall|a: int, b: int|
                                1 <= a < b < picks@.len() implies picks@[a] < picks@[b] by {
                                if b == picks@.len() - 1 {
                                    assert(picks@[a] == picks0[a]);
                                    let j = choose|j: int|
                                        0 <= j < k && ones@[j] == #[trigger] picks0[a];
                                    assert(ones@[j] < ones@[k as int]);
                                } else {
                                    assert(picks@[a] == picks0[a] && picks@[b] == picks0[b]);
                                }
                            }
                            assert forall|x: usize|
                                picks@.contains(x) <==> (x == lowest || (x != lowest && exists|
                                j: int,
                            | 0 <= j < k + 1 && ones@[j] == x)) by {
                                if picks@.contains(x) {
                                    if x == o {
                                        assert(ones@[k as int] == x);
                                    } else if x != lowest {
                                        assert(picks0.contains(x));
                                        let j = choose|j: int| 0 <= j < k && ones@[j] == x;
                                        assert(0 <= j < k + 1 && ones@[j] == x);
                                    }
                                }
                                if x != lowest && exists|j: int| 0 <= j < k + 1 && ones@[j] == x {
                                    let j = choose|j: int| 0 <= j < k + 1 && ones@[j] == x;
                                    if j < k {
                                        assert(picks0.contains(x));
                                    } else {
                                        assert(x == o);
                                    }
                                }
                            }
                        }
                    } else {
                        proof {
                            assert forall|x: usize|
                                picks@.contains(x) <==> (x == lowest || (x != lowest && exists|
                                j: int,
                            | 0 <= j < k + 1 && ones@[j] == x)) by {
                                if picks@.contains(x) {
                                    if x != lowest {
                                        let j = choose|j: int| 0 <= j < k && ones@[j] == x;
                                        assert(0 <= j < k + 1 && ones@[j] == x);
                                    }
                                }
                                if x != lowest && exists|j: int| 0 <= j < k + 1 && ones@[j] == x {
                                    let j = choose|j: int| 0 <= j < k + 1 && ones@[j] == x;
                                    if j == k {
                                        assert(ones@[k as int] == o);
                                        assert(false);
                                    }
                                    assert(0 <= j < k && ones@[j] == x);
                                }
                            }
                        }
                    }
                    k = k + 1;
                }
                proof {
                    assert forall|x: usize|
                        picks@.contains(x) <==> spec_amateur_picks(
                            faces0,
                            state.leader_to_beat,
                            state.players@[state.turn_idx as int].total_score,
                            state.remaining_dice as int,
                            x,
                        ) by {
                        if x != lowest && exists|j: int|
                            0 <= j < ones@.len() && ones@[j] == x {
                            assert(ones@.contains(x));
                        }
                        if x != lowest && x < faces0.len() && faces0[x as int] == 1 {
                            assert(ones@.contains(x));
                            let j = choose|j: int| 0 <= j < ones@.len() && ones@[j] == x;
                        }
                    }
                }
            }
        },
        Option::None => {},
    }
    proof {
        assert(picks@.no_duplicates()) by {
            assert forall|a: int, b: int|
                (0 <= a < picks@.len() && 0 <= b < picks@.len() && a != b) implies picks@[a]
                != picks@[b] by {
                let lo = if a < b {
                    a
                } else {
                    b
                };
                let hi = if a < b {
                    b
                } else {
                    a
                };
                if lo == 0 {
                    assert(picks@[hi] != lowest);
                }
            }
        }
        assert forall|k: int|
            0 <= k < picks@.len() implies #[trigger] picks@[k] < faces0.len() by {
            assert(picks@.contains(picks@[k]));
        }
    }
    if state.last_faces.len() > 1 {
        let b = crate::rng::rng_next_u8(rng);
        if b % 5 == 0 {
            let ghost before = picks@;
            let picks_rev = reversed_vec(picks);
            proof {
                let n = before.len() as int;
                assert forall|x: usize|
                    picks_rev@.contains(x) <==> before.contains(x) by {
                    if before.contains(x) {
                        let j = choose|j: int| 0 <= j < n && before[j] == x;
                        assert(picks_rev@[n - 1 - j] == x);
                    }
                    if picks_rev@.contains(x) {
                        let t = choose|t: int| 0 <= t < n && picks_rev@[t] == x;
                        assert(before[n - 1 - t] == x);
                    }
                }
                assert forall|a: int, b2: int|
                    (0 <= a < n && 0 <= b2 < n && a != b2) implies picks_rev@[a]
                    != picks_rev@[b2] by {
                    assert(picks_rev@[a] == before[n - 1 - a]);
                    assert(picks_rev@[b2] == before[n - 1 - b2]);
                }
                assert forall|k: int|
                    0 <= k < picks_rev@.len() implies #[trigger] picks_rev@[k] < faces0.len() by {
                    assert(picks_rev@.contains(picks_rev@[k]));
                    assert(before.contains(picks_rev@[k]));
                }
                assert(picks_rev@.contains(picks_rev@[0]));
                assert(before.contains(before[0]));
                assert(picks_rev@.len() > 0);
                assert forall|x: usize|
                    picks_rev@.contains(x) <==> spec_amateur_picks(
                        faces0,
                        state.leader_to_beat,
                        state.players@[state.turn_idx as int].total_score,
                        state.remaining_dice as int,
                        x,
                    ) by {
                    assert(picks_rev@.contains(x) <==> before.contains(x));
                }
            }
            return BotDecision { pick_indices: picks_rev };
        }
    }
    BotDecision { pick_indices: picks }
}

/// Chooses the dice the pro policy banks: every face-3 offset when any
/// exists; otherwise all face-1 offsets when banking them projects at or
/// below the leader to beat (a maximal sentinel when none exists); otherwise
/// the first lowest-scoring offset. Deterministic: the generator is never
/// consumed.
fn pro_policy(state: &State, rng: &mut DiceRng) -> (d: BotDecision)
    requires
        state_wf(*state),
        state.phase is Normal,
        state.last_faces@.len() > 0,
    ensures
        d.pick_indices@.len() > 0,
        d.pick_indices@.no_duplicates(),
        forall|k: int|
            0 <= k < d.pick_indices@.len() ==> #[trigger] d.pick_indices@[k]
                < state.last_faces@.len(),
        forall|x: usize|
            d.pick_indices@.contains(x) <==> spec_pro_picks(
                state.last_faces@,
                state.leader_to_beat,
                state.players@[state.turn_idx as int].total_score,
                state.remaining_dice as int,
                x,
            ),
        strictly_increasing(d.pick_indices@),
        *final(rng) == *old(rng),
{
    let ghost faces0 = state.last_faces@;
    let threes = idxs_with_face(&state.last_faces, 3);
    if threes.len() > 0 {
        return BotDecision { pick_indices: threes };
    }
    let banked = sum_score(state.players[state.turn_idx].picks.as_slice());
    let leader = match state.leader_to_beat {
        Option::Some(l) => l,
        Option::None => u32::MAX,
    };
    let ones = idxs_with_face(&state.last_faces, 1);
    proof {
        assert(state.last_faces@.len() == state.remaining_dice);
        assert(ones@.len() <= state.remaining_dice);
        assert(banked == state.players@[state.turn_idx as int].total_score);
        assert(banked + 6 * state.remaining_dice <= u32::MAX);
    }
    let remaining_if_bank_ones = state.remaining_dice - ones.len();
    let ev_line_all_ones = banked + (ones.len() as u32) + REROLL_EV * (remaining_if_bank_ones
        as u32);
    proof {
        assert(ev_line_all_ones == spec_pro_line(
            faces0,
            state.players@[state.turn_idx as int].total_score,
            state.remaining_dice as int,
        ));
    }
    if ev_line_all_ones <= leader && ones.len() > 0 {
        return BotDecision { pick_indices: ones };
    }
    let lowest = lowest_score_idx(&state.last_faces);
    let mut picks: Vec<usize> = Vec::new();
    picks.push(lowest);
    proof {
        assert forall|x: usize| picks@.contains(x) <==> x == lowest by {
            if picks@.contains(x) {
                let t = choose|t: int| 0 <= t < picks@.len() && picks@[t] == x;
                assert(t == 0);
            }
            assert(picks@[0] == lowest);
        }
    }
    BotDecision { pick_indices: picks }
}

/// Produces the pick decision of the policy configured for `level`.
pub fn bot_pick(state: &State, level: BotLevel, rng: &mut DiceRng) -> (d: BotDecision)
    requires
        state_wf(*state),
        state.phase is Normal,
        state.last_faces@.len() > 0,
    ensures
        d.pick_indices@.len() > 0,
        d.pick_indices@.no_duplicates(),
        forall|k: int|
            0 <= k < d.pick_indices@.len() ==> #[trigger] d.pick_indices@[k]
                < state.last_faces@.len(),
        forall|x: usize|
            d.pick_indices@.contains(x) <==> spec_policy_picks(
                level,
                state.last_faces@,
                state.leader_to_beat,
                state.players@[state.turn_idx as int].total_score,
                state.remaining_dice as int,
                x,
            ),
        spec_has_face(state.last_faces@, 3) ==> strictly_increasing(d.pick_indices@),
        final(rng).seed() == old(rng).seed(),
        level == BotLevel::Pro ==> *final(rng) == *old(rng),
{
    match level {
        BotLevel::Amateur => amateur_policy(state, rng),
        BotLevel::Pro => pro_policy(state, rng),
    }
}

/// The amateur policy, exposed as plain offsets so the timeout fallback and
/// hosts can call it without the decision wrapper.
pub fn amateur_policy_public(state: &State, rng: &mut DiceRng) -> (r: Vec<usize>)
    requires
        state_wf(*state),
        state.phase is Normal,
        state.last_faces@.len() > 0,
    ensures
        r@.len() > 0,
        r@.no_duplicates(),
        forall|k: int| 0 <= k < r@.len() ==> #[trigger] r@[k] < state.last_faces@.len(),
        forall|x: usize|
            r@.contains(x) <==> spec_amateur_picks(
                state.last_faces@,
                state.leader_to_beat,
                state.players@[state.turn_idx as int].total_score,
                state.remaining_dice as int,
                x,
            ),
        spec_has_face(state.last_faces@, 3) ==> strictly_increasing(r@),
        final(rng).seed() == old(rng).seed(),
        final(rng).taken() == old(rng).taken() + (if !spec_has_face(state.last_faces@, 3)
            && state.last_faces@.len() > 1 {
            1int
        } else {
            0int
        }),
{
    let d = amateur_policy(state, rng);
    d.pick_indices
}

} // verus!
