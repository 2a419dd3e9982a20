//! Rules engine for a turn-based, low-score-wins dice elimination game.
//!
//! Players take turns rolling up to seven dice and must repeatedly bank
//! ("pick") dice from each roll; the lowest cumulative total wins, and ties
//! trigger a sudden-death rematch among the tied players. This crate is the
//! single source of truth for state transitions, scoring, and automated
//! ("bot") play; a host process owns persistence, networking, deadlines and
//! wager settlement.
//!
//! Every generator in a session is derived from the session seed and the
//! event counter, so given the same seed and the same sequence of calls, the
//! same faces, the same bot decisions and the same event log are reproduced
//! exactly.

pub mod bot;
pub mod model;
pub mod rng;
pub mod rules;

use vstd::prelude::*;

use crate::model::{EngineError, Event, EventPayload, EventType, Player, State};
use crate::rules::{spec_face_score, spec_sum_score};

verus! {

use crate::model::{is_face, is_scored_value, player_wf, state_wf, strictly_increasing};
use crate::rng::{std_rng_byte, DiceRng};

/// The sum of the players' wagers.
pub open spec fn spec_wager_sum(players: Seq<Player>) -> int
    decreases players.len(),
{
    if players.len() == 0 {
        0
    } else {
        spec_wager_sum(players.drop_last()) + players.last().wager_cents
    }
}

proof fn lemma_wager_sum_split(players: Seq<Player>, k: int)
    requires
        0 <= k <= players.len(),
    ensures
        spec_wager_sum(players) == spec_wager_sum(players.subrange(0, k)) + spec_wager_sum(
            players.subrange(k, players.len() as int),
        ),
    decreases players.len(),
{
    let n = players.len() as int;
    if k == n {
        assert(players.subrange(0, k) =~= players);
        assert(spec_wager_sum(players.subrange(k, n)) == 0);
    } else {
        let head = players.drop_last();
        lemma_wager_sum_split(head, k);
        assert(head.subrange(0, k) =~= players.subrange(0, k));
        let tail = players.subrange(k, n);
        assert(tail.drop_last() =~= head.subrange(k, n - 1));
        assert(tail.last() == players.last());
        assert(spec_wager_sum(tail) == spec_wager_sum(tail.drop_last())
            + tail.last().wager_cents);
    }
}

proof fn lemma_wager_sum_nonneg(players: Seq<Player>)
    ensures
        spec_wager_sum(players) >= 0,
    decreases players.len(),
{
    if players.len() > 0 {
        lemma_wager_sum_nonneg(players.drop_last());
    }
}

/// The sub-seed that the roll at event counter `events_seq` derives its
/// generator from: a distinct, reproducible value per roll.
pub open spec fn spec_roll_seed(seed: u64, events_seq: u64) -> u64 {
    seed ^ vstd::wrapping::u64_specs::wrapping_mul(events_seq, 7919)
}

/// The face produced at position `i` of the roll stream seeded with `seed`.
pub open spec fn spec_rolled_face(seed: u64, i: int) -> u8 {
    (std_rng_byte(seed, i as nat) % 6 + 1) as u8
}

/// The faces of a roll of `n` dice from the stream seeded with `seed`.
pub open spec fn spec_roll_faces(seed: u64, n: int) -> Seq<u8> {
    Seq::new(n as nat, |i: int| spec_rolled_face(seed, i))
}

/// The decimal digit `d` as a character.
pub open spec fn spec_digit_char(d: int) -> char {
    if d == 0 {
        '0'
    } else if d == 1 {
        '1'
    } else if d == 2 {
        '2'
    } else if d == 3 {
        '3'
    } else if d == 4 {
        '4'
    } else if d == 5 {
        '5'
    } else if d == 6 {
        '6'
    } else if d == 7 {
        '7'
    } else if d == 8 {
        '8'
    } else {
        '9'
    }
}

/// The decimal rendering of `n`, most significant digit first, without sign
/// or leading zeros.
pub open spec fn spec_dec_digits(n: int) -> Seq<char>
    decreases n,
{
    if n < 10 {
        seq![spec_digit_char(n)]
    } else {
        spec_dec_digits(n / 10).push(spec_digit_char(n % 10))
    }
}

/// The state fingerprint attached to each event: the turn index, the
/// remaining-dice count and the current player's pick count, separated by
/// colons. A weak placeholder that can collide across distinguishable states;
/// a hardened host should replace it with a full digest of the state.
pub open spec fn spec_fingerprint(turn_idx: int, remaining: int, picks_len: int) -> Seq<char> {
    seq!['h', ':'] + spec_dec_digits(turn_idx) + seq![':'] + spec_dec_digits(remaining)
        + seq![':'] + spec_dec_digits(picks_len)
}

/// The fingerprint of a state.
pub open spec fn spec_state_hash(s: State) -> Seq<char> {
    spec_fingerprint(
        s.turn_idx as int,
        s.remaining_dice as int,
        s.players@[s.turn_idx as int].picks@.len() as int,
    )
}

/// Relies on std's decimal formatting of unsigned integers through `format!`:
/// each counter is rendered as its decimal digits, without sign or leading
/// zeros.
#[verifier::external_body]
fn render_fingerprint(turn_idx: usize, remaining: usize, picks_len: usize) -> (r: String)
    ensures
        r@ == spec_fingerprint(turn_idx as int, remaining as int, picks_len as int),
{
    format!("h:{}:{}:{}", turn_idx, remaining, picks_len)
}

/// Returns the fingerprint of the state: turn index, remaining dice and the
/// current player's pick count.
pub fn hash_state_stub(s: &State) -> (r: String)
    requires
        s.turn_idx < s.players@.len(),
    ensures
        r@ == spec_state_hash(*s),
{
    let picks_len = s.players[s.turn_idx].picks.len();
    render_fingerprint(s.turn_idx, s.remaining_dice, picks_len)
}

/// Returns a copy of a vector of copyable elements.
fn clone_copy_vec<T: Copy>(v: &Vec<T>) -> (r: Vec<T>)
    ensures
        r@ == v@,
{
    let mut r: Vec<T> = Vec::new();
    let mut i: usize = 0;
    while i < v.len()
        invariant
            0 <= i <= v@.len(),
            r@ =~= v@.subrange(0, i as int),
        decreases v@.len() - i,
    {
        r.push(v[i]);
        i = i + 1;
    }
    proof {
        assert(r@ =~= v@);
    }
    r
}

/// Creates a session: sums the wagers into the pot, shuffles the seat order
/// with a generator derived from the seed, and starts the first turn with
/// seven dice.
pub fn init_game(seed: u64, players: Vec<Player>) -> (s: State)
    requires
        players@.len() >= 1,
        forall|i: int| 0 <= i < players@.len() ==> player_wf(#[trigger] players@[i]),
        forall|i: int|
            0 <= i < players@.len() ==> spec_sum_score(#[trigger] players@[i].picks@) + 42
                <= u32::MAX,
        spec_wager_sum(players@) <= u32::MAX,
    ensures
        state_wf(s),
        s.seed == seed,
        s.turn_idx == 0,
        s.remaining_dice == 7,
        s.last_faces@.len() == 0,
        s.must_pick_at_least_one,
        s.pot_cents == spec_wager_sum(players@),
        s.phase is Normal,
        s.events_seq == 0,
        s.per_turn_deadline_ms is None,
        s.leader_to_beat is None,
        s.players@.to_multiset() == players@.to_multiset(),
        s.players@.len() == players@.len(),
        s.players@ == crate::rng::std_shuffled(seed ^ 0x5EED, 0, players@),
{
    let mut pot: u32 = 0;
    let mut i: usize = 0;
    while i < players.len()
        invariant
            0 <= i <= players@.len(),
            pot == spec_wager_sum(players@.subrange(0, i as int)),
            spec_wager_sum(players@) <= u32::MAX,
        decreases players@.len() - i,
    {
        proof {
            lemma_wager_sum_split(players@, i + 1);
            lemma_wager_sum_nonneg(players@.subrange(i + 1, players@.len() as int));
            assert(players@.subrange(0, i + 1).drop_last() =~= players@.subrange(0, i as int));
            assert(players@.subrange(0, i + 1).last() == players@[i as int]);
            lemma_wager_sum_nonneg(players@.subrange(0, i as int));
        }
        pot = pot + players[i].wager_cents;
        i = i + 1;
    }
    proof {
        assert(players@.subrange(0, i as int) =~= players@);
    }
    let ghost orig = players@;
    let mut players = players;
    let rng = DiceRng::from_seed(seed ^ 0x5EED);
    crate::rng::shuffle_players(rng, &mut players);
    proof {
        broadcast use vstd::seq_lib::group_to_multiset_ensures;

        assert(players@.to_multiset().len() == orig.to_multiset().len());
        assert forall|i: int| 0 <= i < players@.len() implies player_wf(#[trigger] players@[i])
            && spec_sum_score(players@[i].picks@) + 42 <= u32::MAX by {
            assert(players@.contains(players@[i]));
            assert(orig.to_multiset().count(players@[i]) > 0);
            assert(orig.contains(players@[i]));
            let j = choose|j: int| 0 <= j < orig.len() && orig[j] == players@[i];
            assert(player_wf(orig[j]));
        }
    }
    State {
        seed,
        players,
        turn_idx: 0,
        remaining_dice: 7,
        last_faces: Vec::new(),
        must_pick_at_least_one: true,
        pot_cents: pot,
        phase: crate::model::Phase::Normal,
        events_seq: 0,
        per_turn_deadline_ms: None,
        leader_to_beat: None,
    }
}

/// Two sessions created with the same seed and the same player list seat the
/// players in the same order: the turn order is a deterministic function of
/// the seed, which is what permits replay and audit.
pub proof fn lemma_seat_order_deterministic(seed: u64, players1: Seq<Player>, players2: Seq<Player>)
    requires
        players1 == players2,
    ensures
        crate::rng::std_shuffled(seed ^ 0x5EED, 0, players1) == crate::rng::std_shuffled(
            seed ^ 0x5EED,
            0,
            players2,
        ),
{
}

/// Rolls the remaining dice. Fails with `InvalidPhase` outside the `Normal`
/// phase and with `NoDiceRemaining` when no dice are left; a failed call
/// leaves the state unchanged. On success it generates exactly
/// `remaining_dice` faces, each in [1,6], from a generator seeded off the
/// event counter, so the faces are a deterministic function of the session
/// seed and the counter.
pub fn roll(state: &mut State) -> (r: Result<Event, EngineError>)
    requires
        state_wf(*old(state)),
        old(state).events_seq < u64::MAX,
    ensures
        state_wf(*final(state)),
        r is Ok <==> (old(state).phase is Normal && old(state).remaining_dice > 0),
        r matches Err(e) ==> *final(state) == *old(state) && ((!(old(state).phase is Normal)
            && e == EngineError::InvalidPhase) || (old(state).phase is Normal && old(
            state,
        ).remaining_dice == 0 && e == EngineError::NoDiceRemaining)),
        r matches Ok(ev) ==> {
            let s0 = *old(state);
            let s1 = *final(state);
            let sub_seed = spec_roll_seed(s0.seed, s0.events_seq);
            &&& s1.last_faces@ == spec_roll_faces(sub_seed, s0.remaining_dice as int)
            &&& s1.last_faces@.len() == s0.remaining_dice
            &&& forall|j: int| 0 <= j < s1.last_faces@.len() ==> is_face(#[trigger] s1.last_faces@[j])
            &&& s1.must_pick_at_least_one
            &&& s1.events_seq == s0.events_seq + 1
            &&& s1 == (State {
                last_faces: s1.last_faces,
                must_pick_at_least_one: true,
                events_seq: s1.events_seq,
                ..s0
            })
            &&& ev.seq == s1.events_seq
            &&& ev.ty == EventType::Roll
            &&& (ev.payload matches EventPayload::Roll { faces } && faces@ == s1.last_faces@)
            &&& ev.state_hash@ == spec_state_hash(s1)
        },
{
    match state.phase {
        crate::model::Phase::Normal => {},
        _ => {
            return Err(EngineError::InvalidPhase);
        },
    }
    if state.remaining_dice == 0 {
        return Err(EngineError::NoDiceRemaining);
    }
    let sub_seed = state.seed ^ state.events_seq.wrapping_mul(7919);
    let mut rng = DiceRng::from_seed(sub_seed);
    let n = state.remaining_dice;
    let mut faces: Vec<u8> = Vec::new();
    let mut i: usize = 0;
    while i < n
        invariant
            0 <= i <= n,
            rng.seed() == sub_seed,
            rng.taken() == i,
            faces@.len() == i,
            faces@ =~= spec_roll_faces(sub_seed, i as int),
        decreases n - i,
    {
        let b = crate::rng::rng_next_u8(&mut rng);
        faces.push(b % 6 + 1);
        i = i + 1;
        proof {
            assert(faces@ =~= spec_roll_faces(sub_seed, i as int));
        }
    }
    let payload_faces = clone_copy_vec(&faces);
    state.last_faces = faces;
    state.must_pick_at_least_one = true;
    state.events_seq = state.events_seq + 1;
    let state_hash = hash_state_stub(state);
    proof {
        assert forall|j: int| 0 <= j < state.last_faces@.len() implies is_face(
            #[trigger] state.last_faces@[j],
        ) by {
            assert(state.last_faces@[j] == spec_rolled_face(sub_seed, j));
        }
    }
    Ok(
        Event {
            seq: state.events_seq,
            ty: EventType::Roll,
            payload: EventPayload::Roll { faces: payload_faces },
            state_hash,
        },
    )
}

/// An element occurs in a sequence extended by `v` exactly when it occurs in
/// the original sequence or equals `v`.
pub proof fn lemma_push_contains<T>(s: Seq<T>, v: T)
    ensures
        forall|x: T| s.push(v).contains(x) <==> (s.contains(x) || x == v),
{
    assert forall|x: T| s.push(v).contains(x) <==> (s.contains(x) || x == v) by {
        if s.contains(x) {
            let k = choose|k: int| 0 <= k < s.len() && s[k] == x;
            assert(s.push(v)[k] == x);
        }
        assert(s.push(v)[s.len() as int] == v);
        if s.push(v).contains(x) {
            let k = choose|k: int| 0 <= k < s.push(v).len() && s.push(v)[k] == x;
            if k < s.len() {
                assert(s[k] == x);
            }
        }
    }
}

/// Returns whether `x` occurs in `v`.
fn contains_usize(v: &[usize], x: usize) -> (r: bool)
    ensures
        r == v@.contains(x),
{
    let mut i: usize = 0;
    while i < v.len()
        invariant
            0 <= i <= v@.len(),
            forall|k: int| 0 <= k < i ==> v@[k] != x,
        decreases v@.len() - i,
    {
        if v[i] == x {
            proof {
                assert(v@[i as int] == x);
            }
            return true;
        }
        i = i + 1;
    }
    false
}

/// Returns whether every entry of `indices` is below `n`.
fn all_in_range(indices: &[usize], n: usize) -> (r: bool)
    ensures
        r == (forall|k: int| 0 <= k < indices@.len() ==> indices@[k] < n),
{
    let mut t: usize = 0;
    while t < indices.len()
        invariant
            0 <= t <= indices@.len(),
            forall|k: int| 0 <= k < t ==> indices@[k] < n,
        decreases indices@.len() - t,
    {
        if indices[t] >= n {
            proof {
                assert(indices@[t as int] >= n);
            }
            return false;
        }
        t = t + 1;
    }
    true
}

/// Banks the selected dice: deduplicates and sorts the selection, scores each
/// picked face, appends the scores to the current player's history,
/// recomputes that player's total from the full history, and removes the
/// picked dice from play. Fails with `EmptyOrInactivePick` when there is no
/// active roll or the selection is empty, and with `IndexOutOfRange` when a
/// selection offset exceeds the roll's bounds; a failed call leaves the state
/// unchanged.
pub fn pick(state: &mut State, indices: &[usize]) -> (r: Result<Event, EngineError>)
    requires
        state_wf(*old(state)),
        old(state).events_seq < u64::MAX,
        old(state).phase is Normal,
    ensures
        state_wf(*final(state)),
        r is Ok <==> (old(state).last_faces@.len() > 0 && indices@.len() > 0 && (forall|k: int|
            0 <= k < indices@.len() ==> #[trigger] indices@[k] < old(state).last_faces@.len())),
        r matches Err(e) ==> *final(state) == *old(state) && (((old(state).last_faces@.len() == 0
            || indices@.len() == 0) && e == EngineError::EmptyOrInactivePick) || (old(
            state,
        ).last_faces@.len() > 0 && indices@.len() > 0 && e == EngineError::IndexOutOfRange && exists|
            k: int,
        | 0 <= k < indices@.len() && #[trigger] indices@[k] >= old(state).last_faces@.len())),
        r matches Ok(ev) ==> {
            let s0 = *old(state);
            let s1 = *final(state);
            let p0 = s0.players@[s0.turn_idx as int];
            let p1 = s1.players@[s0.turn_idx as int];
            &&& (ev.payload matches EventPayload::Pick { picked, values } && {
                &&& strictly_increasing(picked@)
                &&& picked@.len() > 0
                &&& (forall|x: usize| picked@.contains(x) <==> indices@.contains(x))
                &&& values@.len() == picked@.len()
                &&& (forall|k: int|
                    0 <= k < picked@.len() ==> #[trigger] picked@[k] < s0.last_faces@.len()
                        && values@[k] == spec_face_score(s0.last_faces@[picked@[k] as int]))
                &&& p1.picks@ == p0.picks@ + values@
                &&& s1.remaining_dice == s0.last_faces@.len() - picked@.len()
            })
            &&& p1.total_score == spec_sum_score(p1.picks@)
            &&& p1.id == p0.id
            &&& p1.display == p0.display
            &&& p1.is_bot == p0.is_bot
            &&& p1.bot_level == p0.bot_level
            &&& p1.wager_cents == p0.wager_cents
            &&& s1.players@ == s0.players@.update(s0.turn_idx as int, p1)
            &&& s1.last_faces@.len() == 0
            &&& !s1.must_pick_at_least_one
            &&& s1.events_seq == s0.events_seq + 1
            &&& s1 == (State {
                players: s1.players,
                remaining_dice: s1.remaining_dice,
                last_faces: s1.last_faces,
                must_pick_at_least_one: false,
                events_seq: s1.events_seq,
                ..s0
            })
            &&& ev.seq == s1.events_seq
            &&& ev.ty == EventType::Pick
            &&& ev.state_hash@ == spec_state_hash(s1)
        },
{
    if state.last_faces.len() == 0 || indices.len() == 0 {
        return Err(EngineError::EmptyOrInactivePick);
    }
    let n = state.last_faces.len();
    if !all_in_range(indices, n) {
        return Err(EngineError::IndexOutOfRange);
    }
    let ghost faces0 = state.last_faces@;
    let mut picked: Vec<usize> = Vec::new();
    let mut values: Vec<u8> = Vec::new();
    let mut i: usize = 0;
    while i < n
        invariant
            0 <= i <= n,
            n == state.last_faces@.len(),
            state.last_faces@ == faces0,
            forall|j: int| 0 <= j < faces0.len() ==> is_face(#[trigger] faces0[j]),
            picked@.len() == values@.len(),
            picked@.len() <= i,
            forall|k: int| 0 <= k < picked@.len() ==> #[trigger] picked@[k] < i,
            strictly_increasing(picked@),
            forall|x: usize| picked@.contains(x) <==> (x < i && indices@.contains(x)),
            forall|k: int|
                0 <= k < picked@.len() ==> values@[k] == spec_face_score(
                    faces0[#[trigger] picked@[k] as int],
                ),
            spec_sum_score(values@) <= 6 * values@.len(),
        decreases n - i,
    {
        let in_selection = contains_usize(indices, i);
        if in_selection {
            let ghost picked0 = picked@;
            let ghost values0 = values@;
            picked.push(i);
            values.push(crate::rules::face_score(state.last_faces[i]));
            proof {
                lemma_push_contains(picked0, i);
                assert(values@.drop_last() =~= values0);
                assert(spec_sum_score(values@) == spec_sum_score(values0) + spec_face_score(
                    faces0[i as int],
                ));
                assert(spec_face_score(faces0[i as int]) <= 6);
                assert forall|a: int, b: int| 0 <= a < b < picked@.len() implies picked@[a]
                    < picked@[b] by {
                    if b == picked@.len() - 1 {
                        assert(picked@[a] == picked0[a]);
                    } else {
                        assert(picked@[a] == picked0[a] && picked@[b] == picked0[b]);
                    }
                }
            }
        } else {
            proof {
                assert(!indices@.contains(i));
                assert forall|x: usize| picked@.contains(x) <==> (x < i + 1 && indices@.contains(
                    x,
                )) by {
                    if x == i {
                        assert(!indices@.contains(x));
                    }
                }
            }
        }
        i = i + 1;
    }
    proof {
        assert forall|x: usize| picked@.contains(x) <==> indices@.contains(x) by {
            if indices@.contains(x) {
                let k = choose|k: int| 0 <= k < indices@.len() && indices@[k] == x;
                assert(indices@[k] < n);
            }
        }
        assert(indices@.contains(indices@[0]));
        assert(picked@.contains(indices@[0]));
        assert(picked@.len() > 0);
    }
    let values_for_player = clone_copy_vec(&values);
    let cur = state.turn_idx;
    let ghost players0 = state.players@;
    let mut p = state.players.remove(cur);
    let ghost picks0 = p.picks@;
    let mut vals_moved = values_for_player;
    p.picks.append(&mut vals_moved);
    proof {
        crate::rules::lemma_sum_score_concat(picks0, values@);
        crate::rules::lemma_sum_score_nonneg(picks0);
        crate::rules::lemma_sum_score_nonneg(values@);
    }
    p.total_score = crate::rules::sum_score(p.picks.as_slice());
    state.players.insert(cur, p);
    proof {
        assert(state.players@ =~= players0.update(cur as int, state.players@[cur as int]));
    }
    state.remaining_dice = n - picked.len();
    state.last_faces.clear();
    state.must_pick_at_least_one = false;
    state.events_seq = state.events_seq + 1;
    proof {
        let s1 = *state;
        let p1 = s1.players@[cur as int];
        assert forall|j: int| 0 <= j < p1.picks@.len() implies is_scored_value(
            #[trigger] p1.picks@[j],
        ) by {
            if j < picks0.len() {
                assert(player_wf(players0[cur as int]));
                assert(p1.picks@[j] == picks0[j]);
            } else {
                assert(p1.picks@[j] == values@[j - picks0.len()]);
                assert(values@[j - picks0.len()] == spec_face_score(
                    faces0[picked@[j - picks0.len()] as int],
                ));
            }
        }
        assert forall|idx: int| 0 <= idx < s1.players@.len() implies player_wf(
            #[trigger] s1.players@[idx],
        ) by {
            if idx != cur {
                assert(s1.players@[idx] == players0[idx]);
            }
        }
    }
    let state_hash = hash_state_stub(state);
    Ok(
        Event {
            seq: state.events_seq,
            ty: EventType::Pick,
            payload: EventPayload::Pick { picked, values },
            state_hash,
        },
    )
}

/// The lowest running total at the table; the maximal `u32` when the table is
/// empty, mirroring the sentinel the round scan starts from.
pub open spec fn spec_min_total(players: Seq<Player>) -> u32
    decreases players.len(),
{
    if players.len() == 0 {
        u32::MAX
    } else {
        let m = spec_min_total(players.drop_last());
        if players.last().total_score < m {
            players.last().total_score
        } else {
            m
        }
    }
}

/// The ids of the players whose running total equals `m`, in ascending
/// original-seat order.
pub open spec fn spec_tied_ids(players: Seq<Player>, m: u32) -> Seq<crate::model::PlayerId>
    decreases players.len(),
{
    if players.len() == 0 {
        Seq::empty()
    } else {
        spec_tied_ids(players.drop_last(), m) + (if players.last().total_score == m {
            seq![players.last().id]
        } else {
            Seq::<crate::model::PlayerId>::empty()
        })
    }
}

/// How many players hold the running total `m`.
pub open spec fn spec_tied_count(players: Seq<Player>, m: u32) -> int
    decreases players.len(),
{
    if players.len() == 0 {
        0
    } else {
        spec_tied_count(players.drop_last(), m) + (if players.last().total_score == m {
            1int
        } else {
            0int
        })
    }
}

/// No running total at the table is below the minimum.
pub proof fn lemma_min_total_lower_bound(players: Seq<Player>)
    ensures
        forall|j: int|
            0 <= j < players.len() ==> #[trigger] players[j].total_score >= spec_min_total(players),
    decreases players.len(),
{
    if players.len() > 0 {
        lemma_min_total_lower_bound(players.drop_last());
        assert forall|j: int|
            0 <= j < players.len() implies #[trigger] players[j].total_score >= spec_min_total(
            players,
        ) by {
            if j < players.len() - 1 {
                assert(players.drop_last()[j] == players[j]);
            }
        }
    }
}

proof fn lemma_tied_ids_empty(players: Seq<Player>, m: u32)
    requires
        forall|j: int| 0 <= j < players.len() ==> #[trigger] players[j].total_score != m,
    ensures
        spec_tied_ids(players, m).len() == 0,
    decreases players.len(),
{
    if players.len() > 0 {
        assert forall|j: int|
            0 <= j < players.drop_last().len() implies #[trigger] players.drop_last()[j].total_score
            != m by {
            assert(players.drop_last()[j] == players[j]);
        }
        lemma_tied_ids_empty(players.drop_last(), m);
        assert(players.last().total_score != m);
    }
}

/// There are as many tied ids as tied players.
pub proof fn lemma_tied_ids_count(players: Seq<Player>, m: u32)
    ensures
        spec_tied_ids(players, m).len() == spec_tied_count(players, m),
    decreases players.len(),
{
    if players.len() > 0 {
        lemma_tied_ids_count(players.drop_last(), m);
    }
}

/// At a non-empty table the minimum total is attained by at least one player.
pub proof fn lemma_min_total_attained(players: Seq<Player>)
    requires
        players.len() >= 1,
    ensures
        spec_tied_count(players, spec_min_total(players)) >= 1,
    decreases players.len(),
{
    let m = spec_min_total(players);
    let head = players.drop_last();
    if players.len() == 1 {
        assert(spec_min_total(head) == u32::MAX);
        assert(players.last().total_score == m);
        assert(spec_tied_count(head, m) == 0);
    } else {
        if players.last().total_score < spec_min_total(head) {
            assert(players.last().total_score == m);
            lemma_tied_count_nonneg(head, m);
        } else {
            assert(m == spec_min_total(head));
            lemma_min_total_attained(head);
            assert(spec_tied_count(players, m) >= spec_tied_count(head, m));
        }
    }
}

proof fn lemma_tied_count_nonneg(players: Seq<Player>, m: u32)
    ensures
        spec_tied_count(players, m) >= 0,
    decreases players.len(),
{
    if players.len() > 0 {
        lemma_tied_count_nonneg(players.drop_last(), m);
    }
}

/// Ends the turn when no dice remain: emits an `EndTurn` event with the
/// finishing player's total, advances the turn circularly and resets the new
/// turn to seven dice. When the finishing player held the last seat it also
/// evaluates the round: a unique minimum total finishes the game, while two
/// or more tied minima move the session to sudden death among exactly the
/// tied ids, in ascending original-seat order. Returns nothing while dice
/// remain.
pub fn end_turn_if_done(state: &mut State) -> (r: Option<Event>)
    requires
        state_wf(*old(state)),
        old(state).events_seq < u64::MAX,
        old(state).phase is Normal,
    ensures
        state_wf(*final(state)),
        r is None <==> old(state).remaining_dice > 0,
        r is None ==> *final(state) == *old(state),
        r matches Some(ev) ==> {
            let s0 = *old(state);
            let s1 = *final(state);
            let m = spec_min_total(s0.players@);
            &&& s0.remaining_dice == 0
            &&& ev.seq == s0.events_seq + 1
            &&& s1.events_seq == s0.events_seq + 1
            &&& ev.ty == EventType::EndTurn
            &&& (ev.payload matches EventPayload::EndTurn { player_idx, total } && player_idx
                == s0.turn_idx && total == s0.players@[s0.turn_idx as int].total_score)
            &&& ev.state_hash@ == spec_state_hash(s0)
            &&& s1.turn_idx as int == (s0.turn_idx as int + 1) % (s0.players@.len() as int)
            &&& s1.remaining_dice == 7
            &&& s1.last_faces@.len() == 0
            &&& s1.must_pick_at_least_one
            &&& s1.players@ == s0.players@
            &&& s1.seed == s0.seed
            &&& s1.pot_cents == s0.pot_cents
            &&& s1.per_turn_deadline_ms == s0.per_turn_deadline_ms
            &&& s1.leader_to_beat == s0.leader_to_beat
            &&& (s0.turn_idx as int + 1 < s0.players@.len() ==> s1.phase is Normal)
            &&& (s0.turn_idx as int + 1 == s0.players@.len() ==> {
                &&& (spec_tied_ids(s0.players@, m).len() <= 1 ==> s1.phase is Finished)
                &&& (spec_tied_ids(s0.players@, m).len() > 1 ==> (s1.phase matches crate::model::Phase::SuddenDeath(ids)
                    && ids@ == spec_tied_ids(s0.players@, m)))
            })
        },
{
    if state.remaining_dice != 0 {
        return None;
    }
    state.events_seq = state.events_seq + 1;
    let total = state.players[state.turn_idx].total_score;
    let state_hash = hash_state_stub(state);
    let ev = Event {
        seq: state.events_seq,
        ty: EventType::EndTurn,
        payload: EventPayload::EndTurn { player_idx: state.turn_idx, total },
        state_hash,
    };
    let last_player = state.turn_idx == state.players.len() - 1;
    let next_idx = (state.turn_idx + 1) % state.players.len();
    state.turn_idx = next_idx;
    state.remaining_dice = 7;
    state.last_faces.clear();
    state.must_pick_at_least_one = true;
    if last_player {
        let ghost roster = state.players@;
        let mut low: u32 = u32::MAX;
        let mut lows: Vec<crate::model::PlayerId> = Vec::new();
        let mut i: usize = 0;
        while i < state.players.len()
            invariant
                0 <= i <= state.players@.len(),
                state.players@ == roster,
                low == spec_min_total(roster.subrange(0, i as int)),
                lows@ == spec_tied_ids(roster.subrange(0, i as int), low),
            decreases state.players@.len() - i,
        {
            proof {
                assert(roster.subrange(0, i + 1).drop_last() =~= roster.subrange(0, i as int));
                assert(roster.subrange(0, i + 1).last() == roster[i as int]);
            }
            let t = state.players[i].total_score;
            if t < low {
                proof {
                    lemma_min_total_lower_bound(roster.subrange(0, i as int));
                    assert forall|j: int|
                        0 <= j < roster.subrange(0, i as int).len() implies #[trigger] roster.subrange(
                        0,
                        i as int,
                    )[j].total_score != t by {
                        assert(roster.subrange(0, i as int)[j].total_score >= low);
                    }
                    lemma_tied_ids_empty(roster.subrange(0, i as int), t);
                }
                low = t;
                lows.clear();
                lows.push(state.players[i].id.clone());
            } else if t == low {
                lows.push(state.players[i].id.clone());
            }
            i = i + 1;
        }
        proof {
            assert(roster.subrange(0, i as int) =~= roster);
        }
        if lows.len() > 1 {
            state.phase = crate::model::Phase::SuddenDeath(lows);
        } else {
            state.phase = crate::model::Phase::Finished;
        }
    }
    proof {
        let len = state.players@.len() as int;
        if !last_player {
            assert(old(state).turn_idx as int + 1 < len);
            assert((old(state).turn_idx as int + 1) % len == old(state).turn_idx as int + 1) by {
                vstd::arithmetic::div_mod::lemma_small_mod(
                    (old(state).turn_idx + 1) as nat,
                    len as nat,
                );
            }
        } else {
            assert(old(state).turn_idx as int + 1 == len);
            assert((old(state).turn_idx as int + 1) % len == 0) by {
                vstd::arithmetic::div_mod::lemma_mod_self_0(len);
            }
        }
    }
    Some(ev)
}

/// The lowest running total among the players other than the one at seat
/// `cur` who have already banked at least one pick; nothing when no such
/// player exists.
pub open spec fn spec_leader(players: Seq<Player>, cur: int) -> Option<u32>
    decreases players.len(),
{
    if players.len() == 0 {
        None
    } else {
        let prev = spec_leader(players.drop_last(), cur);
        let i = players.len() - 1;
        if i == cur || players[i].picks@.len() == 0 {
            prev
        } else {
            match prev {
                Option::None => Some(players[i].total_score),
                Option::Some(b) => if players[i].total_score < b {
                    Some(players[i].total_score)
                } else {
                    Some(b)
                },
            }
        }
    }
}

/// Returns the "leader to beat" for the current player: the lowest total
/// among the other players who have already banked at least one pick, or
/// nothing when no other player has picked yet.
pub fn compute_leader_to_beat(state: &State) -> (r: Option<u32>)
    requires
        state.turn_idx < state.players@.len(),
    ensures
        r == spec_leader(state.players@, state.turn_idx as int),
{
    let mut best: u32 = u32::MAX;
    let mut found: bool = false;
    let mut i: usize = 0;
    while i < state.players.len()
        invariant
            0 <= i <= state.players@.len(),
            spec_leader(state.players@.subrange(0, i as int), state.turn_idx as int) == (if found {
                Some(best)
            } else {
                None::<u32>
            }),
            !found ==> best == u32::MAX,
        decreases state.players@.len() - i,
    {
        proof {
            assert(state.players@.subrange(0, i + 1).drop_last() =~= state.players@.subrange(
                0,
                i as int,
            ));
            assert(state.players@.subrange(0, i + 1).last() == state.players@[i as int]);
        }
        if i != state.turn_idx && state.players[i].picks.len() > 0 {
            if state.players[i].total_score < best {
                best = state.players[i].total_score;
            }
            found = true;
        }
        i = i + 1;
    }
    proof {
        assert(state.players@.subrange(0, i as int) =~= state.players@);
    }
    if found {
        Some(best)
    } else {
        None
    }
}

/// Applies a conservative automated pick on behalf of a player whose turn
/// deadline expired: records the leader to beat, derives a fresh generator
/// off the event counter (with a distinct prime multiplier from the roll
/// stream's, to avoid correlated streams), always invokes the amateur policy
/// regardless of the player's configured bot level — a deliberate
/// conservative fallback — applies the resulting pick, and re-wraps the pick
/// payload as a `TimeoutAutoplay` event tagged with the policy. Fails with
/// `EmptyOrInactivePick` when no roll is active; the leader to beat is
/// recorded even then, and nothing else changes.
pub fn timeout_autoplay(state: &mut State) -> (r: Result<Event, EngineError>)
    requires
        state_wf(*old(state)),
        old(state).events_seq < u64::MAX,
        old(state).phase is Normal,
    ensures
        state_wf(*final(state)),
        final(state).leader_to_beat == spec_leader(old(state).players@, old(state).turn_idx as int),
        r is Ok <==> old(state).last_faces@.len() > 0,
        r matches Err(e) ==> e == EngineError::EmptyOrInactivePick && *final(state) == (State {
            leader_to_beat: final(state).leader_to_beat,
            ..*old(state)
        }),
        r matches Ok(ev) ==> {
            let s0 = *old(state);
            let s1 = *final(state);
            let leader = spec_leader(s0.players@, s0.turn_idx as int);
            let p0 = s0.players@[s0.turn_idx as int];
            let p1 = s1.players@[s0.turn_idx as int];
            &&& ev.ty == EventType::TimeoutAutoplay
            &&& ev.seq == s0.events_seq + 1
            &&& s1.events_seq == s0.events_seq + 1
            &&& (ev.payload matches EventPayload::TimeoutAutoplay { picked, values, policy } && {
                &&& policy == crate::model::PolicyTag::AmateurV1
                &&& strictly_increasing(picked@)
                &&& picked@.len() > 0
                &&& (forall|x: usize|
                    picked@.contains(x) <==> crate::bot::spec_amateur_picks(
                        s0.last_faces@,
                        leader,
                        p0.total_score,
                        s0.remaining_dice as int,
                        x,
                    ))
                &&& values@.len() == picked@.len()
                &&& (forall|k: int|
                    0 <= k < picked@.len() ==> #[trigger] picked@[k] < s0.last_faces@.len()
                        && values@[k] == spec_face_score(s0.last_faces@[picked@[k] as int]))
                &&& p1.picks@ == p0.picks@ + values@
                &&& s1.remaining_dice == s0.last_faces@.len() - picked@.len()
            })
            &&& s1.remaining_dice < s0.remaining_dice
            &&& p1.total_score == spec_sum_score(p1.picks@)
            &&& s1.players@ == s0.players@.update(s0.turn_idx as int, p1)
            &&& s1.last_faces@.len() == 0
            &&& !s1.must_pick_at_least_one
            &&& s1.turn_idx == s0.turn_idx
            &&& s1.phase is Normal
            &&& s1.seed == s0.seed
            &&& s1.pot_cents == s0.pot_cents
            &&& ev.state_hash@ == spec_state_hash(s1)
        },
{
    let ltb = compute_leader_to_beat(state);
    state.leader_to_beat = ltb;
    if state.last_faces.len() == 0 {
        return Err(EngineError::EmptyOrInactivePick);
    }
    let sub_seed = state.seed ^ state.events_seq.wrapping_mul(104729);
    let mut rng = DiceRng::from_seed(sub_seed);
    let decision = crate::bot::amateur_policy_public(state, &mut rng);
    let ghost mid = *state;
    let picked_ev = match pick(state, decision.as_slice()) {
        Ok(ev) => ev,
        Err(_) => {
            proof {
                assert(false);
            }
            return Err(EngineError::EmptyOrInactivePick);
        },
    };
    let Event { seq, ty: _, payload, state_hash } = picked_ev;
    let (picked, values) = match payload {
        EventPayload::Pick { picked, values } => (picked, values),
        _ => {
            proof {
                assert(false);
            }
            (Vec::new(), Vec::new())
        },
    };
    proof {
        assert forall|x: usize|
            picked@.contains(x) <==> crate::bot::spec_amateur_picks(
                old(state).last_faces@,
                spec_leader(old(state).players@, old(state).turn_idx as int),
                old(state).players@[old(state).turn_idx as int].total_score,
                old(state).remaining_dice as int,
                x,
            ) by {
            assert(picked@.contains(x) <==> decision@.contains(x));
        }
    }
    Ok(
        Event {
            seq,
            ty: EventType::TimeoutAutoplay,
            payload: EventPayload::TimeoutAutoplay {
                picked,
                values,
                policy: crate::model::PolicyTag::AmateurV1,
            },
            state_hash,
        },
    )
}

/// A player none of whose opponents has banked a pick yet has no leader to
/// beat.
pub proof fn lemma_leader_none_without_picks(players: Seq<Player>, cur: int)
    requires
        forall|j: int|
            0 <= j < players.len() && j != cur ==> #[trigger] players[j].picks@.len() == 0,
    ensures
        spec_leader(players, cur) is None,
    decreases players.len(),
{
    if players.len() > 0 {
        assert forall|j: int|
            0 <= j < players.drop_last().len() && j != cur implies #[trigger] players.drop_last()[j].picks@.len()
            == 0 by {
            assert(players.drop_last()[j] == players[j]);
        }
        lemma_leader_none_without_picks(players.drop_last(), cur);
    }
}

/// Two rolls made with the same session seed, the same event counter and the
/// same number of remaining dice produce identical face sequences.
pub proof fn lemma_roll_deterministic(s1: State, s2: State)
    requires
        s1.seed == s2.seed,
        s1.events_seq == s2.events_seq,
        s1.remaining_dice == s2.remaining_dice,
    ensures
        spec_roll_faces(spec_roll_seed(s1.seed, s1.events_seq), s1.remaining_dice as int)
            == spec_roll_faces(spec_roll_seed(s2.seed, s2.events_seq), s2.remaining_dice as int),
{
}

/// In a well-formed state every player's running total equals the sum of the
/// scores recorded in that player's pick history.
pub proof fn lemma_total_is_sum_of_picks(s: State, i: int)
    requires
        state_wf(s),
        0 <= i < s.players@.len(),
    ensures
        s.players@[i].total_score == spec_sum_score(s.players@[i].picks@),
{
}

} // verus!
