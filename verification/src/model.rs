//! Game state and event model: the entities shared by the turn engine and the
//! bot policies, together with the well-formedness invariant that every engine
//! operation preserves.

use vstd::prelude::*;

use crate::rules::{spec_face_score, spec_sum_score};

verus! {

/// Opaque unique identifier of a player.
pub type PlayerId = String;

/// Which decision policy a bot player uses.
#[derive(Clone, Copy, Debug, PartialEq, Eq, Structural)]
pub enum BotLevel {
    Amateur,
    Pro,
}

/// The kind of an emitted event. `SuddenDeathRoll` and `GameEnd` are reserved
/// for a future sudden-death flow and are never produced by the engine.
#[derive(Clone, Copy, Debug, PartialEq, Eq, Structural)]
pub enum EventType {
    Roll,
    Pick,
    EndTurn,
    TimeoutAutoplay,
    SuddenDeathRoll,
    GameEnd,
}

/// The decision policy that produced an automated pick.
#[derive(Clone, Copy, Debug, PartialEq, Eq, Structural)]
pub enum PolicyTag {
    AmateurV1,
}

/// The structured payload of an event, keyed by the event's kind.
#[derive(Clone, Debug)]
pub enum EventPayload {
    /// The faces produced by a roll.
    Roll { faces: Vec<u8> },
    /// The banked offsets (ascending, without duplicates) and their scored
    /// values.
    Pick { picked: Vec<usize>, values: Vec<u8> },
    /// The seat whose turn ended and that player's running total.
    EndTurn { player_idx: usize, total: u32 },
    /// An automated pick applied on the player's behalf: the underlying pick
    /// payload plus the policy that chose it.
    TimeoutAutoplay { picked: Vec<usize>, values: Vec<u8>, policy: PolicyTag },
}

/// An immutable record of one engine step: a monotonically increasing
/// sequence number, the kind of step, its payload, and a fingerprint of the
/// state at emission.
#[derive(Clone, Debug)]
pub struct Event {
    pub seq: u64,
    pub ty: EventType,
    pub payload: EventPayload,
    pub state_hash: String,
}

/// One seat at the table. `picks` holds the already-banked scored values
/// (a banked 3 is stored as 0), and `total_score` is always their sum.
#[derive(Clone, Debug)]
pub struct Player {
    pub id: PlayerId,
    pub display: String,
    pub is_bot: bool,
    pub bot_level: Option<BotLevel>,
    pub wager_cents: u32,
    pub total_score: u32,
    pub picks: Vec<u8>,
}

/// The phase of a session. `Normal` is initial; the other two are terminal:
/// the host re-runs a fresh sub-game among the listed players on
/// `SuddenDeath`.
#[derive(Clone, Debug)]
pub enum Phase {
    Normal,
    SuddenDeath(Vec<PlayerId>),
    Finished,
}

/// The full session state, created once by `init_game` and mutated in place
/// by every subsequent engine call until the phase leaves `Normal`.
#[derive(Clone, Debug)]
pub struct State {
    pub seed: u64,
    pub players: Vec<Player>,
    pub turn_idx: usize,
    pub remaining_dice: usize,
    pub last_faces: Vec<u8>,
    pub must_pick_at_least_one: bool,
    pub pot_cents: u32,
    pub phase: Phase,
    pub events_seq: u64,
    pub per_turn_deadline_ms: Option<u128>,
    pub leader_to_beat: Option<u32>,
}

/// A value that can appear in a pick history: the score of some face, that
/// is, 0 or a face value other than 3.
pub open spec fn is_scored_value(v: u8) -> bool {
    v <= 6 && v != 3
}

/// A face a die can show.
pub open spec fn is_face(f: u8) -> bool {
    1 <= f <= 6
}

/// A player's book-keeping is consistent: the running total is the sum of the
/// scored pick history, and every recorded value is the score of some face.
pub open spec fn player_wf(p: Player) -> bool {
    &&& p.total_score == spec_sum_score(p.picks@)
    &&& forall|j: int| 0 <= j < p.picks@.len() ==> is_scored_value(#[trigger] p.picks@[j])
}

/// The current player can bank every die still in play this turn without the
/// running total leaving `u32`.
pub open spec fn turn_budget_ok(s: State) -> bool {
    &&& spec_sum_score(s.players@[s.turn_idx as int].picks@) + 6 * s.remaining_dice <= u32::MAX
    &&& forall|i: int|
        s.turn_idx < i < s.players@.len() ==> spec_sum_score(
            #[trigger] s.players@[i].picks@,
        ) + 42 <= u32::MAX
}

/// Well-formedness of a session state. Established by `init_game` and
/// preserved by every engine operation.
pub open spec fn state_wf(s: State) -> bool {
    &&& s.players@.len() >= 1
    &&& s.turn_idx < s.players@.len()
    &&& s.remaining_dice <= 7
    &&& s.last_faces@.len() == 0 || s.last_faces@.len() == s.remaining_dice
    &&& forall|j: int| 0 <= j < s.last_faces@.len() ==> is_face(#[trigger] s.last_faces@[j])
    &&& forall|i: int| 0 <= i < s.players@.len() ==> player_wf(#[trigger] s.players@[i])
    &&& (s.phase is Normal ==> turn_budget_ok(s))
}

/// The entries of `s` appear in strictly ascending order (so none repeats).
pub open spec fn strictly_increasing(s: Seq<usize>) -> bool {
    forall|a: int, b: int| 0 <= a < b < s.len() ==> s[a] < s[b]
}

/// Two strictly ascending sequences with the same members are the same
/// sequence: an ascending offset list, such as a pick payload's, is uniquely
/// determined by the set of offsets it holds.
pub proof fn lemma_ascending_unique(a: Seq<usize>, b: Seq<usize>)
    requires
        strictly_increasing(a),
        strictly_increasing(b),
        forall|x: usize| a.contains(x) <==> b.contains(x),
    ensures
        a == b,
    decreases a.len(),
{
    if a.len() == 0 {
        if b.len() > 0 {
            assert(b.contains(b[0]));
            assert(a.contains(b[0]));
        }
        assert(a =~= b);
    } else {
        let la = a.last();
        assert(a.contains(la));
        assert(b.contains(la));
        let lb = b.last();
        assert(b.contains(lb));
        assert(a.contains(lb));
        let j = choose|j: int| 0 <= j < b.len() && b[j] == la;
        if j < b.len() - 1 {
            assert(b[j] < lb);
        }
        let j2 = choose|j2: int| 0 <= j2 < a.len() && a[j2] == lb;
        if j2 < a.len() - 1 {
            assert(a[j2] < la);
        }
        assert(la == lb);
        let ad = a.drop_last();
        let bd = b.drop_last();
        assert forall|x: usize| ad.contains(x) <==> bd.contains(x) by {
            if ad.contains(x) {
                let k = choose|k: int| 0 <= k < ad.len() && ad[k] == x;
                assert(a[k] == x);
                assert(x < la);
                assert(a.contains(x));
                assert(b.contains(x));
                let m = choose|m: int| 0 <= m < b.len() && b[m] == x;
                assert(m < b.len() - 1);
                assert(bd[m] == x);
            }
            if bd.contains(x) {
                let k = choose|k: int| 0 <= k < bd.len() && bd[k] == x;
                assert(b[k] == x);
                assert(x < lb);
                assert(b.contains(x));
                assert(a.contains(x));
                let m = choose|m: int| 0 <= m < a.len() && a[m] == x;
                assert(m < a.len() - 1);
                assert(ad[m] == x);
            }
        }
        lemma_ascending_unique(ad, bd);
        assert(a.len() == b.len());
        assert forall|i: int| 0 <= i < a.len() implies a[i] == b[i] by {
            if i < a.len() - 1 {
                assert(a[i] == ad[i]);
                assert(b[i] == bd[i]);
            } else {
                assert(a[i] == la && b[i] == lb);
            }
        }
        assert(a =~= b);
    }
}

/// A caller/host contract violation; fatal for the call that raised it, never
/// recovered internally.
#[derive(Clone, Copy, Debug, PartialEq, Eq, Structural)]
pub enum EngineError {
    /// The operation was attempted outside its valid phase.
    InvalidPhase,
    /// A roll was attempted with zero dice left.
    NoDiceRemaining,
    /// A pick was attempted with no active roll or with an empty selection.
    EmptyOrInactivePick,
    /// A selection offset exceeds the current roll's bounds.
    IndexOutOfRange,
}

} // verus!
