use low_roller::bot::{amateur_policy_public, bot_pick};
use low_roller::model::{BotLevel, EventPayload, Phase, Player, State};
use low_roller::rng::DiceRng;
use low_roller::{init_game, pick, roll};

fn player(id: &str, wager: u32) -> Player {
    Player {
        id: id.to_string(),
        display: id.to_string(),
        is_bot: false,
        bot_level: None,
        wager_cents: wager,
        total_score: 0,
        picks: Vec::new(),
    }
}

fn rolled_state(faces: Vec<u8>, leader: Option<u32>) -> State {
    let remaining = faces.len();
    State {
        seed: 1,
        players: vec![player("a", 0), player("b", 0)],
        turn_idx: 0,
        remaining_dice: remaining,
        last_faces: faces,
        must_pick_at_least_one: true,
        pot_cents: 0,
        phase: Phase::Normal,
        events_seq: 1,
        per_turn_deadline_ms: None,
        leader_to_beat: leader,
    }
}

fn sorted(mut v: Vec<usize>) -> Vec<usize> {
    v.sort_unstable();
    v
}

#[test]
fn both_policies_take_every_free_three() {
    let s = rolled_state(vec![3, 1, 3, 6], None);
    let mut r1 = DiceRng::from_seed(5);
    let am = bot_pick(&s, BotLevel::Amateur, &mut r1);
    assert_eq!(sorted(am.pick_indices), vec![0, 2]);
    let mut r2 = DiceRng::from_seed(5);
    let pro = bot_pick(&s, BotLevel::Pro, &mut r2);
    assert_eq!(sorted(pro.pick_indices), vec![0, 2]);
}

#[test]
fn amateur_takes_first_lowest_without_leader() {
    let s = rolled_state(vec![5, 2, 4, 2], None);
    let mut rng = DiceRng::from_seed(5);
    let d = bot_pick(&s, BotLevel::Amateur, &mut rng);
    assert_eq!(sorted(d.pick_indices), vec![1]);
}

#[test]
fn amateur_adds_ones_when_projection_clears_leader() {
    // lowest is the first 1; the other 1 is cheap to bank when the projected
    // line (0 banked + 1 + 1 extra one + 3 for the one die left to re-roll)
    // clears the leader
    let s = rolled_state(vec![1, 5, 1], Some(100));
    let mut rng = DiceRng::from_seed(5);
    let d = bot_pick(&s, BotLevel::Amateur, &mut rng);
    assert_eq!(sorted(d.pick_indices), vec![0, 2]);
}

#[test]
fn amateur_projection_discounts_the_extra_ones_it_banks() {
    // line = 0 banked + 1 + 1 extra one + 3 for the single die left after
    // both ones are taken = 5, at the leader's 6: both ones are banked
    let s = rolled_state(vec![1, 1, 2], Some(6));
    let mut rng = DiceRng::from_seed(5);
    let d = bot_pick(&s, BotLevel::Amateur, &mut rng);
    assert_eq!(sorted(d.pick_indices), vec![0, 1]);
}

#[test]
fn amateur_keeps_single_pick_when_projection_misses_leader() {
    let s = rolled_state(vec![1, 5, 1], Some(2));
    let mut rng = DiceRng::from_seed(5);
    let d = bot_pick(&s, BotLevel::Amateur, &mut rng);
    assert_eq!(sorted(d.pick_indices), vec![0]);
}

#[test]
fn pro_banks_all_ones_when_projection_clears_leader() {
    let s = rolled_state(vec![1, 1, 5], Some(100));
    let mut rng = DiceRng::from_seed(5);
    let d = bot_pick(&s, BotLevel::Pro, &mut rng);
    assert_eq!(sorted(d.pick_indices), vec![0, 1]);
}

#[test]
fn pro_falls_back_to_first_lowest() {
    // no threes, and a leader of zero rejects the all-ones projection
    let s = rolled_state(vec![1, 4], Some(0));
    let mut rng = DiceRng::from_seed(5);
    let d = bot_pick(&s, BotLevel::Pro, &mut rng);
    assert_eq!(d.pick_indices, vec![0]);
    // without ones the sentinel leader still leads to the first lowest face
    let t = rolled_state(vec![6, 2, 5, 2], None);
    let mut rng2 = DiceRng::from_seed(5);
    let d2 = bot_pick(&t, BotLevel::Pro, &mut rng2);
    assert_eq!(d2.pick_indices, vec![1]);
}

#[test]
fn amateur_public_matches_decision_set() {
    let s = rolled_state(vec![2, 6, 2], None);
    let mut r1 = DiceRng::from_seed(9);
    let via_public = sorted(amateur_policy_public(&s, &mut r1));
    let mut r2 = DiceRng::from_seed(9);
    let via_decision = sorted(bot_pick(&s, BotLevel::Amateur, &mut r2).pick_indices);
    assert_eq!(via_public, via_decision);
}

#[test]
fn seeded_scenario_runs_end_to_end() {
    let mut s = init_game(42, vec![player("a", 100), player("b", 100)]);
    assert_eq!(s.pot_cents, 200);
    assert_eq!(s.remaining_dice, 7);
    roll(&mut s).unwrap();
    let faces = s.last_faces.clone();
    assert_eq!(faces.len(), 7);
    assert!(faces.iter().all(|&f| (1..=6).contains(&f)));
    // the same seed and counter must reproduce the same faces
    let mut again = init_game(42, vec![player("a", 100), player("b", 100)]);
    roll(&mut again).unwrap();
    assert_eq!(faces, again.last_faces);
    let threes: Vec<usize> =
        faces.iter().enumerate().filter(|(_, &f)| f == 3).map(|(i, _)| i).collect();
    if !threes.is_empty() {
        let mut r1 = DiceRng::from_seed(42);
        let am = sorted(bot_pick(&s, BotLevel::Amateur, &mut r1).pick_indices);
        assert_eq!(am, threes);
        let mut r2 = DiceRng::from_seed(42);
        let pro = sorted(bot_pick(&s, BotLevel::Pro, &mut r2).pick_indices);
        assert_eq!(pro, threes);
        let acting = s.turn_idx;
        let ev = pick(&mut s, &threes).unwrap();
        match ev.payload {
            EventPayload::Pick { picked, values } => {
                assert_eq!(picked, threes);
                assert!(values.iter().all(|&v| v == 0));
            }
            _ => panic!("pick event must carry a pick payload"),
        }
        assert_eq!(s.players[acting].total_score, 0);
    }
}
