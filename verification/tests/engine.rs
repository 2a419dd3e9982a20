use low_roller::model::{BotLevel, EngineError, EventPayload, EventType, Phase, Player, State};
use low_roller::rules::{face_score, sum_score};
use low_roller::{compute_leader_to_beat, end_turn_if_done, init_game, pick, roll, timeout_autoplay};

fn player(id: &str, wager: u32) -> Player {
    Player {
        id: id.to_string(),
        display: id.to_string(),
        is_bot: false,
        bot_level: None,
        wager_cents: wager,
        total_score: 0,
        picks: Vec::new(),
    }
}

fn bare_state(players: Vec<Player>, turn_idx: usize, remaining_dice: usize) -> State {
    State {
        seed: 1,
        players,
        turn_idx,
        remaining_dice,
        last_faces: Vec::new(),
        must_pick_at_least_one: false,
        pot_cents: 0,
        phase: Phase::Normal,
        events_seq: 0,
        per_turn_deadline_ms: None,
        leader_to_beat: None,
    }
}

#[test]
fn face_score_values() {
    assert_eq!(face_score(3), 0);
    assert_eq!(face_score(1), 1);
    assert_eq!(face_score(2), 2);
    assert_eq!(face_score(4), 4);
    assert_eq!(face_score(5), 5);
    assert_eq!(face_score(6), 6);
}

#[test]
fn sum_score_examples() {
    assert_eq!(sum_score(&[]), 0);
    assert_eq!(sum_score(&[1, 3, 5]), 6);
    assert_eq!(sum_score(&[3, 3, 3]), 0);
    assert_eq!(sum_score(&[6, 6, 6, 6, 6, 6, 6]), 42);
}

#[test]
fn init_sums_pot_and_keeps_players() {
    let s = init_game(9, vec![player("a", 100), player("b", 100), player("c", 50)]);
    assert_eq!(s.pot_cents, 250);
    assert_eq!(s.turn_idx, 0);
    assert_eq!(s.remaining_dice, 7);
    assert_eq!(s.events_seq, 0);
    assert!(s.last_faces.is_empty());
    assert!(matches!(s.phase, Phase::Normal));
    assert_eq!(s.players.len(), 3);
    let mut ids: Vec<String> = s.players.iter().map(|p| p.id.clone()).collect();
    ids.sort();
    assert_eq!(ids, vec!["a".to_string(), "b".to_string(), "c".to_string()]);
}

#[test]
fn roll_yields_remaining_dice_faces_in_range() {
    let mut s = init_game(7, vec![player("a", 0), player("b", 0)]);
    let ev = roll(&mut s).unwrap();
    assert_eq!(ev.ty, EventType::Roll);
    assert_eq!(ev.seq, 1);
    assert_eq!(s.last_faces.len(), 7);
    assert!(s.last_faces.iter().all(|&f| (1..=6).contains(&f)));
    match ev.payload {
        EventPayload::Roll { faces } => assert_eq!(faces, s.last_faces),
        _ => panic!("roll event must carry a roll payload"),
    }
}

#[test]
fn init_seat_order_is_deterministic_for_a_seed() {
    let s1 = init_game(77, vec![player("a", 0), player("b", 0), player("c", 0)]);
    let s2 = init_game(77, vec![player("a", 0), player("b", 0), player("c", 0)]);
    let ids1: Vec<String> = s1.players.iter().map(|p| p.id.clone()).collect();
    let ids2: Vec<String> = s2.players.iter().map(|p| p.id.clone()).collect();
    assert_eq!(ids1, ids2);
}

#[test]
fn roll_is_deterministic_for_same_seed_and_counter() {
    let mut s1 = init_game(123, vec![player("a", 0), player("b", 0)]);
    let mut s2 = init_game(123, vec![player("a", 0), player("b", 0)]);
    roll(&mut s1).unwrap();
    roll(&mut s2).unwrap();
    assert_eq!(s1.last_faces, s2.last_faces);
}

#[test]
fn roll_rejects_exhausted_dice_and_terminal_phase() {
    let mut s = init_game(5, vec![player("a", 0)]);
    s.remaining_dice = 0;
    assert_eq!(roll(&mut s).unwrap_err(), EngineError::NoDiceRemaining);
    let mut t = init_game(5, vec![player("a", 0)]);
    t.phase = Phase::Finished;
    assert_eq!(roll(&mut t).unwrap_err(), EngineError::InvalidPhase);
}

#[test]
fn pick_deduplicates_and_sorts_offsets() {
    let mut s = init_game(11, vec![player("a", 0), player("b", 0)]);
    roll(&mut s).unwrap();
    let faces = s.last_faces.clone();
    let ev = pick(&mut s, &[1, 0, 1, 0, 1]).unwrap();
    assert_eq!(ev.ty, EventType::Pick);
    match ev.payload {
        EventPayload::Pick { picked, values } => {
            assert_eq!(picked, vec![0, 1]);
            assert_eq!(values, vec![face_score(faces[0]), face_score(faces[1])]);
        }
        _ => panic!("pick event must carry a pick payload"),
    }
    assert_eq!(s.remaining_dice, 5);
    assert!(s.last_faces.is_empty());
    assert!(!s.must_pick_at_least_one);
    let p = &s.players[s.turn_idx];
    assert_eq!(p.total_score, p.picks.iter().map(|&v| face_score(v) as u32).sum::<u32>());
}

#[test]
fn pick_rejects_out_of_range_without_mutating() {
    let mut s = init_game(13, vec![player("a", 0), player("b", 0)]);
    roll(&mut s).unwrap();
    let before_seq = s.events_seq;
    let before_faces = s.last_faces.clone();
    let before_picks = s.players[s.turn_idx].picks.clone();
    assert_eq!(pick(&mut s, &[0, 7]).unwrap_err(), EngineError::IndexOutOfRange);
    assert_eq!(s.events_seq, before_seq);
    assert_eq!(s.last_faces, before_faces);
    assert_eq!(s.remaining_dice, 7);
    assert_eq!(s.players[s.turn_idx].picks, before_picks);
}

#[test]
fn pick_rejects_empty_selection_and_inactive_roll() {
    let mut s = init_game(17, vec![player("a", 0)]);
    assert_eq!(pick(&mut s, &[0]).unwrap_err(), EngineError::EmptyOrInactivePick);
    roll(&mut s).unwrap();
    assert_eq!(pick(&mut s, &[]).unwrap_err(), EngineError::EmptyOrInactivePick);
}

#[test]
fn end_turn_returns_nothing_while_dice_remain() {
    let mut s = init_game(19, vec![player("a", 0), player("b", 0)]);
    assert!(end_turn_if_done(&mut s).is_none());
    roll(&mut s).unwrap();
    pick(&mut s, &[0]).unwrap();
    assert!(end_turn_if_done(&mut s).is_none());
}

#[test]
fn end_turn_emits_one_event_and_resets_dice() {
    let mut s = init_game(23, vec![player("a", 0), player("b", 0)]);
    while s.remaining_dice > 0 {
        roll(&mut s).unwrap();
        let all: Vec<usize> = (0..s.last_faces.len()).collect();
        pick(&mut s, &all).unwrap();
    }
    let total = s.players[0].total_score;
    let ev = end_turn_if_done(&mut s).expect("turn with no dice left must end");
    assert_eq!(ev.ty, EventType::EndTurn);
    // the fingerprint is taken before the turn advances: seat 0, no dice
    // left, seven banked picks
    assert_eq!(ev.state_hash, "h:0:0:7");
    match ev.payload {
        EventPayload::EndTurn { player_idx, total: t } => {
            assert_eq!(player_idx, 0);
            assert_eq!(t, total);
        }
        _ => panic!("end-turn event must carry an end-turn payload"),
    }
    assert_eq!(s.remaining_dice, 7);
    assert_eq!(s.turn_idx, 1);
    assert!(matches!(s.phase, Phase::Normal));
}

#[test]
fn round_end_unique_minimum_finishes_game() {
    let mut a = player("a", 0);
    a.picks = vec![5];
    a.total_score = 5;
    let mut b = player("b", 0);
    b.picks = vec![1, 2];
    b.total_score = 3;
    let mut s = bare_state(vec![a, b], 1, 0);
    end_turn_if_done(&mut s).expect("last seat with no dice must end the round");
    assert!(matches!(s.phase, Phase::Finished));
}

#[test]
fn round_end_tied_minimum_enters_sudden_death_in_seat_order() {
    let mut a = player("a", 0);
    a.picks = vec![5];
    a.total_score = 5;
    let mut b = player("b", 0);
    b.picks = vec![1, 2];
    b.total_score = 3;
    let mut c = player("c", 0);
    c.picks = vec![2, 1];
    c.total_score = 3;
    let mut s = bare_state(vec![a, b, c], 2, 0);
    end_turn_if_done(&mut s).expect("last seat with no dice must end the round");
    match &s.phase {
        Phase::SuddenDeath(ids) => {
            assert_eq!(ids, &vec!["b".to_string(), "c".to_string()]);
        }
        _ => panic!("a tied minimum must enter sudden death"),
    }
}

#[test]
fn timeout_autoplay_banks_at_least_one_die() {
    let mut s = init_game(31, vec![player("a", 0), player("b", 0)]);
    roll(&mut s).unwrap();
    let before = s.remaining_dice;
    let ev = timeout_autoplay(&mut s).unwrap();
    assert_eq!(ev.ty, EventType::TimeoutAutoplay);
    assert!(s.remaining_dice < before);
    match ev.payload {
        EventPayload::TimeoutAutoplay { picked, values, .. } => {
            assert!(!picked.is_empty());
            assert_eq!(picked.len(), values.len());
        }
        _ => panic!("timeout event must embed the pick payload"),
    }
}

#[test]
fn timeout_autoplay_ignores_configured_bot_level() {
    let mut a = player("a", 0);
    a.is_bot = true;
    a.bot_level = Some(BotLevel::Pro);
    let mut s = init_game(37, vec![a, player("b", 0)]);
    roll(&mut s).unwrap();
    let before = s.remaining_dice;
    let ev = timeout_autoplay(&mut s).unwrap();
    assert_eq!(ev.ty, EventType::TimeoutAutoplay);
    assert!(s.remaining_dice < before);
}

#[test]
fn timeout_autoplay_without_active_roll_fails() {
    let mut s = init_game(41, vec![player("a", 0), player("b", 0)]);
    assert_eq!(timeout_autoplay(&mut s).unwrap_err(), EngineError::EmptyOrInactivePick);
}

#[test]
fn leader_to_beat_is_none_without_opponent_picks() {
    let s = init_game(43, vec![player("a", 0), player("b", 0)]);
    assert_eq!(compute_leader_to_beat(&s), None);
}

#[test]
fn leader_to_beat_is_lowest_opponent_total_with_picks() {
    let mut a = player("a", 0);
    a.picks = vec![6];
    a.total_score = 6;
    let mut b = player("b", 0);
    b.picks = vec![1, 1];
    b.total_score = 2;
    let c = player("c", 0);
    let s = bare_state(vec![a, b, c], 2, 7);
    assert_eq!(compute_leader_to_beat(&s), Some(2));
    let t = bare_state(
        vec![s.players[0].clone(), s.players[1].clone(), s.players[2].clone()],
        1,
        7,
    );
    assert_eq!(compute_leader_to_beat(&t), Some(6));
}

#[test]
fn events_seq_increases_by_one_per_event() {
    let mut s = init_game(47, vec![player("a", 0), player("b", 0)]);
    assert_eq!(s.events_seq, 0);
    let e1 = roll(&mut s).unwrap();
    assert_eq!((e1.seq, s.events_seq), (1, 1));
    let e2 = pick(&mut s, &[0]).unwrap();
    assert_eq!((e2.seq, s.events_seq), (2, 2));
    let e3 = roll(&mut s).unwrap();
    assert_eq!((e3.seq, s.events_seq), (3, 3));
}

#[test]
fn timeout_autoplay_records_lowest_opponent_total_as_leader() {
    let mut a = player("a", 0);
    a.picks = vec![6, 2];
    a.total_score = 8;
    let mut s = bare_state(vec![a, player("b", 0)], 1, 7);
    roll(&mut s).unwrap();
    timeout_autoplay(&mut s).unwrap();
    assert_eq!(s.leader_to_beat, Some(8));
}

#[test]
fn full_game_reaches_a_terminal_phase() {
    let mut s = init_game(99, vec![player("a", 10), player("b", 20)]);
    let mut turns: u32 = 0;
    while matches!(s.phase, Phase::Normal) && turns < 4 {
        roll(&mut s).unwrap();
        let all: Vec<usize> = (0..s.last_faces.len()).collect();
        pick(&mut s, &all).unwrap();
        end_turn_if_done(&mut s).expect("banking every die must end the turn");
        turns += 1;
    }
    assert_eq!(turns, 2);
    assert!(!matches!(s.phase, Phase::Normal));
    for p in &s.players {
        assert_eq!(p.picks.len(), 7);
        assert_eq!(p.total_score, p.picks.iter().map(|&v| face_score(v) as u32).sum::<u32>());
    }
}

#[test]
fn state_hash_reflects_turn_dice_and_picks() {
    let mut s = init_game(53, vec![player("a", 0), player("b", 0)]);
    let ev = roll(&mut s).unwrap();
    assert_eq!(ev.state_hash, "h:0:7:0");
    let ev2 = pick(&mut s, &[0, 1]).unwrap();
    assert_eq!(ev2.state_hash, "h:0:5:2");
}
