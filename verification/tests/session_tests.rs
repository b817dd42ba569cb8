use go_board::registry::Registry;
use go_board::room::{
    cell_click, get_group, get_playable_dimensions, get_score, handle_resignation, join_game,
    pass, send_board_interaction_number, sync_boards, sync_guess_stones, undo, ApiError, GameRoom,
};

fn join_with(
    room: &mut GameRoom,
    token: Option<&str>,
    is_spectator: bool,
    fresh: &str,
    coin_black: bool,
) -> (String, String, String) {
    let tok = token.map(|t| t.to_string());
    let r = join_game(
        room,
        &tok,
        is_spectator,
        "match-1",
        fresh.to_string(),
        coin_black,
    );
    (r.color, r.redirect_url, r.session_token)
}

#[test]
fn room_has_thirteen_by_thirteen_playable_interior() {
    let room = GameRoom::new();
    assert_eq!(get_playable_dimensions(&room.board), (13, 13));
}

#[test]
fn two_passes_switch_the_room_to_counting() {
    let mut room = GameRoom::new();
    let s1 = pass(&mut room, "black");
    assert!(!s1.counting);
    assert_eq!(s1.current_player, "white");
    let s2 = pass(&mut room, "white");
    assert!(s2.counting);
    assert_eq!(s2.current_player, "counting");
    assert_eq!(s2.message, "Both players passed. Game over!");
}

#[test]
fn pass_from_the_wrong_player_is_refused() {
    let mut room = GameRoom::new();
    let s = pass(&mut room, "white");
    assert_eq!(s.message, "It's not your turn to pass!");
    let s = pass(&mut room, "spectator");
    assert_eq!(s.message, "It's not your turn to pass!");
    assert_eq!(room.game_generation_number, 0);
}

#[test]
fn session_reconnect_returns_the_same_seat_and_token() {
    let mut room = GameRoom::new();
    let (c1, _, t1) = join_with(&mut room, None, false, "tok-first", true);
    assert_eq!(c1, "black");
    assert_eq!(t1, "tok-first");
    let (c2, _, t2) = join_with(&mut room, None, false, "tok-second", true);
    assert_eq!(c2, "white");
    assert_eq!(t2, "tok-second");
    // a third join with the Black token re-attaches to the same seat
    let (c3, url3, t3) = join_with(&mut room, Some("tok-first"), false, "tok-third", false);
    assert_eq!(c3, "black");
    assert_eq!(t3, "tok-first");
    assert_eq!(url3, "/frontend/black.html?match=match-1&token=tok-first");
    // joining again with the same token returns the same answer (idempotent)
    let (c3b, _, t3b) = join_with(&mut room, Some("tok-first"), false, "tok-fourth", false);
    assert_eq!(c3b, "black");
    assert_eq!(t3b, "tok-first");
    // a fourth join without a token becomes a spectator
    let (c4, _, t4) = join_with(&mut room, None, false, "tok-fifth", true);
    assert_eq!(c4, "spectator");
    assert_eq!(t4, "");
}

#[test]
fn first_joiner_takes_the_tossed_colour() {
    let mut room = GameRoom::new();
    let (c1, _, _) = join_with(&mut room, None, false, "w-tok", false);
    assert_eq!(c1, "white");
    let (c2, _, _) = join_with(&mut room, None, false, "b-tok", false);
    assert_eq!(c2, "black");
}

#[test]
fn spectator_with_matching_token_is_redirected_to_their_colour() {
    let mut room = GameRoom::new();
    let (_, _, t1) = join_with(&mut room, None, false, "tok-a", true);
    let (c, _, t) = join_with(&mut room, Some(&t1), true, "ignored", true);
    assert_eq!(c, "black");
    assert_eq!(t, "tok-a");
}

#[test]
fn generation_advances_once_per_move_and_not_on_reads() {
    let mut room = GameRoom::new();
    let moves = [(3usize, 3usize), (3, 4), (4, 3), (4, 4), (5, 5)];
    let mut seen = vec![room.game_generation_number];
    for (i, (r, c)) in moves.iter().enumerate() {
        let snap = cell_click(&mut room, "main", *r, *c, 0);
        assert_eq!(room.game_generation_number, i + 1);
        assert_eq!(snap.board_generation_number, i + 1);
        if i % 2 == 0 {
            let full = sync_boards(&room, "spectator");
            assert_eq!(full.board_generation_number, room.game_generation_number);
        }
        seen.push(room.game_generation_number);
    }
    assert!(seen.windows(2).all(|w| w[0] + 1 == w[1]));
}

#[test]
fn illegal_click_keeps_the_generation_and_reports_current_state() {
    let mut room = GameRoom::new();
    cell_click(&mut room, "main", 3, 3, 0);
    // clicking the same occupied cell is rejected by the engine
    let snap = cell_click(&mut room, "main", 3, 3, 0);
    assert_eq!(room.game_generation_number, 1);
    assert_eq!(snap.board_generation_number, 1);
    assert_eq!(snap.message, "Move attempted at (3, 3)");
}

#[test]
fn click_out_of_turn_is_refused_with_a_message() {
    let mut room = GameRoom::new();
    let snap = cell_click(&mut room, "white", 3, 3, 0);
    assert_eq!(snap.message, "It's not your turn!");
    assert_eq!(room.game_generation_number, 0);
}

#[test]
fn undo_is_only_for_the_player_who_just_moved() {
    let mut room = GameRoom::new();
    cell_click(&mut room, "black", 3, 3, 0);
    // black just moved, so white (to move) may not undo
    let refused = undo(&mut room, "white", 1);
    assert_eq!(refused.message, "It's not your turn to undo!");
    assert_eq!(room.game_generation_number, 1);
    let allowed = undo(&mut room, "black", 1);
    assert_eq!(allowed.message, "Undo successful");
    assert_eq!(room.game_generation_number, 2);
    assert_eq!(allowed.board[2][2], "empty");
}

#[test]
fn resignation_names_the_opponent_as_winner() {
    let mut room = GameRoom::new();
    let snap = handle_resignation(&mut room, "black");
    assert_eq!(snap.winner.as_deref(), Some("white"));
    assert_eq!(snap.message, "Player Black resigned. Game over!");
    let info = send_board_interaction_number(&room, "black", 0);
    assert_eq!(info.winner.as_deref(), Some("white"));
}

#[test]
fn should_sync_compares_generations() {
    let mut room = GameRoom::new();
    let info = send_board_interaction_number(&room, "spectator", 0);
    assert!(!info.should_sync);
    cell_click(&mut room, "main", 3, 3, 0);
    let info = send_board_interaction_number(&room, "spectator", 0);
    assert!(info.should_sync);
    assert_eq!(info.move_number, 1);
    assert_eq!(info.board_generation_number, 1);
    let info = send_board_interaction_number(&room, "black", 1);
    assert!(!info.should_sync);
    assert!(info.rejoin_required); // nobody is seated yet
}

#[test]
fn sync_boards_reports_seat_loss_and_state() {
    let mut room = GameRoom::new();
    let snap = sync_boards(&room, "black");
    assert!(snap.rejoin_required);
    join_with(&mut room, None, false, "tok-b", true);
    let snap = sync_boards(&room, "black");
    assert!(!snap.rejoin_required);
    assert_eq!(snap.message, "Current board state sent");
    assert_eq!(snap.board.len(), 13);
    assert_eq!(snap.board[0].len(), 13);
}

#[test]
fn guess_stones_round_trip_through_sync() {
    let mut room = GameRoom::new();
    let reply = sync_guess_stones(&mut room, "black", vec![vec![1, 2], vec![3, 4]]);
    assert_eq!(reply, "Stones synced");
    assert_eq!(room.game_generation_number, 1);
    let snap = sync_boards(&room, "spectator");
    assert_eq!(snap.black_guess_stones, vec![vec![1, 2], vec![3, 4]]);
    assert!(snap.white_guess_stones.is_empty());
}

#[test]
fn marking_dead_groups_toggles_and_resets_readiness() {
    let mut room = GameRoom::new();
    let (_, _, tb) = join_with(&mut room, None, false, "tok-b", true);
    let (_, _, tw) = join_with(&mut room, None, false, "tok-w", true);
    cell_click(&mut room, "main", 3, 3, 0);
    // an unseated token may not mark groups
    assert!(matches!(
        get_group(&mut room, "intruder", 3, 3),
        Err(ApiError::Unauthorized)
    ));
    // toggling on
    let (selected, toggled) = get_group(&mut room, &tb, 3, 3).unwrap();
    assert_eq!(selected.len(), 1);
    assert_eq!(toggled.len(), 1);
    assert!(!room.ready_to_count_black && !room.ready_to_count_white);
    // toggling off
    let (selected, _) = get_group(&mut room, &tw, 3, 3).unwrap();
    assert!(selected.is_empty());
}

#[test]
fn scoring_waits_for_both_players() {
    let mut room = GameRoom::new();
    let (_, _, tb) = join_with(&mut room, None, false, "tok-b", true);
    let (_, _, tw) = join_with(&mut room, None, false, "tok-w", true);
    let none: Vec<Vec<go_board::geom::Loc>> = vec![];
    let first = get_score(&mut room, &tb, &none);
    assert_eq!(first, "Waiting for other player");
    assert!(room.ready_to_count_black && !room.ready_to_count_white);
    let second = get_score(&mut room, &tw, &none);
    // an empty 13x13 board with komi 1.5 scores for White
    assert_eq!(second, "White +1.5");
    // the terminal score records the winner on the board
    assert_eq!(room.board.get_winner(), Some(go_board::geom::Player::White));
}

#[test]
fn spectator_score_requests_read_the_board_as_it_stands() {
    let mut room = GameRoom::new();
    let none: Vec<Vec<go_board::geom::Loc>> = vec![];
    let s = get_score(&mut room, "", &none);
    assert_eq!(s, "White +1.5");
    assert!(!room.ready_to_count_black && !room.ready_to_count_white);
}

#[test]
fn registry_creates_finds_removes_and_lists_rooms() {
    let mut reg = Registry::new();
    assert!(reg.find("alpha").is_none());
    let i = reg.get_or_create("alpha");
    let j = reg.get_or_create("beta");
    assert_ne!(i, j);
    assert_eq!(reg.get_or_create("alpha"), i);
    assert_eq!(reg.get_all_games(), vec!["alpha".to_string(), "beta".to_string()]);
    {
        let room = reg.room_at(i);
        room.game_generation_number = 7;
    }
    assert_eq!(reg.room_at(i).game_generation_number, 7);
    reg.remove_room("alpha");
    assert!(reg.find("alpha").is_none());
    assert!(reg.find("beta").is_some());
    reg.reset_memory();
    assert!(reg.get_all_games().is_empty());
}

#[test]
fn fresh_join_tokens_come_from_the_generator() {
    let mut room = GameRoom::new();
    let r = go_board::room::join_game_with_new_token(&mut room, &None, false, "m");
    // a canonical hyphenated UUID is 36 characters
    assert_eq!(r.session_token.len(), 36);
    assert!(r.color == "black" || r.color == "white");
}
