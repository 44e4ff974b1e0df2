use word_game::GameError;
use word_game::ScoreBoard;
use word_game::WordGame;

#[test]
fn scenario_eat_ann() {
    let mut board = ScoreBoard::with_starting_string("eat".to_string());
    board.register_player("Ann".to_string());

    assert_eq!(board.submit_word("Ann".to_string(), "eat".to_string()), Ok(3));
    assert_eq!(board.submit_word("Ann".to_string(), "eat".to_string()), Ok(0));
    assert_eq!(board.submit_word("Ann".to_string(), "tea".to_string()), Ok(3));
    assert_eq!(board.submit_word("Ann".to_string(), "eats".to_string()), Ok(0));
    assert_eq!(board.submit_word("Ann".to_string(), "Eat".to_string()), Ok(0));

    assert_eq!(board.get_player_name_at_position(0), "Ann");
    assert_eq!(board.get_word_entry_at_position(0), "eat");
    assert_eq!(board.get_score_at_position(0), 3);
    assert_eq!(board.get_player_name_at_position(1), "Ann");
    assert_eq!(board.get_word_entry_at_position(1), "tea");
    assert_eq!(board.get_score_at_position(1), 3);
}

#[test]
fn rejects_word_with_invalid_characters() {
    let mut board = ScoreBoard::with_starting_string("great".to_string());
    board.register_player("Ann".to_string());

    assert_eq!(board.submit_word("Ann".to_string(), "Great".to_string()), Ok(0));
    assert_eq!(board.submit_word("Ann".to_string(), "gre at".to_string()), Ok(0));
    assert_eq!(board.submit_word("Ann".to_string(), "gr8".to_string()), Ok(0));
    assert_eq!(board.submit_word("Ann".to_string(), "gréat".to_string()), Ok(0));

    // No record was created by any rejected submission.
    assert_eq!(board.get_player_name_at_position(0), "");
    assert_eq!(board.get_word_entry_at_position(0), "");
    assert_eq!(board.get_score_at_position(0), 0);
}

#[test]
fn rejects_word_exceeding_letter_tally() {
    let mut board = ScoreBoard::with_starting_string("eat".to_string());
    board.register_player("Ann".to_string());

    // No letter `s` in the starting string.
    assert_eq!(board.submit_word("Ann".to_string(), "eats".to_string()), Ok(0));
    // Only one `e` in the starting string.
    assert_eq!(board.submit_word("Ann".to_string(), "ee".to_string()), Ok(0));
    assert_eq!(board.get_word_entry_at_position(0), "");
}

#[test]
fn rejects_repeated_word_even_from_another_player() {
    let mut board = ScoreBoard::with_starting_string("stone".to_string());
    board.register_player("Ann".to_string());
    board.register_player("Bob".to_string());

    assert_eq!(board.submit_word("Ann".to_string(), "note".to_string()), Ok(4));
    assert_eq!(board.submit_word("Bob".to_string(), "note".to_string()), Ok(0));
    assert_eq!(board.submit_word("Bob".to_string(), "tone".to_string()), Ok(4));

    // Only the two accepted submissions stand in the log.
    assert_eq!(board.get_word_entry_at_position(0), "note");
    assert_eq!(board.get_player_name_at_position(0), "Ann");
    assert_eq!(board.get_word_entry_at_position(1), "tone");
    assert_eq!(board.get_player_name_at_position(1), "Bob");
    assert_eq!(board.get_word_entry_at_position(2), "");
}

#[test]
fn accepted_scores_accumulate_per_player() {
    let mut board = ScoreBoard::with_starting_string("stranger".to_string());
    board.register_player("Ann".to_string());
    board.register_player("Bob".to_string());

    assert_eq!(board.submit_word("Ann".to_string(), "rat".to_string()), Ok(3));
    assert_eq!(board.submit_word("Bob".to_string(), "sang".to_string()), Ok(4));
    assert_eq!(board.submit_word("Ann".to_string(), "great".to_string()), Ok(5));

    let ann = board
        .players
        .iter()
        .find(|p| p.player_name == "Ann")
        .expect("Ann is registered");
    assert_eq!(ann.score, 8);
    assert_eq!(ann.words, vec!["rat".to_string(), "great".to_string()]);

    let bob = board
        .players
        .iter()
        .find(|p| p.player_name == "Bob")
        .expect("Bob is registered");
    assert_eq!(bob.score, 4);
    assert_eq!(bob.words, vec!["sang".to_string()]);
}

#[test]
fn unknown_player_is_a_recoverable_error() {
    let mut board = ScoreBoard::with_starting_string("eat".to_string());
    board.register_player("Ann".to_string());

    assert_eq!(
        board.submit_word("Zoe".to_string(), "tea".to_string()),
        Err(GameError::PlayerNotFound)
    );
    // Nothing was recorded, and the word stays available.
    assert_eq!(board.get_word_entry_at_position(0), "");
    assert_eq!(board.submit_word("Ann".to_string(), "tea".to_string()), Ok(3));
}

#[test]
fn invalid_word_by_unknown_player_is_rejected_not_an_error() {
    let mut board = ScoreBoard::with_starting_string("eat".to_string());
    // Validation runs first: a rejected word scores zero even for an
    // unknown player.
    assert_eq!(board.submit_word("Zoe".to_string(), "Eat".to_string()), Ok(0));
}

#[test]
fn getters_on_unwritten_positions() {
    let mut board = ScoreBoard::with_starting_string("eat".to_string());
    board.register_player("Ann".to_string());

    assert_eq!(board.get_player_name_at_position(0), "");
    assert_eq!(board.get_word_entry_at_position(0), "");
    assert_eq!(board.get_score_at_position(0), 0);
    assert_eq!(board.get_player_name_at_position(-1), "");
    assert_eq!(board.get_word_entry_at_position(-3), "");
    assert_eq!(board.get_score_at_position(-7), 0);
    assert_eq!(board.get_player_name_at_position(1000000), "");
    assert_eq!(board.get_word_entry_at_position(1000000), "");
    assert_eq!(board.get_score_at_position(1000000), 0);

    assert_eq!(board.submit_word("Ann".to_string(), "ate".to_string()), Ok(3));
    assert_eq!(board.get_word_entry_at_position(0), "ate");
    assert_eq!(board.get_word_entry_at_position(1), "");
    assert_eq!(board.get_score_at_position(1), 0);
}

#[test]
fn empty_word_is_accepted_once_with_score_zero() {
    let mut board = ScoreBoard::with_starting_string("eat".to_string());
    board.register_player("Ann".to_string());

    // The empty word passes every check and scores its length, zero.
    assert_eq!(board.submit_word("Ann".to_string(), "".to_string()), Ok(0));
    assert_eq!(board.get_player_name_at_position(0), "Ann");
    assert_eq!(board.get_score_at_position(0), 0);
    // Like any accepted word, it cannot be accepted twice; position 1
    // stays unwritten.
    assert_eq!(board.submit_word("Ann".to_string(), "".to_string()), Ok(0));
    assert_eq!(board.get_player_name_at_position(1), "");
}

#[test]
fn empty_starting_string_rejects_every_nonempty_word() {
    let mut board = ScoreBoard::new();
    board.register_player("Ann".to_string());

    assert_eq!(board.submit_word("Ann".to_string(), "a".to_string()), Ok(0));
    assert_eq!(board.get_word_entry_at_position(0), "");
}

#[test]
fn registering_twice_keeps_the_existing_player() {
    let mut board = ScoreBoard::with_starting_string("eat".to_string());
    board.register_player("Ann".to_string());
    assert_eq!(board.submit_word("Ann".to_string(), "eat".to_string()), Ok(3));

    board.register_player("Ann".to_string());
    assert_eq!(board.players.len(), 1);
    assert_eq!(board.players[0].score, 3);
    assert_eq!(board.players[0].words, vec!["eat".to_string()]);
}
