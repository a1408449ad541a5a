use grid_games::commands::Command;
use grid_games::go::GoBoard;
use grid_games::go::GoBoardError;
use grid_games::go::GoCell;
use grid_games::go::GoPlayer;
use grid_games::go::IllegalReason;
use grid_games::go::LastMove;
use grid_games::grid::Arr2d;
use grid_games::grid::Cell;
use grid_games::grid::GridError;
use grid_games::grid::ParseError;

const PARSE_SAMPLE: &str = "turn=W\nlast_move=ok\ncapturesW=16\ncapturesB=23\n-W---\n--W--\n-B---\n-B-b-\n-----";

fn expected_sample_board() -> Arr2d<GoCell> {
    Arr2d::from_contents(vec![
        vec![GoCell::Empty, GoCell::White, GoCell::Empty, GoCell::Empty, GoCell::Empty],
        vec![GoCell::Empty, GoCell::Empty, GoCell::White, GoCell::Empty, GoCell::Empty],
        vec![GoCell::Empty, GoCell::Black, GoCell::Empty, GoCell::Empty, GoCell::Empty],
        vec![GoCell::Empty, GoCell::Black, GoCell::Empty, GoCell::BlackPending, GoCell::Empty],
        vec![GoCell::Empty, GoCell::Empty, GoCell::Empty, GoCell::Empty, GoCell::Empty],
    ])
}

fn assert_parsed_sample(state: &GoBoard) {
    assert_eq!(state.whose_turn(), GoPlayer::White);
    assert_eq!(state.last_move(), LastMove::Legal);
    assert_eq!(state.captures(GoPlayer::White), 16);
    assert_eq!(state.captures(GoPlayer::Black), 23);
    assert!(state.recent_captures().is_empty());
    assert_eq!(state.board(), &expected_sample_board());
}

fn assert_board_equal(expected: &GoBoard, result: &GoBoard) {
    assert_eq!(expected.whose_turn(), result.whose_turn(), "Incorrect turn");
    assert_eq!(expected.captures(GoPlayer::White), result.captures(GoPlayer::White), "Incorrect captures");
    assert_eq!(expected.captures(GoPlayer::Black), result.captures(GoPlayer::Black), "Incorrect captures");
    assert_eq!(expected.last_move(), result.last_move(), "Incorrect Last Move");
    assert_eq!(expected.board(), result.board(), "Board states do not match");
}

fn board(text: &str) -> GoBoard {
    GoBoard::from_str(text).unwrap()
}

#[test]
fn test_ko_rule() {
    let mut state = board("turn=W\nlast_move=ok\ncapturesW=0\ncapturesB=0\n-BW--\nBW-W-\n-BW--\n-----\nw----\n");
    let state_1_execute = board("turn=B\nlast_move=ok\ncapturesW=0\ncapturesB=0\n-BW--\nBW-W-\n-BW--\n-----\nW----\n");
    let move_2 = (1, 2);
    let state_2_execute = board("turn=W\nlast_move=ok\ncapturesW=0\ncapturesB=1\n-BW--\nB-BW-\n-BW--\n-----\nW----\n");
    let move_3 = (1, 1);
    let state_3_execute = board("turn=B\nlast_move=ok\ncapturesW=1\ncapturesB=1\n-BW--\nBW-W-\n-BW--\n-----\nW----\n");
    let move_4 = (1, 2);
    let state_4_execute =
        board("turn=B\nlast_move=illegal_ko\ncapturesW=1\ncapturesB=1\n-BW--\nBW-W-\n-BW--\n-----\nW----\n");

    let _ = state.iterate().unwrap();
    assert_board_equal(&state_1_execute, &state);

    let _ = state.make_move(move_2.0, move_2.1).unwrap();
    assert_board_equal(&state_2_execute, &state);

    let _ = state.make_move(move_3.0, move_3.1).unwrap();
    assert_board_equal(&state_3_execute, &state);

    let result4 = state.make_move(move_4.0, move_4.1);

    assert!(result4.is_err(), "Expected move 4 to generate an error");
    assert_eq!(result4, Err(GoBoardError::IllegalMove(IllegalReason::Ko)));
    assert_board_equal(&state_4_execute, &state);
    assert_eq!(state.recent_captures().clone(), vec!["1,1".to_string(), "1,2".to_string()]);
}

#[test]
fn lib_test_parse() {
    let state = GoBoard::from_str(PARSE_SAMPLE).unwrap();
    assert_parsed_sample(&state);
}

#[test]
fn lib_test_parse_str() {
    let as_str = r#"
    turn=W
last_move=ok
capturesW=16
capturesB=23
-W---
--W--
-B---
-B-b-
-----
        "#;
    let state = GoBoard::from_str(as_str).unwrap();
    assert_parsed_sample(&state);
}

#[test]
fn go_test_parse_str() {
    let as_str = "\n    turn=W\nlast_move=ok\ncapturesW=16\ncapturesB=23\n-W---\n--W--\n-B---\n-B-b-\n-----\n        ";
    let state = GoBoard::from_str(as_str).unwrap();
    assert_parsed_sample(&state);
}

#[test]
fn test_has_liberties_true() {
    let as_str = r#"
    turn=W
last_move=ok
capturesW=16
capturesB=23
-W-W-
WBW--
WBBW-
WBBbW
WWWW-
        "#;
    let state = GoBoard::from_str(as_str).unwrap();
    let result = state.has_liberties(2, 1).unwrap();
    assert!(!result);
}

#[test]
fn test_has_liberties_false() {
    let as_str = r#"
    turn=W
last_move=ok
capturesW=16
capturesB=23
-W-W-
W-W--
WBBW-
WB-bW
WWWW-
        "#;
    let state = GoBoard::from_str(as_str).unwrap();
    let result = state.has_liberties(2, 1).unwrap();
    assert!(result);
}

const LIBERTIES_SAMPLE: &str = r#"
    turn=W
last_move=ok
capturesW=16
capturesB=23
-W-W-
W-W--
WBBW-
WB-bW
WWWW-
        "#;

fn check_liberties() {
    let state = GoBoard::from_str(LIBERTIES_SAMPLE).unwrap();
    let result: Vec<Cell<GoCell>> = match state.get_liberties(2, 1) {
        Ok(p) => p,
        _ => panic!("Could not get liberties"),
    };
    for (exp_row, exp_column) in [(1, 1), (3, 2)] {
        let exp_cell: Cell<GoCell> = Cell::from(exp_row, exp_column, GoCell::Empty);
        assert!(result.contains(&exp_cell), "Result {result:?} does not contain {exp_cell:?}");
    }
}

#[test]
fn lib_test_get_liberties() {
    check_liberties();
}

#[test]
fn go_test_get_liberties() {
    check_liberties();
    let state = GoBoard::from_str(LIBERTIES_SAMPLE).unwrap();
    assert_eq!(state.get_liberties(2, 1).unwrap().len(), 2);
    assert_eq!(state.get_liberties(7, 1).unwrap_err(), GridError::InvalidIndex);
}

#[test]
fn other_player() {
    assert_eq!(GoPlayer::White.other(), GoPlayer::Black);
    assert_eq!(GoPlayer::Black.other(), GoPlayer::White);
}

#[test]
fn first_move_on_empty_board() {
    let mut state = board("turn=W\nlast_move=ok\ncapturesW=0\ncapturesB=0\n-----\n-----\n-----\n-----\n-----\n");
    assert_eq!(state.make_move(2, 2), Ok(()));
    assert_eq!(state.whose_turn(), GoPlayer::Black);
    assert_eq!(state.captures(GoPlayer::White), 0);
    assert_eq!(state.captures(GoPlayer::Black), 0);
    assert_eq!(state.last_move(), LastMove::Legal);
    assert_eq!(
        state.to_str(),
        "turn=B\nlast_move=ok\ncapturesW=0\ncapturesB=0\n-----\n-----\n--W--\n-----\n-----\n"
    );
}

#[test]
fn lone_stone_is_captured() {
    let mut state = board("turn=W\nlast_move=ok\ncapturesW=3\ncapturesB=0\n-----\n--W--\n-WB--\n--W--\n-----\n");
    assert_eq!(state.make_move(2, 3), Ok(()));
    assert_eq!(state.board().get(2, 2).unwrap(), GoCell::Empty);
    assert_eq!(state.board().get(2, 3).unwrap(), GoCell::White);
    assert_eq!(state.captures(GoPlayer::White), 4);
    assert_eq!(state.captures(GoPlayer::Black), 0);
    assert_eq!(state.whose_turn(), GoPlayer::Black);
    assert_eq!(state.recent_captures().clone(), vec!["2,2".to_string()]);
}

#[test]
fn group_capture_counts_every_stone() {
    let mut state = board("turn=B\nlast_move=ok\ncapturesW=0\ncapturesB=0\nBWWB-\n-BB--\n-----\n");
    assert_eq!(state.make_move(1, 0), Ok(()));
    assert_eq!(state.captures(GoPlayer::Black), 0);
    let mut state = board("turn=B\nlast_move=ok\ncapturesW=0\ncapturesB=0\n-WWB-\nBBB--\n-----\n");
    assert_eq!(state.make_move(0, 0), Ok(()));
    assert_eq!(state.captures(GoPlayer::Black), 2);
    assert_eq!(state.recent_captures().clone(), vec!["0,1-0,2".to_string()]);
    assert_eq!(
        state.to_str(),
        "turn=W\nlast_move=ok\ncapturesW=0\ncapturesB=2\nB--B-\nBBB--\n-----\n"
    );
}

#[test]
fn suicidal_move_is_refused() {
    let text = "turn=B\nlast_move=ok\ncapturesW=0\ncapturesB=0\n-W---\nW-W--\n-W---\n-----\n";
    let mut state = board(text);
    assert_eq!(state.make_move(1, 1), Err(GoBoardError::IllegalMove(IllegalReason::Suicidal)));
    assert_eq!(state.last_move(), LastMove::IllegalSuicidal);
    assert_eq!(state.whose_turn(), GoPlayer::Black);
    assert_eq!(state.board(), board(text).board());
}

#[test]
fn pending_suicide_is_refused_by_iterate() {
    let mut state = board("turn=B\nlast_move=ok\ncapturesW=0\ncapturesB=0\n-W---\nWbW--\n-W---\n-----\n");
    assert_eq!(state.iterate(), Err(GoBoardError::IllegalMove(IllegalReason::Suicidal)));
    assert_eq!(state.board().get(1, 1).unwrap(), GoCell::Empty);
    assert!(!state.has_pending());
}

#[test]
fn iterate_errors() {
    let mut state = board("turn=W\nlast_move=ok\ncapturesW=0\ncapturesB=0\n---\n---\n");
    assert_eq!(state.iterate(), Err(GoBoardError::NoPendingFound));
    let mut state = board("turn=W\nlast_move=ok\ncapturesW=0\ncapturesB=0\n-b-\n---\n");
    assert_eq!(state.iterate(), Err(GoBoardError::WrongPlayerTurn));
    assert_eq!(state.board().get(0, 1).unwrap(), GoCell::BlackPending);
}

#[test]
fn occupied_or_outside_point_is_refused() {
    let mut state = board("turn=W\nlast_move=illegal_ko\ncapturesW=0\ncapturesB=0\n-B-\n---\n");
    assert_eq!(state.make_move(0, 1), Err(GoBoardError::IllegalMove(IllegalReason::Occupied)));
    assert_eq!(state.make_move(5, 0), Err(GoBoardError::IllegalMove(IllegalReason::Occupied)));
    assert_eq!(state.last_move(), LastMove::IllegalKo);
    assert_eq!(state.whose_turn(), GoPlayer::White);
}

#[test]
fn parse_errors() {
    assert_eq!(GoBoard::from_str("turn=W\nlast_move=ok\ncapturesW=0\ncapturesB=0\n").unwrap_err(), ParseError::NotEnoughLines);
    assert_eq!(GoBoard::from_str("turn=\nlast_move=ok\ncapturesW=0\ncapturesB=0\n---\n").unwrap_err(), ParseError::NotEnoughChars);
    assert_eq!(GoBoard::from_str("turn=X\nlast_move=ok\ncapturesW=0\ncapturesB=0\n---\n").unwrap_err(), ParseError::InvalidCharacter);
    assert_eq!(GoBoard::from_str("tern=W\nlast_move=ok\ncapturesW=0\ncapturesB=0\n---\n").unwrap_err(), ParseError::InvalidValue);
    assert_eq!(GoBoard::from_str("turn=W\nlast_move=fine\ncapturesW=0\ncapturesB=0\n---\n").unwrap_err(), ParseError::InvalidValue);
    assert_eq!(GoBoard::from_str("turn=W\nlast_move=ok\ncapturesW=x1\ncapturesB=0\n---\n").unwrap_err(), ParseError::InvalidValue);
    assert_eq!(GoBoard::from_str("turn=W\nlast_move=ok\ncapturesW=1=2\ncapturesB=0\n---\n").unwrap_err(), ParseError::InvalidValue);
    assert_eq!(
        GoBoard::from_str("turn=W\nlast_move=ok\ncapturesW=0\ncapturesB=99999999999999999999\n---\n").unwrap_err(),
        ParseError::InvalidValue
    );
    assert_eq!(GoBoard::from_str("turn=W\nlast_move=ok\ncapturesW=0\ncapturesB=0\n-x-\n").unwrap_err(), ParseError::InvalidCharacter);
}

#[test]
fn render_then_parse_gives_same_board() {
    let state = GoBoard::from_str(PARSE_SAMPLE).unwrap();
    let text = state.to_str();
    assert_eq!(text, "turn=W\nlast_move=ok\ncapturesW=16\ncapturesB=23\n-W---\n--W--\n-B---\n-B-b-\n-----\n");
    let again = GoBoard::from_str(&text).unwrap();
    assert_parsed_sample(&again);
    let padded = GoBoard::from_str("  turn=B \n\nlast_move=illegal_suicidal\ncapturesW=+007\ncapturesB=0\n  w-  \n").unwrap();
    assert_eq!(padded.to_str(), "turn=B\nlast_move=illegal_suicidal\ncapturesW=7\ncapturesB=0\nw-\n");
}

#[test]
fn commands_parse_and_print() {
    use_commands();
}

fn use_commands() {
    let cases = [
        ("place 5 6", Command::PlaceStone(5, 6)),
        ("pass", Command::Pass),
        ("resign", Command::Resign),
        ("quit", Command::Quit),
    ];
    for (input, expected) in cases {
        let result = Command::from_str(input).expect("Failed to parse input");
        assert_eq!(result, expected);
        assert_eq!(result.to_text(), input);
    }
    assert_eq!(Command::from_str("place 5"), Err(()));
    assert_eq!(Command::from_str("place x 6"), Err(()));
    assert_eq!(Command::from_str("jump"), Err(()));
    assert_eq!(Command::from_str("pass now"), Ok(Command::Pass));
    assert_eq!(Command::from_str("place +12 0 extra"), Ok(Command::PlaceStone(12, 0)));
}

#[test]
fn go_test_parse() {
    let state = GoBoard::from_str(&format!("{}\n", PARSE_SAMPLE)).unwrap();
    assert_parsed_sample(&state);
}
