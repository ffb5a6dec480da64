use dss_mlb::board::{assemble_board, DayOutcome, DaySchedule, FetchError};
use dss_mlb::game::MlbGameClientInfo;
use dss_mlb::nav::{FocusDirection, MlbUiInfo, X_PAGE_SIZE};

fn records(n: usize) -> Vec<MlbGameClientInfo> {
    (0..n)
        .map(|i| MlbGameClientInfo { title: format!("g{}", i), image: None, summary: String::new() })
        .collect()
}

fn ui(sizes: &[usize]) -> MlbUiInfo {
    let board: Vec<DaySchedule> = sizes
        .iter()
        .enumerate()
        .map(|(i, n)| DaySchedule { date: 100 - i as i32, games: records(*n) })
        .collect();
    MlbUiInfo::init(board)
}

fn state(u: &MlbUiInfo) -> (usize, usize, usize) {
    (u.focused_day(), u.focused_index(), u.begin_index(u.focused_day()))
}

#[test]
fn initial_left_and_up_are_noops() {
    let mut u = ui(&[7, 3]);
    assert_eq!(state(&u), (0, 0, 0));
    u.move_focus(FocusDirection::Left);
    assert_eq!(state(&u), (0, 0, 0));
    u.move_focus(FocusDirection::Up);
    assert_eq!(state(&u), (0, 0, 0));
}

#[test]
fn last_position_right_and_down_are_noops() {
    let mut u = ui(&[3, 7]);
    u.move_focus(FocusDirection::Down);
    for _ in 0..10 {
        u.move_focus(FocusDirection::Right);
    }
    assert_eq!(state(&u), (1, X_PAGE_SIZE - 1, 2));
    u.move_focus(FocusDirection::Right);
    assert_eq!(state(&u), (1, X_PAGE_SIZE - 1, 2));
    u.move_focus(FocusDirection::Down);
    assert_eq!(state(&u), (1, X_PAGE_SIZE - 1, 2));
}

#[test]
fn scroll_right_keeps_last_column() {
    let mut u = ui(&[8]);
    for _ in 0..X_PAGE_SIZE - 1 {
        u.move_focus(FocusDirection::Right);
    }
    assert_eq!(state(&u), (0, 4, 0));
    u.move_focus(FocusDirection::Right);
    assert_eq!(state(&u), (0, 4, 1));
    u.move_focus(FocusDirection::Right);
    u.move_focus(FocusDirection::Right);
    assert_eq!(state(&u), (0, 4, 3));
    u.move_focus(FocusDirection::Right);
    assert_eq!(state(&u), (0, 4, 3));
    assert_eq!(u.focused_game().unwrap().title, "g7");
}

#[test]
fn scroll_left_back_to_first_window() {
    let mut u = ui(&[8]);
    for _ in 0..6 {
        u.move_focus(FocusDirection::Right);
    }
    assert_eq!(state(&u), (0, 4, 2));
    for _ in 0..4 {
        u.move_focus(FocusDirection::Left);
    }
    assert_eq!(state(&u), (0, 0, 2));
    u.move_focus(FocusDirection::Left);
    assert_eq!(state(&u), (0, 0, 1));
    u.move_focus(FocusDirection::Left);
    u.move_focus(FocusDirection::Left);
    assert_eq!(state(&u), (0, 0, 0));
}

#[test]
fn each_day_keeps_its_window() {
    let mut u = ui(&[8, 9]);
    for _ in 0..6 {
        u.move_focus(FocusDirection::Right);
    }
    u.move_focus(FocusDirection::Down);
    assert_eq!(state(&u), (1, 4, 0));
    u.move_focus(FocusDirection::Up);
    assert_eq!(state(&u), (0, 4, 2));
}

#[test]
fn moving_onto_a_short_day_keeps_the_column() {
    let mut u = ui(&[8, 2, 0]);
    for _ in 0..4 {
        u.move_focus(FocusDirection::Right);
    }
    assert_eq!(state(&u), (0, 4, 0));
    u.move_focus(FocusDirection::Down);
    assert_eq!(state(&u), (1, 4, 0));
    assert!(u.focused_game().is_none());
    u.move_focus(FocusDirection::Right);
    assert_eq!(state(&u), (1, 4, 0));
    u.move_focus(FocusDirection::Down);
    assert_eq!(state(&u), (2, 4, 0));
    assert!(u.focused_game().is_none());
    u.move_focus(FocusDirection::Up);
    u.move_focus(FocusDirection::Up);
    assert_eq!(state(&u), (0, 4, 0));
    assert_eq!(u.focused_game().unwrap().title, "g4");
}

#[test]
fn empty_slot_left_moves_back_onto_games() {
    let mut u = ui(&[5, 3]);
    for _ in 0..4 {
        u.move_focus(FocusDirection::Right);
    }
    u.move_focus(FocusDirection::Down);
    assert_eq!(state(&u), (1, 4, 0));
    u.move_focus(FocusDirection::Left);
    u.move_focus(FocusDirection::Left);
    assert_eq!(state(&u), (1, 2, 0));
    assert_eq!(u.focused_game().unwrap().title, "g2");
}

#[test]
fn down_then_up_restores_the_state() {
    let mut u = ui(&[9, 3]);
    for _ in 0..6 {
        u.move_focus(FocusDirection::Right);
    }
    let before = state(&u);
    assert_eq!(before, (0, 4, 2));
    u.move_focus(FocusDirection::Down);
    assert_eq!(state(&u), (1, 4, 0));
    u.move_focus(FocusDirection::Up);
    assert_eq!(state(&u), before);
}

#[test]
fn empty_board_ignores_moves() {
    let mut u = ui(&[]);
    for d in [FocusDirection::Left, FocusDirection::Right, FocusDirection::Up, FocusDirection::Down] {
        u.move_focus(d);
    }
    assert_eq!(u.num_days(), 0);
    assert_eq!((u.focused_day(), u.focused_index()), (0, 0));
    assert!(u.focused_game().is_none());
}

#[test]
fn failed_day_and_short_day_scenario() {
    let board = assemble_board(vec![
        DayOutcome { date: 18475, games: Err(FetchError::Transport) },
        DayOutcome { date: 18474, games: Ok(records(3)) },
    ]);
    assert_eq!(board.len(), 1);
    assert_eq!(board[0].games.len(), 3);
    let mut u = MlbUiInfo::init(board);
    for _ in 0..3 {
        u.move_focus(FocusDirection::Right);
    }
    assert_eq!(state(&u), (0, 2, 0));
    u.move_focus(FocusDirection::Right);
    assert_eq!(state(&u), (0, 2, 0));
    assert_eq!(u.games(0).len(), 3);
}
