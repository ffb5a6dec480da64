use dss_mlb::board::{assemble_board, day_request, day_url, plan_days, DayOutcome, FetchError, GAME_API};
use dss_mlb::game::MlbGameClientInfo;

fn record(title: &str) -> MlbGameClientInfo {
    MlbGameClientInfo { title: title.to_string(), image: None, summary: "Live".to_string() }
}

fn ok(date: i32, titles: &[&str]) -> DayOutcome {
    DayOutcome { date, games: Ok(titles.iter().map(|t| record(t)).collect()) }
}

fn failed(date: i32, e: FetchError) -> DayOutcome {
    DayOutcome { date, games: Err(e) }
}

fn dates(board: &[dss_mlb::board::DaySchedule]) -> Vec<i32> {
    board.iter().map(|d| d.date).collect()
}

#[test]
fn board_is_most_recent_first_whatever_the_completion_order() {
    let a = assemble_board(vec![ok(18000, &["a"]), ok(18002, &["c"]), ok(18001, &["b"])]);
    let b = assemble_board(vec![ok(18001, &["b"]), ok(18000, &["a"]), ok(18002, &["c"])]);
    assert_eq!(dates(&a), vec![18002, 18001, 18000]);
    assert_eq!(dates(&b), vec![18002, 18001, 18000]);
    for (x, y) in a.iter().zip(b.iter()) {
        assert_eq!(x.games[0].title, y.games[0].title);
    }
    assert_eq!(a[0].games[0].title, "c");
    assert_eq!(a[2].games[0].title, "a");
}

#[test]
fn one_failed_day_is_dropped() {
    let board = assemble_board(vec![
        ok(18002, &["x", "y"]),
        failed(18001, FetchError::Transport),
        ok(18000, &["z"]),
    ]);
    assert_eq!(board.len(), 2);
    assert_eq!(dates(&board), vec![18002, 18000]);
    assert_eq!(board[0].games.len(), 2);
}

#[test]
fn every_day_failing_gives_an_empty_board() {
    let board = assemble_board(vec![
        failed(18002, FetchError::MalformedUrl),
        failed(18001, FetchError::Body),
        failed(18000, FetchError::Schema),
    ]);
    assert!(board.is_empty());
    assert!(assemble_board(vec![]).is_empty());
}

#[test]
fn later_success_for_the_same_day_wins() {
    let board = assemble_board(vec![ok(18000, &["old"]), failed(18000, FetchError::Body), ok(18000, &["new"])]);
    assert_eq!(board.len(), 1);
    assert_eq!(board[0].games[0].title, "new");
}

#[test]
fn day_games_keep_their_order() {
    let board = assemble_board(vec![ok(18000, &["1", "2", "3"])]);
    let titles: Vec<&str> = board[0].games.iter().map(|g| g.title.as_str()).collect();
    assert_eq!(titles, vec!["1", "2", "3"]);
}

#[test]
fn day_request_names_the_calendar_date() {
    // day 0 is 1970-01-01
    let r = day_request(0, -1).unwrap();
    assert_eq!(r.date, -1);
    assert_eq!(r.url, format!("{}1969-12-31", GAME_API));
    let r = day_request(18475, 0).unwrap();
    assert!(r.url.ends_with("&date=2020-08-01"), "{}", r.url);
}

#[test]
fn day_request_out_of_range_is_malformed() {
    assert_eq!(day_request(i32::MAX, 1).err(), Some(FetchError::MalformedUrl));
    assert_eq!(day_request(0, i64::MAX).err(), Some(FetchError::MalformedUrl));
    assert_eq!(day_request(0, 2_000_000_000).err(), Some(FetchError::MalformedUrl));
}

#[test]
fn plan_days_follows_the_offsets() {
    let plan = plan_days(18475, &vec![0, -1, -2]);
    assert_eq!(plan.len(), 3);
    let days: Vec<i32> = plan.iter().map(|r| r.as_ref().unwrap().date).collect();
    assert_eq!(days, vec![18475, 18474, 18473]);
    assert!(plan[2].as_ref().unwrap().url.ends_with("&date=2020-07-30"));
}

#[test]
fn day_url_appends_the_date() {
    assert_eq!(day_url("2020-01-02"), format!("{}2020-01-02", GAME_API));
}
