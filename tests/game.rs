use dss_mlb::game::{
    extract_client_info, extract_game_info, first_day_games, kickoff_text, kickoff_utc, local_hour_minute,
    recap_image_url, title_of, MlbGameArticle, MlbGameContent, MlbGameDateInfo, MlbGameEditorial,
    MlbGameInfo, MlbGameRange, MlbGameRecap, MlbGameTeamInfo, MlbGameTeams, MlbImageCuts,
    MlbImageInfo, MlbTeamInfo,
};

fn team(name: &str) -> MlbGameTeamInfo {
    MlbGameTeamInfo { team: MlbTeamInfo { name: name.to_string() } }
}

fn game(away: &str, home: &str, date: &str, recap: Option<(&str, Vec<&str>)>) -> MlbGameInfo {
    let editorial = recap.map(|(headline, cuts)| MlbGameEditorial {
        recap: MlbGameRecap {
            mlb: Some(MlbGameArticle {
                headline: headline.to_string(),
                image: MlbImageInfo {
                    cuts: cuts.into_iter().map(|c| MlbImageCuts { src: c.to_string() }).collect(),
                },
            }),
        },
    });
    MlbGameInfo {
        game_date: date.to_string(),
        teams: MlbGameTeams { away: team(away), home: team(home) },
        content: MlbGameContent { editorial },
    }
}

#[test]
fn title_names_away_then_home() {
    let g = game("Yankees", "Red Sox", "2020-08-01T23:05:00Z", None);
    assert_eq!(title_of(&g), "Yankees at Red Sox");
}

#[test]
fn no_recap_gives_live_summary_and_no_image() {
    let g = game("Cubs", "Cardinals", "2020-08-01T23:05:00Z", None);
    let r = extract_client_info(&g, -4 * 3600, None);
    assert_eq!(r.title, "Cubs at Cardinals");
    assert!(r.image.is_none());
    assert_eq!(r.summary, "Live 07:05 PM");
}

#[test]
fn no_recap_ignores_fetched_bytes() {
    let g = game("Cubs", "Cardinals", "2020-08-01T23:05:00Z", None);
    let r = extract_client_info(&g, 0, Some(vec![1, 2, 3]));
    assert!(r.image.is_none());
    assert_eq!(r.summary, "Live 11:05 PM");
}

#[test]
fn recap_with_image_gives_headline_and_bytes() {
    let g = game("Mets", "Braves", "2020-08-01T17:10:00Z", Some(("Mets win", vec!["http://a/1.jpg"])));
    let r = extract_client_info(&g, 0, Some(vec![9, 8, 7]));
    assert_eq!(r.title, "Mets at Braves");
    assert_eq!(r.image, Some(vec![9, 8, 7]));
    assert_eq!(r.summary, "Mets win");
}

#[test]
fn recap_with_failed_image_falls_back() {
    let g = game("Mets", "Braves", "2020-08-01T17:10:00Z", Some(("Mets win", vec!["http://a/1.jpg"])));
    let r = extract_client_info(&g, 0, None);
    assert_eq!(r.title, "Mets at Braves");
    assert!(r.image.is_none());
    assert_eq!(r.summary, "Live 05:10 PM");
}

#[test]
fn recap_without_cuts_falls_back() {
    let g = game("Mets", "Braves", "2020-08-01T17:10:00Z", Some(("Mets win", vec![])));
    assert_eq!(recap_image_url(&g), None);
    let r = extract_client_info(&g, 0, Some(vec![1]));
    assert!(r.image.is_none());
    assert_eq!(r.summary, "Live 05:10 PM");
}

#[test]
fn recap_image_url_is_first_cut() {
    let g = game("A", "B", "2020-08-01T17:10:00Z", Some(("h", vec!["http://a/1.jpg", "http://a/2.jpg"])));
    assert_eq!(recap_image_url(&g), Some("http://a/1.jpg".to_string()));
    let none = game("A", "B", "2020-08-01T17:10:00Z", None);
    assert_eq!(recap_image_url(&none), None);
}

#[test]
fn unreadable_start_gives_bare_live() {
    let g = game("A", "B", "not a time", None);
    let r = extract_client_info(&g, 0, None);
    assert_eq!(r.summary, "Live");
    assert_eq!(r.title, "A at B");
}

#[test]
fn kickoff_text_on_the_twelve_hour_clock() {
    // 2020-08-01T00:30:00Z
    let midnight = 1596241800i64;
    assert_eq!(kickoff_text(Some(midnight), 0), "Live 12:30 AM");
    assert_eq!(kickoff_text(Some(midnight + 12 * 3600 - 30 * 60), 0), "Live 12:00 PM");
    assert_eq!(kickoff_text(Some(midnight), -3600), "Live 11:30 PM");
    assert_eq!(kickoff_text(None, 0), "Live");
}

#[test]
fn local_hour_minute_wraps_the_day() {
    assert_eq!(local_hour_minute(0, 0), (0, 0));
    assert_eq!(local_hour_minute(0, -60), (23, 59));
    assert_eq!(local_hour_minute(-1, 0), (23, 59));
    assert_eq!(local_hour_minute(86400 + 3661, 3600), (2, 1));
}

#[test]
fn first_day_games_takes_first_date() {
    let range = MlbGameRange {
        dates: vec![
            MlbGameDateInfo { games: vec![game("A", "B", "x", None), game("C", "D", "x", None)] },
            MlbGameDateInfo { games: vec![game("E", "F", "x", None)] },
        ],
    };
    let games = first_day_games(range);
    assert_eq!(games.len(), 2);
    assert_eq!(title_of(&games[0]), "A at B");
    assert_eq!(title_of(&games[1]), "C at D");
    assert!(first_day_games(MlbGameRange { dates: vec![] }).is_empty());
}

#[test]
fn extract_game_info_keeps_order_and_pairs_fetches() {
    let games = vec![
        game("A", "B", "2020-08-01T17:10:00Z", Some(("first", vec!["u1"]))),
        game("C", "D", "2020-08-01T18:10:00Z", Some(("second", vec!["u2"]))),
        game("E", "F", "2020-08-01T19:10:00Z", None),
    ];
    let r = extract_game_info(&games, &vec![-3600, 0], vec![None, Some(vec![5])]);
    assert_eq!(r.len(), 3);
    assert_eq!(r[0].title, "A at B");
    assert_eq!(r[0].summary, "Live 04:10 PM");
    assert!(r[0].image.is_none());
    assert_eq!(r[1].summary, "second");
    assert_eq!(r[1].image, Some(vec![5]));
    assert_eq!(r[2].summary, "Live 07:10 PM");
}

#[test]
fn kickoff_utc_reads_the_timestamp() {
    assert_eq!(kickoff_utc(&game("A", "B", "2020-08-01T00:30:00Z", None)), Some(1596241800));
    assert_eq!(kickoff_utc(&game("A", "B", "2020-08-01T02:30:00+02:00", None)), Some(1596241800));
    assert_eq!(kickoff_utc(&game("A", "B", "yesterday", None)), None);
}
