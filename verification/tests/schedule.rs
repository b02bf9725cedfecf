use diamond::json::{read_json, Json};
use diamond::mlb::{
    cache_is_fresh, cached_document, downloaded_document, fetch_games, fetch_scheduled, max_age,
    parse_season, parse_window, scheduled_window, season_cache_file, season_url, window_end, year_or_default,
    Freshness, SeasonPage, WindowFault, WINDOW_MAX_AGE_H,
};

const SEASON: &str = r#"{"dates": [
  {"games": [
    {"gamePk": 7, "officialDate": "2024-04-02", "status": {"codedGameState": "F"},
     "teams": {"home": {"score": 5, "team": {"id": 1, "name": "Home"}, "probablePitcher": {"id": 11}},
               "away": {"score": 3, "team": {"id": 2, "name": "Away"}}}},
    {"gamePk": 8, "officialDate": "2024-04-02", "status": {"codedGameState": "S"},
     "teams": {"home": {"score": 5}, "away": {"score": 3}}},
    {"gamePk": 9, "officialDate": "2024-04-02", "status": {"codedGameState": "F"},
     "teams": {"home": {"score": 4}, "away": {"score": 4}}}
  ]},
  {"nothing": 1},
  {"games": [
    {"gamePk": 3, "officialDate": "2024-04-02", "status": {"codedGameState": "O"},
     "teams": {"home": {"score": 1}, "away": {"score": 2, "team": {"id": 4, "name": "Fours"}}}},
    {"gamePk": 2, "officialDate": "2024-04-01", "status": {"codedGameState": "F"},
     "teams": {"home": {"score": 1}, "away": {}}}
  ]}
]}"#;

#[test]
fn reads_a_document() {
    let doc = read_json("{\"a\": [1, 2.5, \"x\"], \"b\": null}").unwrap();
    match doc.get("a") {
        Some(Json::Array(v)) => assert_eq!(v.len(), 3),
        _ => panic!("no array"),
    }
    assert!(matches!(doc.get("b"), Some(Json::Null)));
    assert!(doc.get("c").is_none());
    assert!(parse_season(&doc, 2024).is_empty());
}

#[test]
fn finished_games_only() {
    let doc = read_json(SEASON).unwrap();
    let games = parse_season(&doc, 2024);
    assert_eq!(games.len(), 2);
    assert_eq!(games[0].game_pk, 7);
    assert_eq!(games[0].home_name, "Home");
    assert_eq!(games[0].home_sp_id, 11);
    assert_eq!(games[0].away_sp_id, 0);
    assert!(games[0].home_wins());
    assert_eq!(games[1].game_pk, 3);
    assert_eq!(games[1].home_name, "?");
    assert_eq!(games[1].home_id, 0);
    assert_eq!(games[1].away_name, "Fours");
    assert!(!games[1].home_wins());
}

#[test]
fn seasons_are_joined_in_order() {
    let later = r#"{"dates": [{"games": [
      {"gamePk": 1, "officialDate": "2024-04-02", "status": {"codedGameState": "F"},
       "teams": {"home": {"score": 0}, "away": {"score": 2}}},
      {"gamePk": 50, "officialDate": "2023-09-01", "status": {"codedGameState": "F"},
       "teams": {"home": {"score": 0}, "away": {"score": 2}}}]}]}"#;
    let pages = vec![
        SeasonPage { season: 2024, doc: read_json(SEASON).unwrap() },
        SeasonPage { season: 2025, doc: read_json(later).unwrap() },
    ];
    let games = fetch_games(&pages);
    let order: Vec<i64> = games.iter().map(|g| g.game_pk).collect();
    assert_eq!(order, vec![50, 1, 3, 7]);
    assert_eq!(games[0].season, 2025);
    assert_eq!(games[3].season, 2024);
}

#[test]
fn scheduled_games_with_state() {
    let doc = read_json(
        r#"{"dates": [{"games": [
        {"gamePk": 5, "officialDate": "2026-06-02", "gameDate": "2026-06-02T20:00:00Z",
         "status": {"codedGameState": "I", "detailedState": "In Progress"}, "venue": {"name": "Park"},
         "teams": {"home": {"score": 2, "team": {"id": 1, "name": "A"}, "probablePitcher": {"id": 9, "fullName": "Nine"}},
                   "away": {"score": 2, "team": {"id": 2, "name": "B"}, "probablePitcher": {"id": 8, "fullName": "Eight"}}}},
        {"gamePk": 6, "officialDate": "2026-06-02", "gameDate": "2026-06-02T18:00:00Z",
         "teams": {"home": {"team": {"id": 3, "name": "C"}}, "away": {"probablePitcher": {"id": 8}}}},
        {"gamePk": 4, "officialDate": "2026-06-01", "gameDate": "2026-06-01T23:00:00Z",
         "status": {"codedGameState": "F"},
         "teams": {"home": {"score": 1}, "away": {"score": 0}}},
        {"gamePk": 99, "teams": {"home": {}}}]}]}"#,
    )
    .unwrap();
    assert_eq!(parse_window(&doc).len(), 3);
    let games = fetch_scheduled(&doc);
    let order: Vec<i64> = games.iter().map(|g| g.game_pk).collect();
    assert_eq!(order, vec![4, 6, 5]);
    assert!(games[0].is_final && !games[0].is_live);
    assert_eq!(games[0].home_score, Some(1));
    assert_eq!(games[1].status, "Scheduled");
    assert_eq!(games[1].home_score, None);
    assert!(!games[1].pitchers_confirmed);
    assert!(!games[1].is_final && !games[1].is_live);
    assert!(games[2].is_live && !games[2].is_final);
    assert!(games[2].pitchers_confirmed);
    assert_eq!(games[2].venue, "Park");
    assert_eq!(games[2].home_sp_name, "Nine");
    assert_eq!(games[2].status, "In Progress");
}

#[test]
fn closed_seasons_are_kept() {
    assert_eq!(max_age(2024, Freshness::Normal, 2026), None);
    assert_eq!(max_age(2026, Freshness::Normal, 2026), Some(6));
    assert_eq!(max_age(2024, Freshness::Live, 2026), None);
    assert_eq!(max_age(2026, Freshness::Live, 2026), Some(0));
    assert_eq!(max_age(2018, Freshness::Full, 2026), Some(0));
    assert!(cache_is_fresh(Some(21_600), Some(6)));
    assert!(!cache_is_fresh(Some(21_601), Some(6)));
    assert!(cache_is_fresh(Some(u64::MAX), None));
    assert!(cache_is_fresh(None, None));
    assert!(!cache_is_fresh(None, Some(6)));
    assert!(cache_is_fresh(Some(u64::MAX), Some(u64::MAX)));
}

#[test]
fn a_window_is_downloaded_anew() {
    assert!(cache_is_fresh(Some(0), Some(WINDOW_MAX_AGE_H)));
    for age in [1, 59, 3600, u64::MAX] {
        assert!(!cache_is_fresh(Some(age), Some(WINDOW_MAX_AGE_H)));
        assert!(cached_document(Some("{}"), Some(age), Some(WINDOW_MAX_AGE_H)).is_none());
    }
}

#[test]
fn cached_and_downloaded_documents() {
    assert!(cached_document(None, None, None).is_none());
    assert!(cached_document(Some("{"), Some(0), None).is_none());
    assert!(matches!(cached_document(Some("true"), Some(9), None), Some(Json::Bool(true))));
    assert!(matches!(cached_document(Some("true"), Some(3600), Some(1)), Some(Json::Bool(true))));
    assert!(cached_document(Some("true"), Some(3601), Some(1)).is_none());
    assert!(matches!(downloaded_document("u", "[]"), Ok(Json::Array(_))));
    match downloaded_document("http://x", "nope") {
        Err(message) => assert!(message.starts_with("JSON invalido de http://x: "), "{}", message),
        Ok(_) => panic!("read"),
    }
}

#[test]
fn years_and_addresses() {
    assert_eq!(year_or_default("2031"), 2031);
    assert_eq!(year_or_default("soon"), 2026);
    assert_eq!(season_cache_file(2024), "schedule_2024.json");
    assert_eq!(
        season_url(2024),
        "https://statsapi.mlb.com/api/v1/schedule?sportId=1&gameType=R&startDate=2024-02-01&endDate=2024-11-30&hydrate=probablePitcher"
    );
}

#[test]
fn windows_of_days() {
    let w = match scheduled_window("2026-02-25", 10) {
        Ok(w) => w,
        Err(_) => panic!("no window"),
    };
    assert_eq!(w.start, "2026-02-25");
    assert_eq!(w.end, "2026-03-06");
    assert_eq!(
        w.url,
        "https://statsapi.mlb.com/api/v1/schedule?sportId=1&gameType=R&startDate=2026-02-25&endDate=2026-03-06&hydrate=probablePitcher,venue,team"
    );
    assert_eq!(w.cache_file, "upcoming_2026-02-25_10.json");

    let leap = match scheduled_window("2024-02-28", 2) {
        Ok(w) => w,
        Err(_) => panic!("no window"),
    };
    assert_eq!(leap.end, "2024-02-29");

    for days in [1, 0, -4] {
        match scheduled_window("2026-02-25", days) {
            Ok(w) => assert_eq!(w.end, "2026-02-25"),
            Err(_) => panic!("no window"),
        }
    }
}

#[test]
fn last_days() {
    assert_eq!(window_end(100, 10), Some(109));
    assert_eq!(window_end(100, 1), Some(100));
    assert_eq!(window_end(100, -7), Some(100));
    assert_eq!(window_end(i32::MAX, 1), Some(i32::MAX));
    assert_eq!(window_end(i32::MAX, 2), None);
    assert_eq!(window_end(i32::MIN, i64::MAX), None);
}

#[test]
fn windows_that_cannot_be() {
    match scheduled_window("25/02/2026", 3) {
        Err(WindowFault::NotADate(message)) => {
            assert!(message.starts_with("fecha invalida 25/02/2026: "), "{}", message)
        }
        _ => panic!("a date"),
    }
    assert!(matches!(scheduled_window("", 3), Err(WindowFault::NotADate(_))));
    assert!(matches!(scheduled_window("2026-02-25", i64::MAX), Err(WindowFault::BeyondCalendar)));
    assert!(matches!(
        scheduled_window("2026-02-25", 2_000_000_000),
        Err(WindowFault::BeyondCalendar)
    ));
}

#[test]
fn numbers_in_documents() {
    let doc = read_json(r#"{"a": -7, "b": 9223372036854775808, "c": 1.5, "d": "7", "e": -9223372036854775808}"#)
        .unwrap();
    assert_eq!(diamond::json::integer(doc.get("a")), Some(-7));
    assert_eq!(diamond::json::integer(doc.get("b")), None);
    assert_eq!(diamond::json::integer(doc.get("c")), None);
    assert_eq!(diamond::json::integer(doc.get("d")), None);
    assert_eq!(diamond::json::integer(doc.get("e")), Some(i64::MIN));
    assert_eq!(diamond::json::integer_or_zero(doc.get("z")), 0);
    assert_eq!(diamond::json::text_else(doc.get("d"), "-"), "7");
    assert_eq!(diamond::json::text_else(doc.get("a"), "-"), "-");
}
