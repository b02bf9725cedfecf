use std::collections::HashMap;

use diamond::backtest::Tally;
use diamond::features::TeamSnapshot;
use diamond::live::{
    is_stale, recent_json, recent_report, thresholds, window_sample, FitPlan, LiveEngine, Scores,
    HISTORY_TTL_MIN, LEAGUE_TTL_MIN,
};
use diamond::mlb::{RawGame, ScheduledGame};
use diamond::node::Node;
use diamond::panel::{Blanks, Forecast};
use diamond::stats::{Hitter, League, Pitcher, TeamInfo};

fn game(pk: i64, date: &str, home: i64, away: i64, hs: i32, aws: i32) -> RawGame {
    RawGame {
        game_pk: pk,
        date: date.to_string(),
        season: 2026,
        home_id: home,
        home_name: format!("T{home}"),
        away_id: away,
        away_name: format!("T{away}"),
        home_score: hs,
        away_score: aws,
        home_sp_id: 0,
        away_sp_id: 0,
    }
}

fn scheduled(pk: i64, date: &str, home: i64, away: i64) -> ScheduledGame {
    ScheduledGame {
        game_pk: pk,
        date: date.to_string(),
        start_utc: format!("{date}T18:00:00Z"),
        home_id: home,
        home_name: format!("T{home}"),
        away_id: away,
        away_name: format!("T{away}"),
        home_sp_id: 11,
        home_sp_name: "Eleven".to_string(),
        away_sp_id: 12,
        away_sp_name: "Twelve".to_string(),
        venue: "Park".to_string(),
        status: "Scheduled".to_string(),
        pitchers_confirmed: true,
        home_score: None,
        away_score: None,
        is_final: false,
        is_live: false,
    }
}

fn ended(pk: i64, date: &str, home: i64, away: i64, hs: i32, aws: i32) -> ScheduledGame {
    let mut g = scheduled(pk, date, home, away);
    g.is_final = true;
    g.home_score = Some(hs);
    g.away_score = Some(aws);
    g
}

fn engine() -> LiveEngine {
    LiveEngine::new(
        vec![2026],
        15,
        10,
        vec![game(1, "2026-05-01", 1, 2, 3, 1), game(2, "2026-05-02", 2, 1, 3, 1)],
        League::new(),
    )
}

fn get<'a>(n: &'a Node<i32>, key: &str) -> &'a Node<i32> {
    match n {
        Node::Record(entries) => &entries.iter().find(|e| e.0 == key).expect("no such key").1,
        _ => panic!("no record"),
    }
}

fn items(n: &Node<i32>) -> &Vec<Node<i32>> {
    match n {
        Node::List(list) => list,
        _ => panic!("no list"),
    }
}

fn integer(n: &Node<i32>) -> i128 {
    match n {
        Node::Int(i) => *i,
        _ => panic!("no integer"),
    }
}

fn text(n: &Node<i32>) -> &str {
    match n {
        Node::Text(t) => t.as_str(),
        _ => panic!("no text"),
    }
}

fn snap(id: i64, elo: i64, wins: usize, losses: usize) -> TeamSnapshot<i64, i32> {
    TeamSnapshot {
        id,
        name: format!("T{id}"),
        elo,
        wins,
        losses,
        home_wins: 1,
        home_losses: 0,
        away_wins: 0,
        away_losses: 1,
        rs_pg: 44,
        ra_pg: 33,
        form10: 70,
    }
}

fn panel(
    e: &LiveEngine,
    window: &Vec<ScheduledGame>,
    snaps: &HashMap<i64, TeamSnapshot<i64, i32>>,
    picks_home: bool,
) -> Node<i32> {
    let w = e.window_rows(window);
    let forecasts: Vec<Forecast<i32>> = w
        .rows
        .iter()
        .map(|_| Forecast { home_pct: 61, away_pct: 39, elo_pct: 55, picks_home })
        .collect();
    e.payload(
        "10:00:00".to_string(),
        "2026-05-03".to_string(),
        2026,
        33,
        Node::Null,
        window,
        &w.rows,
        &forecasts,
        snaps,
        &Blanks { runs: 0, form: 50 },
    )
}

#[test]
fn what_is_loaded_grows_stale() {
    assert!(!is_stale(3600, HISTORY_TTL_MIN));
    assert!(is_stale(3601, HISTORY_TTL_MIN));
    assert!(!is_stale(1800, LEAGUE_TTL_MIN));
    assert!(is_stale(1801, LEAGUE_TTL_MIN));
    assert!(!is_stale(u64::MAX, u64::MAX));
}

#[test]
fn ended_games_enter_once() {
    let mut e = engine();
    let window = vec![
        ended(3, "2026-05-03", 1, 2, 4, 2),
        ended(2, "2026-05-02", 2, 1, 9, 9),
        ended(4, "2026-05-03", 1, 2, 5, 5),
        scheduled(5, "2026-05-03", 1, 2),
        { let mut g = ended(6, "2026-05-03", 1, 2, 1, 0); g.away_score = None; g },
        { let mut g = ended(7, "2026-05-03", 1, 2, 1, 0); g.is_final = false; g },
    ];
    let r = e.refresh(&window, None, None, 2026);
    assert_eq!((r.grew, r.added, r.retrains()), (false, 1, true));
    assert_eq!(e.history.len(), 3);
    assert_eq!(e.history[2].game_pk, 3);
    assert_eq!(e.history[2].season, 2026);
    assert_eq!(e.rows.len(), 3);
    let again = e.refresh(&window, None, None, 2026);
    assert_eq!((again.added, again.retrains()), (0, false));
    assert_eq!(e.history.len(), 3);
}

#[test]
fn history_stays_in_order() {
    let mut e = engine();
    let r = e.refresh(&vec![ended(9, "2026-04-20", 1, 2, 4, 2)], None, None, 2026);
    assert_eq!(r.added, 1);
    let order: Vec<i64> = e.history.iter().map(|g| g.game_pk).collect();
    assert_eq!(order, vec![9, 1, 2]);
    // The rows are those of the history in order.
    assert_eq!(e.rows[1].home_gp, 1);
}

#[test]
fn a_longer_history_takes_over() {
    let mut e = engine();
    let longer = vec![
        game(1, "2026-05-01", 1, 2, 3, 1),
        game(2, "2026-05-02", 2, 1, 3, 1),
        game(8, "2026-04-01", 2, 1, 3, 1),
    ];
    let r = e.refresh(&Vec::new(), Some(longer), None, 2026);
    assert_eq!((r.grew, r.added), (true, 0));
    assert!(r.retrains());
    assert_eq!(e.history[0].game_pk, 8);
    assert_eq!(e.rows.len(), 3);
    let shorter = vec![game(1, "2026-05-01", 1, 2, 3, 1)];
    let r = e.refresh(&Vec::new(), Some(shorter), None, 2026);
    assert!(!r.retrains());
    assert_eq!(e.history.len(), 1);
    assert_eq!(e.rows.len(), 3);
}

#[test]
fn no_chances_without_starters() {
    let e = engine();
    let mut g = scheduled(5, "2026-05-03", 1, 2);
    g.pitchers_confirmed = false;
    g.is_final = true;
    g.home_score = Some(2);
    g.away_score = Some(1);
    let doc = panel(&e, &vec![g], &HashMap::new(), true);
    let shown = &items(get(&items(get(&doc, "fechas"))[0], "games"))[0];
    for key in ["pHome", "pAway", "eloHome", "hit"] {
        assert!(matches!(get(shown, key), Node::Null), "{}", key);
    }
    assert!(matches!(get(shown, "confirmed"), Node::Bool(false)));
    assert_eq!(integer(get(shown, "homeScore")), 2);
}

#[test]
fn the_panel() {
    let mut e = engine();
    let pitcher = Pitcher { id: 11, name: "Known".to_string(), era: "2.00".to_string(), starts: 3, ..Default::default() };
    let mut info = TeamInfo { name: "Ones".to_string(), abbrev: "ONE".to_string(), ..Default::default() };
    info.hitters = (0..13).map(|_| Hitter::default()).collect();
    info.pitchers = (0..9).map(|i| Pitcher { id: i, starts: i % 2, ..Default::default() }).collect();
    e.league.teams.insert(1, info);
    e.league.pitchers.insert(11, pitcher);
    let mut live = scheduled(7, "2026-05-04", 2, 1);
    live.is_live = true;
    live.pitchers_confirmed = false;
    live.home_sp_name = String::new();
    live.home_sp_id = 99;
    let window = vec![
        ended(5, "2026-05-03", 1, 2, 1, 4),
        scheduled(6, "2026-05-03", 1, 2),
        live,
        scheduled(8, "2026-05-05", 1, 77),
        scheduled(9, "", 1, 2),
    ];
    let snaps = HashMap::from([(1, snap(1, 1490, 1, 1)), (2, snap(2, 1530, 1, 1)), (3, snap(3, 1700, 0, 0))]);
    let doc = panel(&e, &window, &snaps, true);

    assert_eq!(text(get(&doc, "generado")), "10:00:00");
    assert_eq!(text(get(&doc, "hoy")), "2026-05-03");
    assert_eq!(text(get(&doc, "ultimoPartido")), "2026-05-02");
    assert_eq!(integer(get(&doc, "temporada")), 2026);
    let model = get(&doc, "modelo");
    assert_eq!(integer(get(model, "partidosEntrenamiento")), 2);
    assert_eq!(integer(get(model, "caracteristicas")), 29);
    assert_eq!(integer(get(model, "epocas")), 33);

    let summary = get(&doc, "resumen");
    assert_eq!(integer(get(summary, "partidos")), 3);
    assert_eq!(integer(get(summary, "confirmados")), 2);
    assert_eq!(integer(get(summary, "sinConfirmar")), 1);
    assert_eq!(integer(get(summary, "jugados")), 1);
    assert_eq!(integer(get(summary, "enVivo")), 1);
    assert_eq!(integer(get(summary, "dias")), 2);

    let days = items(get(&doc, "fechas"));
    assert_eq!(text(get(&days[0], "date")), "2026-05-03");
    assert_eq!(items(get(&days[0], "games")).len(), 2);
    assert_eq!(text(get(&days[1], "date")), "2026-05-04");
    let first = &items(get(&days[0], "games"))[0];
    assert!(matches!(get(first, "pHome"), Node::Real(61)));
    assert!(matches!(get(first, "pAway"), Node::Real(39)));
    assert!(matches!(get(first, "eloHome"), Node::Real(55)));
    // The home team was the favourite and lost.
    assert!(matches!(get(first, "hit"), Node::Bool(false)));
    let home = get(first, "home");
    assert_eq!(text(get(home, "name")), "Ones");
    assert_eq!(integer(get(home, "elo")), 1490);
    assert_eq!(items(get(home, "hitters")).len(), 12);
    let rotation = items(get(home, "rotation"));
    assert_eq!(rotation.len(), 4);
    assert_eq!(integer(get(&rotation[0], "id")), 1);
    let away = get(first, "away");
    assert_eq!(text(get(away, "name")), "T2");
    assert_eq!(text(get(away, "batAvg")), "-");
    assert_eq!(text(get(get(first, "homePitcher"), "name")), "Known");
    assert!(matches!(get(get(first, "homePitcher"), "known"), Node::Bool(true)));
    assert_eq!(text(get(get(first, "awayPitcher"), "name")), "Twelve");
    assert_eq!(integer(get(get(first, "awayPitcher"), "id")), 12);
    let second = &items(get(&days[0], "games"))[1];
    assert!(matches!(get(second, "hit"), Node::Null));
    assert!(matches!(get(second, "homeScore"), Node::Null));
    let third = &items(get(&days[1], "games"))[0];
    assert_eq!(text(get(get(third, "homePitcher"), "name")), "Por anunciar");
    assert_eq!(integer(get(get(third, "homePitcher"), "id")), 99);

    let table = items(get(&doc, "tabla"));
    assert_eq!(table.len(), 2);
    assert_eq!(integer(get(&table[0], "id")), 2);
    assert_eq!(text(get(&table[0], "era")), "-");
    assert_eq!(integer(get(&table[1], "id")), 1);
    assert_eq!(text(get(&table[1], "abbrev")), "ONE");
    assert_eq!(integer(get(&table[1], "awayL")), 1);
}

#[test]
fn a_right_pick() {
    let e = engine();
    let doc = panel(&e, &vec![ended(5, "2026-05-03", 1, 2, 1, 4)], &HashMap::new(), false);
    let shown = &items(get(&items(get(&doc, "fechas"))[0], "games"))[0];
    assert!(matches!(get(shown, "hit"), Node::Bool(true)));
    // Blanks stand for a team without a snapshot.
    let home = get(shown, "home");
    assert_eq!(integer(get(home, "elo")), 1500);
    assert!(matches!(get(home, "form10"), Node::Real(50)));
    assert!(matches!(get(home, "rsPg"), Node::Real(0)));
    assert_eq!(integer(get(home, "id")), 0);
}

#[test]
fn an_empty_panel() {
    let e = LiveEngine::new(vec![], 15, 10, Vec::new(), League::new());
    let doc = panel(&e, &vec![scheduled(5, "2026-05-03", 1, 2)], &HashMap::new(), true);
    assert!(items(get(&doc, "fechas")).is_empty());
    assert!(items(get(&doc, "tabla")).is_empty());
    assert_eq!(text(get(&doc, "ultimoPartido")), "");
    assert_eq!(integer(get(get(&doc, "resumen"), "partidos")), 0);
}

#[test]
fn rows_of_the_window() {
    let e = engine();
    let window = vec![scheduled(5, "2026-05-03", 1, 77), scheduled(6, "2026-05-03", 1, 2)];
    let w = e.window_rows(&window);
    assert_eq!(w.rows, vec![1]);
    assert_eq!(w.inputs.len(), 1);
    assert_eq!(w.inputs[0].home.rest, 1);
    let s = window_sample(&window[1], 2026, vec![1.0f32], 0.5);
    assert_eq!((s.game_pk, s.season, s.label, s.home_gp), (6, 2026, 0, 0));
    assert_eq!(s.date, "2026-05-03");
}

#[test]
fn report_on_the_last_days() {
    let plan = FitPlan {
        cutoff: "2026-04-03".to_string(),
        history: vec![0, 1, 2],
        train: vec![0],
        test: vec![1, 2],
        judged: true,
    };
    let scores = Scores { net_pct: 57, elo_pct: 56, logloss: 68, brier: 24 };
    let counts = vec![
        Tally { n: 100, hits: 60 },
        Tally { n: 40, hits: 30 },
        Tally { n: 1, hits: 1 },
        Tally { n: 0, hits: 0 },
    ];
    let report = recent_report(&plan, scores, &counts, &vec![60, 75, 100, -7], 0);
    assert_eq!(thresholds(), vec![55, 60, 65, 70]);
    let doc = recent_json(&Some(report));
    assert_eq!(text(get(&doc, "desde")), "2026-04-03");
    assert_eq!(integer(get(&doc, "partidos")), 2);
    assert!(matches!(get(&doc, "aciertoRed"), Node::Real(57)));
    assert!(matches!(get(&doc, "aciertoElo"), Node::Real(56)));
    let bands = items(get(&doc, "bandas"));
    assert_eq!(bands.len(), 4);
    assert!(matches!(get(&bands[0], "umbral"), Node::Whole(55)));
    assert!(matches!(get(&bands[3], "umbral"), Node::Whole(70)));
    assert!(matches!(get(&bands[0], "acierto"), Node::Real(60)));
    assert!(matches!(get(&bands[1], "acierto"), Node::Real(75)));
    assert_eq!(integer(get(&bands[1], "partidos")), 40);
    // A band without forecasts has no share.
    assert_eq!(integer(get(&bands[3], "partidos")), 0);
    assert!(matches!(get(&bands[3], "acierto"), Node::Real(0)));
    assert!(matches!(recent_json::<i32>(&None), Node::Null));
}
