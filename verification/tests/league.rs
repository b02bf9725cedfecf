use diamond::json::read_json;
use diamond::stats::{
    average_key, era_key, fetch_league, fetch_roster, find_totals, listed_teams, parse_roster,
    roster_cache_file, roster_url, sort_hitters, sort_pitchers, split_of, team_info,
    teams_cache_file, teams_url, totals_cache_file, totals_url, Roster,
};

const ROSTER: &str = r#"{"roster": [
  {"person": {"id": 10, "fullName": "Ann", "stats": [
      {"group": {"displayName": "hitting"}, "type": {"displayName": "career"}, "splits": [{"stat": {"atBats": 900}}]},
      {"group": {"displayName": "hitting"}, "type": {"displayName": "season"},
       "splits": [{"stat": {"atBats": 120, "avg": ".301", "obp": ".4", "ops": ".9", "homeRuns": 5, "rbi": 20, "hits": 36, "gamesPlayed": 30}}]}]},
   "position": {"abbreviation": "SS"}},
  {"person": {"id": 11, "fullName": "Bob", "stats": [
      {"group": {"displayName": "hitting"}, "type": {"displayName": "season"}, "splits": [{"stat": {"atBats": 49}}]},
      {"group": {"displayName": "pitching"}, "type": {"displayName": "season"},
       "splits": [{"stat": {"era": "2.50", "whip": "1.01", "wins": 6, "losses": 2, "inningsPitched": "80.1", "strikeOuts": 90, "baseOnBalls": 20, "gamesStarted": 12}}]}]}},
  {"person": {"id": 12, "fullName": "Cid", "stats": [
      {"group": {"displayName": "hitting"}, "type": {"displayName": "season"}, "splits": [{"stat": {"atBats": 50}}]},
      {"group": {"displayName": "pitching"}, "type": {"displayName": "season"}, "splits": []}]}},
  {"position": {}}
]}"#;

#[test]
fn hitters_need_fifty_times_at_bat() {
    let doc = read_json(ROSTER).unwrap();
    let (hitters, pitchers) = parse_roster(&doc);
    let names: Vec<&str> = hitters.iter().map(|h| h.name.as_str()).collect();
    assert_eq!(names, vec!["Ann", "Cid"]);
    assert_eq!(hitters[0].pos, "SS");
    assert_eq!(hitters[0].avg, ".301");
    assert_eq!((hitters[0].hr, hitters[0].rbi, hitters[0].hits, hitters[0].at_bats), (5, 20, 36, 120));
    assert_eq!(hitters[0].games, 30);
    assert_eq!(hitters[1].pos, "-");
    assert_eq!(hitters[1].avg, "-");
    assert_eq!(hitters[1].hr, 0);
    assert_eq!(pitchers.len(), 1);
    let p = &pitchers[0];
    assert_eq!((p.id, p.wins, p.losses, p.strikeouts, p.walks, p.starts), (11, 6, 2, 90, 20, 12));
    assert_eq!(p.era, "2.50");
    assert_eq!(p.innings, "80.1");
    let (none, nobody) = parse_roster(&read_json("{}").unwrap());
    assert!(none.is_empty() && nobody.is_empty());
}

#[test]
fn season_blocks() {
    let person = read_json(
        r#"{"stats": [{"group": {"displayName": "pitching"}, "type": {"displayName": "season"}, "splits": [{"stat": {"a": 1}}, {"stat": {"a": 2}}]}]}"#,
    )
    .unwrap();
    let st = split_of(&person, "pitching").unwrap();
    assert_eq!(diamond::json::integer(st.get("a")), Some(1));
    assert!(split_of(&person, "hitting").is_none());
    assert!(split_of(&read_json("{\"stats\": 4}").unwrap(), "hitting").is_none());
}

fn roster_of(doc: &str) -> Roster {
    let (hitters, pitchers) = parse_roster(&read_json(doc).unwrap());
    Roster { hitters, pitchers }
}

#[test]
fn best_average_first() {
    let one = roster_of(ROSTER).hitters.remove(0);
    let named = |name: &str, avg: &str| {
        let mut h = one.clone();
        h.name = name.to_string();
        h.avg = avg.to_string();
        h
    };
    let sorted = sort_hitters(vec![
        named("a", ".300"),
        named("b", "-"),
        named("c", ".310"),
        named("d", ".300"),
        named("e", "1.000"),
        named("f", ".099"),
    ]);
    let names: Vec<&str> = sorted.iter().map(|h| h.name.as_str()).collect();
    assert_eq!(names, vec!["e", "c", "a", "d", "f", "b"]);
}

/// The key of a number of single precision by its bits, in the total order.
fn key_of(x: f32) -> i64 {
    let bits = x.to_bits() as i32;
    (bits ^ (((bits >> 31) as u32) >> 1) as i32) as i64
}

#[test]
fn averages_by_their_numbers() {
    for t in [".301", "1.000", "0.25", ".000", "+.300", "-.5", "3e-1", "inf", "-inf"] {
        assert_eq!(average_key(t), key_of(t.parse::<f32>().unwrap()), "{}", t);
    }
    for t in ["-", ".", "", ".---", "abc"] {
        assert_eq!(average_key(t), 0, "{}", t);
    }
    assert_eq!(average_key("..5"), key_of(5.0));
    assert_eq!(average_key(".inf"), key_of(f32::INFINITY));
    assert!(average_key("1.000") > average_key(".300"));
    assert_eq!(average_key("+.300"), average_key(".3"));
    // What single precision does not tell apart is a tie.
    assert_eq!(average_key(".3000000001"), average_key(".3000000002"));
}

#[test]
fn earned_run_averages_by_their_numbers() {
    for t in ["2.50", "0.00", "99", "1e1", "-1", "inf"] {
        assert_eq!(era_key(t), key_of(t.parse::<f32>().unwrap()), "{}", t);
    }
    for t in ["-.--", "-", "", "."] {
        assert_eq!(era_key(t), key_of(99.0), "{}", t);
    }
}

#[test]
fn a_perfect_average_leads_the_roster() {
    let doc = read_json(
        r#"{"roster": [
      {"person": {"id": 1, "fullName": "A", "stats": [
          {"group": {"displayName": "hitting"}, "type": {"displayName": "season"},
           "splits": [{"stat": {"atBats": 60, "avg": ".300"}}]},
          {"group": {"displayName": "pitching"}, "type": {"displayName": "season"},
           "splits": [{"stat": {"era": "4.00", "gamesStarted": 1}}]}]}},
      {"person": {"id": 2, "fullName": "B", "stats": [
          {"group": {"displayName": "hitting"}, "type": {"displayName": "season"},
           "splits": [{"stat": {"atBats": 60, "avg": "1.000"}}]},
          {"group": {"displayName": "pitching"}, "type": {"displayName": "season"},
           "splits": [{"stat": {"era": "3.00", "gamesStarted": 1}}]}]}}]}"#,
    )
    .unwrap();
    let roster = fetch_roster(&doc);
    let nobody = fetch_roster(&read_json("{}").unwrap());
    assert!(nobody.hitters.is_empty() && nobody.pitchers.is_empty());
    let hitters: Vec<&str> = roster.hitters.iter().map(|h| h.name.as_str()).collect();
    assert_eq!(hitters, vec!["B", "A"]);
    let pitchers: Vec<&str> = roster.pitchers.iter().map(|p| p.name.as_str()).collect();
    assert_eq!(pitchers, vec!["B", "A"]);
}

#[test]
fn starters_first_then_by_average() {
    let one = roster_of(ROSTER).pitchers.remove(0);
    let named = |name: &str, starts: i64, era: &str| {
        let mut p = one.clone();
        p.name = name.to_string();
        p.starts = starts;
        p.era = era.to_string();
        p
    };
    let sorted = sort_pitchers(vec![
        named("a", 0, "0.10"),
        named("b", 9, "-.--"),
        named("c", 9, "3.50"),
        named("d", 12, "5.00"),
        named("e", 9, "108.00"),
        named("f", 9, "10.50"),
        named("g", 9, "3.5"),
    ]);
    let names: Vec<&str> = sorted.iter().map(|p| p.name.as_str()).collect();
    assert_eq!(names, vec!["d", "c", "g", "f", "b", "e", "a"]);
}

const TEAMS: &str = r#"{"teams": [
  {"id": 1, "name": "Ones", "abbreviation": "ONE"},
  {"name": "Nobody"},
  {"id": 2, "name": "Twos"}]}"#;

const HITTING: &str = r#"{"stats": [{"splits": [
  {"team": {"id": 1}, "stat": {"avg": ".200", "runs": 1}},
  {"team": {"id": 1}, "stat": {"avg": ".260", "obp": ".330", "slg": ".410", "ops": ".740", "runs": 321, "homeRuns": 88}}]}]}"#;

#[test]
fn totals_of_a_team() {
    let doc = read_json(HITTING).unwrap();
    let st = find_totals(&doc, 1).unwrap();
    assert_eq!(diamond::json::integer(st.get("runs")), Some(321));
    assert!(find_totals(&doc, 2).is_none());
    assert!(find_totals(&read_json("{\"stats\": []}").unwrap(), 1).is_none());
    let keyed = read_json(r#"{"stats": {"0": {"splits": [{"team": {"id": 3}, "stat": {"runs": 4}}]}}}"#).unwrap();
    assert_eq!(diamond::json::integer(find_totals(&keyed, 3).unwrap().get("runs")), Some(4));
}

#[test]
fn the_whole_league() {
    let teams = read_json(TEAMS).unwrap();
    let listed = listed_teams(&teams);
    let ids: Vec<i64> = listed.iter().map(|t| t.id).collect();
    assert_eq!(ids, vec![1, 2]);
    assert_eq!((listed[0].name.as_str(), listed[1].name.as_str()), ("Ones", "Twos"));
    let pitching = read_json("{}").unwrap();
    let league = fetch_league(
        &teams,
        &read_json(HITTING).unwrap(),
        &pitching,
        vec![Some(roster_of(ROSTER)), None],
    );
    assert_eq!(league.teams.len(), 2);
    let one = &league.teams[&1];
    assert_eq!(one.abbrev, "ONE");
    assert_eq!(one.bat_avg, ".260");
    assert_eq!((one.runs, one.home_runs), (321, 88));
    assert_eq!(one.era, "");
    assert_eq!(one.hitters.len(), 2);
    let two = &league.teams[&2];
    assert_eq!(two.abbrev, "-");
    assert_eq!(two.bat_avg, "");
    assert!(two.hitters.is_empty());
    assert_eq!(league.pitchers.len(), 1);
    assert_eq!(league.pitchers[&11].name, "Bob");
    for team in league.teams.values() {
        for p in &team.pitchers {
            assert_eq!(league.pitchers[&p.id].id, p.id);
        }
    }
    let empty = fetch_league(&pitching, &pitching, &pitching, Vec::new());
    assert!(empty.teams.is_empty());
}

#[test]
fn totals_without_values() {
    let t = read_json("{}").unwrap();
    let st = read_json("{\"era\": \"3.10\", \"strikeOuts\": 700}").unwrap();
    let info = team_info(&t, None, Some(&st), None);
    assert_eq!(info.name, "-");
    assert_eq!(info.era, "3.10");
    assert_eq!(info.whip, "-");
    assert_eq!(info.strikeouts, 700);
    assert_eq!(info.ops, "");
}

#[test]
fn addresses_of_statistics() {
    assert_eq!(
        totals_url(2026, "hitting"),
        "https://statsapi.mlb.com/api/v1/teams/stats?season=2026&group=hitting&stats=season&sportIds=1"
    );
    assert_eq!(totals_cache_file(2026, "pitching"), "team_pitching_2026.json");
    assert_eq!(
        roster_url(147, 2026),
        "https://statsapi.mlb.com/api/v1/teams/147/roster?rosterType=active&hydrate=person(stats(type=season,season=2026))"
    );
    assert_eq!(roster_cache_file(147, 2026), "roster_147_2026.json");
    assert_eq!(teams_url(2026), "https://statsapi.mlb.com/api/v1/teams?sportId=1&season=2026");
    assert_eq!(teams_cache_file(2026), "teams_2026.json");
}
