use std::collections::HashMap;

use diamond::features::{
    feature_vector, push_capped, FeatureBuilder, Ratio, SideValues, FEATURE_NAMES, NUM_FEATURES,
};
use diamond::mlb::RawGame;

fn game(pk: i64, date: &str, season: i32, home: i64, away: i64, hs: i32, aws: i32) -> RawGame {
    RawGame {
        game_pk: pk,
        date: date.to_string(),
        season,
        home_id: home,
        home_name: format!("T{home}"),
        away_id: away,
        away_name: format!("T{away}"),
        home_score: hs,
        away_score: aws,
        home_sp_id: 100 + home,
        away_sp_id: 0,
    }
}

fn ratio(num: i128, den: i128) -> Ratio {
    Ratio { num, den }
}

#[test]
fn first_row_knows_nothing() {
    let mut fb = FeatureBuilder::new();
    let rows = fb.build(&[game(1, "2024-04-01", 2024, 1, 2, 6, 2)]);
    assert_eq!(rows.len(), 1);
    let r = &rows[0];
    assert_eq!((r.home_gp, r.away_gp, r.label), (0, 0, 1));
    assert_eq!(r.inputs.home.wpct, ratio(4, 8));
    assert_eq!(r.inputs.home.rs_pg, ratio(22, 5));
    assert_eq!(r.inputs.home.form10, ratio(1, 2));
    assert_eq!(r.inputs.home.runs, None);
    assert_eq!(r.inputs.home.rest, 3);
    assert_eq!(r.inputs.home.sp_ra, ratio(22, 5));
    assert_eq!(r.inputs.home.sp_exp, ratio(0, 30));
    assert_eq!(r.elo.margin, 4);
    assert!(r.elo.home_won);
    assert!(!r.elo.home_carries && !r.elo.away_carries);
}

#[test]
fn rows_hold_the_past_only() {
    let games = vec![
        game(1, "2024-04-01", 2024, 1, 2, 6, 2),
        game(2, "2024-04-03", 2024, 2, 1, 1, 3),
        game(3, "2024-04-20", 2024, 1, 2, 0, 9),
    ];
    let mut fb = FeatureBuilder::new();
    let rows = fb.build(&games);
    let second = &rows[1];
    assert_eq!((second.home_gp, second.away_gp), (1, 1));
    assert_eq!(second.inputs.home.wpct, ratio(4, 9));
    assert_eq!(second.inputs.away.wpct, ratio(5, 9));
    assert_eq!(second.inputs.away.rs_pg, ratio(6, 1));
    assert_eq!(second.inputs.away.rest, 2);
    // On the road team 1 has not played, at home team 2 has not.
    assert_eq!(second.inputs.away.here_wpct, ratio(4, 8));
    assert_eq!(second.inputs.home.here_wpct, ratio(4, 8));

    let third = &rows[2];
    assert_eq!(third.inputs.home.wpct, ratio(6, 10));
    assert_eq!(third.inputs.home.here_wpct, ratio(5, 9));
    assert_eq!(third.inputs.home.here_rs_pg, ratio(6, 1));
    assert_eq!(third.inputs.away.here_wpct, ratio(4, 9));
    assert_eq!(third.inputs.away.here_ra_pg, ratio(6, 1));
    assert_eq!(third.inputs.home.runs, Some((9, 3)));
    assert_eq!(third.inputs.home.form10, ratio(2, 2));
    assert_eq!(third.inputs.home.rest, 7);
    assert_eq!(third.inputs.home.sp_ra, ratio(2, 1));
    assert_eq!(third.inputs.home.sp_exp, ratio(1, 30));
}

#[test]
fn later_games_change_no_row() {
    let games = vec![
        game(1, "2024-04-01", 2024, 1, 2, 6, 2),
        game(2, "2024-04-03", 2024, 2, 1, 1, 3),
        game(3, "2024-04-20", 2024, 1, 2, 0, 9),
    ];
    let all = FeatureBuilder::new().build(&games);
    let some = FeatureBuilder::new().build(&games[..2]);
    for i in 0..2 {
        assert_eq!(some[i].inputs, all[i].inputs);
        assert_eq!(some[i].elo, all[i].elo);
    }
}

#[test]
fn building_in_turn() {
    let games = vec![
        game(1, "2024-04-01", 2024, 1, 2, 6, 2),
        game(2, "2024-04-03", 2024, 2, 1, 1, 3),
        game(3, "2024-04-20", 2024, 1, 2, 0, 9),
        game(4, "2025-04-20", 2025, 3, 2, 4, 1),
    ];
    let all = FeatureBuilder::new().build(&games);
    let mut fb = FeatureBuilder::new();
    let mut parts = fb.build(&games[..2]);
    parts.extend(fb.build(&games[2..]));
    assert_eq!(parts.len(), all.len());
    for (a, b) in parts.iter().zip(&all) {
        assert_eq!(a.game_pk, b.game_pk);
        assert_eq!(a.inputs, b.inputs);
        assert_eq!(a.elo, b.elo);
    }
}

#[test]
fn a_forecast_is_the_row_to_come() {
    let mut fb = FeatureBuilder::new();
    fb.build(&[
        game(1, "2024-04-01", 2024, 1, 2, 6, 2),
        game(2, "2024-04-03", 2024, 2, 1, 1, 3),
    ]);
    let mut next = game(3, "2024-04-20", 2024, 1, 2, 0, 9);
    next.away_sp_id = 102;
    let forecast =
        fb.features_for(1, 2, "2024-04-20", next.home_sp_id, next.away_sp_id).unwrap();
    let row = fb.build(&[next]).remove(0);
    assert_eq!(forecast, row.inputs);
}

#[test]
fn wins_and_losses_balance() {
    let games = vec![
        game(1, "2024-04-01", 2024, 1, 2, 6, 2),
        game(2, "2024-04-03", 2024, 2, 1, 1, 3),
        game(3, "2024-04-20", 2024, 1, 3, 0, 9),
        game(4, "someday", 2024, 4, 3, 0, 9),
        game(5, "2024-04-21", 2024, 3, 2, 4, 4),
    ];
    let mut fb = FeatureBuilder::new();
    let rows = fb.build(&games);
    assert_eq!(rows.len(), 4);
    let elos: HashMap<i64, u8> = HashMap::new();
    let snaps = fb.snapshot(&elos, 9);
    assert_eq!(snaps.len(), 3);
    assert_eq!(snaps.values().map(|t| t.wins).sum::<usize>(), 4);
    assert_eq!(snaps.values().map(|t| t.losses).sum::<usize>(), 4);
}

#[test]
fn own_result_is_unseen() {
    let before = game(1, "2024-04-01", 2024, 1, 2, 6, 2);
    let won = game(2, "2024-04-02", 2024, 1, 2, 9, 0);
    let lost = game(2, "2024-04-02", 2024, 1, 2, 0, 9);
    let a = FeatureBuilder::new().build(&[before.clone(), won]);
    let b = FeatureBuilder::new().build(&[before, lost]);
    assert_eq!(a[1].inputs, b[1].inputs);
    assert_ne!(a[1].label, b[1].label);
}

#[test]
fn a_season_starts_over() {
    let games = vec![
        game(1, "2024-09-01", 2024, 1, 2, 6, 2),
        game(2, "2025-04-03", 2025, 1, 2, 1, 3),
        game(3, "2025-04-04", 2025, 1, 2, 1, 3),
    ];
    let rows = FeatureBuilder::new().build(&games);
    assert_eq!(rows[1].home_gp, 0);
    assert!(rows[1].elo.home_carries && rows[1].elo.away_carries);
    assert_eq!(rows[1].inputs.home.wpct, ratio(4, 8));
    // The day of the last game is remembered.
    assert_eq!(rows[1].inputs.home.rest, 7);
    // Pitchers keep their form.
    assert_eq!(rows[1].inputs.home.sp_exp, ratio(1, 30));
    assert!(!rows[2].elo.home_carries);
    assert_eq!(rows[2].home_gp, 1);
}

#[test]
fn form_covers_the_last_ten() {
    let mut games = Vec::new();
    for i in 0..12 {
        let hs = if i < 2 { 9 } else { 1 };
        games.push(game(i, &format!("2024-04-{:02}", i + 1), 2024, 1, 2, hs, 2));
    }
    games.push(game(20, "2024-04-20", 2024, 1, 2, 5, 2));
    let rows = FeatureBuilder::new().build(&games);
    let r = &rows[12];
    assert_eq!(r.home_gp, 12);
    assert_eq!(r.inputs.home.form10, ratio(0, 10));
    assert_eq!(r.inputs.home.rs10, ratio(10, 10));
    assert_eq!(r.inputs.home.rs_pg, ratio(28, 12));
    // Eight starts are in the form of the pitcher, all twelve in their experience.
    assert_eq!(r.inputs.home.sp_ra, ratio(16, 8));
    assert_eq!(r.inputs.home.sp_exp, ratio(12, 30));
}

#[test]
fn undated_games_are_left_out() {
    let games = vec![
        game(1, "someday", 2024, 1, 2, 6, 2),
        game(2, "2024-02-30", 2024, 1, 2, 6, 2),
        game(3, "2024-04-03", 2024, 1, 2, 1, 3),
    ];
    let rows = FeatureBuilder::new().build(&games);
    assert_eq!(rows.len(), 1);
    assert_eq!(rows[0].game_pk, 3);
    assert_eq!(rows[0].home_gp, 0);
}

#[test]
fn upcoming_games() {
    let mut fb = FeatureBuilder::new();
    fb.build(&[game(1, "2024-04-01", 2024, 1, 2, 6, 2)]);
    let known = fb.features_for(1, 2, "2024-04-03", 101, 0).unwrap();
    assert_eq!(known.home.wpct, ratio(5, 9));
    assert_eq!(known.home.sp_ra, ratio(2, 1));
    // The unannounced starter is average, though unknown ones have started before.
    assert_eq!(known.away.sp_ra, ratio(22, 5));
    assert_eq!(known.away.sp_exp, ratio(0, 30));
    // A new pitcher is average too.
    let fresh = fb.features_for(1, 2, "2024-04-03", 777, 778).unwrap();
    assert_eq!(fresh.home.sp_ra, ratio(22, 5));
    assert!(fb.features_for(1, 3, "2024-04-03", 0, 0).is_none());
    assert!(fb.features_for(1, 2, "", 0, 0).is_none());
    assert!(fb.features_for(1, 2, "2024-13-03", 0, 0).is_none());
}

#[test]
fn snapshots_of_teams() {
    let mut fb = FeatureBuilder::new();
    fb.build(&[
        game(1, "2024-04-01", 2024, 1, 2, 6, 2),
        game(2, "2024-04-03", 2024, 2, 1, 1, 3),
        game(3, "2024-04-20", 2024, 1, 2, 0, 9),
    ]);
    let elos: HashMap<i64, u8> = HashMap::from([(1, 5)]);
    let snaps = fb.snapshot(&elos, 9);
    assert_eq!(snaps.len(), 2);
    let one = &snaps[&1];
    assert_eq!((one.wins, one.losses), (2, 1));
    assert_eq!((one.home_wins, one.home_losses, one.away_wins, one.away_losses), (1, 1, 1, 0));
    assert_eq!(one.elo, 5);
    assert_eq!(snaps[&2].elo, 9);
    assert_eq!(one.rs_pg, ratio(9, 3));
    assert_eq!(one.ra_pg, ratio(12, 3));
    assert_eq!(one.form10, ratio(2, 3));
    assert_eq!(snaps[&2].name, "T2");
}

#[test]
fn capped_lists() {
    let mut dq = std::collections::VecDeque::new();
    for i in 0..5 {
        push_capped(&mut dq, i, 3);
    }
    assert_eq!(dq, [2, 3, 4]);
    push_capped(&mut dq, 9, 0);
    assert!(dq.is_empty());
}

#[test]
fn columns_in_order() {
    let side = |base: i32| SideValues {
        wpct: base,
        rs_pg: base + 1,
        ra_pg: base + 2,
        rundiff_pg: base + 3,
        form10: base + 4,
        rs10: base + 5,
        ra10: base + 6,
        pyth: base + 7,
        rest: base + 8,
        sp_ra: base + 9,
        sp_exp: base + 10,
        here_wpct: base + 11,
        here_rundiff: base + 12,
    };
    let row = feature_vector(1, 2, 3, &side(100), &side(200));
    assert_eq!(row.len(), NUM_FEATURES);
    let at = |name: &str| row[FEATURE_NAMES.iter().position(|n| *n == name).unwrap()];
    assert_eq!(at("elo_diff"), 1);
    assert_eq!(at("elo_prob"), 2);
    assert_eq!(at("wpct_diff"), 3);
    assert_eq!(at("home_wpct"), 100);
    assert_eq!(at("away_wpct"), 200);
    assert_eq!(at("home_rundiff_pg"), 103);
    assert_eq!(at("away_ra10"), 206);
    assert_eq!(at("home_sp_exp"), 110);
    assert_eq!(at("home_wpct_at_home"), 111);
    assert_eq!(at("away_wpct_on_road"), 211);
    assert_eq!(at("away_rundiff_on_road"), 212);
}

#[test]
fn samples_take_the_row() {
    let mut fb = FeatureBuilder::new();
    let row = fb.build(&[game(4, "2024-04-01", 2024, 1, 2, 6, 2)]).remove(0);
    let s = row.into_sample(vec![0.5f32], 0.25);
    assert_eq!(s.game_pk, 4);
    assert_eq!(s.label, 1);
    assert_eq!(s.features, vec![0.5]);
    assert_eq!(s.elo_prob, 0.25);
    assert_eq!(s.home_name, "T1");
}
