use diamond::backtest::{
    aggregate, contenders, count_hits, elo_column, first_smallest, holdout, last_largest,
    next_day_demo, record_column, split_history, tally, trim, usable, walk_forward, Block, Metrics,
    NextDay, MIN_HISTORY,
};
use diamond::features::Sample;
use diamond::live::{first_judged, fit_plan, recent_cutoff};

fn sample(date: &str, season: i32, gp: usize) -> Sample<f32> {
    Sample {
        game_pk: 0,
        date: date.to_string(),
        season,
        home_name: String::new(),
        away_name: String::new(),
        home_score: 0,
        away_score: 1,
        label: 0,
        features: Vec::new(),
        home_gp: gp,
        away_gp: 15,
        elo_prob: 0.25,
    }
}

fn history() -> Vec<Sample<f32>> {
    let mut all: Vec<Sample<f32>> = (0..500).map(|_| sample("2024-04-30", 2024, 20)).collect();
    all.push(sample("2024-05-01", 2024, 20));
    all.push(sample("2024-05-09", 2024, 3));
    all.push(sample("2024-06-02", 2025, 20));
    all
}

#[test]
fn early_games_are_not_usable() {
    assert!(usable(&sample("2024-05-01", 2024, 15), 15));
    assert!(!usable(&sample("2024-05-01", 2024, 14), 15));
    assert!(!usable(&sample("2024-05-01", 2024, 99), 16));
}

#[test]
fn month_by_month() {
    let all = history();
    let plans = walk_forward(&all, "2024-05-01", 15);
    let labels: Vec<&str> = plans.iter().map(|p| p.label.as_str()).collect();
    assert_eq!(labels, vec!["2024-05", "2024-06"]);
    assert_eq!(plans[0].train.len(), 500);
    assert_eq!(plans[0].test, vec![500]);
    assert_eq!(plans[1].train.len(), 501);
    assert_eq!(plans[1].test, vec![502]);
    for p in &plans {
        for t in &p.train {
            for s in &p.test {
                assert!(all[*t].date < all[*s].date);
            }
        }
    }
    // A month with too little history is left out.
    let short = walk_forward(&all[1..], "2024-05-01", 15);
    assert_eq!(short.len(), 1);
    assert_eq!(short[0].label, "2024-06");
    assert!(walk_forward(&all, "2025-01-01", 15).is_empty());
}

#[test]
fn testing_starts_in_the_middle_of_a_month() {
    let mut all: Vec<Sample<f32>> = (0..500).map(|_| sample("2024-04-30", 2024, 20)).collect();
    all.push(sample("2024-05-03", 2024, 20));
    all.push(sample("2024-05-15", 2024, 20));
    all.push(sample("2024-05-20", 2024, 20));
    all.push(sample("2024-06-02", 2024, 20));
    let plans = walk_forward(&all, "2024-05-15", 15);
    let labels: Vec<&str> = plans.iter().map(|p| p.label.as_str()).collect();
    assert_eq!(labels, vec!["2024-05", "2024-06"]);
    // The game of the third of May is known when testing starts.
    assert_eq!(plans[0].test, vec![501, 502]);
    assert_eq!(plans[0].train.len(), 501);
    assert!(plans[0].train.contains(&500));
    assert_eq!(plans[1].test, vec![503]);
    assert_eq!(plans[1].train.len(), 503);
}

#[test]
fn later_games_change_no_plan() {
    let all = history();
    let mut other = all.clone();
    other[502] = sample("2024-07-09", 2024, 20);
    other.push(sample("2024-08-01", 2024, 20));
    let a = walk_forward(&all, "2024-05-01", 15);
    let b = walk_forward(&other, "2024-05-01", 15);
    assert_eq!(a[0].label, b[0].label);
    assert_eq!(a[0].train, b[0].train);
    assert_eq!(a[0].test, b[0].test);
    assert_eq!(b.len(), 3);
}

#[test]
fn first_day_from_a_date() {
    let all = history();
    match next_day_demo(&all, "2024-05-01", 15) {
        NextDay::Planned(plan) => {
            assert_eq!(plan.day, "2024-05-01");
            assert_eq!(plan.train.len(), MIN_HISTORY);
            assert_eq!(plan.test, vec![500]);
        }
        _ => panic!("no plan"),
    }
    match next_day_demo(&all, "2024-05-02", 15) {
        NextDay::Planned(plan) => assert_eq!(plan.day, "2024-06-02"),
        _ => panic!("no plan"),
    }
    assert!(matches!(next_day_demo(&all, "2024-06-03", 15), NextDay::NoGames));
    assert!(matches!(next_day_demo(&all, "2024-04-30", 15), NextDay::TooLittleHistory));
}

#[test]
fn last_season_is_held_out() {
    let all = history();
    let plan = holdout(&all, 15);
    assert_eq!(plan.last_season, 2025);
    assert_eq!(plan.test, vec![502]);
    assert_eq!(plan.train.len(), 501);
    let none: Vec<Sample<f32>> = Vec::new();
    assert_eq!(holdout(&none, 15).last_season, 0);
    assert_eq!(holdout(&[sample("x", -4, 20)], 15).last_season, -4);
}

#[test]
fn splits_keep_the_order() {
    let (a, b) = split_history(&vec![5, 6, 7], 2);
    assert_eq!((a, b), (vec![5, 6], vec![7]));
    let (a, b) = split_history(&vec![5], 0);
    assert_eq!((a.len(), b.len()), (0, 1));
}

#[test]
fn counts_of_forecasts() {
    let t = tally(&[true, true, false, true], &[true, false, true, true]);
    assert_eq!((t.n, t.hits), (3, 2));
    assert_eq!(count_hits(&[true, false, true], &[true, true, true]), 2);
    assert_eq!(count_hits(&[true, true], &[true]), 1);
}

#[test]
fn best_and_worst_month() {
    assert_eq!(last_largest(&[3, 9, 9, 1]), Some(2));
    assert_eq!(first_smallest(&[3, 1, 9, 1]), Some(1));
    assert_eq!(last_largest(&[]), None);
    assert_eq!(first_smallest(&[]), None);
}

fn block(probs: Vec<f32>) -> Block<f32> {
    let m = Metrics { n: 0, acc: 0.0, logloss: 0.0, brier: 0.0 };
    Block {
        label: String::new(),
        train_n: 0,
        metrics: m.clone(),
        elo_metrics: m.clone(),
        home_metrics: m,
        labels: vec![1.0; probs.len()],
        records: probs.iter().map(|p| if *p > 0.15 { 0.9 } else { 0.1 }).collect(),
        samples: probs.iter().map(|_| sample("2024-05-01", 2024, 20)).collect(),
        probs,
    }
}

#[test]
fn blocks_are_joined() {
    let p = aggregate(&vec![block(vec![0.1, 0.2]), block(vec![]), block(vec![0.3])], 1.0);
    assert_eq!(p.probs, vec![0.1, 0.2, 0.3]);
    assert_eq!(p.labels, vec![1.0, 1.0, 1.0]);
    assert_eq!(p.elo, vec![0.25, 0.25, 0.25]);
    assert_eq!(p.record, vec![0.1, 0.9, 0.9]);
    assert_eq!(p.home, vec![1.0, 1.0, 1.0]);
    assert_eq!(elo_column(&history()[..2].to_vec()), vec![0.25, 0.25]);
}

#[test]
fn three_baselines_beside_the_network() {
    let p = aggregate(&vec![block(vec![0.1, 0.2])], 1.0);
    let (rivals, labels) = contenders(p);
    assert_eq!(labels, vec![1.0, 1.0]);
    let names: Vec<&str> = rivals.iter().map(|c| c.name.as_str()).collect();
    assert_eq!(
        names,
        vec!["Red neuronal", "Baseline: Elo", "Baseline: mejor record", "Baseline: siempre local"]
    );
    assert_eq!(rivals[0].probs, vec![0.1, 0.2]);
    assert_eq!(rivals[1].probs, vec![0.25, 0.25]);
    assert_eq!(rivals[2].probs, vec![0.1, 0.9]);
    assert_eq!(rivals[3].probs, vec![1.0, 1.0]);
    assert_eq!(record_column(&[true, false, true], 0.9, 0.1), vec![0.9, 0.1, 0.9]);
}

#[test]
fn long_names_are_cut() {
    assert_eq!(trim("Arizona Diamondbacks"), "Arizona Diamondbacks");
    assert_eq!(trim("aaaaaaaaaaaaaaaaaaaaaaaaa"), "aaaaaaaaaaaaaaaaaaaaaaaaa");
    assert_eq!(trim("áaaaaaaaaaaaaaaaaaaaaaaabc"), "áaaaaaaaaaaaaaaaaaaaaaaa.");
}

#[test]
fn first_day_of_judging() {
    assert_eq!(first_judged(739_000), Some(738_970));
    assert_eq!(first_judged(i32::MIN + 29), None);
    assert_eq!(first_judged(i32::MIN + 30), Some(i32::MIN));
}

#[test]
fn judged_by_the_last_thirty_days() {
    assert_eq!(recent_cutoff("2026-03-15").as_deref(), Some("2026-02-13"));
    assert_eq!(recent_cutoff("2024-03-15").as_deref(), Some("2024-02-14"));
    assert_eq!(recent_cutoff("today"), None);
    let mut all = history();
    let plan = fit_plan(&all, 15, "2024-05-01");
    assert_eq!(plan.cutoff, "2024-05-01");
    assert_eq!(plan.history.len(), 502);
    assert_eq!(plan.train.len(), 500);
    assert_eq!(plan.test, vec![500, 502]);
    assert!(!plan.judged);
    all.insert(0, sample("2024-04-29", 2024, 20));
    let plan = fit_plan(&all, 15, "2024-05-01");
    assert!(plan.judged);
    assert_eq!(plan.train.len() + plan.test.len(), plan.history.len());
    assert!(!fit_plan(&all, 15, "2030-01-01").judged);
}
