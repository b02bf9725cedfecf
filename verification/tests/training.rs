use diamond::features::{Sample, NUM_FEATURES};
use diamond::training::{
    batches, first_numbers, gather, home_column, is_reported, labels_of, Course, Progress, Rng,
    TrainConfig,
};

#[test]
fn usual_settings() {
    let c = TrainConfig::default();
    assert_eq!((c.epochs, c.batch_size, c.hidden1, c.hidden2), (120, 256, 32, 16));
    assert_eq!((c.patience, c.seed, c.verbose), (15, 42, false));
    assert_eq!((c.lr.num, c.lr.den), (3, 1000));
    assert_eq!((c.dropout.num, c.dropout.den), (1, 4));
    assert_eq!((c.weight_decay.num, c.weight_decay.den), (1, 10_000));
    let d = c.with_rates(0.5f64, 0.25, 0.125);
    assert_eq!((d.lr, d.dropout, d.weight_decay), (0.5, 0.25, 0.125));
    assert_eq!((d.epochs, d.batch_size, d.hidden1, d.hidden2), (120, 256, 32, 16));
}

#[test]
fn the_generator_repeats() {
    let mut a = Rng::seeded(42);
    assert_eq!(a.state, 43);
    let x = a.next();
    let mut y = 43u64;
    y ^= y << 13;
    y ^= y >> 7;
    y ^= y << 17;
    assert_eq!(x, y);
    assert_eq!(Rng::seeded(0).state, 1);
    for _ in 0..1000 {
        assert_ne!(a.next(), 0);
    }
}

#[test]
fn shuffling_keeps_the_items() {
    let mut v: Vec<usize> = first_numbers(50);
    Rng::seeded(7).shuffle(&mut v);
    let mut w: Vec<usize> = first_numbers(50);
    Rng::seeded(7).shuffle(&mut w);
    assert_eq!(v, w);
    assert_ne!(v, first_numbers(50));
    v.sort();
    assert_eq!(v, first_numbers(50));
    let mut none: Vec<usize> = Vec::new();
    Rng::seeded(7).shuffle(&mut none);
    assert!(none.is_empty());
}

#[test]
fn shuffle_of_three() {
    let mut rng = Rng { state: 43 };
    let first = Rng { state: 43 }.next();
    let second = Rng { state: first }.next();
    let mut expected = vec!['a', 'b', 'c'];
    expected.swap(2, (first % 3) as usize);
    expected.swap(1, (second % 2) as usize);
    let mut v = vec!['a', 'b', 'c'];
    rng.shuffle(&mut v);
    assert_eq!(v, expected);
    assert_eq!(rng.state, second);
}

#[test]
fn batches_of_a_size() {
    assert_eq!(batches(&vec![9, 8, 7, 6, 5], 2), vec![vec![9, 8], vec![7, 6], vec![5]]);
    assert_eq!(batches(&vec![1, 2], 2), vec![vec![1, 2]]);
    assert!(batches(&Vec::new(), 4).is_empty());
}

#[test]
fn rows_of_a_batch() {
    let table: Vec<i32> = (0..(3 * NUM_FEATURES as i32)).collect();
    let out = gather(&table, &vec![2, 0]);
    assert_eq!(out.len(), 2 * NUM_FEATURES);
    assert_eq!(out[0], 58);
    assert_eq!(out[28], 86);
    assert_eq!(out[29], 0);
}

#[test]
fn chances_of_the_home_team() {
    assert_eq!(home_column(&vec![0.9, 0.1, 0.4, 0.6], 2), vec![0.1, 0.6]);
    assert!(home_column(&Vec::<i32>::new(), 0).is_empty());
}

#[test]
fn labels_as_classes() {
    let s = |label: usize| Sample {
        game_pk: 0,
        date: String::new(),
        season: 0,
        home_name: String::new(),
        away_name: String::new(),
        home_score: 0,
        away_score: 0,
        label,
        features: Vec::<u8>::new(),
        home_gp: 0,
        away_gp: 0,
        elo_prob: 0u8,
    };
    assert_eq!(labels_of(&[s(1), s(0), s(1)]), vec![1, 0, 1]);
}

#[test]
fn training_stops_after_patience() {
    let mut p = Progress::start();
    assert_eq!(p.next_epoch(120), Some(1));
    p.measured(true, 2);
    p.measured(false, 2);
    assert_eq!(p.next_epoch(120), Some(3));
    p.measured(true, 2);
    p.measured(false, 2);
    assert!(!p.stopped);
    p.measured(false, 2);
    assert!(p.stopped);
    assert_eq!(p.epochs_run, 5);
    assert_eq!(p.next_epoch(120), None);
}

#[test]
fn training_runs_all_epochs() {
    let mut p = Progress::start();
    for e in 1..=3 {
        assert_eq!(p.next_epoch(3), Some(e));
        p.unmeasured();
    }
    assert_eq!(p.next_epoch(3), None);
    assert!(!p.stopped);
}

#[test]
fn some_epochs_are_reported() {
    assert!(is_reported(true, true, 1));
    assert!(is_reported(true, true, 10));
    assert!(!is_reported(true, true, 11));
    assert!(!is_reported(true, false, 10));
    assert!(is_reported(true, false, 20));
    assert!(!is_reported(false, true, 10));
}

#[test]
fn an_epoch_visits_each_row_once() {
    let cfg = TrainConfig { batch_size: 4, epochs: 2, ..TrainConfig::default() };
    let mut course = Course::new(10, 42, "first");
    let mut orders = Vec::new();
    for _ in 0..2 {
        let cuts = course.next_epoch(&cfg).unwrap();
        let sizes: Vec<usize> = cuts.iter().map(|b| b.len()).collect();
        assert_eq!(sizes, vec![4, 4, 2]);
        let order: Vec<usize> = cuts.concat();
        let mut rows = order.clone();
        rows.sort();
        assert_eq!(rows, first_numbers(10));
        orders.push(order);
        course.measured("next", true, 15);
    }
    assert_ne!(orders[0], orders[1]);
    assert!(course.next_epoch(&cfg).is_none());
}

#[test]
fn the_last_improvement_is_kept() {
    let cfg = TrainConfig { patience: 2, ..TrainConfig::default() };
    let mut course = Course::new(3, 42, ("first", 9));
    let losses = [("a", 7), ("b", 8), ("c", 5), ("d", 5), ("e", 6), ("f", 1)];
    let mut next = 0;
    while course.next_epoch(&cfg).is_some() {
        let improved = losses[next].1 < course.kept.1;
        course.measured(losses[next], improved, cfg.patience);
        next += 1;
    }
    // Two epochs in a row did not improve; the last model is never tried.
    assert_eq!(next, 5);
    assert_eq!(course.kept, ("c", 5));
    assert_eq!(course.progress.epochs_run, 5);
    assert!(course.progress.stopped);
    for l in &losses[..5] {
        assert!(l.1 >= course.kept.1);
    }
}

#[test]
fn without_improvement_the_first_is_kept() {
    let cfg = TrainConfig { patience: 3, ..TrainConfig::default() };
    let mut course = Course::new(3, 42, 'x');
    while course.next_epoch(&cfg).is_some() {
        course.measured('y', false, cfg.patience);
    }
    assert_eq!(course.kept, 'x');
    assert_eq!(course.progress.epochs_run, 3);
}

#[test]
fn without_measure_the_last_is_kept() {
    let cfg = TrainConfig { epochs: 4, patience: 1, ..TrainConfig::default() };
    let mut course = Course::new(3, 42, 0);
    let mut model = 0;
    while course.next_epoch(&cfg).is_some() {
        model += 10;
        course.unmeasured(model);
    }
    assert_eq!(course.kept, 40);
    assert_eq!(course.progress.epochs_run, 4);
    let none = TrainConfig { epochs: 0, ..TrainConfig::default() };
    assert!(Course::new(3, 42, 0).next_epoch(&none).is_none());
}
