use diamond::cli::{stored_dataset, Stored};
use diamond::dataset::{columns_message, load_csv, load_records, save_csv, CsvFault, COLUMNS};
use diamond::features::Sample;

fn sample(pk: i64) -> Sample<String> {
    Sample {
        game_pk: pk,
        date: "2024-04-02".to_string(),
        season: 2024,
        home_name: "Los, Angeles\n\"".replace('"', ""),
        away_name: "St. Louis".to_string(),
        home_score: 5,
        away_score: -1,
        label: 1,
        features: (0..29).map(|i| format!("{:.6}", i as f32 / 8.0 - 1.0)).collect(),
        home_gp: 17,
        away_gp: 0,
        elo_prob: "0.534567".to_string(),
    }
}

fn same_sample(a: &Sample<String>, b: &Sample<String>) -> bool {
    a.game_pk == b.game_pk
        && a.date == b.date
        && a.season == b.season
        && a.home_name == b.home_name
        && a.away_name == b.away_name
        && a.home_score == b.home_score
        && a.away_score == b.away_score
        && a.label == b.label
        && a.features == b.features
        && a.home_gp == b.home_gp
        && a.away_gp == b.away_gp
        && a.elo_prob == b.elo_prob
}

#[test]
fn lines_of_the_table() {
    let text = save_csv(&vec![sample(-3)]);
    let mut lines = text.split('\n');
    let head = lines.next().unwrap();
    assert!(head.starts_with(
        "game_pk,date,season,home,away,home_score,away_score,label,home_gp,away_gp,elo_baseline,elo_diff,elo_prob,home_wpct,"
    ));
    assert!(head.ends_with(",home_wpct_at_home,away_wpct_on_road,home_rundiff_at_home,away_rundiff_on_road"));
    assert_eq!(head.split(',').count(), COLUMNS);
    assert!(text.contains("\n-3,2024-04-02,2024,\"Los, Angeles\n\",\"St. Louis\",5,-1,1,17,0,0.534567,-1.000000,-0.875000,"));
    assert!(text.ends_with(",2.500000\n"));
}

#[test]
fn what_was_written_reads_back() {
    let samples = vec![sample(1), sample(i64::MIN), sample(77)];
    let text = save_csv(&samples);
    let back = match load_csv(text.as_bytes()) {
        Ok(back) => back,
        Err(_) => panic!("fault"),
    };
    assert_eq!(back.len(), 3);
    for i in 0..3 {
        assert!(same_sample(&samples[i], &back[i]));
    }
    match load_csv(save_csv(&Vec::new()).as_bytes()) {
        Ok(none) => assert!(none.is_empty()),
        Err(_) => panic!("fault"),
    }
}

#[test]
fn an_inner_quote_in_a_date_reads_back() {
    let mut s = sample(5);
    s.date = "a\"b".to_string();
    let back = match load_csv(save_csv(&vec![s.clone()]).as_bytes()) {
        Ok(back) => back,
        Err(_) => panic!("fault"),
    };
    assert!(same_sample(&s, &back[0]));
}

fn record() -> Vec<String> {
    let mut r: Vec<String> = vec!["1", "2024-04-02", "2024", "H", "A", "5", "3", "1", "7", "8", "0.5"]
        .into_iter()
        .map(String::from)
        .collect();
    for _ in 0..29 {
        r.push("1e-3".to_string());
    }
    r
}

fn fault_of(column: usize, text: &str) -> Option<(usize, String)> {
    let mut r = record();
    r[column] = text.to_string();
    match load_records(&vec![record(), r], None) {
        Err(CsvFault::Field { column, text }) => Some((column, text)),
        _ => None,
    }
}

#[test]
fn fields_that_do_not_fit() {
    assert_eq!(fault_of(0, "x"), Some((0, "x".to_string())));
    assert_eq!(fault_of(0, "9223372036854775808"), Some((0, "9223372036854775808".to_string())));
    assert_eq!(fault_of(2, "2147483648"), Some((2, "2147483648".to_string())));
    assert_eq!(fault_of(5, ""), Some((5, String::new())));
    assert_eq!(fault_of(6, "1.0"), Some((6, "1.0".to_string())));
    assert_eq!(fault_of(7, "-1"), Some((7, "-1".to_string())));
    assert_eq!(fault_of(9, " 1"), Some((9, " 1".to_string())));
    assert_eq!(fault_of(10, "half"), Some((10, "half".to_string())));
    assert_eq!(fault_of(11, "."), Some((11, ".".to_string())));
    assert_eq!(fault_of(39, "1e"), Some((39, "1e".to_string())));
    for fine in ["+3", "-.5", "1.", "inf", "-NaN", "Infinity", "2E+7"] {
        assert_eq!(fault_of(20, fine), None, "{}", fine);
        assert!(fine.parse::<f32>().is_ok());
    }
    assert_eq!(fault_of(1, ""), None);
    assert_eq!(fault_of(8, "+8"), None);
}

#[test]
fn features_are_read_first() {
    let mut r = record();
    r[0] = "x".to_string();
    r[30] = "y".to_string();
    match load_records(&vec![r], None) {
        Err(CsvFault::Field { column, .. }) => assert_eq!(column, 30),
        _ => panic!("read"),
    }
}

#[test]
fn other_columns_and_reader_errors() {
    let mut short = record();
    short.pop();
    assert!(matches!(load_records(&vec![record(), short.clone()], None), Err(CsvFault::Columns(39))));
    assert!(matches!(
        load_records(&vec![record()], Some("broken".to_string())),
        Err(CsvFault::Reader(_))
    ));
    // A fault before the error of the reader comes first.
    assert!(matches!(
        load_records(&vec![short], Some("broken".to_string())),
        Err(CsvFault::Columns(39))
    ));
    // Rows of unequal length are an error of the reader.
    assert!(matches!(load_csv(b"a,b\n1,2,3\n"), Err(CsvFault::Reader(_))));
    assert!(matches!(load_csv(b"a,b\n1,2\n"), Err(CsvFault::Columns(2))));
    assert_eq!(
        columns_message(36),
        "CSV con 36 columnas, se esperaban 40. Regenera el dataset con `fetch`."
    );
}

#[test]
fn stored_data_sets() {
    assert!(matches!(stored_dataset(None), Stored::Absent));
    assert!(matches!(stored_dataset(Some(b"")), Stored::Empty));
    assert!(matches!(stored_dataset(Some(b"a,b\n1,2\n")), Stored::Faulty(CsvFault::Columns(2))));
    let text = save_csv(&vec![sample(1)]);
    match stored_dataset(Some(text.as_bytes())) {
        Stored::Loaded(samples) => assert_eq!(samples.len(), 1),
        _ => panic!("not loaded"),
    }
}
