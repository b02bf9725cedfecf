use diamond::big::{Big, Side};
use diamond::mlb::RawGame;
use diamond::numbers::{
    chars_of, decimal, is_fraction, parse_bounded, parse_i32, parse_i64, parse_usize,
};
use diamond::order::{stable_order, stable_sort};
use diamond::single::place_of;
use diamond::text::{at_most, month_prefix, same};

#[test]
fn order_of_texts() {
    let list = ["", "2024-05", "2024-05-01", "2024-1", "é", "z", "\u{ffff}", "\u{10000}"];
    for a in list {
        for b in list {
            assert_eq!(at_most(a, b), a <= b);
            assert_eq!(same(a, b), a == b);
        }
    }
    assert_eq!(month_prefix("2024-05-01"), "2024-05");
}

#[test]
fn integers_as_text() {
    for i in [0i128, 7, -1, 10, 1234567890, i64::MIN as i128, u64::MAX as i128] {
        assert_eq!(decimal(i), i.to_string());
        assert_eq!(parse_bounded(&decimal(i), -0x1_0000_0000_0000_0000, 0x1_0000_0000_0000_0000), Some(i));
    }
    for t in ["", "+", "-", "+5", "-5", "007", "9223372036854775807", "9223372036854775808", "-9223372036854775808", "1 ", "1_0", "٣", "--1"] {
        assert_eq!(parse_i64(t), t.parse::<i64>().ok(), "{}", t);
        assert_eq!(parse_i32(t), t.parse::<i32>().ok(), "{}", t);
        assert_eq!(parse_usize(t), t.parse::<usize>().ok(), "{}", t);
    }
    assert_eq!(chars_of("aé"), vec!['a', 'é']);
}

#[test]
fn fractions_as_text() {
    for t in [
        "", "1", "1.5", ".5", "5.", ".", "+.5e3", "-1e-7", "1e", "e1", "1e+", "inf", "INF", "-inFinity",
        "nan", "nanx", "+nan", "infinit", "1.2.3", "0x1", "1,5", " 1", "1 ", "+-1", "1e5.0", "E5", ".e1", "-",
    ] {
        assert_eq!(is_fraction(t), t.parse::<f32>().is_ok(), "{}", t);
    }
}

#[test]
fn places_of_numbers() {
    let long = format!("0.{}1", "0".repeat(200));
    let nines = "9".repeat(60);
    let half = format!("16777217.{}", "0".repeat(40));
    let over = format!("16777217.{}1", "0".repeat(40));
    for t in [
        "0", "-0", "1", "-1", "0.1", ".3", "5.", "12.5", "99", "1e10", "1E-10", "+1e+5", "-2.5e-3",
        "16777216", "16777217", "16777219", &half, &over, "3.4028235e38", "3.4028236e38", "3.5e38",
        "340282356779733661637539395458142568447", "340282356779733661637539395458142568448",
        "1e39", "1e-45", "7.0064923216240853e-46", "7.0064923216240855e-46", "1e-46", "1.17549435e-38",
        "1e99999999999999999999999999", "-1e99999999999999999999999999",
        "1e-99999999999999999999999999", "0e99999999999999999999999999", "inf", "-INF", "Infinity",
        &long, &nines, "0.000000000000000000000000000000000000000000001e40", "00000.30000",
    ] {
        let x = t.parse::<f32>().unwrap();
        let bits = x.to_bits() as i32;
        let key = (bits ^ (((bits >> 31) as u32) >> 1) as i32) as i64;
        assert_eq!(place_of(t), Some(key), "{}", t);
    }
    assert!(place_of("nan").unwrap() > place_of("inf").unwrap());
    assert!(place_of("-nan").unwrap() < place_of("-inf").unwrap());
    for t in ["", ".", "-", "1e", "a", "1.2.3", " 1", "e5"] {
        assert_eq!(place_of(t), None, "{}", t);
    }
}

#[test]
fn numbers_of_any_size() {
    let a = Big::one().doubled(100);
    let b = Big::one().doubled(100).times_plus(1, 1);
    assert_eq!(a.side(&b), Side::Below);
    assert_eq!(b.side(&a), Side::Above);
    assert_eq!(a.side(&Big::one().doubled(100)), Side::Equal);
    assert_eq!(Big::zero().side(&Big::zero().times_plus(5, 0)), Side::Equal);
    let million = Big::one().tenfold(6);
    assert_eq!(million.side(&Big::zero().times_plus(0, 1_000_000)), Side::Equal);
}

fn game(pk: i64, date: &str) -> RawGame {
    RawGame {
        game_pk: pk,
        date: date.to_string(),
        season: 0,
        home_id: 0,
        home_name: String::new(),
        away_id: 0,
        away_name: String::new(),
        home_score: 0,
        away_score: 0,
        home_sp_id: 0,
        away_sp_id: 0,
    }
}

#[test]
fn sorting_is_stable() {
    let mut games = Vec::new();
    for i in 0..40i64 {
        let mut g = game((i * 7) % 5, if i % 3 == 0 { "b" } else { "a" });
        g.season = i as i32;
        games.push(g);
    }
    let mut expected = games.clone();
    expected.sort_by(|a, b| a.date.cmp(&b.date).then(a.game_pk.cmp(&b.game_pk)));
    let order = stable_order(&games);
    let sorted = stable_sort(games.clone());
    for i in 0..40 {
        assert_eq!(sorted[i].season, expected[i].season);
        assert_eq!(games[order[i]].season, expected[i].season);
    }
    assert!(stable_sort(Vec::<RawGame>::new()).is_empty());
}
