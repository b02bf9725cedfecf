use diamond::cli::{parse_command, parse_seasons, Command};
use diamond::ui::{
    handle, render, replace_all, request_path, route_of, Happening, Phase, Route, Server, Snapshot,
    DATA_MARK,
};

#[test]
fn data_in_the_page() {
    assert_eq!(render("<a>/*__DATA__*/null</a>", "{\"x\":1}"), "<a>{\"x\":1}</a>");
    assert_eq!(render("no place", "1"), "no place");
    let twice = format!("é{DATA_MARK}-{DATA_MARK}");
    assert_eq!(render(&twice, "d"), "éd-d");
    assert_eq!(render(DATA_MARK, DATA_MARK), DATA_MARK);
}

#[test]
fn replacing_without_overlaps() {
    for (s, mark, by) in [("aaaa", "aa", "b"), ("aaa", "aa", ""), ("", "x", "y"), ("xax", "x", "xx")] {
        assert_eq!(replace_all(s, mark, by), s.replace(mark, by));
    }
}

#[test]
fn paths_of_requests() {
    assert_eq!(request_path("GET /api HTTP/1.1\r\n"), "/api");
    assert_eq!(request_path("  GET\t /x  HTTP/1.1"), "/x");
    assert_eq!(request_path("GET"), "/");
    assert_eq!(request_path(""), "/");
    assert_eq!(request_path("GET\u{a0}/é\u{3000}z"), "/é");
    for line in ["a b c", " a\u{2003}b ", "\u{85}one", "x\u{200b}y z", "\u{1680}q\u{2028}r"] {
        assert_eq!(request_path(line), line.split_whitespace().nth(1).unwrap_or("/"), "{}", line);
    }
}

#[test]
fn routes() {
    assert_eq!(route_of("/"), Route::Page);
    assert_eq!(route_of("/index.html"), Route::Page);
    assert_eq!(route_of("/api"), Route::Data);
    assert_eq!(route_of("/api.json"), Route::Data);
    assert_eq!(route_of("/API"), Route::Missing);
}

#[test]
fn replies() {
    let snap = Snapshot::of("<p>/*__DATA__*/null</p>", "{\"é\":1}");
    let page = handle("GET / HTTP/1.1", &snap);
    assert_eq!(page.body, "<p>{\"é\":1}</p>");
    assert_eq!(
        page.respond(),
        "HTTP/1.1 200 OK\r\nContent-Type: text/html; charset=utf-8\r\nContent-Length: 15\r\nCache-Control: no-store\r\nConnection: close\r\n\r\n"
    );
    let data = handle("GET /api HTTP/1.1", &snap);
    assert_eq!(data.body, "{\"é\":1}");
    assert_eq!(data.ctype, "application/json; charset=utf-8");
    let missing = handle("GET /nothing HTTP/1.1", &snap);
    assert_eq!((missing.status.as_str(), missing.body.as_str()), ("404 Not Found", "no existe"));
    assert_eq!(missing.ctype, "text/plain; charset=utf-8");
}

#[test]
fn a_failed_refresh_keeps_the_last_version() {
    let snap = Snapshot::of("/*__DATA__*/null", "1");
    let snap = snap.refreshed("/*__DATA__*/null", &Err("down".to_string()));
    assert_eq!((snap.html.as_str(), snap.json.as_str()), ("1", "1"));
    let snap = snap.refreshed("/*__DATA__*/null", &Ok("2".to_string()));
    assert_eq!((snap.html.as_str(), snap.json.as_str()), ("2", "2"));
}

#[test]
fn many_failed_refreshes_keep_the_last_good_version() {
    let template = "<p>/*__DATA__*/null</p>";
    let down = Err("down".to_string());
    let mut snap = Snapshot::of(template, "1");
    for outcome in [down.clone(), Ok("2".to_string()), down.clone(), down.clone(), down] {
        snap = snap.refreshed(template, &outcome);
    }
    assert_eq!(handle("GET / HTTP/1.1", &snap).body, "<p>2</p>");
    assert_eq!(handle("GET /api HTTP/1.1", &snap).body, "2");
}

#[test]
fn the_server_goes_on() {
    let template = "<p>/*__DATA__*/null</p>";
    let mut server = Server::new(template, "1");
    assert_eq!(server.phase, Phase::Binding);
    server = server.happened(template, Happening::Bound);
    for outcome in [Err("down".to_string()), Ok("2".to_string()), Err("down".to_string())] {
        assert_eq!(server.phase, Phase::Waiting);
        server = server.happened(template, Happening::Elapsed);
        assert_eq!(server.phase, Phase::Refreshing);
        server = server.happened(template, Happening::Refreshed(outcome));
    }
    assert_eq!(server.phase, Phase::Waiting);
    assert_eq!(handle("GET /api HTTP/1.1", &server.snap).body, "2");
    // A refresh that was not due is not taken in.
    server = server.happened(template, Happening::Refreshed(Ok("3".to_string())));
    assert_eq!(server.snap.json, "2");
}

#[test]
fn without_a_port_nothing_is_refreshed() {
    let mut server = Server::new("", "1").happened("", Happening::NotBound);
    for h in [Happening::Bound, Happening::Elapsed, Happening::Refreshed(Ok("2".to_string()))] {
        server = server.happened("", h);
        assert_eq!(server.phase, Phase::Failed);
    }
    assert_eq!(server.snap.json, "1");
}

fn words(list: &[&str]) -> Vec<String> {
    list.iter().map(|s| s.to_string()).collect()
}

#[test]
fn seasons_that_are_asked_for() {
    assert_eq!(parse_seasons(&words(&["fetch", "2023", "x", "2024"]), 1), vec![2023, 2024]);
    let usual = vec![2018, 2019, 2021, 2022, 2023, 2024, 2025, 2026];
    assert_eq!(parse_seasons(&words(&["fetch", "x"]), 1), usual);
    assert_eq!(parse_seasons(&words(&[]), 0), usual);
    assert!(!usual.contains(&2020));
}

#[test]
fn commands() {
    assert!(matches!(parse_command(&words(&[])), Command::All));
    assert!(matches!(parse_command(&words(&["all"])), Command::All));
    assert!(matches!(parse_command(&words(&["train"])), Command::Train));
    match parse_command(&words(&["fetch", "2023"])) {
        Command::Fetch(seasons) => assert_eq!(seasons, vec![2023]),
        _ => panic!("other"),
    }
    match parse_command(&words(&["backtest"])) {
        Command::Backtest(from) => assert_eq!(from, "2024-05-01"),
        _ => panic!("other"),
    }
    match parse_command(&words(&["backtest", "2024-04-01"])) {
        Command::Backtest(from) => assert_eq!(from, "2024-04-01"),
        _ => panic!("other"),
    }
    assert!(matches!(parse_command(&words(&["predict"])), Command::Predict(None)));
    match parse_command(&words(&["predict", "2026-08-15"])) {
        Command::Predict(Some(date)) => assert_eq!(date, "2026-08-15"),
        _ => panic!("other"),
    }
    match parse_command(&words(&["ui"])) {
        Command::Serve { days, port, every } => assert_eq!((days, port, every), (10, 8080, 60)),
        _ => panic!("other"),
    }
    match parse_command(&words(&["serve", "15", "9000", "30"])) {
        Command::Serve { days, port, every } => assert_eq!((days, port, every), (15, 9000, 30)),
        _ => panic!("other"),
    }
    match parse_command(&words(&["ui", "-3", "65536", "-1"])) {
        Command::Serve { days, port, every } => assert_eq!((days, port, every), (-3, 8080, 60)),
        _ => panic!("other"),
    }
    assert!(matches!(parse_command(&words(&["export", "x"])), Command::Export(10)));
    match parse_command(&words(&["help"])) {
        Command::Unknown(other) => assert_eq!(other, "help"),
        _ => panic!("other"),
    }
}
