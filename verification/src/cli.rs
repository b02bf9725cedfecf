//! What the program is asked to do, and whether a stored data set will do.

use vstd::prelude::*;
use crate::dataset::{load_csv, table_reading, texts, text_samples, CsvFault, CsvFaultView};
use crate::features::{Sample, SampleView};
use crate::live::DEFAULT_DAYS;
use crate::numbers::{bounded_int, parse_bounded, parse_i32};
use crate::outside::csv_reading;
use crate::text::same;

verus! {

/// The seasons that are loaded where none are asked for. The short season of 2020,
/// played without spectators, is left out.
pub const DEFAULT_SEASONS: [i32; 8] = [2018, 2019, 2021, 2022, 2023, 2024, 2025, 2026];

/// Games that both teams must have played before a row is used.
pub const MIN_GP: usize = 15;

/// The port of the panel where none is asked for.
pub const DEFAULT_PORT: u16 = 8080;

/// The seconds between refreshes where none are asked for.
pub const DEFAULT_EVERY: u64 = 60;

/// What the program is asked to do.
pub enum Command {
    /// Load the games of some seasons and write the data set.
    Fetch(Vec<i32>),
    /// Train on the past and test on the last season.
    Train,
    /// Validate month by month from a date on.
    Backtest(String),
    /// Forecast the first day of games from a date on, where one is given.
    Predict(Option<String>),
    /// Serve the panel of so many days on a port, refreshed every so many seconds.
    Serve { days: i64, port: u16, every: u64 },
    /// Write the panel of so many days to a file.
    Export(i64),
    /// Train, validate and forecast.
    All,
    Unknown(String),
}

pub enum CommandView {
    Fetch(Seq<i32>),
    Train,
    Backtest(Seq<char>),
    Predict(Option<Seq<char>>),
    Serve { days: int, port: int, every: int },
    Export(int),
    All,
    Unknown(Seq<char>),
}

impl View for Command {
    type V = CommandView;

    open spec fn view(&self) -> CommandView {
        match self {
            Command::Fetch(seasons) => CommandView::Fetch(seasons@),
            Command::Train => CommandView::Train,
            Command::Backtest(from) => CommandView::Backtest(from@),
            Command::Predict(Some(date)) => CommandView::Predict(Some(date@)),
            Command::Predict(None) => CommandView::Predict(None),
            Command::Serve { days, port, every } => CommandView::Serve {
                days: *days as int,
                port: *port as int,
                every: *every as int,
            },
            Command::Export(days) => CommandView::Export(*days as int),
            Command::All => CommandView::All,
            Command::Unknown(other) => CommandView::Unknown(other@),
        }
    }
}

/// The words that read as seasons.
pub open spec fn read_seasons(words: Seq<Seq<char>>) -> Seq<i32>
    decreases words.len(),
{
    if words.len() == 0 {
        Seq::empty()
    } else {
        match bounded_int(words.last(), i32::MIN as int, i32::MAX as int) {
            Some(season) => read_seasons(words.drop_last()).push(season as i32),
            None => read_seasons(words.drop_last()),
        }
    }
}

/// The seasons that are asked for, or the usual ones where no word reads as one.
pub open spec fn seasons_of(words: Seq<Seq<char>>) -> Seq<i32> {
    if read_seasons(words).len() == 0 {
        DEFAULT_SEASONS@
    } else {
        read_seasons(words)
    }
}

/// The number that a word gives, within bounds, or another where there is no such
/// word or it gives none.
pub open spec fn number_at(
    words: Seq<Seq<char>>,
    i: int,
    lo: int,
    hi: int,
    other: int,
) -> int {
    if i < words.len() {
        match bounded_int(words[i], lo, hi) {
            Some(n) => n,
            None => other,
        }
    } else {
        other
    }
}

pub open spec fn days_at(words: Seq<Seq<char>>, i: int) -> int {
    number_at(words, i, i64::MIN as int, i64::MAX as int, DEFAULT_DAYS as int)
}

/// What the words of a command line ask for.
pub open spec fn command_of(words: Seq<Seq<char>>) -> CommandView {
    if words.len() == 0 || words[0] == "all"@ {
        CommandView::All
    } else if words[0] == "fetch"@ {
        CommandView::Fetch(seasons_of(words.skip(1)))
    } else if words[0] == "train"@ {
        CommandView::Train
    } else if words[0] == "backtest"@ {
        CommandView::Backtest(
            if words.len() > 1 {
                words[1]
            } else {
                "2024-05-01"@
            },
        )
    } else if words[0] == "predict"@ {
        CommandView::Predict(
            if words.len() > 1 {
                Some(words[1])
            } else {
                None
            },
        )
    } else if words[0] == "ui"@ || words[0] == "serve"@ {
        CommandView::Serve {
            days: days_at(words, 1),
            port: number_at(words, 2, 0, u16::MAX as int, DEFAULT_PORT as int),
            every: number_at(words, 3, 0, u64::MAX as int, DEFAULT_EVERY as int),
        }
    } else if words[0] == "export"@ {
        CommandView::Export(days_at(words, 1))
    } else {
        CommandView::Unknown(words[0])
    }
}

/// The panel is served for the days of the first word behind the command, on the port of
/// the second, refreshed after the seconds of the third; each word that is missing or is
/// no such number leaves ten days, port 8080 and sixty seconds.
pub proof fn lemma_serving_takes_days_port_and_seconds(words: Seq<Seq<char>>, c: Command)
    requires
        words.len() > 0,
        words[0] == "ui"@ || words[0] == "serve"@,
        c@ == command_of(words),
    ensures
        c matches Command::Serve { days, port, every } && {
            &&& words.len() > 1 ==> {
                bounded_int(words[1], i64::MIN as int, i64::MAX as int) matches Some(n) ==> days
                    == n
            }
            &&& words.len() > 2 ==> {
                bounded_int(words[2], 0, 65535) matches Some(n) ==> port == n
            }
            &&& words.len() > 3 ==> {
                bounded_int(words[3], 0, u64::MAX as int) matches Some(n) ==> every == n
            }
            &&& words.len() <= 1 ==> days == 10
            &&& words.len() <= 2 ==> port == 8080
            &&& words.len() <= 3 ==> every == 60
        },
{
    reveal_strlit("ui");
    reveal_strlit("serve");
    reveal_strlit("all");
    reveal_strlit("fetch");
    reveal_strlit("train");
    reveal_strlit("backtest");
    reveal_strlit("predict");
    assert("ui"@.len() == 2 && "serve"@.len() == 5 && "all"@.len() == 3);
    assert("backtest"@.len() == 8 && "predict"@.len() == 7);
    assert(words[0].len() == 2 || words[0].len() == 5);
    assert(words[0] != "all"@ && words[0] != "backtest"@ && words[0] != "predict"@);
    assert("serve"@[0] != "fetch"@[0] && "serve"@[0] != "train"@[0]);
    assert("ui"@.len() != "fetch"@.len() && "ui"@.len() != "train"@.len());
}

/// The first word names the command, and the word behind it, where the command takes one,
/// says what it is about: the seasons to fetch, the day to test from, the day to forecast,
/// the days to export.
pub proof fn lemma_first_word_names_the_command(words: Seq<Seq<char>>, c: Command)
    requires
        c@ == command_of(words),
    ensures
        words.len() == 0 ==> c is All,
        words.len() > 0 && words[0] == "all"@ ==> c is All,
        words.len() > 0 && words[0] == "fetch"@ ==> (c matches Command::Fetch(s) && s@
            == seasons_of(words.subrange(1, words.len() as int))),
        words.len() > 0 && words[0] == "train"@ ==> c is Train,
        words.len() > 1 && words[0] == "backtest"@ ==> (c matches Command::Backtest(d) && d@
            == words[1]),
        words.len() == 1 && words[0] == "backtest"@ ==> (c matches Command::Backtest(d) && d@
            == "2024-05-01"@),
        words.len() > 1 && words[0] == "predict"@ ==> (c matches Command::Predict(Some(d)) && d@
            == words[1]),
        words.len() == 1 && words[0] == "predict"@ ==> c == Command::Predict(None),
        words.len() > 1 && words[0] == "export"@ && bounded_int(
            words[1],
            i64::MIN as int,
            i64::MAX as int,
        ) is Some ==> (c matches Command::Export(n) && n == bounded_int(
            words[1],
            i64::MIN as int,
            i64::MAX as int,
        )->0),
        words.len() == 1 && words[0] == "export"@ ==> c == Command::Export(10),
        c matches Command::Unknown(other) ==> words.len() > 0 && other@ == words[0],
{
    reveal_strlit("all");
    reveal_strlit("fetch");
    reveal_strlit("train");
    reveal_strlit("backtest");
    reveal_strlit("predict");
    reveal_strlit("ui");
    reveal_strlit("serve");
    reveal_strlit("export");
    assert("all"@.len() == 3 && "fetch"@.len() == 5 && "train"@.len() == 5 && "ui"@.len() == 2);
    assert("backtest"@.len() == 8 && "predict"@.len() == 7 && "serve"@.len() == 5);
    assert("export"@.len() == 6);
    assert("fetch"@[0] == 'f' && "train"@[0] == 't' && "serve"@[0] == 's');
    if words.len() > 0 {
        assert(words.skip(1) =~= words.subrange(1, words.len() as int));
    }
}

/// The seasons that are loaded are exactly those that the words name, in their order, and
/// the usual ones, without 2020, where no word names one.
pub proof fn lemma_named_seasons_are_loaded(words: Seq<Seq<char>>, k: int)
    requires
        0 <= k < words.len(),
        bounded_int(words[k], i32::MIN as int, i32::MAX as int) is Some,
    ensures
        seasons_of(words).len() <= words.len(),
        read_seasons(words.take(k)).len() < seasons_of(words).len(),
        seasons_of(words)[read_seasons(words.take(k)).len() as int] == bounded_int(
            words[k],
            i32::MIN as int,
            i32::MAX as int,
        )->0,
        !DEFAULT_SEASONS@.contains(2020),
{
    lemma_read_seasons(words, k);
}

proof fn lemma_read_seasons(words: Seq<Seq<char>>, k: int)
    requires
        0 <= k < words.len(),
    ensures
        read_seasons(words).len() <= words.len(),
        bounded_int(words[k], i32::MIN as int, i32::MAX as int) matches Some(n) ==> {
            &&& read_seasons(words.take(k)).len() < read_seasons(words).len()
            &&& read_seasons(words)[read_seasons(words.take(k)).len() as int] == n
        },
    decreases words.len(),
{
    let rest = words.drop_last();
    if k < rest.len() {
        lemma_read_seasons(rest, k);
        assert(rest[k] == words[k]);
        assert(rest.take(k) =~= words.take(k));
    } else {
        assert(words.take(k) =~= rest);
        if rest.len() > 0 {
            lemma_read_seasons(rest, 0);
        }
    }
}

/// The seasons that the words from the `from`-th on ask for.
pub fn parse_seasons(words: &Vec<String>, from: usize) -> (out: Vec<i32>)
    requires
        from <= words@.len(),
    ensures
        out@ == seasons_of(texts(words@).skip(from as int)),
{
    let ghost asked = texts(words@).skip(from as int);
    let mut parsed: Vec<i32> = Vec::new();
    let mut i: usize = from;
    assert(asked.take(0) =~= Seq::<Seq<char>>::empty());
    while i < words.len()
        invariant
            from <= i <= words@.len(),
            asked == texts(words@).skip(from as int),
            parsed@ == read_seasons(asked.take(i - from)),
        decreases words@.len() - i,
    {
        assert(asked.take(i - from + 1).drop_last() =~= asked.take(i - from));
        assert(asked.take(i - from + 1).last() == words@[i as int]@);
        if let Some(season) = parse_i32(words[i].as_str()) {
            parsed.push(season);
        }
        i += 1;
    }
    assert(asked.take(i - from) =~= asked);
    if parsed.len() == 0 {
        let mut usual: Vec<i32> = Vec::new();
        let mut k: usize = 0;
        while k < 8
            invariant
                k <= 8,
                usual@ == DEFAULT_SEASONS@.take(k as int),
            decreases 8 - k,
        {
            usual.push(DEFAULT_SEASONS[k]);
            k += 1;
            assert(usual@ =~= DEFAULT_SEASONS@.take(k as int));
        }
        assert(DEFAULT_SEASONS@.take(8) =~= DEFAULT_SEASONS@);
        return usual;
    }
    parsed
}

fn parse_number(words: &Vec<String>, i: usize, lo: i128, hi: i128, other: i128) -> (r: i128)
    requires
        -0x1_0000_0000_0000_0000 <= lo <= 0,
        0 <= hi <= 0x1_0000_0000_0000_0000,
        lo <= other <= hi,
    ensures
        r == number_at(texts(words@), i as int, lo as int, hi as int, other as int),
        lo <= r <= hi,
{
    if i < words.len() {
        match parse_bounded(words[i].as_str(), lo, hi) {
            Some(n) => n,
            None => other,
        }
    } else {
        other
    }
}

fn parse_days(words: &Vec<String>, i: usize) -> (r: i64)
    ensures
        r == days_at(texts(words@), i as int),
{
    let days: i128 = parse_number(
        words,
        i,
        -0x8000_0000_0000_0000,
        0x7fff_ffff_ffff_ffff,
        DEFAULT_DAYS as i128,
    );
    days as i64
}

/// What the words of a command line ask for.
pub fn parse_command(words: &Vec<String>) -> (c: Command)
    ensures
        c@ == command_of(texts(words@)),
{
    if words.len() == 0 {
        return Command::All;
    }
    let cmd = words[0].as_str();
    if same(cmd, "all") {
        Command::All
    } else if same(cmd, "fetch") {
        Command::Fetch(parse_seasons(words, 1))
    } else if same(cmd, "train") {
        Command::Train
    } else if same(cmd, "backtest") {
        if words.len() > 1 {
            Command::Backtest(words[1].clone())
        } else {
            Command::Backtest("2024-05-01".to_owned())
        }
    } else if same(cmd, "predict") {
        if words.len() > 1 {
            Command::Predict(Some(words[1].clone()))
        } else {
            Command::Predict(None)
        }
    } else if same(cmd, "ui") || same(cmd, "serve") {
        Command::Serve {
            days: parse_days(words, 1),
            port: parse_number(words, 2, 0, 0xffff, DEFAULT_PORT as i128) as u16,
            every: parse_number(words, 3, 0, 0xffff_ffff_ffff_ffff, DEFAULT_EVERY as i128) as u64,
        }
    } else if same(cmd, "export") {
        Command::Export(parse_days(words, 1))
    } else {
        Command::Unknown(words[0].clone())
    }
}

/// What became of a stored data set.
pub enum Stored {
    /// It holds samples.
    Loaded(Vec<Sample<String>>),
    /// There is none.
    Absent,
    /// It holds no sample.
    Empty,
    /// It is not a data set, or one of another form.
    Faulty(CsvFault),
}

/// Reads a stored data set, where there is one. Only one that holds samples is used;
/// otherwise it has to be made anew.
pub fn stored_dataset(bytes: Option<&[u8]>) -> (r: Stored)
    ensures
        match (bytes, r) {
            (None, Stored::Absent) => true,
            (Some(b), Stored::Loaded(samples)) => samples@.len() > 0 && table_reading(
                csv_reading(b@).0,
                csv_reading(b@).1,
            ) == Ok::<Seq<SampleView<Seq<char>>>, CsvFaultView>(text_samples(samples@)),
            (Some(b), Stored::Empty) => table_reading(csv_reading(b@).0, csv_reading(b@).1) == Ok::<
                Seq<SampleView<Seq<char>>>,
                CsvFaultView,
            >(Seq::empty()),
            (Some(b), Stored::Faulty(fault)) => table_reading(
                csv_reading(b@).0,
                csv_reading(b@).1,
            ) == Err::<Seq<SampleView<Seq<char>>>, CsvFaultView>(fault@),
            _ => false,
        },
{
    match bytes {
        Some(b) => match load_csv(b) {
            Ok(samples) => {
                if samples.len() > 0 {
                    Stored::Loaded(samples)
                } else {
                    assert(text_samples(samples@) =~= Seq::<SampleView<Seq<char>>>::empty());
                    Stored::Empty
                }
            },
            Err(fault) => Stored::Faulty(fault),
        },
        None => Stored::Absent,
    }
}

} // verus!
