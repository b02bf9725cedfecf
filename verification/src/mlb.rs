//! The schedule of the league: finished and scheduled games, read from the
//! documents of the MLB Stats API, and the rules of the download cache.

use vstd::prelude::*;
use crate::json::{
    int_of, int_or_zero, integer, integer_or_zero, items, items_of, read_json, text_else, text_or,
    Json, JsonView,
};
use crate::numbers::{bounded_int, decimal, int_text, parse_i32};
use crate::order::{is_stable_sort, lemma_sort_is_ordered, stable_sort, Ranked};
use crate::outside::{day_of_text, day_reading, day_writing, json_reading, text_of_day};
use crate::text::{at_most, lemma_text_total, lemma_text_transitive, same, text_le};

verus! {

/// Where downloads are kept.
pub const CACHE_DIR: &'static str = "data/raw";

/// For how many hours the next days of the schedule are kept: not at all, since
/// scores and announced pitchers change by the minute.
pub const WINDOW_MAX_AGE_H: u64 = 0;

/// A real game, normalised and without the noise of the API.
#[derive(Debug, Clone)]
pub struct RawGame {
    pub game_pk: i64,
    /// "YYYY-MM-DD"
    pub date: String,
    pub season: i32,
    pub home_id: i64,
    pub home_name: String,
    pub away_id: i64,
    pub away_name: String,
    pub home_score: i32,
    pub away_score: i32,
    /// Starting pitcher of the home team, 0 if unknown.
    pub home_sp_id: i64,
    pub away_sp_id: i64,
}

#[verifier::ext_equal]
pub struct GameView {
    pub game_pk: i64,
    pub date: Seq<char>,
    pub season: i32,
    pub home_id: i64,
    pub home_name: Seq<char>,
    pub away_id: i64,
    pub away_name: Seq<char>,
    pub home_score: i32,
    pub away_score: i32,
    pub home_sp_id: i64,
    pub away_sp_id: i64,
}

impl View for RawGame {
    type V = GameView;

    open spec fn view(&self) -> GameView {
        GameView {
            game_pk: self.game_pk,
            date: self.date@,
            season: self.season,
            home_id: self.home_id,
            home_name: self.home_name@,
            away_id: self.away_id,
            away_name: self.away_name@,
            home_score: self.home_score,
            away_score: self.away_score,
            home_sp_id: self.home_sp_id,
            away_sp_id: self.away_sp_id,
        }
    }
}

/// The views of a list of games.
pub open spec fn game_views(games: Seq<RawGame>) -> Seq<GameView> {
    Seq::new(games.len(), |i: int| games[i]@)
}

impl GameView {
    pub open spec fn home_won(self) -> bool {
        self.home_score > self.away_score
    }
}

impl RawGame {
    pub fn home_wins(&self) -> (r: bool)
        ensures
            r == self@.home_won(),
    {
        self.home_score > self.away_score
    }
}

/// Games are ordered by date, and within a date by their number.
impl Ranked for RawGame {
    open spec fn ranks_le(&self, other: &Self) -> bool {
        &&& text_le(self.date@, other.date@)
        &&& text_le(other.date@, self.date@) ==> self.game_pk <= other.game_pk
    }

    proof fn lemma_rank_total(a: &Self, b: &Self) {
        lemma_text_total(a.date@, b.date@);
    }

    proof fn lemma_rank_transitive(a: &Self, b: &Self, c: &Self) {
        lemma_text_transitive(a.date@, b.date@, c.date@);
        if text_le(c.date@, a.date@) {
            lemma_text_transitive(b.date@, c.date@, a.date@);
            lemma_text_transitive(c.date@, a.date@, b.date@);
        }
    }

    fn not_after(&self, other: &Self) -> (r: bool) {
        at_most(self.date.as_str(), other.date.as_str()) && (!at_most(
            other.date.as_str(),
            self.date.as_str(),
        ) || self.game_pk <= other.game_pk)
    }
}

/// A scheduled game, whose result is not yet firm.
#[derive(Debug, Clone)]
pub struct ScheduledGame {
    pub game_pk: i64,
    pub date: String,
    pub start_utc: String,
    pub home_id: i64,
    pub home_name: String,
    pub away_id: i64,
    pub away_name: String,
    pub home_sp_id: i64,
    pub home_sp_name: String,
    pub away_sp_id: i64,
    pub away_sp_name: String,
    pub venue: String,
    pub status: String,
    /// Both teams have announced their starting pitcher.
    pub pitchers_confirmed: bool,
    /// The real score, once there is one.
    pub home_score: Option<i32>,
    pub away_score: Option<i32>,
    pub is_final: bool,
    /// The game is being played.
    pub is_live: bool,
}

#[verifier::ext_equal]
pub struct ScheduledView {
    pub game_pk: i64,
    pub date: Seq<char>,
    pub start_utc: Seq<char>,
    pub home_id: i64,
    pub home_name: Seq<char>,
    pub away_id: i64,
    pub away_name: Seq<char>,
    pub home_sp_id: i64,
    pub home_sp_name: Seq<char>,
    pub away_sp_id: i64,
    pub away_sp_name: Seq<char>,
    pub venue: Seq<char>,
    pub status: Seq<char>,
    pub pitchers_confirmed: bool,
    pub home_score: Option<i32>,
    pub away_score: Option<i32>,
    pub is_final: bool,
    pub is_live: bool,
}

impl View for ScheduledGame {
    type V = ScheduledView;

    open spec fn view(&self) -> ScheduledView {
        ScheduledView {
            game_pk: self.game_pk,
            date: self.date@,
            start_utc: self.start_utc@,
            home_id: self.home_id,
            home_name: self.home_name@,
            away_id: self.away_id,
            away_name: self.away_name@,
            home_sp_id: self.home_sp_id,
            home_sp_name: self.home_sp_name@,
            away_sp_id: self.away_sp_id,
            away_sp_name: self.away_sp_name@,
            venue: self.venue@,
            status: self.status@,
            pitchers_confirmed: self.pitchers_confirmed,
            home_score: self.home_score,
            away_score: self.away_score,
            is_final: self.is_final,
            is_live: self.is_live,
        }
    }
}

/// The views of a list of scheduled games.
pub open spec fn scheduled_views(games: Seq<ScheduledGame>) -> Seq<ScheduledView> {
    Seq::new(games.len(), |i: int| games[i]@)
}

/// Scheduled games are ordered by date, and within a date by their start.
impl Ranked for ScheduledGame {
    open spec fn ranks_le(&self, other: &Self) -> bool {
        &&& text_le(self.date@, other.date@)
        &&& text_le(other.date@, self.date@) ==> text_le(self.start_utc@, other.start_utc@)
    }

    proof fn lemma_rank_total(a: &Self, b: &Self) {
        lemma_text_total(a.date@, b.date@);
        lemma_text_total(a.start_utc@, b.start_utc@);
    }

    proof fn lemma_rank_transitive(a: &Self, b: &Self, c: &Self) {
        lemma_text_transitive(a.date@, b.date@, c.date@);
        if text_le(c.date@, a.date@) {
            lemma_text_transitive(b.date@, c.date@, a.date@);
            lemma_text_transitive(c.date@, a.date@, b.date@);
            lemma_text_transitive(a.start_utc@, b.start_utc@, c.start_utc@);
        }
    }

    fn not_after(&self, other: &Self) -> (r: bool) {
        at_most(self.date.as_str(), other.date.as_str()) && (!at_most(
            other.date.as_str(),
            self.date.as_str(),
        ) || at_most(self.start_utc.as_str(), other.start_utc.as_str()))
    }
}

// ------------------------------------------------------------------ parsing

/// The state codes of a finished game: final, or over.
pub open spec fn is_finished_state(state: Seq<char>) -> bool {
    state == "F"@ || state == "O"@
}

/// The announced starting pitcher of a side, 0 if there is none.
pub open spec fn pitcher_id_view(side: JsonView) -> int {
    int_or_zero(side.get2("probablePitcher"@, "id"@))
}

/// The name of the announced starting pitcher of a side, empty if there is none.
pub open spec fn pitcher_name_view(side: JsonView) -> Seq<char> {
    text_or(side.get2("probablePitcher"@, "fullName"@), ""@)
}

/// The game that an entry of the schedule reports, if it is over, has both sides
/// and both scores, and is no tie: a tie has no winner to learn from.
pub open spec fn finished_game(g: JsonView, season: i32) -> Option<GameView> {
    match (g.get2("teams"@, "home"@), g.get2("teams"@, "away"@)) {
        (Some(home), Some(away)) => match (int_of(home.get("score"@)), int_of(away.get("score"@))) {
            (Some(hs), Some(aws)) => if is_finished_state(
                text_or(g.get2("status"@, "codedGameState"@), ""@),
            ) && hs != aws {
                Some(
                    GameView {
                        game_pk: int_or_zero(g.get("gamePk"@)) as i64,
                        date: text_or(g.get("officialDate"@), ""@),
                        season,
                        home_id: int_or_zero(home.get2("team"@, "id"@)) as i64,
                        home_name: text_or(home.get2("team"@, "name"@), "?"@),
                        away_id: int_or_zero(away.get2("team"@, "id"@)) as i64,
                        away_name: text_or(away.get2("team"@, "name"@), "?"@),
                        home_score: hs as i32,
                        away_score: aws as i32,
                        home_sp_id: pitcher_id_view(home) as i64,
                        away_sp_id: pitcher_id_view(away) as i64,
                    },
                )
            } else {
                None
            },
            _ => None,
        },
        _ => None,
    }
}

/// An optional item as a list of none or one.
pub open spec fn one_or_none<T>(item: Option<T>) -> Seq<T> {
    match item {
        Some(x) => seq![x],
        None => Seq::empty(),
    }
}

/// The finished games among the entries of a day.
pub open spec fn finished_games(entries: Seq<JsonView>, season: i32) -> Seq<GameView>
    decreases entries.len(),
{
    if entries.len() == 0 {
        Seq::empty()
    } else {
        finished_games(entries.drop_last(), season) + one_or_none(
            finished_game(entries.last(), season),
        )
    }
}

/// The entries of a day of the schedule, none where the day lists no games.
pub open spec fn day_entries(day: JsonView) -> Seq<JsonView> {
    match items_of(day.get("games"@)) {
        Some(entries) => entries,
        None => Seq::empty(),
    }
}

/// The entries of the schedule, day after day.
pub open spec fn all_entries(days: Seq<JsonView>) -> Seq<JsonView>
    decreases days.len(),
{
    if days.len() == 0 {
        Seq::empty()
    } else {
        all_entries(days.drop_last()) + day_entries(days.last())
    }
}

/// The entries of a schedule document, none where it lists no days.
pub open spec fn schedule_entries(doc: JsonView) -> Seq<JsonView> {
    match items_of(doc.get("dates"@)) {
        Some(days) => all_entries(days),
        None => Seq::empty(),
    }
}

fn pitcher_id(side: &Json) -> (r: i64)
    ensures
        r == pitcher_id_view(side@),
{
    integer_or_zero(side.get2("probablePitcher", "id"))
}

fn pitcher_name(side: &Json) -> (r: String)
    ensures
        r@ == pitcher_name_view(side@),
{
    text_else(side.get2("probablePitcher", "fullName"), "")
}

fn is_finished(state: &str) -> (r: bool)
    ensures
        r == is_finished_state(state@),
{
    same(state, "F") || same(state, "O")
}

/// The finished game that an entry of the schedule reports.
pub fn parse_finished(g: &Json, season: i32) -> (r: Option<RawGame>)
    ensures
        match r {
            Some(game) => finished_game(g@, season) == Some(game@),
            None => finished_game(g@, season) is None,
        },
{
    let state = text_else(g.get2("status", "codedGameState"), "");
    if !is_finished(state.as_str()) {
        return None;
    }
    let (home, away) = match (g.get2("teams", "home"), g.get2("teams", "away")) {
        (Some(home), Some(away)) => (home, away),
        _ => {
            return None;
        },
    };
    let (hs, aws) = match (integer(home.get("score")), integer(away.get("score"))) {
        (Some(hs), Some(aws)) => (hs, aws),
        _ => {
            return None;
        },
    };
    if hs == aws {
        return None;
    }
    let game = RawGame {
        game_pk: integer_or_zero(g.get("gamePk")),
        date: text_else(g.get("officialDate"), ""),
        season,
        home_id: integer_or_zero(home.get2("team", "id")),
        home_name: text_else(home.get2("team", "name"), "?"),
        away_id: integer_or_zero(away.get2("team", "id")),
        away_name: text_else(away.get2("team", "name"), "?"),
        home_score: #[verifier::truncate]
        (hs as i32),
        away_score: #[verifier::truncate]
        (aws as i32),
        home_sp_id: pitcher_id(home),
        away_sp_id: pitcher_id(away),
    };
    Some(game)
}

proof fn lemma_finished_games_step(entries: Seq<JsonView>, season: i32, i: int)
    requires
        0 <= i < entries.len(),
    ensures
        finished_games(entries.take(i + 1), season) == finished_games(entries.take(i), season)
            + one_or_none(finished_game(entries[i], season)),
{
    assert(entries.take(i + 1).drop_last() =~= entries.take(i));
}

proof fn lemma_finished_games_concat(a: Seq<JsonView>, b: Seq<JsonView>, season: i32)
    ensures
        finished_games(a + b, season) == finished_games(a, season) + finished_games(b, season),
    decreases b.len(),
{
    if b.len() == 0 {
        assert(a + b =~= a);
        assert(finished_games(a, season) + finished_games(b, season) =~= finished_games(
            a,
            season,
        ));
    } else {
        assert((a + b).drop_last() =~= a + b.drop_last());
        lemma_finished_games_concat(a, b.drop_last(), season);
        assert(finished_games(a + b, season) =~= finished_games(a, season) + finished_games(
            b,
            season,
        ));
    }
}

/// The finished games of a season, in the order of its schedule document.
pub fn parse_season(doc: &Json, season: i32) -> (out: Vec<RawGame>)
    ensures
        game_views(out@) == finished_games(schedule_entries(doc@), season),
{
    let mut out: Vec<RawGame> = Vec::new();
    let days = match items(doc.get("dates")) {
        Some(days) => days,
        None => {
            assert(game_views(out@) =~= Seq::empty());
            return out;
        },
    };
    let ghost day_views = items_of(doc@.get("dates"@))->0;
    let mut d: usize = 0;
    assert(game_views(out@) =~= Seq::empty());
    assert(day_views.take(0) =~= Seq::empty());
    while d < days.len()
        invariant
            d <= days@.len(),
            day_views.len() == days@.len(),
            forall|i: int| 0 <= i < days@.len() ==> #[trigger] day_views[i] == days@[i]@,
            game_views(out@) == finished_games(all_entries(day_views.take(d as int)), season),
        decreases days@.len() - d,
    {
        let ghost before = all_entries(day_views.take(d as int));
        let ghost entries = day_entries(day_views[d as int]);
        assert(day_views.take(d + 1).drop_last() =~= day_views.take(d as int));
        assert(all_entries(day_views.take(d + 1)) == before + entries);
        if let Some(games) = items(days[d].get("games")) {
            let ghost out0 = game_views(out@);
            let mut i: usize = 0;
            assert(entries.take(0) =~= Seq::empty());
            assert(out0 + Seq::<GameView>::empty() =~= out0);
            while i < games.len()
                invariant
                    i <= games@.len(),
                    entries.len() == games@.len(),
                    forall|k: int| 0 <= k < games@.len() ==> #[trigger] entries[k] == games@[k]@,
                    game_views(out@) == out0 + finished_games(entries.take(i as int), season),
                decreases games@.len() - i,
            {
                let ghost out1 = out@;
                proof {
                    lemma_finished_games_step(entries, season, i as int);
                }
                if let Some(game) = parse_finished(&games[i], season) {
                    out.push(game);
                    assert(game_views(out@) =~= game_views(out1).push(game@));
                }
                assert(game_views(out@) =~= out0 + finished_games(entries.take(i + 1), season));
                i += 1;
            }
            assert(entries.take(i as int) =~= entries);
        } else {
            assert(game_views(out@) =~= game_views(out@) + finished_games(entries, season));
        }
        proof {
            lemma_finished_games_concat(before, entries, season);
        }
        d += 1;
    }
    assert(day_views.take(d as int) =~= day_views);
    out
}

/// The game that an entry of the schedule announces, if it has both sides.
pub open spec fn scheduled_game(g: JsonView) -> Option<ScheduledView> {
    match (g.get2("teams"@, "home"@), g.get2("teams"@, "away"@)) {
        (Some(home), Some(away)) => {
            let state = text_or(g.get2("status"@, "codedGameState"@), "S"@);
            Some(
                ScheduledView {
                    game_pk: int_or_zero(g.get("gamePk"@)) as i64,
                    date: text_or(g.get("officialDate"@), ""@),
                    start_utc: text_or(g.get("gameDate"@), ""@),
                    home_id: int_or_zero(home.get2("team"@, "id"@)) as i64,
                    home_name: text_or(home.get2("team"@, "name"@), "?"@),
                    away_id: int_or_zero(away.get2("team"@, "id"@)) as i64,
                    away_name: text_or(away.get2("team"@, "name"@), "?"@),
                    home_sp_id: pitcher_id_view(home) as i64,
                    home_sp_name: pitcher_name_view(home),
                    away_sp_id: pitcher_id_view(away) as i64,
                    away_sp_name: pitcher_name_view(away),
                    venue: text_or(g.get2("venue"@, "name"@), ""@),
                    status: text_or(g.get2("status"@, "detailedState"@), "Scheduled"@),
                    pitchers_confirmed: pitcher_id_view(home) != 0 && pitcher_id_view(away) != 0,
                    home_score: score_view(home),
                    away_score: score_view(away),
                    is_final: is_finished_state(state),
                    is_live: state == "I"@,
                },
            )
        },
        _ => None,
    }
}

/// The score of a side, once it has one.
pub open spec fn score_view(side: JsonView) -> Option<i32> {
    match int_of(side.get("score"@)) {
        Some(score) => Some(score as i32),
        None => None,
    }
}

/// The games that the entries of a schedule announce.
pub open spec fn scheduled_games(entries: Seq<JsonView>) -> Seq<ScheduledView>
    decreases entries.len(),
{
    if entries.len() == 0 {
        Seq::empty()
    } else {
        scheduled_games(entries.drop_last()) + one_or_none(scheduled_game(entries.last()))
    }
}

fn parse_score(side: &Json) -> (r: Option<i32>)
    ensures
        r == score_view(side@),
{
    match integer(side.get("score")) {
        Some(score) => Some(
            #[verifier::truncate]
            (score as i32),
        ),
        None => None,
    }
}

/// The game that an entry of the schedule announces.
pub fn parse_scheduled(g: &Json) -> (r: Option<ScheduledGame>)
    ensures
        match r {
            Some(game) => scheduled_game(g@) == Some(game@),
            None => scheduled_game(g@) is None,
        },
{
    let (home, away) = match (g.get2("teams", "home"), g.get2("teams", "away")) {
        (Some(home), Some(away)) => (home, away),
        _ => {
            return None;
        },
    };
    let hs = pitcher_id(home);
    let aws = pitcher_id(away);
    let state = text_else(g.get2("status", "codedGameState"), "S");
    Some(
        ScheduledGame {
            game_pk: integer_or_zero(g.get("gamePk")),
            date: text_else(g.get("officialDate"), ""),
            start_utc: text_else(g.get("gameDate"), ""),
            home_id: integer_or_zero(home.get2("team", "id")),
            home_name: text_else(home.get2("team", "name"), "?"),
            away_id: integer_or_zero(away.get2("team", "id")),
            away_name: text_else(away.get2("team", "name"), "?"),
            home_sp_id: hs,
            home_sp_name: pitcher_name(home),
            away_sp_id: aws,
            away_sp_name: pitcher_name(away),
            venue: text_else(g.get2("venue", "name"), ""),
            status: text_else(g.get2("status", "detailedState"), "Scheduled"),
            pitchers_confirmed: hs != 0 && aws != 0,
            home_score: parse_score(home),
            away_score: parse_score(away),
            is_final: is_finished(state.as_str()),
            is_live: same(state.as_str(), "I"),
        },
    )
}

proof fn lemma_scheduled_games_step(entries: Seq<JsonView>, i: int)
    requires
        0 <= i < entries.len(),
    ensures
        scheduled_games(entries.take(i + 1)) == scheduled_games(entries.take(i)) + one_or_none(
            scheduled_game(entries[i]),
        ),
{
    assert(entries.take(i + 1).drop_last() =~= entries.take(i));
}

proof fn lemma_scheduled_games_concat(a: Seq<JsonView>, b: Seq<JsonView>)
    ensures
        scheduled_games(a + b) == scheduled_games(a) + scheduled_games(b),
    decreases b.len(),
{
    if b.len() == 0 {
        assert(a + b =~= a);
        assert(scheduled_games(a) + scheduled_games(b) =~= scheduled_games(a));
    } else {
        assert((a + b).drop_last() =~= a + b.drop_last());
        lemma_scheduled_games_concat(a, b.drop_last());
        assert(scheduled_games(a + b) =~= scheduled_games(a) + scheduled_games(b));
    }
}

/// The scheduled games of a document, in its order.
pub fn parse_window(doc: &Json) -> (out: Vec<ScheduledGame>)
    ensures
        scheduled_views(out@) == scheduled_games(schedule_entries(doc@)),
{
    let mut out: Vec<ScheduledGame> = Vec::new();
    let days = match items(doc.get("dates")) {
        Some(days) => days,
        None => {
            assert(scheduled_views(out@) =~= Seq::empty());
            return out;
        },
    };
    let ghost day_views = items_of(doc@.get("dates"@))->0;
    let mut d: usize = 0;
    assert(scheduled_views(out@) =~= Seq::empty());
    assert(day_views.take(0) =~= Seq::empty());
    while d < days.len()
        invariant
            d <= days@.len(),
            day_views.len() == days@.len(),
            forall|i: int| 0 <= i < days@.len() ==> #[trigger] day_views[i] == days@[i]@,
            scheduled_views(out@) == scheduled_games(all_entries(day_views.take(d as int))),
        decreases days@.len() - d,
    {
        let ghost before = all_entries(day_views.take(d as int));
        let ghost entries = day_entries(day_views[d as int]);
        assert(day_views.take(d + 1).drop_last() =~= day_views.take(d as int));
        assert(all_entries(day_views.take(d + 1)) == before + entries);
        if let Some(games) = items(days[d].get("games")) {
            let ghost out0 = scheduled_views(out@);
            let mut i: usize = 0;
            assert(entries.take(0) =~= Seq::empty());
            assert(out0 + Seq::<ScheduledView>::empty() =~= out0);
            while i < games.len()
                invariant
                    i <= games@.len(),
                    entries.len() == games@.len(),
                    forall|k: int| 0 <= k < games@.len() ==> #[trigger] entries[k] == games@[k]@,
                    scheduled_views(out@) == out0 + scheduled_games(entries.take(i as int)),
                decreases games@.len() - i,
            {
                let ghost out1 = out@;
                proof {
                    lemma_scheduled_games_step(entries, i as int);
                }
                if let Some(game) = parse_scheduled(&games[i]) {
                    out.push(game);
                    assert(scheduled_views(out@) =~= scheduled_views(out1).push(game@));
                }
                assert(scheduled_views(out@) =~= out0 + scheduled_games(entries.take(i + 1)));
                i += 1;
            }
            assert(entries.take(i as int) =~= entries);
        } else {
            assert(scheduled_views(out@) =~= scheduled_views(out@) + scheduled_games(entries));
        }
        proof {
            lemma_scheduled_games_concat(before, entries);
        }
        d += 1;
    }
    assert(day_views.take(d as int) =~= day_views);
    out
}

/// The games of a window of the schedule, by date and start.
pub fn fetch_scheduled(doc: &Json) -> (out: Vec<ScheduledGame>)
    ensures
        exists|listed: Seq<ScheduledGame>| #[trigger]
            is_stable_sort(out@, listed) && scheduled_views(listed) == scheduled_games(
                schedule_entries(doc@),
            ),
{
    let listed = parse_window(doc);
    stable_sort(listed)
}

/// A season and its schedule document.
pub struct SeasonPage {
    pub season: i32,
    pub doc: Json,
}

/// The finished games of several seasons, one season after another.
pub open spec fn seasons_games(pages: Seq<SeasonPage>) -> Seq<GameView>
    decreases pages.len(),
{
    if pages.len() == 0 {
        Seq::empty()
    } else {
        seasons_games(pages.drop_last()) + finished_games(
            schedule_entries(pages.last().doc@),
            pages.last().season,
        )
    }
}

/// The finished games of all the seasons, in chronological order: by date, and
/// within a date by game number.
pub fn fetch_games(pages: &Vec<SeasonPage>) -> (out: Vec<RawGame>)
    ensures
        exists|listed: Seq<RawGame>| #[trigger]
            is_stable_sort(out@, listed) && game_views(listed) == seasons_games(pages@),
{
    let mut all: Vec<RawGame> = Vec::new();
    let mut i: usize = 0;
    assert(pages@.take(0) =~= Seq::empty());
    assert(game_views(all@) =~= Seq::empty());
    while i < pages.len()
        invariant
            i <= pages@.len(),
            game_views(all@) == seasons_games(pages@.take(i as int)),
        decreases pages@.len() - i,
    {
        let mut games = parse_season(&pages[i].doc, pages[i].season);
        let ghost before = all@;
        let ghost added = games@;
        all.append(&mut games);
        proof {
            assert(game_views(all@) =~= game_views(before) + game_views(added));
            assert(pages@.take(i + 1).drop_last() =~= pages@.take(i as int));
        }
        i += 1;
    }
    assert(pages@.take(i as int) =~= pages@);
    stable_sort(all)
}

/// A finished game has a winner: it comes from an entry of the schedule that is over
/// and whose scores differ.
pub proof fn lemma_finished_games_are_decided(entries: Seq<JsonView>, season: i32, i: int)
    requires
        0 <= i < finished_games(entries, season).len(),
    ensures
        exists|k: int|
            0 <= k < entries.len() && is_decided(#[trigger] entries[k]) && finished_game(
                entries[k],
                season,
            ) == Some(finished_games(entries, season)[i]),
    decreases entries.len(),
{
    let before = finished_games(entries.drop_last(), season);
    if i < before.len() {
        lemma_finished_games_are_decided(entries.drop_last(), season, i);
        let k = choose|k: int|
            0 <= k < entries.len() - 1 && is_decided(#[trigger] entries.drop_last()[k])
                && finished_game(entries.drop_last()[k], season) == Some(before[i]);
        assert(entries[k] == entries.drop_last()[k]);
    } else {
        assert(is_decided(entries[entries.len() - 1]));
    }
}

/// An entry of the schedule that is over, with both scores, and no tie.
pub open spec fn is_decided(g: JsonView) -> bool {
    &&& is_finished_state(text_or(g.get2("status"@, "codedGameState"@), ""@))
    &&& match (g.get2("teams"@, "home"@), g.get2("teams"@, "away"@)) {
        (Some(home), Some(away)) => {
            &&& int_of(home.get("score"@)) is Some
            &&& int_of(away.get("score"@)) is Some
            &&& int_of(home.get("score"@)) != int_of(away.get("score"@))
        },
        _ => false,
    }
}

/// The games of the seasons come in chronological order, whatever the order of the
/// documents: dates never go back, and within a date the numbers of the games do not.
pub proof fn lemma_history_is_chronological(
    out: Seq<RawGame>,
    listed: Seq<RawGame>,
    i: int,
    j: int,
)
    requires
        is_stable_sort(out, listed),
        0 <= i < j < out.len(),
    ensures
        text_le(out[i].date@, out[j].date@),
        out[i].date@ == out[j].date@ ==> out[i].game_pk <= out[j].game_pk,
{
    lemma_sort_is_ordered(out, listed, i, j);
}

/// The games of a window come in the order of their dates, and within a date in the
/// order of their starts.
pub proof fn lemma_window_is_chronological(
    out: Seq<ScheduledGame>,
    listed: Seq<ScheduledGame>,
    i: int,
    j: int,
)
    requires
        is_stable_sort(out, listed),
        0 <= i < j < out.len(),
    ensures
        text_le(out[i].date@, out[j].date@),
        out[i].date@ == out[j].date@ ==> text_le(out[i].start_utc@, out[j].start_utc@),
{
    lemma_sort_is_ordered(out, listed, i, j);
}

// --------------------------------------------------------------- downloads

/// How recent a download has to be.
#[derive(Debug, Clone, Copy, PartialEq, Eq, Structural)]
pub enum Freshness {
    /// Closed seasons are kept for good, the current one for some hours.
    Normal,
    /// Closed seasons are kept for good, the current one is downloaded again.
    Live,
    /// Everything is downloaded again.
    Full,
}

/// For how many hours the schedule of a season is kept, for good if `None`.
/// Closed seasons no longer change.
pub open spec fn max_age_hours(season: i32, fresh: Freshness, current_year: i32) -> Option<u64> {
    match fresh {
        Freshness::Full => Some(0u64),
        Freshness::Live => if season >= current_year {
            Some(0u64)
        } else {
            None
        },
        Freshness::Normal => if season >= current_year {
            Some(6u64)
        } else {
            None
        },
    }
}

pub fn max_age(season: i32, fresh: Freshness, current_year: i32) -> (r: Option<u64>)
    ensures
        r == max_age_hours(season, fresh, current_year),
{
    match fresh {
        Freshness::Full => Some(0),
        Freshness::Live => {
            if season >= current_year {
                Some(0)
            } else {
                None
            }
        },
        Freshness::Normal => {
            if season >= current_year {
                Some(6)
            } else {
                None
            }
        },
    }
}

/// A download of the given age may still be used. One of unknown age may only where
/// any age will do.
pub open spec fn is_fresh(age_secs: Option<u64>, max_age_hours: Option<u64>) -> bool {
    match (max_age_hours, age_secs) {
        (None, _) => true,
        (Some(hours), Some(age)) => age <= hours * 3600,
        (Some(_), None) => false,
    }
}

/// Whether a download of the given age may still be used.
pub fn cache_is_fresh(age_secs: Option<u64>, max_age_hours: Option<u64>) -> (r: bool)
    ensures
        r == is_fresh(age_secs, max_age_hours),
{
    match (max_age_hours, age_secs) {
        (None, _) => true,
        (Some(hours), Some(age)) => (age as u128) <= (hours as u128) * 3600,
        (Some(_), None) => false,
    }
}

/// A closed season is downloaded once: unless everything is downloaded again, its
/// download may be used however old it is.
pub proof fn lemma_closed_seasons_are_kept(
    season: i32,
    fresh: Freshness,
    year: i32,
    age_secs: Option<u64>,
)
    requires
        season < year,
        fresh != Freshness::Full,
    ensures
        is_fresh(age_secs, max_age_hours(season, fresh, year)),
{
}

/// The document that a cached download holds, if there is one, it may still be used,
/// and it is JSON.
pub open spec fn cached_reading(
    cached: Option<Seq<char>>,
    age_secs: Option<u64>,
    max_age_hours: Option<u64>,
) -> Option<JsonView> {
    match cached {
        Some(text) => match json_reading(text) {
            Ok(doc) if is_fresh(age_secs, max_age_hours) => Some(doc),
            _ => None,
        },
        None => None,
    }
}

/// The cached document, where there is one to be used.
pub fn cached_document(
    cached: Option<&str>,
    age_secs: Option<u64>,
    max_age_hours: Option<u64>,
) -> (r: Option<Json>)
    ensures
        match (
            r,
            cached_reading(
                match cached {
                    Some(text) => Some(text@),
                    None => None,
                },
                age_secs,
                max_age_hours,
            ),
        ) {
            (Some(doc), Some(view)) => doc@ == view,
            (None, None) => true,
            _ => false,
        },
{
    match cached {
        Some(text) => {
            if cache_is_fresh(age_secs, max_age_hours) {
                match read_json(text) {
                    Ok(doc) => Some(doc),
                    Err(_) => None,
                }
            } else {
                None
            }
        },
        None => None,
    }
}

/// What is read of a document: the cached one where there is one to be used, else what
/// a download holds.
pub open spec fn document_reading(
    cached: Option<Seq<char>>,
    age_secs: Option<u64>,
    max_age_hours: Option<u64>,
    body: Seq<char>,
) -> Result<JsonView, Seq<char>> {
    match cached_reading(cached, age_secs, max_age_hours) {
        Some(doc) => Ok(doc),
        None => json_reading(body),
    }
}

/// The next days of the schedule are downloaded anew at every refresh: a download that
/// is a second old or more is never used again. Whatever an earlier refresh left in the
/// cache, the next one reads the scores and the starters of its own download.
pub proof fn lemma_window_is_downloaded_anew(
    cached: Option<Seq<char>>,
    age_secs: u64,
    body: Seq<char>,
)
    requires
        age_secs >= 1,
    ensures
        !is_fresh(Some(age_secs), Some(WINDOW_MAX_AGE_H)),
        document_reading(cached, Some(age_secs), Some(WINDOW_MAX_AGE_H), body) == json_reading(
            body,
        ),
{
}

/// The document that a download holds. The error says where it came from.
pub fn downloaded_document(url: &str, body: &str) -> (r: Result<Json, String>)
    ensures
        match r {
            Ok(doc) => json_reading(body@) == Ok::<JsonView, Seq<char>>(doc@),
            Err(message) => json_reading(body@) is Err && message@ == "JSON invalido de "@ + url@
                + ": "@ + json_reading(body@)->Err_0,
        },
{
    match read_json(body) {
        Ok(doc) => Ok(doc),
        Err(e) => {
            let mut message = "JSON invalido de ".to_owned();
            message.append(url);
            message.append(": ");
            message.append(e.as_str());
            Err(message)
        },
    }
}

/// The year that a clock shows, or 2026 where it shows none.
pub fn year_or_default(clock: &str) -> (r: i32)
    ensures
        match bounded_int(clock@, i32::MIN as int, i32::MAX as int) {
            Some(year) => r == year,
            None => r == 2026,
        },
{
    match parse_i32(clock) {
        Some(year) => year,
        None => 2026,
    }
}

/// Where the schedule of a season is kept.
pub fn season_cache_file(season: i32) -> (r: String)
    ensures
        r@ == "schedule_"@ + int_text(season as int) + ".json"@,
{
    let mut r = "schedule_".to_owned();
    r.append(decimal(season as i128).as_str());
    r.append(".json");
    r
}

/// The address of the regular-season schedule of a season.
pub fn season_url(season: i32) -> (r: String)
    ensures
        r@ == "https://statsapi.mlb.com/api/v1/schedule?sportId=1&gameType=R&startDate="@
            + int_text(season as int) + "-02-01&endDate="@ + int_text(season as int)
            + "-11-30&hydrate=probablePitcher"@,
{
    let year = decimal(season as i128);
    let mut r =
        "https://statsapi.mlb.com/api/v1/schedule?sportId=1&gameType=R&startDate=".to_owned();
    r.append(year.as_str());
    r.append("-02-01&endDate=");
    r.append(year.as_str());
    r.append("-11-30&hydrate=probablePitcher");
    r
}

/// Where the next days of the schedule are found and kept.
pub struct Window {
    pub start: String,
    pub end: String,
    pub url: String,
    pub cache_file: String,
}

/// Why the next days of the schedule cannot be asked for.
pub enum WindowFault {
    /// The first day is no date: a message.
    NotADate(String),
    /// The last day is beyond the calendar.
    BeyondCalendar,
}

/// The day that is `days` days on from a day, the day itself counted. At least
/// one day is counted.
pub open spec fn last_day(start: i32, days: i64) -> int {
    if days >= 1 {
        start + days - 1
    } else {
        start as int
    }
}

/// The last day of a window, where it is a number that a day can have.
pub fn window_end(start: i32, days: i64) -> (r: Option<i32>)
    ensures
        match r {
            Some(last) => last == last_day(start, days),
            None => last_day(start, days) > i32::MAX,
        },
{
    let ahead: i64 = if days >= 1 {
        days - 1
    } else {
        0
    };
    let last: i128 = start as i128 + ahead as i128;
    if last > 0x7fff_ffff {
        None
    } else {
        Some(last as i32)
    }
}

/// The window from `from` to a last day that is written as `end`.
pub fn window_ending(from: &str, days: i64, end: String) -> (w: Window)
    ensures
        w.start@ == from@,
        w.end@ == end@,
        w.url@ == "https://statsapi.mlb.com/api/v1/schedule?sportId=1&gameType=R&startDate="@
            + from@ + "&endDate="@ + end@ + "&hydrate=probablePitcher,venue,team"@,
        w.cache_file@ == "upcoming_"@ + from@ + "_"@ + int_text(days as int) + ".json"@,
{
    let mut url =
        "https://statsapi.mlb.com/api/v1/schedule?sportId=1&gameType=R&startDate=".to_owned();
    url.append(from);
    url.append("&endDate=");
    url.append(end.as_str());
    url.append("&hydrate=probablePitcher,venue,team");
    let mut cache_file = "upcoming_".to_owned();
    cache_file.append(from);
    cache_file.append("_");
    cache_file.append(decimal(days as i128).as_str());
    cache_file.append(".json");
    Window { start: from.to_owned(), end, url, cache_file }
}

/// The days from `from` on: `days` of them, and at least one.
pub fn scheduled_window(from: &str, days: i64) -> (r: Result<Window, WindowFault>)
    ensures
        match (day_reading(from@), r) {
            (Err(e), Err(WindowFault::NotADate(message))) => message@ == "fecha invalida "@ + from@
                + ": "@ + e,
            (Ok(start), Ok(w)) => {
                &&& w.start@ == from@
                &&& i32::MIN <= last_day(start, days) <= i32::MAX
                &&& day_writing(last_day(start, days) as i32) == Some(w.end@)
                &&& day_reading(w.end@) == Ok::<i32, Seq<char>>(last_day(start, days) as i32)
                &&& w.url@
                    == "https://statsapi.mlb.com/api/v1/schedule?sportId=1&gameType=R&startDate="@
                    + from@ + "&endDate="@ + w.end@ + "&hydrate=probablePitcher,venue,team"@
                &&& w.cache_file@ == "upcoming_"@ + from@ + "_"@ + int_text(days as int) + ".json"@
            },
            (Ok(start), Err(WindowFault::BeyondCalendar)) => {
                &&& last_day(start, days) > i32::MAX || day_writing(
                    last_day(start, days) as i32,
                ) is None
                &&& days > 1
                &&& last_day(start, days) > 3_652_059 || last_day(start, days) < 1
            },
            _ => false,
        },
{
    let start = match day_of_text(from) {
        Ok(day) => day,
        Err(e) => {
            let mut message = "fecha invalida ".to_owned();
            message.append(from);
            message.append(": ");
            message.append(e.as_str());
            return Err(WindowFault::NotADate(message));
        },
    };
    let last = match window_end(start, days) {
        Some(last) => last,
        None => {
            return Err(WindowFault::BeyondCalendar);
        },
    };
    let end = match text_of_day(last) {
        Some(end) => end,
        None => {
            return Err(WindowFault::BeyondCalendar);
        },
    };
    Ok(window_ending(from, days, end))
}

/// Where everything is downloaded again, nothing that is a second old is used, of whatever
/// season. The current season and later ones are downloaded again while games are followed,
/// and else after six hours to the second. Of a download whose age is unknown only a closed
/// season may be read.
pub proof fn lemma_current_season_is_kept_six_hours(season: i32, year: i32, age_secs: u64)
    ensures
        is_fresh(Some(age_secs), max_age_hours(season, Freshness::Full, year)) <==> age_secs == 0,
        season >= year ==> {
            &&& is_fresh(Some(age_secs), max_age_hours(season, Freshness::Live, year))
                <==> age_secs == 0
            &&& is_fresh(Some(age_secs), max_age_hours(season, Freshness::Normal, year))
                <==> age_secs <= 21_600
        },
        forall|fresh: Freshness|
            #![trigger max_age_hours(season, fresh, year)]
            is_fresh(None, max_age_hours(season, fresh, year)) <==> season < year && fresh
                != Freshness::Full,
{
}

/// Of a cached document and a download, the cached one is read exactly where it is there,
/// holds JSON and is fresh, and the download in every other case.
pub proof fn lemma_fresh_documents_are_not_downloaded(
    text: Seq<char>,
    age_secs: Option<u64>,
    max_age_hours: Option<u64>,
    body: Seq<char>,
)
    ensures
        document_reading(None, age_secs, max_age_hours, body) == json_reading(body),
        !is_fresh(age_secs, max_age_hours) ==> document_reading(
            Some(text),
            age_secs,
            max_age_hours,
            body,
        ) == json_reading(body),
        json_reading(text) is Err ==> document_reading(Some(text), age_secs, max_age_hours, body)
            == json_reading(body),
        is_fresh(age_secs, max_age_hours) && json_reading(text) is Ok ==> document_reading(
            Some(text),
            age_secs,
            max_age_hours,
            body,
        ) == json_reading(text),
{
}

/// A window of so many days has so many days, its first and its last counted; one of no
/// days has its first day. A day more ends it a day later.
pub proof fn lemma_window_has_its_days(start: i32, days: i64)
    ensures
        days >= 1 ==> last_day(start, days) - start + 1 == days,
        days < 1 ==> last_day(start, days) == start,
        1 <= days < i64::MAX ==> last_day(start, (days + 1) as i64) == last_day(start, days) + 1,
{
}

} // verus!
