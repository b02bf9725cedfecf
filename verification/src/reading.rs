//! What the documents of the league say, path by path, and that it is read so.

use vstd::prelude::*;
use crate::json::{int_of, int_or_zero, items_of, text_of, text_or, JsonView};
use crate::mlb::{
    all_entries, day_entries, finished_game, finished_games, game_views, one_or_none,
    schedule_entries, scheduled_game, scheduled_games, seasons_games, GameView, RawGame,
    ScheduledGame, ScheduledView, SeasonPage,
};
use crate::numbers::lemma_bounds_hold;
use crate::order::{arranged, is_stable_order, is_stable_sort, lemma_permutation_hits};
use crate::stats::{
    hitter_of, hitter_views, hitters_of, ids_of, indexed, info_view, last_of_team, league_of,
    names_of, pitcher_lines, pitcher_of, pitchers_of, roster_entries, season_block, split_view,
    team_entries, team_totals, totals_entries, Hitter, HitterView, Pitcher, PitcherLine, Roster,
    TeamInfo,
};

verus! {

// ------------------------------------------------------------- finished games

/// The side of an entry of the schedule, home or away.
pub open spec fn side_at(g: JsonView, side: Seq<char>) -> Option<JsonView> {
    match g.get("teams"@) {
        Some(teams) => teams.get(side),
        None => None,
    }
}

/// The number that stands in a side under a key of a key.
pub open spec fn number_in(side: JsonView, outer: Seq<char>, inner: Seq<char>) -> Option<int> {
    match side.get(outer) {
        Some(part) => int_of(part.get(inner)),
        None => None,
    }
}

/// The text that stands in a side under a key of a key.
pub open spec fn text_in(side: JsonView, outer: Seq<char>, inner: Seq<char>) -> Option<Seq<char>> {
    match side.get(outer) {
        Some(part) => text_of(part.get(inner)),
        None => None,
    }
}

/// What is read where a number stands, and where none does.
pub open spec fn reads_number(read: i64, stands: Option<int>) -> bool {
    match stands {
        Some(i) => read == i,
        None => read == 0,
    }
}

/// What is read where a text stands, and where none does.
pub open spec fn reads_text(read: Seq<char>, stands: Option<Seq<char>>, other: Seq<char>) -> bool {
    match stands {
        Some(t) => read == t,
        None => read == other,
    }
}

/// An entry of the schedule is a finished game exactly where its state is final or over,
/// both sides have a score, and the scores differ. The game has the number and the date
/// of the entry, and of each side its own number, name, score and starter.
pub proof fn lemma_finished_game_is_the_entry(g: JsonView, season: i32, game: RawGame)
    requires
        finished_game(g, season) == Some(game@),
    ensures
        ({
            let home = side_at(g, "home"@)->0;
            let away = side_at(g, "away"@)->0;
            &&& side_at(g, "home"@) is Some
            &&& side_at(g, "away"@) is Some
            &&& text_in(g, "status"@, "codedGameState"@) == Some("F"@) || text_in(
                g,
                "status"@,
                "codedGameState"@,
            ) == Some("O"@)
            &&& reads_number(game.game_pk, int_of(g.get("gamePk"@)))
            &&& reads_text(game.date@, text_of(g.get("officialDate"@)), ""@)
            &&& game.season == season
            &&& reads_number(game.home_id, number_in(home, "team"@, "id"@))
            &&& reads_number(game.away_id, number_in(away, "team"@, "id"@))
            &&& reads_text(game.home_name@, text_in(home, "team"@, "name"@), "?"@)
            &&& reads_text(game.away_name@, text_in(away, "team"@, "name"@), "?"@)
            &&& int_of(home.get("score"@)) is Some
            &&& int_of(away.get("score"@)) is Some
            &&& i32::MIN <= int_of(home.get("score"@))->0 <= i32::MAX ==> game.home_score == int_of(
                home.get("score"@),
            )->0
            &&& i32::MIN <= int_of(away.get("score"@))->0 <= i32::MAX ==> game.away_score == int_of(
                away.get("score"@),
            )->0
            &&& int_of(home.get("score"@)) != int_of(away.get("score"@))
            &&& reads_number(game.home_sp_id, number_in(home, "probablePitcher"@, "id"@))
            &&& reads_number(game.away_sp_id, number_in(away, "probablePitcher"@, "id"@))
        }),
{
    reveal_strlit("F");
    reveal_strlit("O");
    reveal_strlit("");
    assert(""@.len() != "F"@.len() && ""@.len() != "O"@.len());
    lemma_bounds_hold();
}

/// Whatever is final or over, with two scores that differ, is a finished game.
pub proof fn lemma_decided_entries_are_read(g: JsonView, season: i32)
    requires
        text_in(g, "status"@, "codedGameState"@) == Some("F"@) || text_in(
            g,
            "status"@,
            "codedGameState"@,
        ) == Some("O"@),
        side_at(g, "home"@) is Some,
        side_at(g, "away"@) is Some,
        int_of(side_at(g, "home"@)->0.get("score"@)) is Some,
        int_of(side_at(g, "away"@)->0.get("score"@)) is Some,
        int_of(side_at(g, "home"@)->0.get("score"@)) != int_of(
            side_at(g, "away"@)->0.get("score"@),
        ),
    ensures
        finished_game(g, season) is Some,
{
}

/// The same game with the sides exchanged.
pub open spec fn exchanged(g: GameView) -> GameView {
    GameView {
        home_id: g.away_id,
        home_name: g.away_name,
        home_score: g.away_score,
        home_sp_id: g.away_sp_id,
        away_id: g.home_id,
        away_name: g.home_name,
        away_score: g.home_score,
        away_sp_id: g.home_sp_id,
        ..g
    }
}

/// Two entries that differ in nothing but that their sides are exchanged.
pub open spec fn sides_exchanged(g: JsonView, other: JsonView) -> bool {
    &&& side_at(g, "home"@) == side_at(other, "away"@)
    &&& side_at(g, "away"@) == side_at(other, "home"@)
    &&& g.get("gamePk"@) == other.get("gamePk"@)
    &&& g.get("officialDate"@) == other.get("officialDate"@)
    &&& g.get("gameDate"@) == other.get("gameDate"@)
    &&& g.get("status"@) == other.get("status"@)
    &&& g.get("venue"@) == other.get("venue"@)
}

/// Exchanging the sides of an entry exchanges the sides of the game, and nothing else.
pub proof fn lemma_exchanged_entry_is_the_exchanged_game(
    g: JsonView,
    other: JsonView,
    season: i32,
)
    requires
        sides_exchanged(g, other),
    ensures
        match finished_game(g, season) {
            Some(game) => finished_game(other, season) == Some(exchanged(game)),
            None => finished_game(other, season) is None,
        },
{
}

// ------------------------------------------------------------ scheduled games

/// An entry of the schedule is a game wherever it has both sides. The game tells the
/// number, the date, the start, the place and the state of the entry, and of each side
/// its own number, name, starter and score. Both starters are announced where both sides
/// name one.
pub proof fn lemma_scheduled_game_is_the_entry(g: JsonView, game: ScheduledGame)
    requires
        scheduled_game(g) == Some(game@),
    ensures
        ({
            let home = side_at(g, "home"@)->0;
            let away = side_at(g, "away"@)->0;
            let state = text_in(g, "status"@, "codedGameState"@);
            &&& side_at(g, "home"@) is Some
            &&& side_at(g, "away"@) is Some
            &&& reads_number(game.game_pk, int_of(g.get("gamePk"@)))
            &&& reads_text(game.date@, text_of(g.get("officialDate"@)), ""@)
            &&& reads_text(game.start_utc@, text_of(g.get("gameDate"@)), ""@)
            &&& reads_number(game.home_id, number_in(home, "team"@, "id"@))
            &&& reads_number(game.away_id, number_in(away, "team"@, "id"@))
            &&& reads_text(game.home_name@, text_in(home, "team"@, "name"@), "?"@)
            &&& reads_text(game.away_name@, text_in(away, "team"@, "name"@), "?"@)
            &&& reads_number(game.home_sp_id, number_in(home, "probablePitcher"@, "id"@))
            &&& reads_number(game.away_sp_id, number_in(away, "probablePitcher"@, "id"@))
            &&& reads_text(game.home_sp_name@, text_in(home, "probablePitcher"@, "fullName"@), ""@)
            &&& reads_text(game.away_sp_name@, text_in(away, "probablePitcher"@, "fullName"@), ""@)
            &&& reads_text(game.venue@, text_in(g, "venue"@, "name"@), ""@)
            &&& reads_text(game.status@, text_in(g, "status"@, "detailedState"@), "Scheduled"@)
            &&& game.pitchers_confirmed <==> game.home_sp_id != 0 && game.away_sp_id != 0
            &&& game.home_score is Some <==> int_of(home.get("score"@)) is Some
            &&& game.away_score is Some <==> int_of(away.get("score"@)) is Some
            &&& int_of(home.get("score"@)) matches Some(s) ==> (i32::MIN <= s <= i32::MAX
                ==> game.home_score == Some(s as i32))
            &&& int_of(away.get("score"@)) matches Some(s) ==> (i32::MIN <= s <= i32::MAX
                ==> game.away_score == Some(s as i32))
            &&& game.is_final <==> state == Some("F"@) || state == Some("O"@)
            &&& game.is_live <==> state == Some("I"@)
        }),
{
    reveal_strlit("F");
    reveal_strlit("O");
    reveal_strlit("I");
    reveal_strlit("S");
    assert("S"@[0] != "F"@[0] && "S"@[0] != "O"@[0] && "S"@[0] != "I"@[0]);
    lemma_bounds_hold();
}

/// An entry with both sides is a game.
pub proof fn lemma_entries_with_sides_are_games(g: JsonView)
    ensures
        scheduled_game(g) is Some <==> side_at(g, "home"@) is Some && side_at(g, "away"@) is Some,
{
}

/// The same scheduled game with the sides exchanged.
pub open spec fn exchanged_schedule(g: ScheduledView) -> ScheduledView {
    ScheduledView {
        home_id: g.away_id,
        home_name: g.away_name,
        home_sp_id: g.away_sp_id,
        home_sp_name: g.away_sp_name,
        home_score: g.away_score,
        away_id: g.home_id,
        away_name: g.home_name,
        away_sp_id: g.home_sp_id,
        away_sp_name: g.home_sp_name,
        away_score: g.home_score,
        ..g
    }
}

/// Exchanging the sides of an entry exchanges those of the scheduled game.
pub proof fn lemma_exchanged_entry_is_the_exchanged_schedule(g: JsonView, other: JsonView)
    requires
        sides_exchanged(g, other),
    ensures
        match scheduled_game(g) {
            Some(game) => scheduled_game(other) == Some(exchanged_schedule(game)),
            None => scheduled_game(other) is None,
        },
{
}

// ------------------------------------------------------------- whole documents

proof fn lemma_entry_is_listed(days: Seq<JsonView>, d: int, k: int)
    requires
        0 <= d < days.len(),
        0 <= k < day_entries(days[d]).len(),
    ensures
        all_entries(days).contains(day_entries(days[d])[k]),
    decreases days.len(),
{
    let rest = days.drop_last();
    let x = day_entries(days[d])[k];
    let before = all_entries(rest);
    let now = day_entries(days.last());
    if d < rest.len() {
        assert(rest[d] == days[d]);
        lemma_entry_is_listed(rest, d, k);
        let p = choose|p: int| 0 <= p < before.len() && before[p] == x;
        assert((before + now)[p] == x);
    } else {
        assert((before + now)[before.len() + k] == x);
    }
}

/// No day and no game of a schedule is passed over: each entry in the list of games of
/// each of its days is among the entries that are read.
pub proof fn lemma_every_entry_of_the_schedule_is_read(doc: JsonView, d: int, k: int)
    requires
        items_of(doc.get("dates"@)) is Some,
        0 <= d < items_of(doc.get("dates"@))->0.len(),
        items_of(items_of(doc.get("dates"@))->0[d].get("games"@)) is Some,
        0 <= k < items_of(items_of(doc.get("dates"@))->0[d].get("games"@))->0.len(),
    ensures
        schedule_entries(doc).contains(
            items_of(items_of(doc.get("dates"@))->0[d].get("games"@))->0[k],
        ),
{
    lemma_entry_is_listed(items_of(doc.get("dates"@))->0, d, k);
}

/// The entries that are games are all read, in their order, and nothing else is: the
/// game of an entry stands behind those of the entries before it.
pub proof fn lemma_finished_games_are_all_read(entries: Seq<JsonView>, season: i32, k: int)
    requires
        0 <= k < entries.len(),
    ensures
        finished_games(entries, season).len() <= entries.len(),
        finished_game(entries[k], season) matches Some(game) ==> {
            &&& finished_games(entries.take(k), season).len() < finished_games(
                entries,
                season,
            ).len()
            &&& finished_games(entries, season)[finished_games(
                entries.take(k),
                season,
            ).len() as int] == game
        },
    decreases entries.len(),
{
    let rest = entries.drop_last();
    if k < rest.len() {
        lemma_finished_games_are_all_read(rest, season, k);
        assert(rest[k] == entries[k]);
        assert(rest.take(k) =~= entries.take(k));
    } else {
        assert(entries.take(k) =~= rest);
        if rest.len() > 0 {
            lemma_finished_games_are_all_read(rest, season, 0);
        }
    }
}

/// Every entry of a schedule that has both sides is one of the games that are read.
pub proof fn lemma_scheduled_games_are_all_read(entries: Seq<JsonView>, k: int)
    requires
        0 <= k < entries.len(),
    ensures
        scheduled_games(entries).len() <= entries.len(),
        scheduled_game(entries[k]) matches Some(game) ==> {
            &&& scheduled_games(entries.take(k)).len() < scheduled_games(entries).len()
            &&& scheduled_games(entries)[scheduled_games(entries.take(k)).len() as int] == game
        },
    decreases entries.len(),
{
    let rest = entries.drop_last();
    if k < rest.len() {
        lemma_scheduled_games_are_all_read(rest, k);
        assert(rest[k] == entries[k]);
        assert(rest.take(k) =~= entries.take(k));
    } else {
        assert(entries.take(k) =~= rest);
        if rest.len() > 0 {
            lemma_scheduled_games_are_all_read(rest, 0);
        }
    }
}

proof fn lemma_page_is_listed(pages: Seq<SeasonPage>, p: int, game: GameView)
    requires
        0 <= p < pages.len(),
        finished_games(schedule_entries(pages[p].doc@), pages[p].season).contains(game),
    ensures
        seasons_games(pages).contains(game),
    decreases pages.len(),
{
    let rest = pages.drop_last();
    let before = seasons_games(rest);
    let now = finished_games(schedule_entries(pages.last().doc@), pages.last().season);
    if p < rest.len() {
        assert(rest[p] == pages[p]);
        lemma_page_is_listed(rest, p, game);
        let i = choose|i: int| 0 <= i < before.len() && before[i] == game;
        assert((before + now)[i] == game);
    } else {
        let i = choose|i: int| 0 <= i < now.len() && now[i] == game;
        assert((before + now)[before.len() + i] == game);
    }
}

/// No game of any season is lost: what an entry of the schedule of a season reports is in
/// the history, under that season.
pub proof fn lemma_history_holds_every_game(
    out: Seq<RawGame>,
    listed: Seq<RawGame>,
    pages: Seq<SeasonPage>,
    p: int,
    k: int,
)
    requires
        is_stable_sort(out, listed),
        game_views(listed) == seasons_games(pages),
        0 <= p < pages.len(),
        0 <= k < schedule_entries(pages[p].doc@).len(),
        finished_game(schedule_entries(pages[p].doc@)[k], pages[p].season) is Some,
    ensures
        exists|i: int|
            0 <= i < out.len() && (#[trigger] out[i]).season == pages[p].season && Some(out[i]@)
                == finished_game(schedule_entries(pages[p].doc@)[k], pages[p].season),
{
    let entries = schedule_entries(pages[p].doc@);
    let game = finished_game(entries[k], pages[p].season)->0;
    let found = finished_games(entries, pages[p].season);
    lemma_finished_games_are_all_read(entries, pages[p].season, k);
    assert(found.contains(game));
    lemma_page_is_listed(pages, p, game);
    let all = seasons_games(pages);
    let j = choose|j: int| 0 <= j < all.len() && all[j] == game;
    assert(game_views(listed)[j] == game);
    let order = choose|order: Seq<usize>| #[trigger]
        is_stable_order(order, listed) && arranged(out, listed, order);
    lemma_permutation_hits(order, listed.len(), j);
    let i = choose|i: int| 0 <= i < listed.len() && order[i] == j;
    assert(out[i] == listed[order[i] as int]);
}

// -------------------------------------------------------------------- players

/// The season statistics of a person in a group are the first split of the first block
/// that is of the group and of the season.
pub proof fn lemma_split_is_of_group_and_season(
    person: JsonView,
    group: Seq<char>,
    blocks: Seq<JsonView>,
    k: int,
)
    requires
        person.get("stats"@) == Some(JsonView::Array(blocks)),
        0 <= k < blocks.len(),
        text_in(blocks[k], "group"@, "displayName"@) == Some(group),
        text_in(blocks[k], "type"@, "displayName"@) == Some("season"@),
        forall|j: int|
            0 <= j < k ==> text_in(#[trigger] blocks[j], "group"@, "displayName"@) != Some(group)
                || text_in(blocks[j], "type"@, "displayName"@) != Some("season"@),
    ensures
        match items_of(blocks[k].get("splits"@)) {
            Some(splits) => split_view(person, group) == if splits.len() > 0 {
                splits[0].get("stat"@)
            } else {
                None
            },
            None => split_view(person, group) is None,
        },
{
    lemma_first_block(blocks, group, k);
}

proof fn lemma_first_block(blocks: Seq<JsonView>, group: Seq<char>, k: int)
    requires
        0 <= k < blocks.len(),
        text_in(blocks[k], "group"@, "displayName"@) == Some(group),
        text_in(blocks[k], "type"@, "displayName"@) == Some("season"@),
        forall|j: int|
            0 <= j < k ==> text_in(#[trigger] blocks[j], "group"@, "displayName"@) != Some(group)
                || text_in(blocks[j], "type"@, "displayName"@) != Some("season"@),
    ensures
        season_block(blocks, group) == Some(blocks[k]),
    decreases k,
{
    if k > 0 {
        let rest = blocks.drop_first();
        assert forall|j: int| 0 <= j < k - 1 implies text_in(
            #[trigger] rest[j],
            "group"@,
            "displayName"@,
        ) != Some(group) || text_in(rest[j], "type"@, "displayName"@) != Some("season"@) by {
            assert(rest[j] == blocks[j + 1]);
        }
        assert(text_in(blocks[0], "group"@, "displayName"@) != Some(group) || text_in(
            blocks[0],
            "type"@,
            "displayName"@,
        ) != Some("season"@));
        lemma_first_block(rest, group, k - 1);
    }
}

/// A hitter is who has at least fifty times at bat in the season; each figure is the one
/// of its name in their batting statistics.
pub proof fn lemma_hitter_is_the_entry(entry: JsonView, person: JsonView, st: JsonView, h: Hitter)
    requires
        entry.get("person"@) == Some(person),
        split_view(person, "hitting"@) == Some(st),
    ensures
        hitter_of(entry) is Some <==> int_or_zero(st.get("atBats"@)) >= 50,
        hitter_of(entry) == Some(h@) ==> {
            &&& reads_text(h.name@, text_of(person.get("fullName"@)), "-"@)
            &&& reads_text(h.pos@, text_in(entry, "position"@, "abbreviation"@), "-"@)
            &&& reads_text(h.avg@, text_of(st.get("avg"@)), "-"@)
            &&& reads_text(h.obp@, text_of(st.get("obp"@)), "-"@)
            &&& reads_text(h.ops@, text_of(st.get("ops"@)), "-"@)
            &&& reads_number(h.hr, int_of(st.get("homeRuns"@)))
            &&& reads_number(h.rbi, int_of(st.get("rbi"@)))
            &&& reads_number(h.hits, int_of(st.get("hits"@)))
            &&& reads_number(h.at_bats, int_of(st.get("atBats"@)))
            &&& reads_number(h.games, int_of(st.get("gamesPlayed"@)))
        },
{
    lemma_bounds_hold();
}

/// A pitcher is who has pitching statistics in the season; each figure is the one of its
/// name there, and number and name are those of the person.
pub proof fn lemma_pitcher_is_the_entry(
    entry: JsonView,
    person: JsonView,
    st: JsonView,
    p: Pitcher,
)
    requires
        entry.get("person"@) == Some(person),
        split_view(person, "pitching"@) == Some(st),
    ensures
        pitcher_of(entry) is Some,
        pitcher_of(entry) == Some(p@) ==> {
            &&& reads_number(p.id, int_of(person.get("id"@)))
            &&& reads_text(p.name@, text_of(person.get("fullName"@)), "-"@)
            &&& reads_text(p.era@, text_of(st.get("era"@)), "-"@)
            &&& reads_text(p.whip@, text_of(st.get("whip"@)), "-"@)
            &&& reads_number(p.wins, int_of(st.get("wins"@)))
            &&& reads_number(p.losses, int_of(st.get("losses"@)))
            &&& reads_text(p.innings@, text_of(st.get("inningsPitched"@)), "-"@)
            &&& reads_number(p.strikeouts, int_of(st.get("strikeOuts"@)))
            &&& reads_number(p.walks, int_of(st.get("baseOnBalls"@)))
            &&& reads_number(p.starts, int_of(st.get("gamesStarted"@)))
        },
{
    lemma_bounds_hold();
}

/// Who has no statistics of a kind is no player of that kind.
pub proof fn lemma_no_statistics_no_player(entry: JsonView, person: JsonView)
    requires
        entry.get("person"@) == Some(person),
    ensures
        split_view(person, "hitting"@) is None ==> hitter_of(entry) is None,
        split_view(person, "pitching"@) is None ==> pitcher_of(entry) is None,
{
}

/// Every hitter and every pitcher of a roster is listed.
pub proof fn lemma_players_are_all_listed(entries: Seq<JsonView>, k: int)
    requires
        0 <= k < entries.len(),
    ensures
        hitter_of(entries[k]) matches Some(h) ==> hitters_of(entries).contains(h),
        pitcher_of(entries[k]) matches Some(p) ==> pitchers_of(entries).contains(p),
        hitters_of(entries).len() <= entries.len(),
        pitchers_of(entries).len() <= entries.len(),
    decreases entries.len(),
{
    let rest = entries.drop_last();
    let (hs, h1) = (hitters_of(rest), one_or_none(hitter_of(entries.last())));
    let (ps, p1) = (pitchers_of(rest), one_or_none(pitcher_of(entries.last())));
    if rest.len() > 0 {
        lemma_players_are_all_listed(
            rest,
            if k < rest.len() {
                k
            } else {
                0
            },
        );
    }
    if k < rest.len() {
        assert(rest[k] == entries[k]);
        if let Some(h) = hitter_of(entries[k]) {
            let i = choose|i: int| 0 <= i < hs.len() && hs[i] == h;
            assert((hs + h1)[i] == h);
        }
        if let Some(p) = pitcher_of(entries[k]) {
            let i = choose|i: int| 0 <= i < ps.len() && ps[i] == p;
            assert((ps + p1)[i] == p);
        }
    } else {
        if let Some(h) = hitter_of(entries[k]) {
            assert((hs + h1)[hs.len() as int] == h);
        }
        if let Some(p) = pitcher_of(entries[k]) {
            assert((ps + p1)[ps.len() as int] == p);
        }
    }
}

// ---------------------------------------------------------------------- teams

/// The totals of a team are those of the last entry with its number.
pub proof fn lemma_totals_are_of_the_team(doc: JsonView, id: i64, k: int)
    requires
        0 <= k < totals_entries(doc).len(),
        number_in(totals_entries(doc)[k], "team"@, "id"@) == Some(id as int),
        forall|j: int|
            k < j < totals_entries(doc).len() ==> number_in(
                #[trigger] totals_entries(doc)[j],
                "team"@,
                "id"@,
            ) != Some(id as int),
    ensures
        team_totals(doc, id) == totals_entries(doc)[k].get("stat"@),
{
    lemma_last_entry(totals_entries(doc), id, k);
}

proof fn lemma_last_entry(entries: Seq<JsonView>, id: i64, k: int)
    requires
        0 <= k < entries.len(),
        number_in(entries[k], "team"@, "id"@) == Some(id as int),
        forall|j: int|
            k < j < entries.len() ==> number_in(#[trigger] entries[j], "team"@, "id"@) != Some(
                id as int,
            ),
    ensures
        last_of_team(entries, id) == Some(entries[k]),
    decreases entries.len(),
{
    if k < entries.len() - 1 {
        let rest = entries.drop_last();
        assert(number_in(entries[entries.len() - 1], "team"@, "id"@) != Some(id as int));
        assert forall|j: int| k < j < rest.len() implies number_in(
            #[trigger] rest[j],
            "team"@,
            "id"@,
        ) != Some(id as int) by {
            assert(rest[j] == entries[j]);
        }
        lemma_last_entry(rest, id, k);
    }
}

/// Without an entry of the team there are no totals.
pub proof fn lemma_no_entry_no_totals(doc: JsonView, id: i64)
    requires
        forall|j: int|
            0 <= j < totals_entries(doc).len() ==> number_in(
                #[trigger] totals_entries(doc)[j],
                "team"@,
                "id"@,
            ) != Some(id as int),
    ensures
        team_totals(doc, id) is None,
{
    lemma_no_entry(totals_entries(doc), id);
}

proof fn lemma_no_entry(entries: Seq<JsonView>, id: i64)
    requires
        forall|j: int|
            0 <= j < entries.len() ==> number_in(#[trigger] entries[j], "team"@, "id"@) != Some(
                id as int,
            ),
    ensures
        last_of_team(entries, id) is None,
    decreases entries.len(),
{
    if entries.len() > 0 {
        let rest = entries.drop_last();
        assert(number_in(entries[entries.len() - 1], "team"@, "id"@) != Some(id as int));
        assert forall|j: int| 0 <= j < rest.len() implies number_in(
            #[trigger] rest[j],
            "team"@,
            "id"@,
        ) != Some(id as int) by {
            assert(rest[j] == entries[j]);
        }
        lemma_no_entry(rest, id);
    }
}

/// What is read of optional totals: empty where there are none.
pub open spec fn reads_total(read: Seq<char>, totals: Option<JsonView>, key: Seq<char>) -> bool {
    match totals {
        Some(block) => reads_text(read, text_of(block.get(key)), "-"@),
        None => read.len() == 0,
    }
}

pub open spec fn counts_total(read: i64, totals: Option<JsonView>, key: Seq<char>) -> bool {
    match totals {
        Some(block) => reads_number(read, int_of(block.get(key))),
        None => read == 0,
    }
}

/// What is known of a team: its names, the batting figures of its batting totals, the
/// pitching figures of its pitching totals, and its players.
pub proof fn lemma_team_is_told(
    team: JsonView,
    hitting: Option<JsonView>,
    pitching: Option<JsonView>,
    hitters: Seq<HitterView>,
    pitchers: Seq<PitcherLine>,
    info: TeamInfo,
)
    requires
        info@ == info_view(team, hitting, pitching, hitters, pitchers),
    ensures
        reads_text(info.name@, text_of(team.get("name"@)), "-"@),
        reads_text(info.abbrev@, text_of(team.get("abbreviation"@)), "-"@),
        reads_total(info.bat_avg@, hitting, "avg"@),
        reads_total(info.obp@, hitting, "obp"@),
        reads_total(info.slg@, hitting, "slg"@),
        reads_total(info.ops@, hitting, "ops"@),
        counts_total(info.runs, hitting, "runs"@),
        counts_total(info.home_runs, hitting, "homeRuns"@),
        reads_total(info.era@, pitching, "era"@),
        reads_total(info.whip@, pitching, "whip"@),
        counts_total(info.strikeouts, pitching, "strikeOuts"@),
        hitter_views(info.hitters@) == hitters,
        pitcher_lines(info.pitchers@) == pitchers,
{
    lemma_bounds_hold();
}

/// The league knows each team of the list that has a number, by that number, with its
/// own totals and the players of its own roster. Of two with the same number it knows the
/// later.
pub proof fn lemma_league_knows_each_team(
    entries: Seq<JsonView>,
    hitting: JsonView,
    pitching: JsonView,
    rosters: Seq<Option<Roster>>,
    k: int,
    id: i64,
)
    requires
        0 <= k < entries.len(),
        int_of(entries[k].get("id"@)) == Some(id as int),
        forall|j: int|
            k < j < entries.len() ==> int_of((#[trigger] entries[j]).get("id"@)) != Some(id as int),
    ensures
        ({
            let league = league_of(entries, hitting, pitching, rosters);
            let roster = rosters[ids_of(entries.take(k)).len() as int];
            &&& league.teams.contains_key(id)
            &&& league.teams[id] == info_view(
                entries[k],
                team_totals(hitting, id),
                team_totals(pitching, id),
                match roster {
                    Some(r) => hitter_views(r.hitters@),
                    None => Seq::empty(),
                },
                match roster {
                    Some(r) => pitcher_lines(r.pitchers@),
                    None => Seq::empty(),
                },
            )
        }),
    decreases entries.len(),
{
    let rest = entries.drop_last();
    lemma_bounds_hold();
    if k < rest.len() {
        assert(rest[k] == entries[k]);
        assert(rest.take(k) =~= entries.take(k));
        assert forall|j: int| k < j < rest.len() implies int_of((#[trigger] rest[j]).get("id"@))
            != Some(id as int) by {
            assert(rest[j] == entries[j]);
        }
        lemma_league_knows_each_team(rest, hitting, pitching, rosters, k, id);
        assert(int_of(entries[entries.len() - 1].get("id"@)) != Some(id as int));
    } else {
        assert(entries.take(k) =~= rest);
    }
}

/// Of several pitchers with one number the index holds the last that was taken in.
pub proof fn lemma_index_holds_the_last(
    index: Map<i64, PitcherLine>,
    pitchers: Seq<PitcherLine>,
    k: int,
)
    requires
        0 <= k < pitchers.len(),
        forall|j: int| k < j < pitchers.len() ==> (#[trigger] pitchers[j]).id != pitchers[k].id,
    ensures
        indexed(index, pitchers).contains_key(pitchers[k].id),
        indexed(index, pitchers)[pitchers[k].id] == pitchers[k],
    decreases pitchers.len(),
{
    if k < pitchers.len() - 1 {
        let rest = pitchers.drop_last();
        assert(pitchers[pitchers.len() - 1].id != pitchers[k].id);
        assert forall|j: int| k < j < rest.len() implies (#[trigger] rest[j]).id
            != rest[k].id by {
            assert(rest[j] == pitchers[j]);
        }
        lemma_index_holds_the_last(index, rest, k);
    }
}

/// Where the documents hold their lists: the totals under the splits of their first block,
/// the players of a roster and the teams under their own names.
pub proof fn lemma_documents_list_their_entries(doc: JsonView, list: Seq<JsonView>)
    ensures
        doc.get("roster"@) == Some(JsonView::Array(list)) ==> roster_entries(doc) == list,
        doc.get("teams"@) == Some(JsonView::Array(list)) ==> team_entries(doc) == list,
        forall|blocks: Seq<JsonView>|
            blocks.len() > 0 && #[trigger] doc.get("stats"@) == Some(JsonView::Array(blocks))
                && blocks[0].get("splits"@) == Some(JsonView::Array(list)) ==> totals_entries(doc)
                == list,
{
}

/// A team of the document that has a number is listed with its own name.
pub proof fn lemma_teams_are_listed_with_their_names(entries: Seq<JsonView>, n: int)
    requires
        0 <= n < entries.len(),
    ensures
        ids_of(entries).len() == names_of(entries).len(),
        ids_of(entries).len() <= entries.len(),
        int_of(entries[n].get("id"@)) matches Some(id) ==> {
            let place = ids_of(entries.take(n)).len() as int;
            &&& place < ids_of(entries).len()
            &&& ids_of(entries)[place] == id
            &&& names_of(entries)[place] == text_or(entries[n].get("name"@), "-"@)
        },
    decreases entries.len(),
{
    lemma_bounds_hold();
    let rest = entries.drop_last();
    if n < rest.len() {
        lemma_teams_are_listed_with_their_names(rest, n);
        assert(rest[n] == entries[n]);
        assert(rest.take(n) =~= entries.take(n));
    } else {
        assert(entries.take(n) =~= rest);
        if rest.len() > 0 {
            lemma_teams_are_listed_with_their_names(rest, 0);
        }
    }
}

} // verus!
