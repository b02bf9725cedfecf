//! What holds of the feature rows as a whole: they look back only, and what they
//! hold of a team covers its current season from the first day.

use vstd::prelude::*;
use crate::features::{
    shows_team, tail, BuilderView, PitcherView, Ratio, RecordView, TeamSnapshot, TeamView,
    FORM_GAMES, FORM_STARTS,
};
use crate::mlb::GameView;
use crate::outside::day_reading;

verus! {

/// Games that come later change no row: the rows of the first games are the first
/// rows of all the games.
pub proof fn lemma_later_games_change_no_row(b: BuilderView, games: Seq<GameView>, n: int)
    requires
        0 <= n <= games.len(),
    ensures
        b.rows_of(games.take(n)).is_prefix_of(b.rows_of(games)),
    decreases games.len() - n,
{
    if n == games.len() {
        assert(games.take(n) =~= games);
    } else {
        lemma_later_games_change_no_row(b, games, n + 1);
        let longer = games.take(n + 1);
        assert(longer.drop_last() =~= games.take(n));
        let short = b.rows_of(games.take(n));
        let mid = b.rows_of(longer);
        let all = b.rows_of(games);
        assert(short.is_prefix_of(mid));
        assert(short =~= all.subrange(0, short.len() as int)) by {
            assert forall|i: int| 0 <= i < short.len() implies short[i] == all[i] by {
                assert(mid[i] == all.subrange(0, mid.len() as int)[i]);
                assert(short[i] == mid.subrange(0, short.len() as int)[i]);
            }
        }
    }
}

/// The same game, its result aside.
pub open spec fn same_fixture(g: GameView, other: GameView) -> bool {
    other == GameView { home_score: other.home_score, away_score: other.away_score, ..g }
}

/// Building two lists of games in turn is building them as one.
pub proof fn lemma_building_in_turn(b: BuilderView, first: Seq<GameView>, then: Seq<GameView>)
    ensures
        b.after_games(first + then) == b.after_games(first).after_games(then),
        b.rows_of(first + then) == b.rows_of(first) + b.after_games(first).rows_of(then),
    decreases then.len(),
{
    if then.len() == 0 {
        assert(first + then =~= first);
        assert(b.rows_of(first) + b.after_games(first).rows_of(then) =~= b.rows_of(first));
    } else {
        let rest = then.drop_last();
        assert((first + then).drop_last() =~= first + rest);
        assert((first + then).last() == then.last());
        lemma_building_in_turn(b, first, rest);
        assert(b.rows_of(first + then) =~= b.rows_of(first) + b.after_games(first).rows_of(then));
    }
}

/// A game that is still to be played is forecast from what its row will hold: where
/// both teams are known and already in its season, and its starters are announced, or
/// no unknown one has started yet, the inputs are those of the row that building the
/// game will give.
pub proof fn lemma_forecast_is_the_row_to_come(b: BuilderView, g: GameView, day: i32)
    requires
        b.teams.contains_key(g.home_id),
        b.teams.contains_key(g.away_id),
        b.team(g.home_id).season == g.season,
        b.team(g.away_id).season == g.season,
        b.starter(g.home_sp_id) == b.pitcher(g.home_sp_id),
        b.starter(g.away_sp_id) == b.pitcher(g.away_sp_id),
    ensures
        b.upcoming(g.home_id, g.away_id, day, g.home_sp_id, g.away_sp_id) == Some(
            b.row_of(g, day).inputs,
        ),
{
}

/// Each game whose date reads as one has its row, read from the state that the games
/// before it left behind: no more, and no less.
pub proof fn lemma_each_game_has_its_row(b: BuilderView, games: Seq<GameView>, i: int)
    requires
        forall|k: int| 0 <= k < games.len() ==> day_reading((#[trigger] games[k]).date) is Ok,
        0 <= i < games.len(),
    ensures
        b.rows_of(games).len() == games.len(),
        b.rows_of(games)[i] == b.after_games(games.take(i)).row_of(
            games[i],
            day_reading(games[i].date)->Ok_0,
        ),
    decreases games.len(),
{
    let rest = games.drop_last();
    assert(day_reading(games[games.len() - 1].date) is Ok);
    assert forall|k: int| 0 <= k < rest.len() implies day_reading(
        (#[trigger] rest[k]).date,
    ) is Ok by {
        assert(rest[k] == games[k]);
    }
    if rest.len() > 0 {
        lemma_each_game_has_its_row(
            b,
            rest,
            if i < rest.len() {
                i
            } else {
                0
            },
        );
    }
    if i < rest.len() {
        assert(rest.take(i) =~= games.take(i));
        assert(rest[i] == games[i]);
    } else {
        assert(games.take(i) =~= rest);
    }
}

/// The result of a game is not in its own row: whatever the result, what the row
/// holds of the time before the game is the same.
pub proof fn lemma_own_result_is_unseen(b: BuilderView, g: GameView, other: GameView, day: i32)
    requires
        same_fixture(g, other),
    ensures
        b.row_of(g, day).inputs == b.row_of(other, day).inputs,
        b.row_of(g, day).home_gp == b.row_of(other, day).home_gp,
        b.row_of(g, day).away_gp == b.row_of(other, day).away_gp,
        b.row_of(g, day).elo.home_carries == b.row_of(other, day).elo.home_carries,
        b.row_of(g, day).elo.away_carries == b.row_of(other, day).elo.away_carries,
{
}

// ---------------------------------------------------------- seasons of a team

/// What one game was to a team.
pub struct Outing {
    pub season: i32,
    pub day: i32,
    pub home: bool,
    pub won: bool,
    pub scored: i32,
    pub allowed: i32,
}

/// The outings of a team in one game on a day.
pub open spec fn outings_in(g: GameView, day: i32, id: i64) -> Seq<Outing> {
    let home = Outing {
        season: g.season,
        day,
        home: true,
        won: g.home_won(),
        scored: g.home_score,
        allowed: g.away_score,
    };
    let away = Outing {
        season: g.season,
        day,
        home: false,
        won: !g.home_won(),
        scored: g.away_score,
        allowed: g.home_score,
    };
    if g.home_id == id && g.away_id == id {
        seq![home, away]
    } else if g.home_id == id {
        seq![home]
    } else if g.away_id == id {
        seq![away]
    } else {
        Seq::empty()
    }
}

/// The outings of a team, in the order of the games. A game whose date does not
/// read as one does not count.
pub open spec fn outings(games: Seq<GameView>, id: i64) -> Seq<Outing>
    decreases games.len(),
{
    if games.len() == 0 {
        Seq::empty()
    } else {
        let before = outings(games.drop_last(), id);
        match day_reading(games.last().date) {
            Ok(day) => before + outings_in(games.last(), day, id),
            Err(_) => before,
        }
    }
}

/// The outings of one season.
pub open spec fn of_season(s: Seq<Outing>, season: i32) -> Seq<Outing>
    decreases s.len(),
{
    if s.len() == 0 {
        Seq::empty()
    } else if s.last().season == season {
        of_season(s.drop_last(), season).push(s.last())
    } else {
        of_season(s.drop_last(), season)
    }
}

/// The outings at home, or those on the road.
pub open spec fn of_place(s: Seq<Outing>, home: bool) -> Seq<Outing>
    decreases s.len(),
{
    if s.len() == 0 {
        Seq::empty()
    } else if s.last().home == home {
        of_place(s.drop_last(), home).push(s.last())
    } else {
        of_place(s.drop_last(), home)
    }
}

/// Seasons follow one another.
pub open spec fn seasons_in_order(s: Seq<Outing>) -> bool {
    forall|i: int, j: int| 0 <= i < j < s.len() ==> (#[trigger] s[i]).season <= (#[trigger] s[j]).season
}

/// The record of the outings: how many, how many won, and the runs.
pub open spec fn record_of(s: Seq<Outing>) -> RecordView
    decreases s.len(),
{
    if s.len() == 0 {
        RecordView::empty()
    } else {
        record_of(s.drop_last()).with_game(s.last().won, s.last().scored, s.last().allowed)
    }
}

pub open spec fn results_of(s: Seq<Outing>) -> Seq<bool> {
    Seq::new(s.len(), |i: int| s[i].won)
}

pub open spec fn scored_of(s: Seq<Outing>) -> Seq<i32> {
    Seq::new(s.len(), |i: int| s[i].scored)
}

pub open spec fn allowed_of(s: Seq<Outing>) -> Seq<i32> {
    Seq::new(s.len(), |i: int| s[i].allowed)
}

/// A team whose records and form are those of the given outings of its season.
pub open spec fn reflects(t: TeamView, season: i32, s: Seq<Outing>) -> bool {
    &&& t.season == season
    &&& t.total == record_of(s)
    &&& t.at_home == record_of(of_place(s, true))
    &&& t.on_road == record_of(of_place(s, false))
    &&& t.results == tail(results_of(s), FORM_GAMES as int)
    &&& t.scored == tail(scored_of(s), FORM_GAMES as int)
    &&& t.allowed == tail(allowed_of(s), FORM_GAMES as int)
}

/// A team after its outings, one by one.
spec fn played(s: Seq<Outing>) -> TeamView
    decreases s.len(),
{
    if s.len() == 0 {
        TeamView::fresh()
    } else {
        let o = s.last();
        played(s.drop_last()).rolled(o.season).after_game(o.day, o.home, o.won, o.scored, o.allowed)
    }
}

proof fn lemma_tail_push<T>(s: Seq<T>, x: T, cap: int)
    requires
        cap >= 1,
    ensures
        tail(tail(s, cap).push(x), cap) == tail(s.push(x), cap),
{
    assert(tail(tail(s, cap).push(x), cap) =~= tail(s.push(x), cap));
}

/// One more outing in the same season.
proof fn lemma_reflects_one_more(t: TeamView, season: i32, s: Seq<Outing>, o: Outing)
    requires
        reflects(t, season, s),
    ensures
        reflects(
            t.after_game(o.day, o.home, o.won, o.scored, o.allowed),
            season,
            s.push(o),
        ),
{
    let longer = s.push(o);
    assert(longer.drop_last() =~= s);
    assert(results_of(longer) =~= results_of(s).push(o.won));
    assert(scored_of(longer) =~= scored_of(s).push(o.scored));
    assert(allowed_of(longer) =~= allowed_of(s).push(o.allowed));
    lemma_tail_push(results_of(s), o.won, FORM_GAMES as int);
    lemma_tail_push(scored_of(s), o.scored, FORM_GAMES as int);
    lemma_tail_push(allowed_of(s), o.allowed, FORM_GAMES as int);
    let home = of_place(s, true);
    let road = of_place(s, false);
    assert(home.push(o).drop_last() =~= home);
    assert(road.push(o).drop_last() =~= road);
}

proof fn lemma_fresh_reflects_nothing(t: TeamView, season: i32)
    requires
        t.season != season,
    ensures
        reflects(t.rolled(season), season, Seq::empty()),
{
    let none = Seq::<Outing>::empty();
    assert(results_of(none) =~= Seq::<bool>::empty());
    assert(scored_of(none) =~= Seq::<i32>::empty());
    assert(allowed_of(none) =~= Seq::<i32>::empty());
}

proof fn lemma_earlier_seasons_are_left_out(s: Seq<Outing>, season: i32)
    requires
        forall|i: int| 0 <= i < s.len() ==> (#[trigger] s[i]).season != season,
    ensures
        of_season(s, season) == Seq::<Outing>::empty(),
    decreases s.len(),
{
    if s.len() > 0 {
        assert(s.last() == s[s.len() - 1]);
        assert forall|i: int| 0 <= i < s.drop_last().len() implies (
        #[trigger] s.drop_last()[i]).season != season by {
            assert(s.drop_last()[i] == s[i]);
        }
        lemma_earlier_seasons_are_left_out(s.drop_last(), season);
    }
}

proof fn lemma_played_reflects_season(s: Seq<Outing>)
    requires
        s.len() > 0,
        seasons_in_order(s),
    ensures
        reflects(played(s), s.last().season, of_season(s, s.last().season)),
        played(s).last_day == Some(s.last().day),
    decreases s.len(),
{
    let o = s.last();
    let rest = s.drop_last();
    let before = played(rest);
    assert(seasons_in_order(rest));
    if rest.len() == 0 {
        assert(of_season(rest, o.season) == Seq::<Outing>::empty());
        if before.season != o.season {
            lemma_fresh_reflects_nothing(before, o.season);
        } else {
            let none = Seq::<Outing>::empty();
            assert(results_of(none) =~= Seq::<bool>::empty());
            assert(scored_of(none) =~= Seq::<i32>::empty());
            assert(allowed_of(none) =~= Seq::<i32>::empty());
        }
        lemma_reflects_one_more(before.rolled(o.season), o.season, Seq::empty(), o);
    } else {
        lemma_played_reflects_season(rest);
        let last = rest.last();
        assert(last == s[s.len() - 2]);
        assert(o == s[s.len() - 1]);
        if last.season == o.season {
            lemma_reflects_one_more(before, o.season, of_season(rest, o.season), o);
        } else {
            assert forall|i: int| 0 <= i < rest.len() implies (#[trigger] rest[i]).season
                != o.season by {
                assert(rest[i] == s[i]);
                if i < rest.len() - 1 {
                    assert(s[i].season <= s[s.len() - 2].season);
                }
            }
            lemma_earlier_seasons_are_left_out(rest, o.season);
            lemma_fresh_reflects_nothing(before, o.season);
            lemma_reflects_one_more(before.rolled(o.season), o.season, Seq::empty(), o);
        }
    }
}

/// Two teams that differ in name at most.
spec fn alike(t: TeamView, u: TeamView) -> bool {
    t.named(Seq::empty()) == u.named(Seq::empty())
}

proof fn lemma_builder_plays_outings(games: Seq<GameView>, id: i64)
    ensures
        alike(BuilderView::fresh().after_games(games).team(id), played(outings(games, id))),
        BuilderView::fresh().after_games(games).teams.contains_key(id) <==> outings(
            games,
            id,
        ).len() > 0,
    decreases games.len(),
{
    if games.len() > 0 {
        let rest = games.drop_last();
        let g = games.last();
        lemma_builder_plays_outings(rest, id);
        match day_reading(g.date) {
            Ok(day) => {
                let b = BuilderView::fresh().after_games(rest);
                let before = outings(rest, id);
                let now = outings_in(g, day, id);
                let all = before + now;
                if now.len() == 0 {
                    assert(all =~= before);
                } else if now.len() == 1 {
                    assert(all.drop_last() =~= before);
                    assert(all.last() == now[0]);
                } else {
                    assert(all.drop_last().drop_last() =~= before);
                    assert(all.last() == now[1]);
                    assert(all.drop_last().last() == now[0]);
                    let t = played(before).rolled(g.season).after_game(
                        day,
                        true,
                        now[0].won,
                        now[0].scored,
                        now[0].allowed,
                    );
                    assert(played(all.drop_last()) == t);
                    assert(t.rolled(g.season) == t);
                }
            },
            Err(_) => {},
        }
    }
}

/// Season totals, records by place and form of a team cover its current season
/// completely: all of its games since the season began, and none of an earlier
/// season. The form is that of its last games in the season.
pub proof fn lemma_state_covers_current_season(games: Seq<GameView>, id: i64)
    requires
        outings(games, id).len() > 0,
        seasons_in_order(outings(games, id)),
    ensures
        ({
            let s = outings(games, id);
            let t = BuilderView::fresh().after_games(games).team(id);
            &&& BuilderView::fresh().after_games(games).teams.contains_key(id)
            &&& reflects(t, s.last().season, of_season(s, s.last().season))
            &&& t.last_day == Some(s.last().day)
        }),
{
    lemma_builder_plays_outings(games, id);
    lemma_played_reflects_season(outings(games, id));
    let t = BuilderView::fresh().after_games(games).team(id);
    let u = played(outings(games, id));
    assert(t.named(Seq::empty()).total == t.total);
    assert(u.named(Seq::empty()).total == u.total);
    assert(t.named(Seq::empty()).season == t.season);
}

/// A team is known once it has played.
pub proof fn lemma_teams_are_known_once_they_play(games: Seq<GameView>, id: i64)
    ensures
        BuilderView::fresh().after_games(games).teams.contains_key(id) <==> outings(
            games,
            id,
        ).len() > 0,
{
    lemma_builder_plays_outings(games, id);
}

// ------------------------------------------------------------ wins and losses

/// The sum of a figure over some teams.
pub open spec fn total_of(ids: Seq<i64>, figure: spec_fn(i64) -> int) -> int
    decreases ids.len(),
{
    if ids.len() == 0 {
        0
    } else {
        total_of(ids.drop_last(), figure) + figure(ids.last())
    }
}

pub open spec fn wins_in(b: BuilderView) -> spec_fn(i64) -> int {
    |id: i64| b.team(id).total.wins
}

pub open spec fn losses_in(b: BuilderView) -> spec_fn(i64) -> int {
    |id: i64| b.team(id).total.gp - b.team(id).total.wins
}

proof fn lemma_total_of_same(ids: Seq<i64>, f: spec_fn(i64) -> int, g: spec_fn(i64) -> int)
    requires
        forall|k: int| 0 <= k < ids.len() ==> f(#[trigger] ids[k]) == g(ids[k]),
    ensures
        total_of(ids, f) == total_of(ids, g),
    decreases ids.len(),
{
    if ids.len() > 0 {
        let rest = ids.drop_last();
        assert forall|k: int| 0 <= k < rest.len() implies f(#[trigger] rest[k]) == g(rest[k]) by {
            assert(rest[k] == ids[k]);
        }
        lemma_total_of_same(rest, f, g);
        assert(f(ids[ids.len() - 1]) == g(ids[ids.len() - 1]));
    }
}

/// A change of one team's figure is the change of the sum.
proof fn lemma_total_of_change(
    ids: Seq<i64>,
    f: spec_fn(i64) -> int,
    g: spec_fn(i64) -> int,
    id: i64,
)
    requires
        ids.no_duplicates(),
        ids.contains(id),
        forall|k: int| 0 <= k < ids.len() && ids[k] != id ==> f(#[trigger] ids[k]) == g(ids[k]),
    ensures
        total_of(ids, g) == total_of(ids, f) + g(id) - f(id),
    decreases ids.len(),
{
    let rest = ids.drop_last();
    let p = choose|p: int| 0 <= p < ids.len() && ids[p] == id;
    if ids.last() == id {
        assert forall|k: int| 0 <= k < rest.len() implies f(#[trigger] rest[k]) == g(rest[k]) by {
            assert(rest[k] == ids[k] && ids[k] != ids[ids.len() - 1]);
        }
        lemma_total_of_same(rest, f, g);
    } else {
        assert(rest[p] == id);
        assert forall|k: int| 0 <= k < rest.len() && rest[k] != id implies f(#[trigger] rest[k])
            == g(rest[k]) by {
            assert(rest[k] == ids[k]);
        }
        lemma_total_of_change(rest, f, g, id);
        assert(f(ids[ids.len() - 1]) == g(ids[ids.len() - 1]));
    }
}

/// All teams that are known are in a season.
spec fn all_in_season(b: BuilderView, season: i32) -> bool {
    forall|id: i64| #[trigger] b.teams.contains_key(id) ==> b.teams[id].season == season
}

/// A game adds one win and one loss, to whichever teams.
proof fn lemma_game_adds_win_and_loss(
    b: BuilderView,
    g: GameView,
    day: i32,
    ids: Seq<i64>,
)
    requires
        all_in_season(b, g.season),
        ids.no_duplicates(),
        ids.contains(g.home_id),
        ids.contains(g.away_id),
    ensures
        all_in_season(b.after_game(g, day), g.season),
        total_of(ids, wins_in(b.after_game(g, day))) == total_of(ids, wins_in(b)) + 1,
        total_of(ids, losses_in(b.after_game(g, day))) == total_of(ids, losses_in(b)) + 1,
{
    let s0 = b.before_game(g);
    let s1 = s0.with_team(
        g.home_id,
        s0.team(g.home_id).after_game(day, true, g.home_won(), g.home_score, g.away_score),
    );
    let s2 = b.after_game(g, day);
    assert forall|id: i64| #[trigger] s0.team(id).total == b.team(id).total by {}
    lemma_total_of_same(ids, wins_in(b), wins_in(s0));
    lemma_total_of_same(ids, losses_in(b), losses_in(s0));
    lemma_total_of_change(ids, wins_in(s0), wins_in(s1), g.home_id);
    lemma_total_of_change(ids, losses_in(s0), losses_in(s1), g.home_id);
    lemma_total_of_change(ids, wins_in(s1), wins_in(s2), g.away_id);
    lemma_total_of_change(ids, losses_in(s1), losses_in(s2), g.away_id);
}

/// Over one season wins and losses balance: as many wins as losses over all teams, and
/// as many as games.
pub proof fn lemma_wins_and_losses_balance(games: Seq<GameView>, season: i32, ids: Seq<i64>)
    requires
        forall|k: int| 0 <= k < games.len() ==> (#[trigger] games[k]).season == season,
        ids.no_duplicates(),
        forall|id: i64| #[trigger]
            BuilderView::fresh().after_games(games).teams.contains_key(id) ==> ids.contains(id),
    ensures
        total_of(ids, wins_in(BuilderView::fresh().after_games(games)))
            == BuilderView::fresh().rows_of(games).len(),
        total_of(ids, losses_in(BuilderView::fresh().after_games(games)))
            == BuilderView::fresh().rows_of(games).len(),
{
    lemma_season_balances(games, season, ids);
}

proof fn lemma_season_balances(games: Seq<GameView>, season: i32, ids: Seq<i64>)
    requires
        forall|k: int| 0 <= k < games.len() ==> (#[trigger] games[k]).season == season,
        ids.no_duplicates(),
        forall|id: i64| #[trigger]
            BuilderView::fresh().after_games(games).teams.contains_key(id) ==> ids.contains(id),
    ensures
        all_in_season(BuilderView::fresh().after_games(games), season),
        total_of(ids, wins_in(BuilderView::fresh().after_games(games)))
            == BuilderView::fresh().rows_of(games).len(),
        total_of(ids, losses_in(BuilderView::fresh().after_games(games)))
            == BuilderView::fresh().rows_of(games).len(),
    decreases games.len(),
{
    let b = BuilderView::fresh();
    if games.len() == 0 {
        lemma_total_of_zeros(ids, wins_in(b));
        lemma_total_of_zeros(ids, losses_in(b));
    } else {
        let rest = games.drop_last();
        let g = games[games.len() - 1];
        let before = b.after_games(rest);
        let after = b.after_games(games);
        assert forall|k: int| 0 <= k < rest.len() implies (#[trigger] rest[k]).season == season by {
            assert(rest[k] == games[k]);
        }
        assert forall|id: i64| #[trigger] before.teams.contains_key(id) implies ids.contains(id) by {
            assert(after.teams.contains_key(id));
        }
        lemma_season_balances(rest, season, ids);
        match day_reading(g.date) {
            Ok(day) => {
                assert(after.teams.contains_key(g.home_id));
                assert(after.teams.contains_key(g.away_id));
                lemma_game_adds_win_and_loss(before, g, day, ids);
            },
            Err(_) => {},
        }
    }
}

proof fn lemma_total_of_zeros(ids: Seq<i64>, f: spec_fn(i64) -> int)
    requires
        forall|k: int| 0 <= k < ids.len() ==> f(#[trigger] ids[k]) == 0,
    ensures
        total_of(ids, f) == 0,
    decreases ids.len(),
{
    if ids.len() > 0 {
        let rest = ids.drop_last();
        assert forall|k: int| 0 <= k < rest.len() implies f(#[trigger] rest[k]) == 0 by {
            assert(rest[k] == ids[k]);
        }
        lemma_total_of_zeros(rest, f);
        assert(f(ids[ids.len() - 1]) == 0);
    }
}

proof fn lemma_outings_in_one_season(games: Seq<GameView>, season: i32, id: i64)
    requires
        forall|k: int| 0 <= k < games.len() ==> (#[trigger] games[k]).season == season,
    ensures
        forall|k: int|
            0 <= k < outings(games, id).len() ==> (#[trigger] outings(games, id)[k]).season
                == season,
    decreases games.len(),
{
    if games.len() > 0 {
        let rest = games.drop_last();
        assert forall|k: int| 0 <= k < rest.len() implies (#[trigger] rest[k]).season == season by {
            assert(rest[k] == games[k]);
        }
        lemma_outings_in_one_season(rest, season, id);
        let before = outings(rest, id);
        assert(games[games.len() - 1].season == season);
        assert forall|k: int| 0 <= k < outings(games, id).len() implies (#[trigger] outings(
            games,
            id,
        )[k]).season == season by {
            if k < before.len() {
                assert(before[k].season == season);
            }
        }
    }
}

proof fn lemma_season_is_all(s: Seq<Outing>, season: i32)
    requires
        forall|k: int| 0 <= k < s.len() ==> (#[trigger] s[k]).season == season,
    ensures
        of_season(s, season) == s,
        record_of(s).gp == s.len(),
    decreases s.len(),
{
    if s.len() > 0 {
        let rest = s.drop_last();
        assert forall|k: int| 0 <= k < rest.len() implies (#[trigger] rest[k]).season == season by {
            assert(rest[k] == s[k]);
        }
        lemma_season_is_all(rest, season);
        assert(s[s.len() - 1].season == season);
        assert(rest.push(s.last()) =~= s);
    }
}

/// A game whose date reads as one has a row.
pub proof fn lemma_each_dated_game_has_a_row(b: BuilderView, games: Seq<GameView>)
    requires
        forall|k: int| 0 <= k < games.len() ==> day_reading((#[trigger] games[k]).date) is Ok,
    ensures
        b.rows_of(games).len() == games.len(),
    decreases games.len(),
{
    if games.len() > 0 {
        let rest = games.drop_last();
        assert forall|k: int| 0 <= k < rest.len() implies day_reading(
            (#[trigger] rest[k]).date,
        ) is Ok by {
            assert(rest[k] == games[k]);
        }
        lemma_each_dated_game_has_a_row(b, rest);
        assert(day_reading(games[games.len() - 1].date) is Ok);
    }
}

/// The teams that are shown after one season are exactly those that have played. Each
/// shows as many wins as it won games, and a win or a loss for each game; over all of
/// them wins and losses balance.
pub proof fn lemma_snapshots_balance<E>(
    games: Seq<GameView>,
    season: i32,
    snaps: Map<i64, TeamSnapshot<E, Ratio>>,
    ids: Seq<i64>,
)
    requires
        forall|k: int| 0 <= k < games.len() ==> (#[trigger] games[k]).season == season,
        snaps.dom() == BuilderView::fresh().after_games(games).teams.dom(),
        forall|id: i64| #[trigger]
            snaps.contains_key(id) ==> shows_team(
                snaps[id],
                id,
                BuilderView::fresh().after_games(games).teams[id],
                snaps[id].elo,
            ),
        ids.no_duplicates(),
        forall|id: i64| #[trigger] ids.contains(id) <==> snaps.contains_key(id),
    ensures
        forall|id: i64| #[trigger] snaps.contains_key(id) <==> outings(games, id).len() > 0,
        forall|id: i64| #[trigger]
            snaps.contains_key(id) ==> {
                &&& snaps[id].wins == record_of(outings(games, id)).wins
                &&& snaps[id].wins + snaps[id].losses == outings(games, id).len()
            },
        total_of(ids, |id: i64| snaps[id].wins as int) == BuilderView::fresh().rows_of(games).len(),
        total_of(ids, |id: i64| snaps[id].losses as int)
            == BuilderView::fresh().rows_of(games).len(),
{
    let b = BuilderView::fresh().after_games(games);
    assert forall|id: i64| #[trigger] snaps.contains_key(id) <==> outings(games, id).len() > 0 by {
        lemma_teams_are_known_once_they_play(games, id);
        assert(snaps.dom().contains(id) == b.teams.dom().contains(id));
    }
    assert forall|id: i64| #[trigger] snaps.contains_key(id) implies {
        &&& snaps[id].wins == record_of(outings(games, id)).wins
        &&& snaps[id].wins + snaps[id].losses == outings(games, id).len()
    } by {
        let s = outings(games, id);
        lemma_outings_in_one_season(games, season, id);
        lemma_season_is_all(s, season);
        assert(s[s.len() - 1].season == season);
        lemma_state_covers_current_season(games, id);
    }
    assert forall|id: i64| #[trigger] b.teams.contains_key(id) implies ids.contains(id) by {
        assert(snaps.dom().contains(id));
        assert(snaps.contains_key(id));
    }
    lemma_wins_and_losses_balance(games, season, ids);
    assert forall|k: int| 0 <= k < ids.len() implies {
        &&& snaps.contains_key(#[trigger] ids[k])
        &&& b.teams.contains_key(ids[k])
    } by {
        assert(ids.contains(ids[k]));
        assert(snaps.dom().contains(ids[k]));
    }
    lemma_total_of_same(ids, wins_in(b), |id: i64| snaps[id].wins as int);
    lemma_total_of_same(ids, losses_in(b), |id: i64| snaps[id].losses as int);
}

// --------------------------------------------------------- starts of a pitcher

/// The runs that a pitcher's team allowed in one game that they started.
pub open spec fn starts_in(g: GameView, id: i64) -> Seq<i32> {
    if g.home_sp_id == id && g.away_sp_id == id {
        seq![g.away_score, g.home_score]
    } else if g.home_sp_id == id {
        seq![g.away_score]
    } else if g.away_sp_id == id {
        seq![g.home_score]
    } else {
        Seq::empty()
    }
}

/// The runs that a pitcher's team allowed in each of their starts.
pub open spec fn starts_of(games: Seq<GameView>, id: i64) -> Seq<i32>
    decreases games.len(),
{
    if games.len() == 0 {
        Seq::empty()
    } else {
        let before = starts_of(games.drop_last(), id);
        match day_reading(games.last().date) {
            Ok(_) => before + starts_in(games.last(), id),
            Err(_) => before,
        }
    }
}

proof fn lemma_start_push(p: PitcherView, s: Seq<i32>, x: i32)
    requires
        p.starts == s.len(),
        p.recent == tail(s, FORM_STARTS as int),
    ensures
        p.after_start(x).starts == s.push(x).len(),
        p.after_start(x).recent == tail(s.push(x), FORM_STARTS as int),
{
    lemma_tail_push(s, x, FORM_STARTS as int);
}

/// A pitcher has all their starts counted, and their form is that of the last ones.
pub proof fn lemma_pitcher_covers_starts(games: Seq<GameView>, id: i64)
    ensures
        ({
            let p = BuilderView::fresh().after_games(games).pitcher(id);
            &&& p.starts == starts_of(games, id).len()
            &&& p.recent == tail(starts_of(games, id), FORM_STARTS as int)
        }),
    decreases games.len(),
{
    if games.len() > 0 {
        let rest = games.drop_last();
        let g = games.last();
        lemma_pitcher_covers_starts(rest, id);
        match day_reading(g.date) {
            Ok(day) => {
                let b = BuilderView::fresh().after_games(rest);
                let s = starts_of(rest, id);
                let now = starts_in(g, id);
                let p = b.pitcher(id);
                if now.len() == 0 {
                    assert(s + now =~= s);
                } else if now.len() == 1 {
                    assert(s + now =~= s.push(now[0]));
                    lemma_start_push(p, s, now[0]);
                } else {
                    assert(s + now =~= s.push(now[0]).push(now[1]));
                    lemma_start_push(p, s, now[0]);
                    lemma_start_push(p.after_start(now[0]), s.push(now[0]), now[1]);
                }
            },
            Err(_) => {},
        }
    } else {
        assert(starts_of(games, id) =~= Seq::<i32>::empty());
    }
}

// ------------------------------------------------------------------- figures

/// The winning share stays strictly between 0 and 1, and lies nearer to one half
/// than the plain share of games won: the distance from one half has the same
/// numerator and a larger denominator.
pub proof fn lemma_share_is_drawn_to_one_half(r: RecordView)
    requires
        r.wf(),
    ensures
        0 < r.wpct().num < r.wpct().den,
        2 * r.wpct().num - r.wpct().den == 2 * r.wins - r.gp,
        r.wpct().den > r.gp,
{
}

/// Rest is between 0 and 7 days.
pub proof fn lemma_rest_is_bounded(t: TeamView, day: i32)
    ensures
        0 <= t.rest_days(day) <= 7,
{
}

/// An unannounced starter tells nothing: whatever the unknown pitchers before them
/// did, they count as a pitcher without any start.
pub proof fn lemma_unknown_starter_is_average(b: BuilderView)
    ensures
        b.starter(0) == PitcherView::fresh(),
{
}

} // verus!
