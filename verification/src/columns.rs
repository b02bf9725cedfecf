//! What each column of a feature row says, told from the games before it.

use vstd::prelude::*;
use crate::chronology::{
    allowed_of, lemma_pitcher_covers_starts, lemma_state_covers_current_season,
    lemma_teams_are_known_once_they_play, of_place, of_season, outings, outings_in, record_of,
    reflects, results_of, scored_of, seasons_in_order, starts_in, starts_of, Outing,
};
use crate::features::{
    count_true, shows_team, side_view, sum, tail, BuilderView, Fraction, PitcherView, Ratio,
    SideView, TeamSnapshot, TeamView,
};
use crate::live::forecast_inputs;
use crate::mlb::{GameView, ScheduledGame};
use crate::outside::day_reading;

verus! {

// ------------------------------------------------------------- games of a team

/// Games in the order of their seasons.
pub open spec fn seasons_follow(games: Seq<GameView>) -> bool {
    forall|i: int, j: int|
        0 <= i < j < games.len() ==> (#[trigger] games[i]).season <= (#[trigger] games[j]).season
}

/// The last items of a list, as many as `n` if there are so many.
pub open spec fn latest<T>(s: Seq<T>, n: int) -> Seq<T> {
    s.subrange(
        if s.len() > n {
            s.len() - n
        } else {
            0
        },
        s.len() as int,
    )
}

pub open spec fn games_won(s: Seq<Outing>) -> int
    decreases s.len(),
{
    if s.len() == 0 {
        0
    } else if s.last().won {
        games_won(s.drop_last()) + 1
    } else {
        games_won(s.drop_last())
    }
}

pub open spec fn runs_scored(s: Seq<Outing>) -> int
    decreases s.len(),
{
    if s.len() == 0 {
        0
    } else {
        runs_scored(s.drop_last()) + s.last().scored
    }
}

pub open spec fn runs_allowed(s: Seq<Outing>) -> int
    decreases s.len(),
{
    if s.len() == 0 {
        0
    } else {
        runs_allowed(s.drop_last()) + s.last().allowed
    }
}

pub open spec fn all_runs(s: Seq<i32>) -> int
    decreases s.len(),
{
    if s.len() == 0 {
        0
    } else {
        all_runs(s.drop_last()) + s.last()
    }
}

/// So many out of so many; 4.4 where there are none to divide by.
pub open spec fn per_game(runs: int, games: int) -> Fraction {
    if games == 0 {
        Fraction { num: 22, den: 5 }
    } else {
        Fraction { num: runs, den: games }
    }
}

/// A side of a row tells of these games of its season, of its games here (at home, or on
/// the road), of the day of its last game, and of the starts of its pitcher: records
/// drawn towards one half by eight games, runs per game, the form of the last ten games,
/// the days of rest up to seven, the last eight starts, and the starts out of thirty.
pub open spec fn side_tells(
    side: SideView,
    season: Seq<Outing>,
    at_home: bool,
    last_day: Option<i32>,
    starts: Seq<i32>,
    day: i32,
) -> bool {
    let n = season.len() as int;
    let ten = latest(season, 10);
    let here = of_place(season, at_home);
    let eight = latest(starts, 8);
    &&& side.wpct == Fraction { num: games_won(season) + 4, den: n + 8 }
    &&& side.rs_pg == per_game(runs_scored(season), n)
    &&& side.ra_pg == per_game(runs_allowed(season), n)
    &&& side.runs == if n == 0 {
        None
    } else {
        Some((runs_scored(season), runs_allowed(season)))
    }
    &&& side.form10 == if n == 0 {
        Fraction { num: 1, den: 2 }
    } else {
        Fraction { num: games_won(ten), den: ten.len() as int }
    }
    &&& side.rs10 == per_game(runs_scored(ten), ten.len() as int)
    &&& side.ra10 == per_game(runs_allowed(ten), ten.len() as int)
    &&& side.here_wpct == Fraction { num: games_won(here) + 4, den: here.len() as int + 8 }
    &&& side.here_rs_pg == per_game(runs_scored(here), here.len() as int)
    &&& side.here_ra_pg == per_game(runs_allowed(here), here.len() as int)
    &&& match last_day {
        None => side.rest == 3,
        Some(last) => {
            &&& 0 <= day - last <= 7 ==> side.rest == day - last
            &&& day < last ==> side.rest == 0
            &&& day - last > 7 ==> side.rest == 7
        },
    }
    &&& side.sp_ra == per_game(all_runs(eight), eight.len() as int)
    &&& side.sp_exp.den == 30
    &&& starts.len() <= 30 ==> side.sp_exp.num == starts.len()
    &&& starts.len() > 30 ==> side.sp_exp.num == 30
}

/// The day of the last game of a team.
pub open spec fn last_day_of(games: Seq<GameView>, id: i64) -> Option<i32> {
    if outings(games, id).len() == 0 {
        None
    } else {
        Some(outings(games, id).last().day)
    }
}

// -------------------------------------------------------------- what outings are

/// To the home team a game is one at home, with the home score scored and the other
/// allowed; to the visitors it is one on the road, the other way round. Whoever scored
/// more has won. To all others it is nothing.
pub proof fn lemma_game_to_both_teams(g: GameView, day: i32, id: i64)
    requires
        g.home_id != g.away_id,
        g.home_score != g.away_score,
    ensures
        id != g.home_id && id != g.away_id ==> outings_in(g, day, id).len() == 0,
        id == g.home_id || id == g.away_id ==> {
            &&& outings_in(g, day, id).len() == 1
            &&& outings_in(g, day, id)[0].season == g.season
            &&& outings_in(g, day, id)[0].day == day
            &&& outings_in(g, day, id)[0].home <==> id == g.home_id
            &&& outings_in(g, day, id)[0].won <==> outings_in(g, day, id)[0].scored > outings_in(
                g,
                day,
                id,
            )[0].allowed
        },
        outings_in(g, day, g.home_id)[0].scored == g.home_score,
        outings_in(g, day, g.home_id)[0].allowed == g.away_score,
        outings_in(g, day, g.away_id)[0].scored == g.away_score,
        outings_in(g, day, g.away_id)[0].allowed == g.home_score,
{
}

/// A start counts the runs of the other side: those that the team of the pitcher allowed.
pub proof fn lemma_start_counts_runs_allowed(g: GameView, id: i64)
    requires
        g.home_sp_id != g.away_sp_id,
    ensures
        id == g.home_sp_id ==> starts_in(g, id) == seq![g.away_score],
        id == g.away_sp_id ==> starts_in(g, id) == seq![g.home_score],
        id != g.home_sp_id && id != g.away_sp_id ==> starts_in(g, id).len() == 0,
{
}

// -------------------------------------------------------------------- the proof

proof fn lemma_record_tells(s: Seq<Outing>)
    ensures
        record_of(s).gp == s.len(),
        record_of(s).wins == games_won(s),
        record_of(s).rs == runs_scored(s),
        record_of(s).ra == runs_allowed(s),
    decreases s.len(),
{
    if s.len() > 0 {
        lemma_record_tells(s.drop_last());
    }
}

proof fn lemma_form_tells(s: Seq<Outing>)
    ensures
        count_true(results_of(s)) == games_won(s),
        sum(scored_of(s)) == runs_scored(s),
        sum(allowed_of(s)) == runs_allowed(s),
    decreases s.len(),
{
    if s.len() > 0 {
        let rest = s.drop_last();
        lemma_form_tells(rest);
        assert(results_of(s).drop_last() =~= results_of(rest));
        assert(scored_of(s).drop_last() =~= scored_of(rest));
        assert(allowed_of(s).drop_last() =~= allowed_of(rest));
    }
}

proof fn lemma_sum_is_all_runs(s: Seq<i32>)
    ensures
        sum(s) == all_runs(s),
    decreases s.len(),
{
    if s.len() > 0 {
        lemma_sum_is_all_runs(s.drop_last());
    }
}

/// What a team in a season shows is told by its games of the season.
proof fn lemma_side_tells(
    t: TeamView,
    season: i32,
    s: Seq<Outing>,
    at_home: bool,
    starts: Seq<i32>,
    p: PitcherView,
    day: i32,
)
    requires
        reflects(t, season, s),
        p.starts == starts.len(),
        p.recent == tail(starts, 8),
    ensures
        side_tells(
            side_view(
                t,
                if at_home {
                    t.at_home
                } else {
                    t.on_road
                },
                p,
                day,
            ),
            s,
            at_home,
            t.last_day,
            starts,
            day,
        ),
{
    let ten = latest(s, 10);
    let eight = latest(starts, 8);
    assert(tail(results_of(s), 10) =~= results_of(ten));
    assert(tail(scored_of(s), 10) =~= scored_of(ten));
    assert(tail(allowed_of(s), 10) =~= allowed_of(ten));
    assert(tail(starts, 8) =~= eight);
    lemma_record_tells(s);
    lemma_record_tells(of_place(s, true));
    lemma_record_tells(of_place(s, false));
    lemma_form_tells(ten);
    lemma_sum_is_all_runs(eight);
}

proof fn lemma_outings_are_of_games(games: Seq<GameView>, id: i64, season: i32)
    requires
        seasons_follow(games),
        forall|i: int| 0 <= i < games.len() ==> (#[trigger] games[i]).season <= season,
    ensures
        seasons_in_order(outings(games, id)),
        forall|k: int|
            0 <= k < outings(games, id).len() ==> (#[trigger] outings(games, id)[k]).season
                <= season,
    decreases games.len(),
{
    if games.len() > 0 {
        let rest = games.drop_last();
        let g = games.last();
        assert forall|i: int, j: int| 0 <= i < j < rest.len() implies (#[trigger] rest[i]).season
            <= (#[trigger] rest[j]).season by {
            assert(rest[i] == games[i] && rest[j] == games[j]);
        }
        assert forall|i: int| 0 <= i < rest.len() implies (#[trigger] rest[i]).season
            <= g.season by {
            assert(rest[i] == games[i]);
            assert(games[i].season <= games[games.len() - 1].season);
        }
        assert(games[games.len() - 1].season <= season);
        lemma_outings_are_of_games(rest, id, g.season);
        let before = outings(rest, id);
        let all = outings(games, id);
        assert forall|k: int| 0 <= k < all.len() implies (#[trigger] all[k]).season <= g.season by {
            if k < before.len() {
                assert(all[k] == before[k]);
            }
        }
        assert forall|i: int, j: int| 0 <= i < j < all.len() implies (#[trigger] all[i]).season
            <= (#[trigger] all[j]).season by {
            if j < before.len() {
                assert(all[i] == before[i] && all[j] == before[j]);
            }
        }
    }
}

proof fn lemma_no_outing_of_season(s: Seq<Outing>, season: i32)
    requires
        forall|k: int| 0 <= k < s.len() ==> (#[trigger] s[k]).season < season,
    ensures
        of_season(s, season).len() == 0,
    decreases s.len(),
{
    if s.len() > 0 {
        let rest = s.drop_last();
        assert forall|k: int| 0 <= k < rest.len() implies (#[trigger] rest[k]).season < season by {
            assert(rest[k] == s[k]);
        }
        lemma_no_outing_of_season(rest, season);
        assert(s[s.len() - 1].season < season);
    }
}

/// A team that enters the season of a game reflects its earlier games of that season.
proof fn lemma_entered_reflects(games: Seq<GameView>, id: i64, season: i32)
    requires
        seasons_follow(games),
        forall|i: int| 0 <= i < games.len() ==> (#[trigger] games[i]).season <= season,
    ensures
        reflects(
            BuilderView::fresh().after_games(games).team(id).rolled(season),
            season,
            of_season(outings(games, id), season),
        ),
        BuilderView::fresh().after_games(games).team(id).last_day == last_day_of(games, id),
        BuilderView::fresh().after_games(games).team(id).carries_into(season) <==> outings(
            games,
            id,
        ).len() > 0 && outings(games, id).last().season != season && outings(
            games,
            id,
        ).last().season != 0,
{
    let b = BuilderView::fresh().after_games(games);
    let s = outings(games, id);
    let none = Seq::<Outing>::empty();
    lemma_outings_are_of_games(games, id, season);
    lemma_teams_are_known_once_they_play(games, id);
    assert(results_of(none) =~= Seq::<bool>::empty());
    assert(scored_of(none) =~= Seq::<i32>::empty());
    assert(allowed_of(none) =~= Seq::<i32>::empty());
    if s.len() == 0 {
        assert(of_season(s, season) =~= none);
        assert(b.team(id) == TeamView::fresh());
    } else {
        lemma_state_covers_current_season(games, id);
        let last = s[s.len() - 1];
        if last.season != season {
            assert forall|k: int| 0 <= k < s.len() implies (#[trigger] s[k]).season < season by {
                assert(last.season <= season);
                if k < s.len() - 1 {
                    assert(s[k].season <= last.season);
                }
            }
            lemma_no_outing_of_season(s, season);
            assert(of_season(s, season) =~= none);
        }
    }
}

/// Every column of a row that `build` gives is told by the games before it: the home
/// team by its games of the season, those at home and its starter, the visitors by
/// theirs, those on the road and theirs. The rest of the row is the game itself.
pub proof fn lemma_row_tells_the_past(games: Seq<GameView>, g: GameView, day: i32)
    requires
        seasons_follow(games.push(g)),
        day_reading(g.date) == Ok::<i32, Seq<char>>(day),
    ensures
        ({
            let rows = BuilderView::fresh().rows_of(games.push(g));
            let row = rows.last();
            let home = outings(games, g.home_id);
            let away = outings(games, g.away_id);
            &&& rows.len() > 0
            &&& side_tells(
                row.inputs.home,
                of_season(home, g.season),
                true,
                last_day_of(games, g.home_id),
                starts_of(games, g.home_sp_id),
                day,
            )
            &&& side_tells(
                row.inputs.away,
                of_season(away, g.season),
                false,
                last_day_of(games, g.away_id),
                starts_of(games, g.away_sp_id),
                day,
            )
            &&& row.home_gp == of_season(home, g.season).len()
            &&& row.away_gp == of_season(away, g.season).len()
            &&& row.label == 1 <==> g.home_score > g.away_score
            &&& row.label == 0 <==> g.home_score <= g.away_score
            &&& row.game_pk == g.game_pk
            &&& row.date == g.date
            &&& row.season == g.season
            &&& row.home_name == g.home_name
            &&& row.away_name == g.away_name
            &&& row.home_score == g.home_score
            &&& row.away_score == g.away_score
            &&& row.elo.home_id == g.home_id
            &&& row.elo.away_id == g.away_id
            &&& row.elo.home_won <==> g.home_score > g.away_score
            &&& row.elo.margin >= 0
            &&& row.elo.margin == g.home_score - g.away_score || row.elo.margin == g.away_score
                - g.home_score
            &&& row.elo.home_carries <==> home.len() > 0 && home.last().season != g.season
                && home.last().season != 0
            &&& g.home_id != g.away_id ==> (row.elo.away_carries <==> away.len() > 0
                && away.last().season != g.season && away.last().season != 0)
        }),
{
    let all = games.push(g);
    let b = BuilderView::fresh().after_games(games);
    assert(all.drop_last() =~= games);
    assert(all.last() == g);
    assert forall|i: int, j: int| 0 <= i < j < games.len() implies (#[trigger] games[i]).season <= (
    #[trigger] games[j]).season by {
        assert(all[i] == games[i] && all[j] == games[j]);
    }
    assert forall|i: int| 0 <= i < games.len() implies (#[trigger] games[i]).season
        <= g.season by {
        assert(all[i] == games[i] && all[games.len() as int] == g);
    }
    lemma_entered_reflects(games, g.home_id, g.season);
    lemma_entered_reflects(games, g.away_id, g.season);
    lemma_pitcher_covers_starts(games, g.home_sp_id);
    lemma_pitcher_covers_starts(games, g.away_sp_id);
    let before = b.before_game(g);
    let h = before.team(g.home_id);
    let a = before.team(g.away_id);
    assert(before.pitcher(g.home_sp_id) == b.pitcher(g.home_sp_id));
    assert(before.pitcher(g.away_sp_id) == b.pitcher(g.away_sp_id));
    lemma_renamed_reflects(
        b.team(g.home_id).rolled(g.season),
        h,
        g.season,
        of_season(outings(games, g.home_id), g.season),
    );
    lemma_renamed_reflects(
        b.team(g.away_id).rolled(g.season),
        a,
        g.season,
        of_season(outings(games, g.away_id), g.season),
    );
    lemma_side_tells(
        h,
        g.season,
        of_season(outings(games, g.home_id), g.season),
        true,
        starts_of(games, g.home_sp_id),
        b.pitcher(g.home_sp_id),
        day,
    );
    lemma_side_tells(
        a,
        g.season,
        of_season(outings(games, g.away_id), g.season),
        false,
        starts_of(games, g.away_sp_id),
        b.pitcher(g.away_sp_id),
        day,
    );
    lemma_record_tells(of_season(outings(games, g.home_id), g.season));
    lemma_record_tells(of_season(outings(games, g.away_id), g.season));
}

proof fn lemma_renamed_reflects(t: TeamView, u: TeamView, season: i32, s: Seq<Outing>)
    requires
        reflects(t, season, s),
        u == t.named(u.name),
    ensures
        reflects(u, season, s),
        u.last_day == t.last_day,
{
}

/// The games of the season in which a team played last.
pub open spec fn current_season(games: Seq<GameView>, id: i64) -> Seq<Outing> {
    of_season(outings(games, id), outings(games, id).last().season)
}

/// A game to come is forecast where both teams have played, from the season in which
/// each played last, at home or on the road, and from the starts of both announced
/// starters; one who is not announced has none.
pub proof fn lemma_forecast_tells_the_season(
    games: Seq<GameView>,
    home_id: i64,
    away_id: i64,
    day: i32,
    home_sp: i64,
    away_sp: i64,
)
    requires
        seasons_follow(games),
    ensures
        ({
            let r = BuilderView::fresh().after_games(games).upcoming(
                home_id,
                away_id,
                day,
                home_sp,
                away_sp,
            );
            &&& r is Some <==> outings(games, home_id).len() > 0 && outings(games, away_id).len()
                > 0
            &&& r matches Some(row) ==> {
                &&& side_tells(
                    row.home,
                    current_season(games, home_id),
                    true,
                    last_day_of(games, home_id),
                    if home_sp == 0 {
                        Seq::empty()
                    } else {
                        starts_of(games, home_sp)
                    },
                    day,
                )
                &&& side_tells(
                    row.away,
                    current_season(games, away_id),
                    false,
                    last_day_of(games, away_id),
                    if away_sp == 0 {
                        Seq::empty()
                    } else {
                        starts_of(games, away_sp)
                    },
                    day,
                )
            }
        }),
{
    let b = BuilderView::fresh().after_games(games);
    lemma_teams_are_known_once_they_play(games, home_id);
    lemma_teams_are_known_once_they_play(games, away_id);
    if outings(games, home_id).len() > 0 && outings(games, away_id).len() > 0 {
        lemma_pitcher_covers_starts(games, home_sp);
        lemma_pitcher_covers_starts(games, away_sp);
        let top = games[games.len() - 1].season;
        assert forall|i: int| 0 <= i < games.len() implies (#[trigger] games[i]).season <= top by {
        }
        lemma_outings_are_of_games(games, home_id, top);
        lemma_outings_are_of_games(games, away_id, top);
        lemma_state_covers_current_season(games, home_id);
        lemma_state_covers_current_season(games, away_id);
        let none = Seq::<i32>::empty();
        let hs = if home_sp == 0 {
            none
        } else {
            starts_of(games, home_sp)
        };
        let aws = if away_sp == 0 {
            none
        } else {
            starts_of(games, away_sp)
        };
        lemma_side_tells(
            b.team(home_id),
            outings(games, home_id).last().season,
            current_season(games, home_id),
            true,
            hs,
            b.starter(home_sp),
            day,
        );
        lemma_side_tells(
            b.team(away_id),
            outings(games, away_id).last().season,
            current_season(games, away_id),
            false,
            aws,
            b.starter(away_sp),
            day,
        );
    }
}

/// The name under which a team played last.
pub open spec fn latest_name(games: Seq<GameView>, id: i64) -> Seq<char>
    decreases games.len(),
{
    if games.len() == 0 {
        Seq::empty()
    } else {
        let g = games.last();
        if day_reading(g.date) is Err {
            latest_name(games.drop_last(), id)
        } else if g.away_id == id {
            g.away_name
        } else if g.home_id == id {
            g.home_name
        } else {
            latest_name(games.drop_last(), id)
        }
    }
}

proof fn lemma_name_is_the_latest(games: Seq<GameView>, id: i64)
    ensures
        BuilderView::fresh().after_games(games).team(id).name == latest_name(games, id),
    decreases games.len(),
{
    if games.len() > 0 {
        lemma_name_is_the_latest(games.drop_last(), id);
    }
}

/// What is shown of a team is told by its games of the season in which it played last:
/// wins and losses, those at home and on the road, runs per game and the form of the last
/// ten, under the name it played under.
pub proof fn lemma_snapshot_tells_the_season<E>(
    games: Seq<GameView>,
    id: i64,
    snap: TeamSnapshot<E, Ratio>,
)
    requires
        seasons_follow(games),
        outings(games, id).len() > 0,
        shows_team(snap, id, BuilderView::fresh().after_games(games).teams[id], snap.elo),
    ensures
        ({
            let s = current_season(games, id);
            let home = of_place(s, true);
            let road = of_place(s, false);
            let ten = latest(s, 10);
            &&& snap.id == id
            &&& snap.name@ == latest_name(games, id)
            &&& snap.wins == games_won(s)
            &&& snap.wins + snap.losses == s.len()
            &&& snap.home_wins == games_won(home)
            &&& snap.home_wins + snap.home_losses == home.len()
            &&& snap.away_wins == games_won(road)
            &&& snap.away_wins + snap.away_losses == road.len()
            &&& snap.rs_pg@ == per_game(runs_scored(s), s.len() as int)
            &&& snap.ra_pg@ == per_game(runs_allowed(s), s.len() as int)
            &&& snap.form10@ == Fraction { num: games_won(ten), den: ten.len() as int }
        }),
{
    let b = BuilderView::fresh().after_games(games);
    let top = games[games.len() - 1].season;
    assert forall|i: int| 0 <= i < games.len() implies (#[trigger] games[i]).season <= top by {}
    lemma_outings_are_of_games(games, id, top);
    lemma_state_covers_current_season(games, id);
    lemma_name_is_the_latest(games, id);
    let s = current_season(games, id);
    let ten = latest(s, 10);
    assert(tail(results_of(s), 10) =~= results_of(ten));
    lemma_record_tells(s);
    lemma_record_tells(of_place(s, true));
    lemma_record_tells(of_place(s, false));
    lemma_form_tells(ten);
    lemma_last_is_of_its_season(outings(games, id));
}

proof fn lemma_last_is_of_its_season(s: Seq<Outing>)
    requires
        s.len() > 0,
    ensures
        of_season(s, s.last().season).len() > 0,
{
}

/// A game of the window is forecast from what its own two teams have done, the one as the
/// home team and the other as the visitors, and from what their announced starters have;
/// it is shown exactly where its date is one and both teams have played.
pub proof fn lemma_window_games_are_forecast_by_their_sides(games: Seq<GameView>, g: ScheduledGame)
    requires
        seasons_follow(games),
    ensures
        ({
            let r = forecast_inputs(BuilderView::fresh().after_games(games), g@);
            &&& r is Some <==> day_reading(g.date@) is Ok && outings(games, g.home_id).len() > 0
                && outings(games, g.away_id).len() > 0
            &&& r matches Some(row) ==> {
                &&& side_tells(
                    row.home,
                    current_season(games, g.home_id),
                    true,
                    last_day_of(games, g.home_id),
                    if g.home_sp_id == 0 {
                        Seq::empty()
                    } else {
                        starts_of(games, g.home_sp_id)
                    },
                    day_reading(g.date@)->Ok_0,
                )
                &&& side_tells(
                    row.away,
                    current_season(games, g.away_id),
                    false,
                    last_day_of(games, g.away_id),
                    if g.away_sp_id == 0 {
                        Seq::empty()
                    } else {
                        starts_of(games, g.away_sp_id)
                    },
                    day_reading(g.date@)->Ok_0,
                )
            }
        }),
{
    if let Ok(day) = day_reading(g.date@) {
        lemma_forecast_tells_the_season(
            games,
            g.home_id,
            g.away_id,
            day,
            g.home_sp_id,
            g.away_sp_id,
        );
    }
}

} // verus!
