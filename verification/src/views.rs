//! Views speak of the fields they are named after.
use crate::backtest::MonthPlan;
use crate::features::{GameRow, Ratio, RowInputs, Sample, SideInputs, TeamSnapshot};
use crate::mlb::{RawGame, ScheduledGame};
use crate::panel::Stamp;
use crate::stats::{Hitter, Pitcher, TeamInfo};
use vstd::prelude::*;

verus! {

/// What is said of a ratio by its view is what its own fields hold.
pub proof fn lemma_view_of_ratio(x: Ratio)
    ensures
        x@.num == x.num,
        x@.den == x.den,
{
}

/// What is said of a finished game by its view is what its own fields hold.
pub proof fn lemma_view_of_raw_game(x: RawGame)
    ensures
        x@.game_pk == x.game_pk,
        x@.date == x.date@,
        x@.season == x.season,
        x@.home_id == x.home_id,
        x@.home_name == x.home_name@,
        x@.away_id == x.away_id,
        x@.away_name == x.away_name@,
        x@.home_score == x.home_score,
        x@.away_score == x.away_score,
        x@.home_sp_id == x.home_sp_id,
        x@.away_sp_id == x.away_sp_id,
{
}

/// What is said of a scheduled game by its view is what its own fields hold.
pub proof fn lemma_view_of_scheduled_game(x: ScheduledGame)
    ensures
        x@.game_pk == x.game_pk,
        x@.date == x.date@,
        x@.start_utc == x.start_utc@,
        x@.home_id == x.home_id,
        x@.home_name == x.home_name@,
        x@.away_id == x.away_id,
        x@.away_name == x.away_name@,
        x@.home_sp_id == x.home_sp_id,
        x@.home_sp_name == x.home_sp_name@,
        x@.away_sp_id == x.away_sp_id,
        x@.away_sp_name == x.away_sp_name@,
        x@.venue == x.venue@,
        x@.status == x.status@,
        x@.pitchers_confirmed == x.pitchers_confirmed,
        x@.home_score == x.home_score,
        x@.away_score == x.away_score,
        x@.is_final == x.is_final,
        x@.is_live == x.is_live,
{
}

/// What is said of a hitter by its view is what its own fields hold.
pub proof fn lemma_view_of_hitter(x: Hitter)
    ensures
        x@.name == x.name@,
        x@.pos == x.pos@,
        x@.avg == x.avg@,
        x@.obp == x.obp@,
        x@.ops == x.ops@,
        x@.hr == x.hr,
        x@.rbi == x.rbi,
        x@.hits == x.hits,
        x@.at_bats == x.at_bats,
        x@.games == x.games,
{
}

/// What is said of a pitcher by its view is what its own fields hold.
pub proof fn lemma_view_of_pitcher(x: Pitcher)
    ensures
        x@.id == x.id,
        x@.name == x.name@,
        x@.era == x.era@,
        x@.whip == x.whip@,
        x@.wins == x.wins,
        x@.losses == x.losses,
        x@.innings == x.innings@,
        x@.strikeouts == x.strikeouts,
        x@.walks == x.walks,
        x@.starts == x.starts,
{
}

/// What is said of a team by its view is what its own fields hold.
pub proof fn lemma_view_of_team_info(x: TeamInfo)
    ensures
        x@.name == x.name@,
        x@.abbrev == x.abbrev@,
        x@.bat_avg == x.bat_avg@,
        x@.obp == x.obp@,
        x@.slg == x.slg@,
        x@.ops == x.ops@,
        x@.runs == x.runs,
        x@.home_runs == x.home_runs,
        x@.era == x.era@,
        x@.whip == x.whip@,
        x@.strikeouts == x.strikeouts,
        x@.hitters.len() == x.hitters@.len(),
        forall|i: int| 0 <= i < x.hitters@.len() ==> #[trigger] x@.hitters[i] == x.hitters@[i]@,
        x@.pitchers.len() == x.pitchers@.len(),
        forall|i: int|
            0 <= i < x.pitchers@.len() ==> #[trigger] x@.pitchers[i] == x.pitchers@[i]@,
{
}

/// What is said of a side of a row by its view is what its own fields hold.
pub proof fn lemma_view_of_side_inputs(x: SideInputs)
    ensures
        x@.wpct == x.wpct@,
        x@.rs_pg == x.rs_pg@,
        x@.ra_pg == x.ra_pg@,
        x@.form10 == x.form10@,
        x@.rs10 == x.rs10@,
        x@.ra10 == x.ra10@,
        x@.rest == x.rest,
        x@.sp_ra == x.sp_ra@,
        x@.sp_exp == x.sp_exp@,
        x@.here_wpct == x.here_wpct@,
        x@.here_rs_pg == x.here_rs_pg@,
        x@.here_ra_pg == x.here_ra_pg@,
        x.runs is None <==> x@.runs is None,
        x.runs matches Some(r) ==> x@.runs == Some((r.0 as int, r.1 as int)),
{
}

/// What is said of a row by its view is what its own fields hold.
pub proof fn lemma_view_of_row_inputs(x: RowInputs)
    ensures
        x@.home == x.home@,
        x@.away == x.away@,
{
}

/// What is said of the row of a game by its view is what its own fields hold.
pub proof fn lemma_view_of_game_row(x: GameRow)
    ensures
        x@.game_pk == x.game_pk,
        x@.date == x.date@,
        x@.season == x.season,
        x@.home_name == x.home_name@,
        x@.away_name == x.away_name@,
        x@.home_score == x.home_score,
        x@.away_score == x.away_score,
        x@.label == x.label,
        x@.home_gp == x.home_gp,
        x@.away_gp == x.away_gp,
        x@.inputs == x.inputs@,
        x@.elo == x.elo,
{
}

/// What is said of the standing of a team by its view is what its own fields hold.
pub proof fn lemma_view_of_team_snapshot<E, R>(x: TeamSnapshot<E, R>)
    ensures
        x@.id == x.id,
        x@.name == x.name@,
        x@.elo == x.elo,
        x@.wins == x.wins,
        x@.losses == x.losses,
        x@.home_wins == x.home_wins,
        x@.home_losses == x.home_losses,
        x@.away_wins == x.away_wins,
        x@.away_losses == x.away_losses,
        x@.rs_pg == x.rs_pg,
        x@.ra_pg == x.ra_pg,
        x@.form10 == x.form10,
{
}

/// What is said of a sample by its view is what its own fields hold.
pub proof fn lemma_view_of_sample<R>(x: Sample<R>)
    ensures
        x@.game_pk == x.game_pk,
        x@.date == x.date@,
        x@.season == x.season,
        x@.home_name == x.home_name@,
        x@.away_name == x.away_name@,
        x@.home_score == x.home_score,
        x@.away_score == x.away_score,
        x@.label == x.label,
        x@.features == x.features@,
        x@.home_gp == x.home_gp,
        x@.away_gp == x.away_gp,
        x@.elo_prob == x.elo_prob,
{
}

/// What is said of a stamp by its view is what its own fields hold.
pub proof fn lemma_view_of_stamp(x: Stamp)
    ensures
        x@.generated == x.generated@,
        x@.today == x.today@,
        x@.last_game == x.last_game@,
        x@.season == x.season,
{
}

/// What is said of a plan by its view is what its own fields hold.
pub proof fn lemma_view_of_month_plan(x: MonthPlan)
    ensures
        x@.label == x.label@,
        x@.train == x.train@,
        x@.test == x.test@,
{
}

} // verus!
