//! What the panel shows, key by key: each figure stands under its own name, and each team
//! and each pitcher on their own side.

use vstd::prelude::*;
use crate::features::{count_true, SnapshotView};
use crate::live::{band_node, recent_node, Band, RecentReport};
use crate::mlb::{ScheduledGame, ScheduledView};
use crate::node::{value_under, NodeView};
use crate::panel::{
    confirmed_flags, dates_of, day_nodes, days_of, final_flags, found, game_node, game_nodes, hitter_node, hitter_nodes, is_table_order,
    joined, lemma_days_hold_all_games, live_flags, model_node, payload_node, pitcher_node, rotation_nodes, shown, standing_node, starter_node,
    starters, summary_node, table_nodes, team_node, Blanks, DayView, Forecast, StampView,
};
use crate::stats::{HitterView, LeagueView, PitcherLine, TeamInfoView};

verus! {

/// Among entries with different keys each key leads to its own value.
proof fn lemma_values<R>(entries: Seq<(Seq<char>, NodeView<R>)>)
    requires
        forall|i: int, j: int|
            0 <= i < j < entries.len() ==> (#[trigger] entries[i]).0 != (#[trigger] entries[j]).0,
    ensures
        forall|n: int|
            0 <= n < entries.len() ==> value_under(entries, (#[trigger] entries[n]).0) == Some(
                entries[n].1,
            ),
    decreases entries.len(),
{
    if entries.len() > 0 {
        let rest = entries.drop_first();
        assert forall|i: int, j: int| 0 <= i < j < rest.len() implies (#[trigger] rest[i]).0 != (
        #[trigger] rest[j]).0 by {
            assert(rest[i] == entries[i + 1] && rest[j] == entries[j + 1]);
        }
        lemma_values(rest);
        assert forall|n: int| 0 <= n < entries.len() implies value_under(
            entries,
            (#[trigger] entries[n]).0,
        ) == Some(entries[n].1) by {
            if n > 0 {
                assert(rest[n - 1] == entries[n]);
                assert(entries[0].0 != entries[n].0);
            }
        }
    }
}

/// A record shows a text, a number or a fractional number under a key.
pub open spec fn says<R>(node: NodeView<R>, key: Seq<char>, t: Seq<char>) -> bool {
    node.get(key) == Some(NodeView::<R>::Text(t))
}

pub open spec fn counts<R>(node: NodeView<R>, key: Seq<char>, i: int) -> bool {
    node.get(key) == Some(NodeView::<R>::Int(i))
}

pub open spec fn measures<R>(node: NodeView<R>, key: Seq<char>, x: R) -> bool {
    node.get(key) == Some(NodeView::<R>::Real(x))
}

pub open spec fn affirms<R>(node: NodeView<R>, key: Seq<char>, b: bool) -> bool {
    node.get(key) == Some(NodeView::<R>::Bool(b))
}

// ------------------------------------------------------------------- pitchers

/// The figures of a known pitcher.
pub open spec fn pitcher_is_shown<R>(node: NodeView<R>, p: PitcherLine) -> bool {
    &&& counts(node, "id"@, p.id as int)
    &&& says(node, "name"@, p.name)
    &&& says(node, "era"@, p.era)
    &&& says(node, "whip"@, p.whip)
    &&& counts(node, "wins"@, p.wins as int)
    &&& counts(node, "losses"@, p.losses as int)
    &&& says(node, "innings"@, p.innings)
    &&& counts(node, "strikeouts"@, p.strikeouts as int)
    &&& counts(node, "starts"@, p.starts as int)
}

/// The starter of a game: the known pitcher with that number, or else the number and the
/// name that the schedule gives, without figures.
pub open spec fn starter_is_shown<R>(
    node: NodeView<R>,
    id: i64,
    name: Seq<char>,
    league: LeagueView,
) -> bool {
    if league.pitchers.contains_key(id) {
        &&& pitcher_is_shown(node, league.pitchers[id])
        &&& counts(node, "walks"@, league.pitchers[id].walks as int)
        &&& affirms(node, "known"@, true)
    } else {
        &&& counts(node, "id"@, id as int)
        &&& name.len() > 0 ==> says(node, "name"@, name)
        &&& name.len() == 0 ==> says(node, "name"@, "Por anunciar"@)
        &&& says(node, "era"@, "-"@)
        &&& says(node, "whip"@, "-"@)
        &&& says(node, "innings"@, "-"@)
        &&& counts(node, "wins"@, 0)
        &&& counts(node, "losses"@, 0)
        &&& counts(node, "strikeouts"@, 0)
        &&& counts(node, "walks"@, 0)
        &&& counts(node, "starts"@, 0)
        &&& affirms(node, "known"@, false)
    }
}

proof fn lemma_pitcher_node<R>(p: Option<PitcherLine>, name: Seq<char>, id: i64)
    ensures
        p matches Some(l) ==> {
            let node = pitcher_node::<R>(p, name, id);
            &&& pitcher_is_shown(node, l)
            &&& counts(node, "walks"@, l.walks as int)
            &&& affirms(node, "known"@, true)
        },
        p is None ==> {
            let node = pitcher_node::<R>(p, name, id);
            &&& counts(node, "id"@, id as int)
            &&& name.len() > 0 ==> says(node, "name"@, name)
            &&& name.len() == 0 ==> says(node, "name"@, "Por anunciar"@)
            &&& says(node, "era"@, "-"@)
            &&& says(node, "whip"@, "-"@)
            &&& says(node, "innings"@, "-"@)
            &&& counts(node, "wins"@, 0)
            &&& counts(node, "losses"@, 0)
            &&& counts(node, "strikeouts"@, 0)
            &&& counts(node, "walks"@, 0)
            &&& counts(node, "starts"@, 0)
            &&& affirms(node, "known"@, false)
        },
{
    let entries = pitcher_node::<R>(p, name, id)->Record_0;
    reveal_strlit("id");
    reveal_strlit("name");
    reveal_strlit("era");
    reveal_strlit("whip");
    reveal_strlit("wins");
    reveal_strlit("losses");
    reveal_strlit("innings");
    reveal_strlit("strikeouts");
    reveal_strlit("walks");
    reveal_strlit("starts");
    reveal_strlit("known");
    assert forall|i: int, j: int| 0 <= i < j < 11 implies (#[trigger] entries[i]).0 != (
    #[trigger] entries[j]).0 by {
        let a = entries[i].0;
        let b = entries[j].0;
        assert(a.len() != b.len() || a[0] != b[0] || a[1] != b[1]);
    }
    lemma_values(entries);
    assert(entries[0].0 == "id"@);
    assert(entries[1].0 == "name"@);
    assert(entries[2].0 == "era"@);
    assert(entries[3].0 == "whip"@);
    assert(entries[4].0 == "wins"@);
    assert(entries[5].0 == "losses"@);
    assert(entries[6].0 == "innings"@);
    assert(entries[7].0 == "strikeouts"@);
    assert(entries[8].0 == "walks"@);
    assert(entries[9].0 == "starts"@);
    assert(entries[10].0 == "known"@);
}

proof fn lemma_starter_node<R>(p: PitcherLine)
    ensures
        pitcher_is_shown(starter_node::<R>(p), p),
{
    let entries = starter_node::<R>(p)->Record_0;
    reveal_strlit("id");
    reveal_strlit("name");
    reveal_strlit("era");
    reveal_strlit("whip");
    reveal_strlit("wins");
    reveal_strlit("losses");
    reveal_strlit("innings");
    reveal_strlit("strikeouts");
    reveal_strlit("starts");
    assert forall|i: int, j: int| 0 <= i < j < 9 implies (#[trigger] entries[i]).0 != (
    #[trigger] entries[j]).0 by {
        let a = entries[i].0;
        let b = entries[j].0;
        assert(a.len() != b.len() || a[0] != b[0] || a[1] != b[1]);
    }
    lemma_values(entries);
    assert(entries[0].0 == "id"@);
    assert(entries[1].0 == "name"@);
    assert(entries[2].0 == "era"@);
    assert(entries[3].0 == "whip"@);
    assert(entries[4].0 == "wins"@);
    assert(entries[5].0 == "losses"@);
    assert(entries[6].0 == "innings"@);
    assert(entries[7].0 == "strikeouts"@);
    assert(entries[8].0 == "starts"@);
}

// -------------------------------------------------------------------- hitters

/// The figures of a hitter.
pub open spec fn hitter_is_shown<R>(node: NodeView<R>, h: HitterView) -> bool {
    &&& says(node, "name"@, h.name)
    &&& says(node, "pos"@, h.pos)
    &&& says(node, "avg"@, h.avg)
    &&& says(node, "obp"@, h.obp)
    &&& says(node, "ops"@, h.ops)
    &&& counts(node, "hr"@, h.hr as int)
    &&& counts(node, "rbi"@, h.rbi as int)
    &&& counts(node, "hits"@, h.hits as int)
    &&& counts(node, "ab"@, h.at_bats as int)
    &&& counts(node, "games"@, h.games as int)
}

proof fn lemma_hitter_node<R>(h: HitterView)
    ensures
        hitter_is_shown(hitter_node::<R>(h), h),
{
    let entries = hitter_node::<R>(h)->Record_0;
    reveal_strlit("name");
    reveal_strlit("pos");
    reveal_strlit("avg");
    reveal_strlit("obp");
    reveal_strlit("ops");
    reveal_strlit("hr");
    reveal_strlit("rbi");
    reveal_strlit("hits");
    reveal_strlit("ab");
    reveal_strlit("games");
    assert forall|i: int, j: int| 0 <= i < j < 10 implies (#[trigger] entries[i]).0 != (
    #[trigger] entries[j]).0 by {
        let a = entries[i].0;
        let b = entries[j].0;
        assert(a.len() != b.len() || a[0] != b[0] || a[1] != b[1]);
    }
    lemma_values(entries);
    assert(entries[0].0 == "name"@);
    assert(entries[1].0 == "pos"@);
    assert(entries[2].0 == "avg"@);
    assert(entries[3].0 == "obp"@);
    assert(entries[4].0 == "ops"@);
    assert(entries[5].0 == "hr"@);
    assert(entries[6].0 == "rbi"@);
    assert(entries[7].0 == "hits"@);
    assert(entries[8].0 == "ab"@);
    assert(entries[9].0 == "games"@);
}

/// The first twelve hitters of a team, or all where they are fewer, in their order.
pub open spec fn hitters_are_shown<R>(node: NodeView<R>, hitters: Seq<HitterView>) -> bool {
    match node.get("hitters"@) {
        Some(NodeView::List(shown)) => {
            &&& hitters.len() <= 12 ==> shown.len() == hitters.len()
            &&& hitters.len() > 12 ==> shown.len() == 12
            &&& forall|i: int|
                0 <= i < shown.len() ==> hitter_is_shown(#[trigger] shown[i], hitters[i])
        },
        _ => false,
    }
}

/// The first six pitchers of a team who have started a game, or all where they are fewer,
/// in their order.
pub open spec fn rotation_is_shown<R>(node: NodeView<R>, pitchers: Seq<PitcherLine>) -> bool {
    let started = pitchers.filter(|p: PitcherLine| p.starts > 0);
    match node.get("rotation"@) {
        Some(NodeView::List(shown)) => {
            &&& started.len() <= 6 ==> shown.len() == started.len()
            &&& started.len() > 6 ==> shown.len() == 6
            &&& forall|i: int|
                0 <= i < shown.len() ==> pitcher_is_shown(#[trigger] shown[i], started[i])
        },
        _ => false,
    }
}

proof fn lemma_starters_have_started(pitchers: Seq<PitcherLine>)
    ensures
        starters(pitchers) == pitchers.filter(|p: PitcherLine| p.starts > 0),
    decreases pitchers.len(),
{
    reveal(Seq::filter);
    if pitchers.len() > 0 {
        lemma_starters_have_started(pitchers.drop_last());
    }
}

// ---------------------------------------------------------------------- teams

/// What is shown of the team with a number: its record, rating and form as they are known
/// under that number, its totals and players as they are known under that number, and
/// blanks where nothing is.
pub open spec fn team_is_shown<R>(
    node: NodeView<R>,
    id: i64,
    name: Seq<char>,
    league: LeagueView,
    snaps: Map<i64, SnapshotView<i64, R>>,
    blanks: Blanks<R>,
) -> bool {
    &&& snaps.contains_key(id) ==> record_is_shown(node, snaps[id])
    &&& !snaps.contains_key(id) ==> {
        &&& counts(node, "id"@, 0)
        &&& counts(node, "wins"@, 0)
        &&& counts(node, "losses"@, 0)
        &&& counts(node, "elo"@, 1500)
        &&& measures(node, "rsPg"@, blanks.runs)
        &&& measures(node, "raPg"@, blanks.runs)
        &&& measures(node, "form10"@, blanks.form)
        &&& counts(node, "homeW"@, 0)
        &&& counts(node, "homeL"@, 0)
        &&& counts(node, "awayW"@, 0)
        &&& counts(node, "awayL"@, 0)
    }
    &&& league.teams.contains_key(id) ==> {
        let t = league.teams[id];
        &&& says(node, "name"@, t.name)
        &&& says(node, "abbrev"@, t.abbrev)
        &&& says(node, "batAvg"@, t.bat_avg)
        &&& says(node, "obp"@, t.obp)
        &&& says(node, "slg"@, t.slg)
        &&& says(node, "ops"@, t.ops)
        &&& counts(node, "runs"@, t.runs as int)
        &&& counts(node, "homeRuns"@, t.home_runs as int)
        &&& says(node, "era"@, t.era)
        &&& says(node, "whip"@, t.whip)
        &&& hitters_are_shown(node, t.hitters)
        &&& rotation_is_shown(node, t.pitchers)
    }
    &&& !league.teams.contains_key(id) ==> {
        &&& says(node, "name"@, name)
        &&& says(node, "abbrev"@, Seq::empty())
        &&& says(node, "batAvg"@, "-"@)
        &&& says(node, "obp"@, "-"@)
        &&& says(node, "slg"@, "-"@)
        &&& says(node, "ops"@, "-"@)
        &&& counts(node, "runs"@, 0)
        &&& counts(node, "homeRuns"@, 0)
        &&& says(node, "era"@, "-"@)
        &&& says(node, "whip"@, "-"@)
        &&& hitters_are_shown(node, Seq::empty())
        &&& rotation_is_shown(node, Seq::empty())
    }
}

/// The record, the rating and the form of a team.
pub open spec fn record_is_shown<R>(node: NodeView<R>, s: SnapshotView<i64, R>) -> bool {
    &&& counts(node, "id"@, s.id as int)
    &&& counts(node, "wins"@, s.wins)
    &&& counts(node, "losses"@, s.losses)
    &&& counts(node, "elo"@, s.elo as int)
    &&& measures(node, "rsPg"@, s.rs_pg)
    &&& measures(node, "raPg"@, s.ra_pg)
    &&& measures(node, "form10"@, s.form10)
    &&& counts(node, "homeW"@, s.home_wins)
    &&& counts(node, "homeL"@, s.home_losses)
    &&& counts(node, "awayW"@, s.away_wins)
    &&& counts(node, "awayL"@, s.away_losses)
}

#[verifier::rlimit(60)]
proof fn lemma_team_entries<R>(
    info: Option<TeamInfoView>,
    snap: Option<SnapshotView<i64, R>>,
    name: Seq<char>,
    blanks: Blanks<R>,
)
    ensures
        forall|n: int|
            0 <= n < 23 ==> value_under(
                team_node(info, snap, name, blanks)->Record_0,
                (#[trigger] team_node(info, snap, name, blanks)->Record_0[n]).0,
            ) == Some(team_node(info, snap, name, blanks)->Record_0[n].1),
{
    let entries = team_node(info, snap, name, blanks)->Record_0;
    reveal_strlit("id");
    reveal_strlit("name");
    reveal_strlit("abbrev");
    reveal_strlit("wins");
    reveal_strlit("losses");
    reveal_strlit("elo");
    reveal_strlit("rsPg");
    reveal_strlit("raPg");
    reveal_strlit("form10");
    reveal_strlit("homeW");
    reveal_strlit("homeL");
    reveal_strlit("awayW");
    reveal_strlit("awayL");
    reveal_strlit("batAvg");
    reveal_strlit("obp");
    reveal_strlit("slg");
    reveal_strlit("ops");
    reveal_strlit("runs");
    reveal_strlit("homeRuns");
    reveal_strlit("era");
    reveal_strlit("whip");
    reveal_strlit("hitters");
    reveal_strlit("rotation");
    assert forall|i: int, j: int| 0 <= i < j < 23 implies (#[trigger] entries[i]).0 != (
    #[trigger] entries[j]).0 by {
        let a = entries[i].0;
        let b = entries[j].0;
        assert(a.len() != b.len() || a[0] != b[0] || a[1] != b[1] || a[4] != b[4]);
    }
    lemma_values(entries);
}

proof fn lemma_team_node<R>(
    id: i64,
    name: Seq<char>,
    league: LeagueView,
    snaps: Map<i64, SnapshotView<i64, R>>,
    blanks: Blanks<R>,
)
    ensures
        team_is_shown(
            team_node(found(league.teams, id), found(snaps, id), name, blanks),
            id,
            name,
            league,
            snaps,
            blanks,
        ),
{
    let info = found(league.teams, id);
    let snap = found(snaps, id);
    let node = team_node(info, snap, name, blanks);
    let entries = node->Record_0;
    lemma_team_entries(info, snap, name, blanks);
    assert(entries[0].0 == "id"@);
    assert(entries[1].0 == "name"@);
    assert(entries[2].0 == "abbrev"@);
    assert(entries[3].0 == "wins"@);
    assert(entries[4].0 == "losses"@);
    assert(entries[5].0 == "elo"@);
    assert(entries[6].0 == "rsPg"@);
    assert(entries[7].0 == "raPg"@);
    assert(entries[8].0 == "form10"@);
    assert(entries[9].0 == "homeW"@);
    assert(entries[10].0 == "homeL"@);
    assert(entries[11].0 == "awayW"@);
    assert(entries[12].0 == "awayL"@);
    assert(entries[13].0 == "batAvg"@);
    assert(entries[14].0 == "obp"@);
    assert(entries[15].0 == "slg"@);
    assert(entries[16].0 == "ops"@);
    assert(entries[17].0 == "runs"@);
    assert(entries[18].0 == "homeRuns"@);
    assert(entries[19].0 == "era"@);
    assert(entries[20].0 == "whip"@);
    assert(entries[21].0 == "hitters"@);
    assert(entries[22].0 == "rotation"@);
    let (hitters, pitchers) = match info {
        Some(t) => (t.hitters, t.pitchers),
        None => (Seq::empty(), Seq::empty()),
    };
    let shown = hitter_nodes::<R>(hitters);
    assert forall|i: int| 0 <= i < shown.len() implies hitter_is_shown(
        #[trigger] shown[i],
        hitters[i],
    ) by {
        lemma_hitter_node::<R>(hitters[i]);
    }
    lemma_starters_have_started(pitchers);
    let started = starters(pitchers);
    let turns = rotation_nodes::<R>(pitchers);
    assert forall|i: int| 0 <= i < turns.len() implies pitcher_is_shown(
        #[trigger] turns[i],
        started[i],
    ) by {
        lemma_starter_node::<R>(started[i]);
    }
    assert(node.get("hitters"@) == Some(NodeView::List(shown)));
    assert(node.get("rotation"@) == Some(NodeView::List(turns)));
}

// ---------------------------------------------------------------------- games

/// A game shows what is known of it, and each side its own: under "home" the team with
/// the number of the home team and under "away" the one with the number of the visitors,
/// their starters likewise, and the chances of each under its own key.
#[verifier::rlimit(60)]
pub proof fn lemma_game_shows_both_sides<R>(
    g: ScheduledView,
    f: Forecast<R>,
    league: LeagueView,
    snaps: Map<i64, SnapshotView<i64, R>>,
    blanks: Blanks<R>,
)
    ensures
        ({
            let node = game_node(g, f, league, snaps, blanks);
            &&& counts(node, "gamePk"@, g.game_pk as int)
            &&& says(node, "start"@, g.start_utc)
            &&& says(node, "venue"@, g.venue)
            &&& says(node, "status"@, g.status)
            &&& affirms(node, "confirmed"@, g.pitchers_confirmed)
            &&& affirms(node, "final"@, g.is_final)
            &&& affirms(node, "live"@, g.is_live)
            &&& g.home_score is None ==> node.get("homeScore"@) == Some(NodeView::<R>::Null)
            &&& g.away_score is None ==> node.get("awayScore"@) == Some(NodeView::<R>::Null)
            &&& g.home_score matches Some(s) ==> counts(node, "homeScore"@, s as int)
            &&& g.away_score matches Some(s) ==> counts(node, "awayScore"@, s as int)
            &&& g.pitchers_confirmed ==> {
                &&& measures(node, "pHome"@, f.home_pct)
                &&& measures(node, "pAway"@, f.away_pct)
                &&& measures(node, "eloHome"@, f.elo_pct)
            }
            &&& node.get("home"@) matches Some(home) && team_is_shown(
                home,
                g.home_id,
                g.home_name,
                league,
                snaps,
                blanks,
            )
            &&& node.get("away"@) matches Some(away) && team_is_shown(
                away,
                g.away_id,
                g.away_name,
                league,
                snaps,
                blanks,
            )
            &&& node.get("homePitcher"@) matches Some(starter) && starter_is_shown(
                starter,
                g.home_sp_id,
                g.home_sp_name,
                league,
            )
            &&& node.get("awayPitcher"@) matches Some(starter) && starter_is_shown(
                starter,
                g.away_sp_id,
                g.away_sp_name,
                league,
            )
        }),
{
    let entries = game_node(g, f, league, snaps, blanks)->Record_0;
    reveal_strlit("gamePk");
    reveal_strlit("start");
    reveal_strlit("venue");
    reveal_strlit("status");
    reveal_strlit("confirmed");
    reveal_strlit("final");
    reveal_strlit("live");
    reveal_strlit("homeScore");
    reveal_strlit("awayScore");
    reveal_strlit("hit");
    reveal_strlit("pHome");
    reveal_strlit("pAway");
    reveal_strlit("eloHome");
    reveal_strlit("home");
    reveal_strlit("away");
    reveal_strlit("homePitcher");
    reveal_strlit("awayPitcher");
    assert forall|i: int, j: int| 0 <= i < j < 17 implies (#[trigger] entries[i]).0 != (
    #[trigger] entries[j]).0 by {
        let a = entries[i].0;
        let b = entries[j].0;
        assert(a.len() != b.len() || a[0] != b[0] || a[1] != b[1]);
    }
    lemma_values(entries);
    assert(entries[0].0 == "gamePk"@);
    assert(entries[1].0 == "start"@);
    assert(entries[2].0 == "venue"@);
    assert(entries[3].0 == "status"@);
    assert(entries[4].0 == "confirmed"@);
    assert(entries[5].0 == "final"@);
    assert(entries[6].0 == "live"@);
    assert(entries[7].0 == "homeScore"@);
    assert(entries[8].0 == "awayScore"@);
    assert(entries[9].0 == "hit"@);
    assert(entries[10].0 == "pHome"@);
    assert(entries[11].0 == "pAway"@);
    assert(entries[12].0 == "eloHome"@);
    assert(entries[13].0 == "home"@);
    assert(entries[14].0 == "away"@);
    assert(entries[15].0 == "homePitcher"@);
    assert(entries[16].0 == "awayPitcher"@);
    lemma_team_node(g.home_id, g.home_name, league, snaps, blanks);
    lemma_team_node(g.away_id, g.away_name, league, snaps, blanks);
    lemma_pitcher_node::<R>(
        found(league.pitchers, g.home_sp_id),
        g.home_sp_name,
        g.home_sp_id,
    );
    lemma_pitcher_node::<R>(
        found(league.pitchers, g.away_sp_id),
        g.away_sp_name,
        g.away_sp_id,
    );
}

/// Each shown game has its own forecast.
pub proof fn lemma_games_have_their_forecasts<R>(
    games: Seq<ScheduledView>,
    forecasts: Seq<Forecast<R>>,
    league: LeagueView,
    snaps: Map<i64, SnapshotView<i64, R>>,
    blanks: Blanks<R>,
    i: int,
)
    requires
        0 <= i < games.len(),
        games[i].pitchers_confirmed,
    ensures
        game_nodes(games, forecasts, league, snaps, blanks).len() == games.len(),
        counts(
            game_nodes(games, forecasts, league, snaps, blanks)[i],
            "gamePk"@,
            games[i].game_pk as int,
        ),
        measures(
            game_nodes(games, forecasts, league, snaps, blanks)[i],
            "pHome"@,
            forecasts[i].home_pct,
        ),
        measures(
            game_nodes(games, forecasts, league, snaps, blanks)[i],
            "pAway"@,
            forecasts[i].away_pct,
        ),
{
    lemma_game_shows_both_sides(games[i], forecasts[i], league, snaps, blanks);
}

// ---------------------------------------------------------------------- table

proof fn lemma_standing_node<R>(s: SnapshotView<i64, R>, info: Option<TeamInfoView>)
    ensures
        record_is_shown(standing_node(s, info), s),
        says(standing_node(s, info), "name"@, s.name),
        info matches Some(t) ==> {
            &&& says(standing_node(s, info), "abbrev"@, t.abbrev)
            &&& says(standing_node(s, info), "batAvg"@, t.bat_avg)
            &&& says(standing_node(s, info), "ops"@, t.ops)
            &&& says(standing_node(s, info), "era"@, t.era)
        },
        info is None ==> {
            &&& says(standing_node(s, info), "abbrev"@, Seq::empty())
            &&& says(standing_node(s, info), "batAvg"@, "-"@)
            &&& says(standing_node(s, info), "ops"@, "-"@)
            &&& says(standing_node(s, info), "era"@, "-"@)
        },
{
    let entries = standing_node(s, info)->Record_0;
    reveal_strlit("id");
    reveal_strlit("name");
    reveal_strlit("abbrev");
    reveal_strlit("wins");
    reveal_strlit("losses");
    reveal_strlit("elo");
    reveal_strlit("rsPg");
    reveal_strlit("raPg");
    reveal_strlit("form10");
    reveal_strlit("homeW");
    reveal_strlit("homeL");
    reveal_strlit("awayW");
    reveal_strlit("awayL");
    reveal_strlit("batAvg");
    reveal_strlit("ops");
    reveal_strlit("era");
    assert forall|i: int, j: int| 0 <= i < j < 16 implies (#[trigger] entries[i]).0 != (
    #[trigger] entries[j]).0 by {
        let a = entries[i].0;
        let b = entries[j].0;
        assert(a.len() != b.len() || a[0] != b[0] || a[1] != b[1] || a[4] != b[4]);
    }
    lemma_values(entries);
    assert(entries[0].0 == "id"@);
    assert(entries[1].0 == "name"@);
    assert(entries[2].0 == "abbrev"@);
    assert(entries[3].0 == "wins"@);
    assert(entries[4].0 == "losses"@);
    assert(entries[5].0 == "elo"@);
    assert(entries[6].0 == "rsPg"@);
    assert(entries[7].0 == "raPg"@);
    assert(entries[8].0 == "form10"@);
    assert(entries[9].0 == "homeW"@);
    assert(entries[10].0 == "homeL"@);
    assert(entries[11].0 == "awayW"@);
    assert(entries[12].0 == "awayL"@);
    assert(entries[13].0 == "batAvg"@);
    assert(entries[14].0 == "ops"@);
    assert(entries[15].0 == "era"@);
}

/// The table shows each team that has played, once, by its own record, and no team before
/// one with a higher rating.
pub proof fn lemma_table_shows_the_teams<R>(
    ids: Seq<i64>,
    snaps: Map<i64, SnapshotView<i64, R>>,
    league: LeagueView,
    id: i64,
)
    requires
        is_table_order(ids, snaps),
    ensures
        table_nodes(ids, snaps, league).len() == ids.len(),
        ids.no_duplicates(),
        snaps.contains_key(id) && snaps[id].wins + snaps[id].losses > 0 <==> exists|i: int|
            0 <= i < ids.len() && #[trigger] ids[i] == id,
        forall|i: int|
            0 <= i < ids.len() ==> {
                let node = #[trigger] table_nodes(ids, snaps, league)[i];
                &&& record_is_shown(node, snaps[ids[i]])
                &&& says(node, "name"@, snaps[ids[i]].name)
                &&& found(league.teams, snaps[ids[i]].id) matches Some(t) ==> {
                    &&& says(node, "abbrev"@, t.abbrev)
                    &&& says(node, "batAvg"@, t.bat_avg)
                    &&& says(node, "ops"@, t.ops)
                    &&& says(node, "era"@, t.era)
                }
            },
        forall|i: int, j: int|
            0 <= i < j < ids.len() ==> snaps[#[trigger] ids[i]].elo >= snaps[
                #[trigger] ids[j]].elo,
{
    assert forall|i: int| 0 <= i < ids.len() implies {
        let node = #[trigger] table_nodes(ids, snaps, league)[i];
        &&& record_is_shown(node, snaps[ids[i]])
        &&& says(node, "name"@, snaps[ids[i]].name)
        &&& found(league.teams, snaps[ids[i]].id) matches Some(t) ==> {
            &&& says(node, "abbrev"@, t.abbrev)
            &&& says(node, "batAvg"@, t.bat_avg)
            &&& says(node, "ops"@, t.ops)
            &&& says(node, "era"@, t.era)
        }
    } by {
        lemma_standing_node(snaps[ids[i]], found(league.teams, snaps[ids[i]].id));
    }
    assert(ids.contains(id) <==> snaps.contains_key(id) && snaps[id].wins + snaps[id].losses > 0);
}

// ---------------------------------------------------------------- whole panel

/// The counts of the panel add up: games with both starters announced and games without
/// make up all, and those that are over or being played are counted as such.
pub proof fn lemma_summary_adds_up<R>(games: Seq<ScheduledView>, days: int)
    ensures
        ({
            let node = summary_node::<R>(games, days);
            &&& counts(node, "partidos"@, games.len() as int)
            &&& counts(node, "confirmados"@, count_of(games, |g: ScheduledView| g.pitchers_confirmed))
            &&& counts(
                node,
                "sinConfirmar"@,
                count_of(games, |g: ScheduledView| !g.pitchers_confirmed),
            )
            &&& counts(node, "jugados"@, count_of(games, |g: ScheduledView| g.is_final))
            &&& counts(node, "enVivo"@, count_of(games, |g: ScheduledView| g.is_live))
            &&& counts(node, "dias"@, days)
        }),
{
    let entries = summary_node::<R>(games, days)->Record_0;
    reveal_strlit("partidos");
    reveal_strlit("confirmados");
    reveal_strlit("sinConfirmar");
    reveal_strlit("jugados");
    reveal_strlit("enVivo");
    reveal_strlit("dias");
    assert forall|i: int, j: int| 0 <= i < j < 6 implies (#[trigger] entries[i]).0 != (
    #[trigger] entries[j]).0 by {
        let a = entries[i].0;
        let b = entries[j].0;
        assert(a.len() != b.len());
    }
    lemma_values(entries);
    assert(entries[0].0 == "partidos"@);
    assert(entries[1].0 == "confirmados"@);
    assert(entries[2].0 == "sinConfirmar"@);
    assert(entries[3].0 == "jugados"@);
    assert(entries[4].0 == "enVivo"@);
    assert(entries[5].0 == "dias"@);
    lemma_flags(games);
}

/// How many of the games are such.
pub open spec fn count_of(games: Seq<ScheduledView>, such: spec_fn(ScheduledView) -> bool) -> int
    decreases games.len(),
{
    if games.len() == 0 {
        0
    } else if such(games.last()) {
        count_of(games.drop_last(), such) + 1
    } else {
        count_of(games.drop_last(), such)
    }
}

proof fn lemma_flags(games: Seq<ScheduledView>)
    ensures
        count_true(confirmed_flags(games)) == count_of(
            games,
            |g: ScheduledView| g.pitchers_confirmed,
        ),
        games.len() - count_true(confirmed_flags(games)) == count_of(
            games,
            |g: ScheduledView| !g.pitchers_confirmed,
        ),
        count_true(final_flags(games)) == count_of(games, |g: ScheduledView| g.is_final),
        count_true(live_flags(games)) == count_of(games, |g: ScheduledView| g.is_live),
    decreases games.len(),
{
    if games.len() > 0 {
        let rest = games.drop_last();
        lemma_flags(rest);
        assert(confirmed_flags(games).drop_last() =~= confirmed_flags(rest));
        assert(final_flags(games).drop_last() =~= final_flags(rest));
        assert(live_flags(games).drop_last() =~= live_flags(rest));
    }
}

/// What is told of the model: the games it was built from, its 29 columns, its epochs and
/// how it did lately.
pub proof fn lemma_model_is_told<R>(games: int, epochs: int, recent: NodeView<R>)
    ensures
        counts(model_node(games, epochs, recent), "partidosEntrenamiento"@, games),
        counts(model_node(games, epochs, recent), "caracteristicas"@, 29),
        counts(model_node(games, epochs, recent), "epocas"@, epochs),
        model_node(games, epochs, recent).get("reciente"@) == Some(recent),
{
    let entries = model_node(games, epochs, recent)->Record_0;
    reveal_strlit("partidosEntrenamiento");
    reveal_strlit("caracteristicas");
    reveal_strlit("epocas");
    reveal_strlit("reciente");
    assert forall|i: int, j: int| 0 <= i < j < 4 implies (#[trigger] entries[i]).0 != (
    #[trigger] entries[j]).0 by {
        let a = entries[i].0;
        let b = entries[j].0;
        assert(a.len() != b.len());
    }
    lemma_values(entries);
    assert(entries[0].0 == "partidosEntrenamiento"@);
    assert(entries[1].0 == "caracteristicas"@);
    assert(entries[2].0 == "epocas"@);
    assert(entries[3].0 == "reciente"@);
}

/// The whole panel, part by part.
pub proof fn lemma_panel_is_told<R>(
    stamp: StampView,
    model: NodeView<R>,
    games: Seq<ScheduledView>,
    days: Seq<NodeView<R>>,
    table: Seq<NodeView<R>>,
)
    ensures
        ({
            let node = payload_node(stamp, model, games, days, table);
            &&& says(node, "generado"@, stamp.generated)
            &&& says(node, "hoy"@, stamp.today)
            &&& says(node, "ultimoPartido"@, stamp.last_game)
            &&& counts(node, "temporada"@, stamp.season)
            &&& node.get("modelo"@) == Some(model)
            &&& node.get("fechas"@) == Some(NodeView::List(days))
            &&& node.get("tabla"@) == Some(NodeView::List(table))
            &&& node.get("resumen"@) matches Some(counted) && {
                &&& counts(counted, "partidos"@, games.len() as int)
                &&& counts(counted, "dias"@, days.len() as int)
            }
        }),
{
    let entries = payload_node(stamp, model, games, days, table)->Record_0;
    reveal_strlit("generado");
    reveal_strlit("hoy");
    reveal_strlit("ultimoPartido");
    reveal_strlit("temporada");
    reveal_strlit("modelo");
    reveal_strlit("resumen");
    reveal_strlit("fechas");
    reveal_strlit("tabla");
    assert forall|i: int, j: int| 0 <= i < j < 8 implies (#[trigger] entries[i]).0 != (
    #[trigger] entries[j]).0 by {
        let a = entries[i].0;
        let b = entries[j].0;
        assert(a.len() != b.len() || a[0] != b[0]);
    }
    lemma_values(entries);
    assert(entries[0].0 == "generado"@);
    assert(entries[1].0 == "hoy"@);
    assert(entries[2].0 == "ultimoPartido"@);
    assert(entries[3].0 == "temporada"@);
    assert(entries[4].0 == "modelo"@);
    assert(entries[5].0 == "resumen"@);
    assert(entries[6].0 == "fechas"@);
    assert(entries[7].0 == "tabla"@);
    lemma_summary_adds_up::<R>(games, days.len() as int);
}

/// How the model did lately, figure by figure, and band by band in their order.
pub proof fn lemma_recent_report_is_told<R>(r: RecentReport<R>, i: int)
    requires
        0 <= i < r.bands@.len(),
    ensures
        ({
            let node = recent_node(Some(r));
            &&& says(node, "desde"@, r.since@)
            &&& counts(node, "partidos"@, r.games as int)
            &&& measures(node, "aciertoRed"@, r.net_pct)
            &&& measures(node, "aciertoElo"@, r.elo_pct)
            &&& measures(node, "logloss"@, r.logloss)
            &&& measures(node, "brier"@, r.brier)
            &&& node.get("bandas"@) matches Some(NodeView::List(bands)) && {
                &&& bands.len() == r.bands@.len()
                &&& bands[i].get("umbral"@) == Some(
                    NodeView::<R>::Whole(r.bands@[i].threshold as int),
                )
                &&& counts(bands[i], "partidos"@, r.bands@[i].games as int)
                &&& measures(bands[i], "acierto"@, r.bands@[i].hit_pct)
            }
        }),
{
    let entries = recent_node(Some(r))->Record_0;
    lemma_band_node(r.bands@[i]);
    reveal_strlit("desde");
    reveal_strlit("partidos");
    reveal_strlit("aciertoRed");
    reveal_strlit("aciertoElo");
    reveal_strlit("logloss");
    reveal_strlit("brier");
    reveal_strlit("bandas");
    assert forall|i: int, j: int| 0 <= i < j < 7 implies (#[trigger] entries[i]).0 != (
    #[trigger] entries[j]).0 by {
        let a = entries[i].0;
        let b = entries[j].0;
        assert(a.len() != b.len() || a[0] != b[0] || a[7] != b[7]);
    }
    lemma_values(entries);
    assert(entries[0].0 == "desde"@);
    assert(entries[1].0 == "partidos"@);
    assert(entries[2].0 == "aciertoRed"@);
    assert(entries[3].0 == "aciertoElo"@);
    assert(entries[4].0 == "logloss"@);
    assert(entries[5].0 == "brier"@);
    assert(entries[6].0 == "bandas"@);
}

proof fn lemma_band_node<R>(b: Band<R>)
    ensures
        band_node(b).get("umbral"@) == Some(NodeView::<R>::Whole(b.threshold as int)),
        counts(band_node(b), "partidos"@, b.games as int),
        measures(band_node(b), "acierto"@, b.hit_pct),
{
    let entries = band_node(b)->Record_0;
    reveal_strlit("umbral");
    reveal_strlit("partidos");
    reveal_strlit("acierto");
    assert forall|i: int, j: int| 0 <= i < j < 3 implies (#[trigger] entries[i]).0 != (
    #[trigger] entries[j]).0 by {
        let a = entries[i].0;
        let b = entries[j].0;
        assert(a.len() != b.len());
    }
    lemma_values(entries);
    assert(entries[0].0 == "umbral"@);
    assert(entries[1].0 == "partidos"@);
    assert(entries[2].0 == "acierto"@);
}

/// A game stands under its own date: the `i`-th game of a day is one of the games of the
/// panel, and its date is the day's.
pub proof fn lemma_games_stand_under_their_dates<R>(
    dates: Seq<Seq<char>>,
    games: Seq<NodeView<R>>,
    d: int,
    i: int,
)
    requires
        dates.len() == games.len(),
        0 <= d < days_of(dates, games).len(),
        0 <= i < days_of(dates, games)[d].games.len(),
    ensures
        ({
            let day = days_of(dates, games)[d];
            let place = joined(days_of(dates, games).take(d)).len() + i;
            &&& 0 <= place < games.len()
            &&& day.games[i] == games[place]
            &&& day.date == dates[place]
        }),
    decreases games.len(),
{
    if games.len() > 0 {
        let before = days_of(dates.drop_last(), games.drop_last());
        let after = days_of(dates, games);
        lemma_days_hold_all_games(dates.drop_last(), games.drop_last());
        lemma_days_hold_all_games(dates, games);
        let grown = before.len() > 0 && before.last().date == dates.last();
        if grown {
            assert(after.take(d) =~= before.take(d));
            if d < after.len() - 1 || i < before.last().games.len() {
                lemma_games_stand_under_their_dates(dates.drop_last(), games.drop_last(), d, i);
            } else {
                assert(before.take(d) =~= before.drop_last());
            }
        } else if d < before.len() {
            assert(after.take(d) =~= before.take(d));
            lemma_games_stand_under_their_dates(dates.drop_last(), games.drop_last(), d, i);
        } else {
            assert(after.take(d) =~= before);
        }
    }
}

/// A day tells its date and its games, each under its own name, and the dates and the games
/// of the panel are those of the window at the places that are shown.
pub proof fn lemma_days_are_told<R>(
    days: Seq<DayView<R>>,
    d: int,
    window: Seq<ScheduledGame>,
    rows: Seq<usize>,
    i: int,
)
    requires
        0 <= d < days.len(),
        0 <= i < rows.len(),
    ensures
        day_nodes(days).len() == days.len(),
        says(day_nodes(days)[d], "date"@, days[d].date),
        day_nodes(days)[d].get("games"@) == Some(NodeView::List(days[d].games)),
        shown(window, rows).len() == rows.len(),
        dates_of(shown(window, rows)).len() == rows.len(),
        shown(window, rows)[i] == window[rows[i] as int]@,
        dates_of(shown(window, rows))[i] == window[rows[i] as int].date@,
{
    reveal_strlit("date");
    reveal_strlit("games");
    let entries = days[d].node()->Record_0;
    assert("date"@.len() != "games"@.len());
    lemma_values(entries);
    assert(entries[0].0 == "date"@ && entries[1].0 == "games"@);
}

} // verus!
