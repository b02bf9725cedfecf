//! The document of the panel: the games of the next days with their forecasts,
//! teams and pitchers, and the table of the teams.

use std::collections::HashMap;
use vstd::prelude::*;
use vstd::std_specs::hash::group_hash_axioms;
use crate::features::{count_true, SnapshotView, TeamSnapshot, NUM_FEATURES};
use crate::node::{
    count, entry, entry_views, int_node, list, node_views, record, text, value_under, Node,
    NodeView,
};
use crate::mlb::{ScheduledGame, ScheduledView};
use crate::order::{
    arranged, is_stable_order, lemma_permutation_hits, lemma_sort_is_ordered, stable_sort, Ranked,
};
use crate::stats::{
    hitter_views, pitcher_lines, Hitter, HitterView, League, LeagueView, Pitcher, PitcherLine,
    TeamInfo, TeamInfoView,
};
use crate::text::{lemma_text_antisymmetric, lemma_text_transitive, same, text_le, text_lt};

verus! {

broadcast use group_hash_axioms;

/// How many hitters of a team are shown.
pub const SHOWN_HITTERS: usize = 12;

/// How many starting pitchers of a team are shown.
pub const SHOWN_STARTERS: usize = 6;

/// The rating of a team of which nothing is known.
pub const FIRST_ELO: i64 = 1500;

/// The first items of a list, at most `n` of them.
pub open spec fn head<T>(s: Seq<T>, n: int) -> Seq<T> {
    if s.len() <= n {
        s
    } else {
        s.take(n)
    }
}

// ------------------------------------------------------------------- pitchers

/// What is shown of the starter of a game. One who is not among the known pitchers
/// is shown by the number and the name that the schedule gives them.
pub open spec fn pitcher_node<R>(p: Option<PitcherLine>, name: Seq<char>, id: i64) -> NodeView<R> {
    match p {
        Some(p) => NodeView::Record(
            seq![
                ("id"@, NodeView::Int(p.id as int)),
                ("name"@, NodeView::Text(p.name)),
                ("era"@, NodeView::Text(p.era)),
                ("whip"@, NodeView::Text(p.whip)),
                ("wins"@, NodeView::Int(p.wins as int)),
                ("losses"@, NodeView::Int(p.losses as int)),
                ("innings"@, NodeView::Text(p.innings)),
                ("strikeouts"@, NodeView::Int(p.strikeouts as int)),
                ("walks"@, NodeView::Int(p.walks as int)),
                ("starts"@, NodeView::Int(p.starts as int)),
                ("known"@, NodeView::Bool(true)),
            ],
        ),
        None => NodeView::Record(
            seq![
                ("id"@, NodeView::Int(id as int)),
                (
                    "name"@,
                    NodeView::Text(
                        if name.len() == 0 {
                            "Por anunciar"@
                        } else {
                            name
                        },
                    ),
                ),
                ("era"@, NodeView::Text("-"@)),
                ("whip"@, NodeView::Text("-"@)),
                ("wins"@, NodeView::Int(0)),
                ("losses"@, NodeView::Int(0)),
                ("innings"@, NodeView::Text("-"@)),
                ("strikeouts"@, NodeView::Int(0)),
                ("walks"@, NodeView::Int(0)),
                ("starts"@, NodeView::Int(0)),
                ("known"@, NodeView::Bool(false)),
            ],
        ),
    }
}

pub open spec fn line_of(p: Option<&Pitcher>) -> Option<PitcherLine> {
    match p {
        Some(p) => Some(p@),
        None => None,
    }
}

/// What is shown of the starter of a game.
pub fn pitcher_json<R>(p: Option<&Pitcher>, fallback_name: &str, id: i64) -> (n: Node<R>)
    ensures
        n@ == pitcher_node::<R>(line_of(p), fallback_name@, id),
{
    match p {
        Some(p) => {
            let entries: Vec<(String, Node<R>)> = vec![
                entry("id", int_node(p.id)),
                entry("name", text(p.name.as_str())),
                entry("era", text(p.era.as_str())),
                entry("whip", text(p.whip.as_str())),
                entry("wins", int_node(p.wins)),
                entry("losses", int_node(p.losses)),
                entry("innings", text(p.innings.as_str())),
                entry("strikeouts", int_node(p.strikeouts)),
                entry("walks", int_node(p.walks)),
                entry("starts", int_node(p.starts)),
                entry("known", Node::Bool(true)),
            ];
            assert(entry_views(entries@) =~= pitcher_node::<R>(
                Some(p@),
                fallback_name@,
                id,
            )->Record_0);
            record(entries)
        },
        None => {
            let name = if fallback_name.unicode_len() == 0 {
                "Por anunciar"
            } else {
                fallback_name
            };
            let entries: Vec<(String, Node<R>)> = vec![
                entry("id", int_node(id)),
                entry("name", text(name)),
                entry("era", text("-")),
                entry("whip", text("-")),
                entry("wins", int_node(0)),
                entry("losses", int_node(0)),
                entry("innings", text("-")),
                entry("strikeouts", int_node(0)),
                entry("walks", int_node(0)),
                entry("starts", int_node(0)),
                entry("known", Node::Bool(false)),
            ];
            assert(entry_views(entries@) =~= pitcher_node::<R>(
                None,
                fallback_name@,
                id,
            )->Record_0);
            record(entries)
        },
    }
}

// ---------------------------------------------------------------------- teams

/// What is shown of a hitter.
pub open spec fn hitter_node<R>(h: HitterView) -> NodeView<R> {
    NodeView::Record(
        seq![
            ("name"@, NodeView::Text(h.name)),
            ("pos"@, NodeView::Text(h.pos)),
            ("avg"@, NodeView::Text(h.avg)),
            ("obp"@, NodeView::Text(h.obp)),
            ("ops"@, NodeView::Text(h.ops)),
            ("hr"@, NodeView::Int(h.hr as int)),
            ("rbi"@, NodeView::Int(h.rbi as int)),
            ("hits"@, NodeView::Int(h.hits as int)),
            ("ab"@, NodeView::Int(h.at_bats as int)),
            ("games"@, NodeView::Int(h.games as int)),
        ],
    )
}

fn hitter_json<R>(h: &Hitter) -> (n: Node<R>)
    ensures
        n@ == hitter_node::<R>(h@),
{
    let entries: Vec<(String, Node<R>)> = vec![
        entry("name", text(h.name.as_str())),
        entry("pos", text(h.pos.as_str())),
        entry("avg", text(h.avg.as_str())),
        entry("obp", text(h.obp.as_str())),
        entry("ops", text(h.ops.as_str())),
        entry("hr", int_node(h.hr)),
        entry("rbi", int_node(h.rbi)),
        entry("hits", int_node(h.hits)),
        entry("ab", int_node(h.at_bats)),
        entry("games", int_node(h.games)),
    ];
    assert(entry_views(entries@) =~= hitter_node::<R>(h@)->Record_0);
    record(entries)
}

/// What is shown of a starter in the rotation of a team.
pub open spec fn starter_node<R>(p: PitcherLine) -> NodeView<R> {
    NodeView::Record(
        seq![
            ("id"@, NodeView::Int(p.id as int)),
            ("name"@, NodeView::Text(p.name)),
            ("era"@, NodeView::Text(p.era)),
            ("whip"@, NodeView::Text(p.whip)),
            ("wins"@, NodeView::Int(p.wins as int)),
            ("losses"@, NodeView::Int(p.losses as int)),
            ("innings"@, NodeView::Text(p.innings)),
            ("strikeouts"@, NodeView::Int(p.strikeouts as int)),
            ("starts"@, NodeView::Int(p.starts as int)),
        ],
    )
}

fn starter_json<R>(p: &Pitcher) -> (n: Node<R>)
    ensures
        n@ == starter_node::<R>(p@),
{
    let entries: Vec<(String, Node<R>)> = vec![
        entry("id", int_node(p.id)),
        entry("name", text(p.name.as_str())),
        entry("era", text(p.era.as_str())),
        entry("whip", text(p.whip.as_str())),
        entry("wins", int_node(p.wins)),
        entry("losses", int_node(p.losses)),
        entry("innings", text(p.innings.as_str())),
        entry("strikeouts", int_node(p.strikeouts)),
        entry("starts", int_node(p.starts)),
    ];
    assert(entry_views(entries@) =~= starter_node::<R>(p@)->Record_0);
    record(entries)
}

/// The first hitters of a team.
pub open spec fn hitter_nodes<R>(hitters: Seq<HitterView>) -> Seq<NodeView<R>> {
    head(hitters, SHOWN_HITTERS as int).map_values(|h: HitterView| hitter_node::<R>(h))
}

/// The pitchers who have started.
pub open spec fn starters(pitchers: Seq<PitcherLine>) -> Seq<PitcherLine>
    decreases pitchers.len(),
{
    if pitchers.len() == 0 {
        Seq::empty()
    } else if pitchers.last().starts > 0 {
        starters(pitchers.drop_last()).push(pitchers.last())
    } else {
        starters(pitchers.drop_last())
    }
}

/// The first pitchers of a team who have started.
pub open spec fn rotation_nodes<R>(pitchers: Seq<PitcherLine>) -> Seq<NodeView<R>> {
    head(starters(pitchers), SHOWN_STARTERS as int).map_values(
        |p: PitcherLine| starter_node::<R>(p),
    )
}

fn hitter_list<R>(hitters: &Vec<Hitter>) -> (nodes: Vec<Node<R>>)
    ensures
        node_views(nodes@) == hitter_nodes::<R>(hitter_views(hitters@)),
{
    let mut nodes: Vec<Node<R>> = Vec::new();
    let mut i: usize = 0;
    while i < hitters.len() && i < SHOWN_HITTERS
        invariant
            i <= hitters@.len(),
            i <= SHOWN_HITTERS,
            nodes@.len() == i,
            forall|k: int|
                0 <= k < i ==> (#[trigger] nodes@[k])@ == hitter_node::<R>(hitters@[k]@),
        decreases hitters@.len() - i,
    {
        nodes.push(hitter_json(&hitters[i]));
        i += 1;
    }
    assert(node_views(nodes@) =~= hitter_nodes::<R>(hitter_views(hitters@)));
    nodes
}

fn rotation_list<R>(pitchers: &Vec<Pitcher>) -> (nodes: Vec<Node<R>>)
    ensures
        node_views(nodes@) == rotation_nodes::<R>(pitcher_lines(pitchers@)),
{
    let mut nodes: Vec<Node<R>> = Vec::new();
    let ghost lines = pitcher_lines(pitchers@);
    let mut i: usize = 0;
    assert(lines.take(0) =~= Seq::<PitcherLine>::empty());
    assert(node_views(nodes@) =~= rotation_nodes::<R>(lines.take(0)));
    while i < pitchers.len()
        invariant
            i <= pitchers@.len(),
            lines == pitcher_lines(pitchers@),
            node_views(nodes@) == rotation_nodes::<R>(lines.take(i as int)),
        decreases pitchers@.len() - i,
    {
        let p = &pitchers[i];
        let ghost before = nodes@;
        proof {
            assert(lines.take(i + 1).drop_last() =~= lines.take(i as int));
            assert(lines.take(i + 1).last() == p@);
            assert(rotation_nodes::<R>(lines.take(i as int)).len() == nodes@.len());
        }
        if p.starts > 0 && nodes.len() < SHOWN_STARTERS {
            nodes.push(starter_json(p));
            assert(node_views(nodes@) =~= node_views(before).push(starter_node::<R>(p@)));
        }
        assert(node_views(nodes@) =~= rotation_nodes::<R>(lines.take(i + 1)));
        i += 1;
    }
    assert(lines.take(i as int) =~= lines);
    nodes
}

/// The fractional numbers that stand for a team of which nothing is known.
#[derive(Clone, Copy)]
pub struct Blanks<R> {
    /// No runs per game.
    pub runs: R,
    /// An even form.
    pub form: R,
}

/// What is shown for a team that has not played.
pub open spec fn blank_snapshot<R>(name: Seq<char>, blanks: Blanks<R>) -> SnapshotView<i64, R> {
    SnapshotView {
        id: 0,
        name,
        elo: FIRST_ELO,
        wins: 0,
        losses: 0,
        home_wins: 0,
        home_losses: 0,
        away_wins: 0,
        away_losses: 0,
        rs_pg: blanks.runs,
        ra_pg: blanks.runs,
        form10: blanks.form,
    }
}

/// What is shown for a team of which only the name is known.
pub open spec fn blank_info(name: Seq<char>) -> TeamInfoView {
    TeamInfoView {
        name,
        abbrev: Seq::empty(),
        bat_avg: "-"@,
        obp: "-"@,
        slg: "-"@,
        ops: "-"@,
        runs: 0,
        home_runs: 0,
        era: "-"@,
        whip: "-"@,
        strikeouts: 0,
        hitters: Seq::empty(),
        pitchers: Seq::empty(),
    }
}

/// The record and the figures of a team, its totals and its players.
pub open spec fn team_record<R>(t: TeamInfoView, s: SnapshotView<i64, R>) -> NodeView<R> {
    NodeView::Record(
        seq![
            ("id"@, NodeView::Int(s.id as int)),
            ("name"@, NodeView::Text(t.name)),
            ("abbrev"@, NodeView::Text(t.abbrev)),
            ("wins"@, NodeView::Int(s.wins)),
            ("losses"@, NodeView::Int(s.losses)),
            ("elo"@, NodeView::Int(s.elo as int)),
            ("rsPg"@, NodeView::Real(s.rs_pg)),
            ("raPg"@, NodeView::Real(s.ra_pg)),
            ("form10"@, NodeView::Real(s.form10)),
            ("homeW"@, NodeView::Int(s.home_wins)),
            ("homeL"@, NodeView::Int(s.home_losses)),
            ("awayW"@, NodeView::Int(s.away_wins)),
            ("awayL"@, NodeView::Int(s.away_losses)),
            ("batAvg"@, NodeView::Text(t.bat_avg)),
            ("obp"@, NodeView::Text(t.obp)),
            ("slg"@, NodeView::Text(t.slg)),
            ("ops"@, NodeView::Text(t.ops)),
            ("runs"@, NodeView::Int(t.runs as int)),
            ("homeRuns"@, NodeView::Int(t.home_runs as int)),
            ("era"@, NodeView::Text(t.era)),
            ("whip"@, NodeView::Text(t.whip)),
            ("hitters"@, NodeView::List(hitter_nodes::<R>(t.hitters))),
            ("rotation"@, NodeView::List(rotation_nodes::<R>(t.pitchers))),
        ],
    )
}

/// What is shown of a team: blanks stand for what is not known of it.
pub open spec fn team_node<R>(
    info: Option<TeamInfoView>,
    snap: Option<SnapshotView<i64, R>>,
    name: Seq<char>,
    blanks: Blanks<R>,
) -> NodeView<R> {
    team_record(
        match info {
            Some(t) => t,
            None => blank_info(name),
        },
        match snap {
            Some(s) => s,
            None => blank_snapshot(name, blanks),
        },
    )
}

pub open spec fn info_of(info: Option<&TeamInfo>) -> Option<TeamInfoView> {
    match info {
        Some(t) => Some(t@),
        None => None,
    }
}

pub open spec fn snap_of<R>(snap: Option<&TeamSnapshot<i64, R>>) -> Option<SnapshotView<i64, R>> {
    match snap {
        Some(s) => Some(s@),
        None => None,
    }
}

fn team_entries<R: Copy>(t: &TeamInfo, s: &TeamSnapshot<i64, R>) -> (n: Node<R>)
    ensures
        n@ == team_record(t@, s@),
{
    let hitters = hitter_list(&t.hitters);
    let rotation = rotation_list(&t.pitchers);
    let entries: Vec<(String, Node<R>)> = vec![
        entry("id", int_node(s.id)),
        entry("name", text(t.name.as_str())),
        entry("abbrev", text(t.abbrev.as_str())),
        entry("wins", count(s.wins)),
        entry("losses", count(s.losses)),
        entry("elo", int_node(s.elo)),
        entry("rsPg", Node::Real(s.rs_pg)),
        entry("raPg", Node::Real(s.ra_pg)),
        entry("form10", Node::Real(s.form10)),
        entry("homeW", count(s.home_wins)),
        entry("homeL", count(s.home_losses)),
        entry("awayW", count(s.away_wins)),
        entry("awayL", count(s.away_losses)),
        entry("batAvg", text(t.bat_avg.as_str())),
        entry("obp", text(t.obp.as_str())),
        entry("slg", text(t.slg.as_str())),
        entry("ops", text(t.ops.as_str())),
        entry("runs", int_node(t.runs)),
        entry("homeRuns", int_node(t.home_runs)),
        entry("era", text(t.era.as_str())),
        entry("whip", text(t.whip.as_str())),
        entry("hitters", list(hitters)),
        entry("rotation", list(rotation)),
    ];
    assert(entry_views(entries@) =~= team_record(t@, s@)->Record_0);
    record(entries)
}

/// What is shown of a team.
pub fn team_json<R: Copy>(
    info: Option<&TeamInfo>,
    snap: Option<&TeamSnapshot<i64, R>>,
    name: &str,
    blanks: &Blanks<R>,
) -> (n: Node<R>)
    ensures
        n@ == team_node(info_of(info), snap_of(snap), name@, *blanks),
{
    let no_info = TeamInfo {
        name: name.to_owned(),
        abbrev: String::new(),
        bat_avg: "-".to_owned(),
        obp: "-".to_owned(),
        slg: "-".to_owned(),
        ops: "-".to_owned(),
        runs: 0,
        home_runs: 0,
        era: "-".to_owned(),
        whip: "-".to_owned(),
        strikeouts: 0,
        hitters: Vec::new(),
        pitchers: Vec::new(),
    };
    assert(no_info@ =~= blank_info(name@));
    let no_snap = TeamSnapshot {
        id: 0,
        name: name.to_owned(),
        elo: FIRST_ELO,
        wins: 0,
        losses: 0,
        home_wins: 0,
        home_losses: 0,
        away_wins: 0,
        away_losses: 0,
        rs_pg: blanks.runs,
        ra_pg: blanks.runs,
        form10: blanks.form,
    };
    assert(no_snap@ =~= blank_snapshot(name@, *blanks));
    let t = match info {
        Some(t) => t,
        None => &no_info,
    };
    let s = match snap {
        Some(s) => s,
        None => &no_snap,
    };
    team_entries(t, s)
}

// ---------------------------------------------------------------------- games

/// The forecast of a game: the chances of both teams and those of the home team by
/// the ratings alone, as percentages, and whether the home team is the favourite.
#[derive(Clone, Copy)]
pub struct Forecast<R> {
    pub home_pct: R,
    pub away_pct: R,
    pub elo_pct: R,
    pub picks_home: bool,
}

/// What a map holds under a number.
pub open spec fn found<V>(map: Map<i64, V>, id: i64) -> Option<V> {
    if map.contains_key(id) {
        Some(map[id])
    } else {
        None
    }
}

pub open spec fn snapshot_views<R>(snaps: Map<i64, TeamSnapshot<i64, R>>) -> Map<
    i64,
    SnapshotView<i64, R>,
> {
    snaps.map_values(|s: TeamSnapshot<i64, R>| s@)
}

/// Whether the favourite won: told of a finished game with a forecast and a winner.
pub open spec fn hit_of(g: ScheduledView, picks_home: bool) -> Option<bool> {
    match (g.home_score, g.away_score) {
        (Some(hs), Some(aws)) => if g.pitchers_confirmed && g.is_final && hs != aws {
            Some(picks_home == (hs > aws))
        } else {
            None
        },
        _ => None,
    }
}

pub open spec fn score_node<R>(score: Option<i32>) -> NodeView<R> {
    match score {
        Some(s) => NodeView::Int(s as int),
        None => NodeView::Null,
    }
}

pub open spec fn hit_node<R>(hit: Option<bool>) -> NodeView<R> {
    match hit {
        Some(b) => NodeView::Bool(b),
        None => NodeView::Null,
    }
}

/// A percentage, shown only where both starters are announced.
pub open spec fn pct_node<R>(shown: bool, pct: R) -> NodeView<R> {
    if shown {
        NodeView::Real(pct)
    } else {
        NodeView::Null
    }
}

/// What is shown of a game.
pub open spec fn game_node<R>(
    g: ScheduledView,
    f: Forecast<R>,
    league: LeagueView,
    snaps: Map<i64, SnapshotView<i64, R>>,
    blanks: Blanks<R>,
) -> NodeView<R> {
    NodeView::Record(
        seq![
            ("gamePk"@, NodeView::Int(g.game_pk as int)),
            ("start"@, NodeView::Text(g.start_utc)),
            ("venue"@, NodeView::Text(g.venue)),
            ("status"@, NodeView::Text(g.status)),
            ("confirmed"@, NodeView::Bool(g.pitchers_confirmed)),
            ("final"@, NodeView::Bool(g.is_final)),
            ("live"@, NodeView::Bool(g.is_live)),
            ("homeScore"@, score_node(g.home_score)),
            ("awayScore"@, score_node(g.away_score)),
            ("hit"@, hit_node(hit_of(g, f.picks_home))),
            ("pHome"@, pct_node(g.pitchers_confirmed, f.home_pct)),
            ("pAway"@, pct_node(g.pitchers_confirmed, f.away_pct)),
            ("eloHome"@, pct_node(g.pitchers_confirmed, f.elo_pct)),
            (
                "home"@,
                team_node(
                    found(league.teams, g.home_id),
                    found(snaps, g.home_id),
                    g.home_name,
                    blanks,
                ),
            ),
            (
                "away"@,
                team_node(
                    found(league.teams, g.away_id),
                    found(snaps, g.away_id),
                    g.away_name,
                    blanks,
                ),
            ),
            (
                "homePitcher"@,
                pitcher_node(found(league.pitchers, g.home_sp_id), g.home_sp_name, g.home_sp_id),
            ),
            (
                "awayPitcher"@,
                pitcher_node(found(league.pitchers, g.away_sp_id), g.away_sp_name, g.away_sp_id),
            ),
        ],
    )
}

fn score_json<R>(score: Option<i32>) -> (n: Node<R>)
    ensures
        n@ == score_node::<R>(score),
{
    match score {
        Some(s) => Node::Int(s as i128),
        None => Node::Null,
    }
}

fn hit_json<R>(g: &ScheduledGame, picks_home: bool) -> (n: Node<R>)
    ensures
        n@ == hit_node::<R>(hit_of(g@, picks_home)),
{
    match (g.home_score, g.away_score) {
        (Some(hs), Some(aws)) => if g.pitchers_confirmed && g.is_final && hs != aws {
            Node::Bool(picks_home == (hs > aws))
        } else {
            Node::Null
        },
        _ => Node::Null,
    }
}

fn pct_json<R>(shown: bool, pct: R) -> (n: Node<R>)
    ensures
        n@ == pct_node(shown, pct),
{
    if shown {
        Node::Real(pct)
    } else {
        Node::Null
    }
}

/// What is shown of a game.
pub fn game_json<R: Copy>(
    g: &ScheduledGame,
    f: &Forecast<R>,
    league: &League,
    snaps: &HashMap<i64, TeamSnapshot<i64, R>>,
    blanks: &Blanks<R>,
) -> (n: Node<R>)
    ensures
        n@ == game_node(g@, *f, league@, snapshot_views(snaps@), *blanks),
{
    let show = g.pitchers_confirmed;
    let home = team_json(
        league.teams.get(&g.home_id),
        snaps.get(&g.home_id),
        g.home_name.as_str(),
        blanks,
    );
    let away = team_json(
        league.teams.get(&g.away_id),
        snaps.get(&g.away_id),
        g.away_name.as_str(),
        blanks,
    );
    let home_pitcher = pitcher_json(
        league.pitchers.get(&g.home_sp_id),
        g.home_sp_name.as_str(),
        g.home_sp_id,
    );
    let away_pitcher = pitcher_json(
        league.pitchers.get(&g.away_sp_id),
        g.away_sp_name.as_str(),
        g.away_sp_id,
    );
    let entries: Vec<(String, Node<R>)> = vec![
        entry("gamePk", int_node(g.game_pk)),
        entry("start", text(g.start_utc.as_str())),
        entry("venue", text(g.venue.as_str())),
        entry("status", text(g.status.as_str())),
        entry("confirmed", Node::Bool(g.pitchers_confirmed)),
        entry("final", Node::Bool(g.is_final)),
        entry("live", Node::Bool(g.is_live)),
        entry("homeScore", score_json(g.home_score)),
        entry("awayScore", score_json(g.away_score)),
        entry("hit", hit_json(g, f.picks_home)),
        entry("pHome", pct_json(show, f.home_pct)),
        entry("pAway", pct_json(show, f.away_pct)),
        entry("eloHome", pct_json(show, f.elo_pct)),
        entry("home", home),
        entry("away", away),
        entry("homePitcher", home_pitcher),
        entry("awayPitcher", away_pitcher),
    ];
    assert(entry_views(entries@) =~= game_node(
        g@,
        *f,
        league@,
        snapshot_views(snaps@),
        *blanks,
    )->Record_0);
    record(entries)
}

// ----------------------------------------------------------------------- days

/// The games of a day.
#[verifier::ext_equal]
pub struct DayView<R> {
    pub date: Seq<char>,
    pub games: Seq<NodeView<R>>,
}

impl<R> DayView<R> {
    pub open spec fn node(self) -> NodeView<R> {
        NodeView::Record(
            seq![("date"@, NodeView::Text(self.date)), ("games"@, NodeView::List(self.games))],
        )
    }
}

/// The days of a list of games: games with the same date, one after the other, are
/// of one day.
pub open spec fn days_of<R>(dates: Seq<Seq<char>>, games: Seq<NodeView<R>>) -> Seq<DayView<R>>
    decreases games.len(),
{
    if games.len() == 0 {
        Seq::empty()
    } else {
        let before = days_of(dates.drop_last(), games.drop_last());
        if before.len() > 0 && before.last().date == dates.last() {
            before.drop_last().push(
                DayView { date: dates.last(), games: before.last().games.push(games.last()) },
            )
        } else {
            before.push(DayView { date: dates.last(), games: seq![games.last()] })
        }
    }
}

pub open spec fn day_nodes<R>(days: Seq<DayView<R>>) -> Seq<NodeView<R>> {
    Seq::new(days.len(), |i: int| days[i].node())
}

/// The games of the panel: those of the window at the given places.
pub open spec fn shown(window: Seq<ScheduledGame>, rows: Seq<usize>) -> Seq<ScheduledView> {
    Seq::new(rows.len(), |i: int| window[rows[i] as int]@)
}

pub open spec fn dates_of(games: Seq<ScheduledView>) -> Seq<Seq<char>> {
    Seq::new(games.len(), |i: int| games[i].date)
}

pub open spec fn game_nodes<R>(
    games: Seq<ScheduledView>,
    forecasts: Seq<Forecast<R>>,
    league: LeagueView,
    snaps: Map<i64, SnapshotView<i64, R>>,
    blanks: Blanks<R>,
) -> Seq<NodeView<R>> {
    Seq::new(games.len(), |i: int| game_node(games[i], forecasts[i], league, snaps, blanks))
}

fn day_json<R>(date: String, games: Vec<Node<R>>) -> (n: Node<R>)
    ensures
        n@ == (DayView { date: date@, games: node_views(games@) }).node(),
{
    let entries: Vec<(String, Node<R>)> = vec![
        entry("date", Node::Text(date)),
        entry("games", list(games)),
    ];
    assert(entry_views(entries@) =~= seq![
        ("date"@, NodeView::<R>::Text(date@)),
        ("games"@, NodeView::List(node_views(games@))),
    ]);
    record(entries)
}

/// The games of the panel, day by day.
pub fn days_json<R: Copy>(
    window: &Vec<ScheduledGame>,
    rows: &Vec<usize>,
    forecasts: &Vec<Forecast<R>>,
    league: &League,
    snaps: &HashMap<i64, TeamSnapshot<i64, R>>,
    blanks: &Blanks<R>,
) -> (dates: Vec<Node<R>>)
    requires
        forall|i: int| 0 <= i < rows@.len() ==> (#[trigger] rows@[i]) < window@.len(),
        forecasts@.len() == rows@.len(),
    ensures
        node_views(dates@) == day_nodes(
            days_of(
                dates_of(shown(window@, rows@)),
                game_nodes(
                    shown(window@, rows@),
                    forecasts@,
                    league@,
                    snapshot_views(snaps@),
                    *blanks,
                ),
            ),
        ),
{
    let ghost games = shown(window@, rows@);
    let ghost days = dates_of(games);
    let ghost nodes = game_nodes(games, forecasts@, league@, snapshot_views(snaps@), *blanks);
    let mut dates: Vec<Node<R>> = Vec::new();
    let mut cur_date = String::new();
    let mut cur_games: Vec<Node<R>> = Vec::new();
    let mut i: usize = 0;
    while i < rows.len()
        invariant
            i <= rows@.len(),
            forall|i: int| 0 <= i < rows@.len() ==> (#[trigger] rows@[i]) < window@.len(),
            forecasts@.len() == rows@.len(),
            games == shown(window@, rows@),
            days == dates_of(games),
            nodes == game_nodes(games, forecasts@, league@, snapshot_views(snaps@), *blanks),
            i == 0 ==> dates@.len() == 0,
            i > 0 ==> {
                let before = days_of(days.take(i as int), nodes.take(i as int));
                &&& before.len() == dates@.len() + 1
                &&& before.last().date == cur_date@
                &&& before.last().games == node_views(cur_games@)
                &&& node_views(dates@) == day_nodes(before.drop_last())
            },
        decreases rows@.len() - i,
    {
        assert(rows@[i as int] < window@.len());
        let g = &window[rows[i]];
        let ghost before = days_of(days.take(i as int), nodes.take(i as int));
        proof {
            assert(days.take(i + 1).drop_last() =~= days.take(i as int));
            assert(nodes.take(i + 1).drop_last() =~= nodes.take(i as int));
            assert(days.take(i + 1).last() == g@.date);
            assert(games[i as int] == g@);
        }
        if i == 0 || !same(g.date.as_str(), cur_date.as_str()) {
            if i > 0 {
                let mut done: Vec<Node<R>> = Vec::new();
                core::mem::swap(&mut done, &mut cur_games);
                let ghost dates0 = dates@;
                dates.push(day_json(cur_date, done));
                assert(node_views(dates@) =~= node_views(dates0).push(before.last().node()));
                assert(node_views(dates@) =~= day_nodes(before));
            }
            cur_date = g.date.clone();
            cur_games = Vec::new();
        }
        let ghost games0 = cur_games@;
        cur_games.push(game_json(g, &forecasts[i], league, snaps, blanks));
        proof {
            assert(node_views(cur_games@) =~= node_views(games0).push(nodes[i as int]));
            let after = days_of(days.take(i + 1), nodes.take(i + 1));
            assert(nodes.take(i + 1).last() == nodes[i as int]);
            if i == 0 || before.last().date != g@.date {
                assert(node_views(games0) =~= Seq::<NodeView<R>>::empty());
                assert(after.last().games =~= node_views(cur_games@));
                assert(after.drop_last() =~= before);
            } else {
                assert(after.drop_last() =~= before.drop_last());
            }
            assert(node_views(dates@) =~= day_nodes(after.drop_last()));
        }
        i += 1;
    }
    proof {
        assert(days.take(i as int) =~= days);
        assert(nodes.take(i as int) =~= nodes);
    }
    if i > 0 {
        let ghost all = days_of(days, nodes);
        let ghost dates0 = dates@;
        dates.push(day_json(cur_date, cur_games));
        assert(node_views(dates@) =~= node_views(dates0).push(all.last().node()));
        assert(node_views(dates@) =~= day_nodes(all));
    } else {
        assert(node_views(dates@) =~= day_nodes(days_of(days, nodes)));
    }
    dates
}

// ------------------------------------------------------------------- standings

/// A team of the table.
pub open spec fn standing_node<R>(
    s: SnapshotView<i64, R>,
    info: Option<TeamInfoView>,
) -> NodeView<R> {
    let t = match info {
        Some(t) => t,
        None => blank_info(s.name),
    };
    NodeView::Record(
        seq![
            ("id"@, NodeView::Int(s.id as int)),
            ("name"@, NodeView::Text(s.name)),
            ("abbrev"@, NodeView::Text(t.abbrev)),
            ("wins"@, NodeView::Int(s.wins)),
            ("losses"@, NodeView::Int(s.losses)),
            ("elo"@, NodeView::Int(s.elo as int)),
            ("rsPg"@, NodeView::Real(s.rs_pg)),
            ("raPg"@, NodeView::Real(s.ra_pg)),
            ("form10"@, NodeView::Real(s.form10)),
            ("homeW"@, NodeView::Int(s.home_wins)),
            ("homeL"@, NodeView::Int(s.home_losses)),
            ("awayW"@, NodeView::Int(s.away_wins)),
            ("awayL"@, NodeView::Int(s.away_losses)),
            ("batAvg"@, NodeView::Text(t.bat_avg)),
            ("ops"@, NodeView::Text(t.ops)),
            ("era"@, NodeView::Text(t.era)),
        ],
    )
}

fn standing_json<R: Copy>(s: &TeamSnapshot<i64, R>, info: Option<&TeamInfo>) -> (n: Node<R>)
    ensures
        n@ == standing_node(s@, info_of(info)),
{
    let (abbrev, bat_avg, ops, era) = match info {
        Some(t) => (t.abbrev.as_str(), t.bat_avg.as_str(), t.ops.as_str(), t.era.as_str()),
        None => ("", "-", "-", "-"),
    };
    proof {
        reveal_strlit("");
        assert(""@ =~= Seq::<char>::empty());
    }
    let entries: Vec<(String, Node<R>)> = vec![
        entry("id", int_node(s.id)),
        entry("name", text(s.name.as_str())),
        entry("abbrev", text(abbrev)),
        entry("wins", count(s.wins)),
        entry("losses", count(s.losses)),
        entry("elo", int_node(s.elo)),
        entry("rsPg", Node::Real(s.rs_pg)),
        entry("raPg", Node::Real(s.ra_pg)),
        entry("form10", Node::Real(s.form10)),
        entry("homeW", count(s.home_wins)),
        entry("homeL", count(s.home_losses)),
        entry("awayW", count(s.away_wins)),
        entry("awayL", count(s.away_losses)),
        entry("batAvg", text(bat_avg)),
        entry("ops", text(ops)),
        entry("era", text(era)),
    ];
    assert(entry_views(entries@) =~= standing_node(s@, info_of(info))->Record_0);
    record(entries)
}

/// A place in the table: a team and its rating. The highest rating comes first.
pub struct Place {
    pub id: i64,
    pub elo: i64,
}

impl Ranked for Place {
    open spec fn ranks_le(&self, other: &Self) -> bool {
        self.elo >= other.elo
    }

    proof fn lemma_rank_total(a: &Self, b: &Self) {
    }

    proof fn lemma_rank_transitive(a: &Self, b: &Self, c: &Self) {
    }

    fn not_after(&self, other: &Self) -> (r: bool) {
        self.elo >= other.elo
    }
}

/// The teams of the table: each team that has played, once, the highest rating
/// first. Teams with the same rating come in any order.
pub open spec fn is_table_order<R>(ids: Seq<i64>, snaps: Map<i64, SnapshotView<i64, R>>) -> bool {
    &&& ids.no_duplicates()
    &&& forall|id: i64| #[trigger]
        ids.contains(id) <==> snaps.contains_key(id) && snaps[id].wins + snaps[id].losses > 0
    &&& forall|i: int, j: int|
        0 <= i < j < ids.len() ==> snaps[#[trigger] ids[i]].elo >= snaps[#[trigger] ids[j]].elo
}

/// The table in an order of its teams.
pub open spec fn table_nodes<R>(
    ids: Seq<i64>,
    snaps: Map<i64, SnapshotView<i64, R>>,
    league: LeagueView,
) -> Seq<NodeView<R>> {
    Seq::new(
        ids.len(),
        |i: int| standing_node(snaps[ids[i]], found(league.teams, snaps[ids[i]].id)),
    )
}

/// The numbers that a map has entries for, each once.
fn keys_of<V>(map: &HashMap<i64, V>) -> (keys: Vec<i64>)
    ensures
        keys@.no_duplicates(),
        forall|id: i64| #[trigger] keys@.contains(id) <==> map@.contains_key(id),
{
    let mut keys: Vec<i64> = Vec::new();
    let ghost listed = vstd::std_specs::iter::IteratorSpec::remaining(
        &vstd::std_specs::hash::spec_keys_iter(map),
    );
    for key in it: map.keys()
        invariant
            it.seq() == listed,
            keys@.len() == it.index(),
            forall|k: int| 0 <= k < keys@.len() ==> #[trigger] keys@[k] == *listed[k],
    {
        keys.push(*key);
    }
    proof {
        assert(keys@ =~= listed.unref());
        assert forall|i: int, j: int| 0 <= i < j < keys@.len() implies keys@[i] != keys@[j] by {
            assert(listed[i] != listed[j]);
        }
        assert forall|id: i64| #[trigger] keys@.contains(id) <==> map@.contains_key(id) by {
            assert(keys@.to_set().contains(id) == map@.dom().contains(id));
        }
    }
    keys
}

fn places_of<R>(snaps: &HashMap<i64, TeamSnapshot<i64, R>>) -> (places: Vec<Place>)
    ensures
        forall|i: int|
            0 <= i < places@.len() ==> {
                let s = snapshot_views(snaps@);
                &&& s.contains_key((#[trigger] places@[i]).id)
                &&& s[places@[i].id].wins + s[places@[i].id].losses > 0
                &&& s[places@[i].id].elo == places@[i].elo
            },
        forall|i: int, j: int|
            0 <= i < j < places@.len() ==> (#[trigger] places@[i]).id != (#[trigger] places@[j]).id,
        forall|id: i64|
            #![trigger snapshot_views(snaps@).contains_key(id)]
            snapshot_views(snaps@).contains_key(id) && snapshot_views(snaps@)[id].wins
                + snapshot_views(snaps@)[id].losses > 0 ==> exists|i: int|
                0 <= i < places@.len() && (#[trigger] places@[i]).id == id,
{
    let keys = keys_of(snaps);
    let ghost s = snapshot_views(snaps@);
    let mut places: Vec<Place> = Vec::new();
    let mut n: usize = 0;
    while n < keys.len()
        invariant
            n <= keys@.len(),
            keys@.no_duplicates(),
            forall|id: i64| #[trigger] keys@.contains(id) <==> snaps@.contains_key(id),
            s == snapshot_views(snaps@),
            forall|i: int|
                0 <= i < places@.len() ==> {
                    &&& s.contains_key((#[trigger] places@[i]).id)
                    &&& s[places@[i].id].wins + s[places@[i].id].losses > 0
                    &&& s[places@[i].id].elo == places@[i].elo
                    &&& keys@.take(n as int).contains(places@[i].id)
                },
            forall|i: int, j: int|
                0 <= i < j < places@.len() ==> (#[trigger] places@[i]).id != (
                #[trigger] places@[j]).id,
            forall|k: int|
                0 <= k < n && s[#[trigger] keys@[k]].wins + s[keys@[k]].losses > 0 ==> exists|
                    i: int,
                | 0 <= i < places@.len() && (#[trigger] places@[i]).id == keys@[k],
        decreases keys@.len() - n,
    {
        let id = keys[n];
        let ghost before = places@;
        assert(keys@.contains(id));
        proof {
            assert(!keys@.take(n as int).contains(id)) by {
                if keys@.take(n as int).contains(id) {
                    let k = choose|k: int| 0 <= k < n && keys@.take(n as int)[k] == id;
                    assert(keys@[k] == id);
                }
            }
            assert forall|x: i64| keys@.take(n as int).contains(x) implies #[trigger] keys@.take(
                n + 1,
            ).contains(x) by {
                let k = choose|k: int| 0 <= k < n && keys@.take(n as int)[k] == x;
                assert(keys@.take(n + 1)[k] == x);
            }
            assert(keys@.take(n + 1)[n as int] == id);
        }
        if let Some(snap) = snaps.get(&id) {
            assert(s[id] == snap@);
            if snap.wins > 0 || snap.losses > 0 {
                places.push(Place { id, elo: snap.elo });
                assert(places@[before.len() as int].id == id);
            }
            proof {
                assert forall|k: int|
                    0 <= k < n + 1 && s[#[trigger] keys@[k]].wins + s[keys@[k]].losses
                        > 0 implies exists|i: int|
                    0 <= i < places@.len() && (#[trigger] places@[i]).id == keys@[k] by {
                    if k < n {
                        let i = choose|i: int|
                            0 <= i < before.len() && (#[trigger] before[i]).id == keys@[k];
                        assert(places@[i].id == keys@[k]);
                    }
                }
            }
        }
        n += 1;
    }
    proof {
        assert forall|id: i64|
            #![trigger s.contains_key(id)]
            s.contains_key(id) && s[id].wins + s[id].losses > 0 implies exists|i: int|
            0 <= i < places@.len() && (#[trigger] places@[i]).id == id by {
            assert(keys@.contains(id));
            let k = choose|k: int| 0 <= k < keys@.len() && keys@[k] == id;
            assert(s[keys@[k]].wins + s[keys@[k]].losses > 0);
        }
    }
    places
}

/// The table: the teams that have played, the highest rating first.
pub fn table_json<R: Copy>(
    snaps: &HashMap<i64, TeamSnapshot<i64, R>>,
    league: &League,
) -> (table: Vec<Node<R>>)
    ensures
        exists|ids: Seq<i64>| #[trigger]
            is_table_order(ids, snapshot_views(snaps@)) && node_views(table@) == table_nodes(
                ids,
                snapshot_views(snaps@),
                league@,
            ),
{
    let listed = places_of(snaps);
    let ghost s = snapshot_views(snaps@);
    let ghost given = listed@;
    let places = stable_sort(listed);
    let ghost ids = Seq::new(places@.len(), |i: int| places@[i].id);
    let ghost order = choose|order: Seq<usize>| #[trigger]
        is_stable_order(order, given) && arranged(places@, given, order);
    proof {
        assert forall|i: int| 0 <= i < places@.len() implies {
            &&& s.contains_key((#[trigger] places@[i]).id)
            &&& s[places@[i].id].wins + s[places@[i].id].losses > 0
            &&& s[places@[i].id].elo == places@[i].elo
        } by {
            assert(places@[i] == given[order[i] as int]);
        }
        assert forall|i: int, j: int| 0 <= i < j < ids.len() implies ids[i] != ids[j] by {
            assert(places@[i] == given[order[i] as int] && places@[j] == given[order[j] as int]);
            assert(order[i] != order[j]);
            if order[i] < order[j] {
                assert(given[order[i] as int].id != given[order[j] as int].id);
            } else {
                assert(given[order[j] as int].id != given[order[i] as int].id);
            }
        }
        assert forall|id: i64| #[trigger] ids.contains(id) <==> s.contains_key(id) && s[id].wins
            + s[id].losses > 0 by {
            if ids.contains(id) {
                let i = choose|i: int| 0 <= i < ids.len() && ids[i] == id;
                assert(places@[i].id == id);
            }
            if s.contains_key(id) && s[id].wins + s[id].losses > 0 {
                let k = choose|k: int| 0 <= k < given.len() && (#[trigger] given[k]).id == id;
                lemma_permutation_hits(order, given.len(), k);
                let i = choose|i: int| 0 <= i < given.len() && order[i] == k;
                assert(places@[i] == given[order[i] as int]);
                assert(ids[i] == id);
            }
        }
        assert forall|i: int, j: int| 0 <= i < j < ids.len() implies s[#[trigger] ids[i]].elo >= s[
            #[trigger] ids[j]].elo by {
            lemma_sort_is_ordered(places@, given, i, j);
            assert(s[places@[i].id].elo == places@[i].elo);
            assert(s[places@[j].id].elo == places@[j].elo);
        }
        assert(is_table_order(ids, s));
    }
    let mut table: Vec<Node<R>> = Vec::new();
    let mut n: usize = 0;
    while n < places.len()
        invariant
            n <= places@.len(),
            s == snapshot_views(snaps@),
            ids == Seq::new(places@.len(), |i: int| places@[i].id),
            forall|i: int| 0 <= i < places@.len() ==> s.contains_key((#[trigger] places@[i]).id),
            node_views(table@) == table_nodes(ids, s, league@).take(n as int),
        decreases places@.len() - n,
    {
        let ghost before = table@;
        assert(s.contains_key(places@[n as int].id));
        match snaps.get(&places[n].id) {
            Some(snap) => {
                assert(s[ids[n as int]] == snap@);
                let node = standing_json(snap, league.teams.get(&snap.id));
                table.push(node);
                assert(node_views(table@) =~= node_views(before).push(node@));
                assert(node_views(table@) =~= table_nodes(ids, s, league@).take(n + 1));
            },
            None => {
                assert(false);
            },
        }
        n += 1;
    }
    assert(table_nodes(ids, s, league@).take(n as int) =~= table_nodes(ids, s, league@));
    table
}

// -------------------------------------------------------------------- payload

/// How many games of the panel have both starters announced, are over, and are
/// being played.
#[derive(Debug, Clone, Copy, PartialEq, Eq, Structural)]
pub struct Counts {
    pub confirmed: usize,
    pub finals: usize,
    pub live: usize,
}

pub open spec fn confirmed_flags(games: Seq<ScheduledView>) -> Seq<bool> {
    Seq::new(games.len(), |i: int| games[i].pitchers_confirmed)
}

pub open spec fn final_flags(games: Seq<ScheduledView>) -> Seq<bool> {
    Seq::new(games.len(), |i: int| games[i].is_final)
}

pub open spec fn live_flags(games: Seq<ScheduledView>) -> Seq<bool> {
    Seq::new(games.len(), |i: int| games[i].is_live)
}

/// Counts the games of the panel.
pub fn count_games(window: &Vec<ScheduledGame>, rows: &Vec<usize>) -> (c: Counts)
    requires
        forall|i: int| 0 <= i < rows@.len() ==> (#[trigger] rows@[i]) < window@.len(),
    ensures
        c.confirmed == count_true(confirmed_flags(shown(window@, rows@))),
        c.finals == count_true(final_flags(shown(window@, rows@))),
        c.live == count_true(live_flags(shown(window@, rows@))),
        c.confirmed <= rows@.len(),
{
    let ghost games = shown(window@, rows@);
    let ghost a = confirmed_flags(games);
    let ghost b = final_flags(games);
    let ghost l = live_flags(games);
    let mut c = Counts { confirmed: 0, finals: 0, live: 0 };
    let mut i: usize = 0;
    assert(a.take(0) =~= Seq::<bool>::empty());
    assert(b.take(0) =~= Seq::<bool>::empty());
    assert(l.take(0) =~= Seq::<bool>::empty());
    while i < rows.len()
        invariant
            i <= rows@.len(),
            forall|i: int| 0 <= i < rows@.len() ==> (#[trigger] rows@[i]) < window@.len(),
            games == shown(window@, rows@),
            a == confirmed_flags(games),
            b == final_flags(games),
            l == live_flags(games),
            c.confirmed == count_true(a.take(i as int)),
            c.finals == count_true(b.take(i as int)),
            c.live == count_true(l.take(i as int)),
            c.confirmed <= i,
            c.finals <= i,
            c.live <= i,
        decreases rows@.len() - i,
    {
        assert(rows@[i as int] < window@.len());
        let g = &window[rows[i]];
        proof {
            assert(games[i as int] == g@);
            assert(a.take(i + 1).drop_last() =~= a.take(i as int));
            assert(b.take(i + 1).drop_last() =~= b.take(i as int));
            assert(l.take(i + 1).drop_last() =~= l.take(i as int));
        }
        if g.pitchers_confirmed {
            c.confirmed = c.confirmed + 1;
        }
        if g.is_final {
            c.finals = c.finals + 1;
        }
        if g.is_live {
            c.live = c.live + 1;
        }
        i += 1;
    }
    assert(a.take(i as int) =~= a);
    assert(b.take(i as int) =~= b);
    assert(l.take(i as int) =~= l);
    c
}

/// When the panel was made, and of what.
pub struct Stamp {
    /// The time of day.
    pub generated: String,
    pub today: String,
    /// The date of the last finished game, empty where there is none.
    pub last_game: String,
    pub season: i32,
}

pub struct StampView {
    pub generated: Seq<char>,
    pub today: Seq<char>,
    pub last_game: Seq<char>,
    pub season: int,
}

impl View for Stamp {
    type V = StampView;

    open spec fn view(&self) -> StampView {
        StampView {
            generated: self.generated@,
            today: self.today@,
            last_game: self.last_game@,
            season: self.season as int,
        }
    }
}

/// What is told of the model.
pub struct ModelNote<R> {
    /// How many games it was built from.
    pub games: usize,
    pub epochs: usize,
    /// How it did lately.
    pub recent: Node<R>,
}

/// What is told of the model.
pub open spec fn model_node<R>(games: int, epochs: int, recent: NodeView<R>) -> NodeView<R> {
    NodeView::Record(
        seq![
            ("partidosEntrenamiento"@, NodeView::Int(games)),
            ("caracteristicas"@, NodeView::Int(NUM_FEATURES as int)),
            ("epocas"@, NodeView::Int(epochs)),
            ("reciente"@, recent),
        ],
    )
}

/// The counts of the panel.
pub open spec fn summary_node<R>(games: Seq<ScheduledView>, days: int) -> NodeView<R> {
    let confirmed = count_true(confirmed_flags(games));
    let unconfirmed = games.len() - confirmed;
    NodeView::Record(
        seq![
            ("partidos"@, NodeView::Int(games.len() as int)),
            ("confirmados"@, NodeView::Int(confirmed)),
            ("sinConfirmar"@, NodeView::Int(unconfirmed)),
            ("jugados"@, NodeView::Int(count_true(final_flags(games)))),
            ("enVivo"@, NodeView::Int(count_true(live_flags(games)))),
            ("dias"@, NodeView::Int(days)),
        ],
    )
}

/// The whole panel.
pub open spec fn payload_node<R>(
    stamp: StampView,
    model: NodeView<R>,
    games: Seq<ScheduledView>,
    days: Seq<NodeView<R>>,
    table: Seq<NodeView<R>>,
) -> NodeView<R> {
    NodeView::Record(
        seq![
            ("generado"@, NodeView::Text(stamp.generated)),
            ("hoy"@, NodeView::Text(stamp.today)),
            ("ultimoPartido"@, NodeView::Text(stamp.last_game)),
            ("temporada"@, NodeView::Int(stamp.season)),
            ("modelo"@, model),
            ("resumen"@, summary_node(games, days.len() as int)),
            ("fechas"@, NodeView::List(days)),
            ("tabla"@, NodeView::List(table)),
        ],
    )
}

fn model_json<R>(note: ModelNote<R>) -> (n: Node<R>)
    ensures
        n@ == model_node(note.games as int, note.epochs as int, note.recent@),
{
    let entries: Vec<(String, Node<R>)> = vec![
        entry("partidosEntrenamiento", count(note.games)),
        entry("caracteristicas", count(NUM_FEATURES)),
        entry("epocas", count(note.epochs)),
        entry("reciente", note.recent),
    ];
    assert(entry_views(entries@) =~= model_node(
        note.games as int,
        note.epochs as int,
        note.recent@,
    )->Record_0);
    record(entries)
}

fn summary_json<R>(window: &Vec<ScheduledGame>, rows: &Vec<usize>, days: usize) -> (n: Node<R>)
    requires
        forall|i: int| 0 <= i < rows@.len() ==> (#[trigger] rows@[i]) < window@.len(),
    ensures
        n@ == summary_node::<R>(shown(window@, rows@), days as int),
{
    let c = count_games(window, rows);
    let unconfirmed = rows.len() - c.confirmed;
    let entries: Vec<(String, Node<R>)> = vec![
        entry("partidos", count(rows.len())),
        entry("confirmados", count(c.confirmed)),
        entry("sinConfirmar", count(unconfirmed)),
        entry("jugados", count(c.finals)),
        entry("enVivo", count(c.live)),
        entry("dias", count(days)),
    ];
    assert(entry_views(entries@) =~= summary_node::<R>(
        shown(window@, rows@),
        days as int,
    )->Record_0);
    record(entries)
}

/// The whole panel: the games of the window at the places `rows`, each with its
/// forecast, day by day, and the table.
pub fn payload<R: Copy>(
    stamp: Stamp,
    note: ModelNote<R>,
    window: &Vec<ScheduledGame>,
    rows: &Vec<usize>,
    forecasts: &Vec<Forecast<R>>,
    league: &League,
    snaps: &HashMap<i64, TeamSnapshot<i64, R>>,
    blanks: &Blanks<R>,
) -> (n: Node<R>)
    requires
        forall|i: int| 0 <= i < rows@.len() ==> (#[trigger] rows@[i]) < window@.len(),
        forecasts@.len() == rows@.len(),
    ensures
        exists|ids: Seq<i64>| #[trigger]
            is_table_order(ids, snapshot_views(snaps@)) && n@ == payload_node(
                stamp@,
                model_node(note.games as int, note.epochs as int, note.recent@),
                shown(window@, rows@),
                day_nodes(
                    days_of(
                        dates_of(shown(window@, rows@)),
                        game_nodes(
                            shown(window@, rows@),
                            forecasts@,
                            league@,
                            snapshot_views(snaps@),
                            *blanks,
                        ),
                    ),
                ),
                table_nodes(ids, snapshot_views(snaps@), league@),
            ),
{
    let days = days_json(window, rows, forecasts, league, snaps, blanks);
    let table = table_json(snaps, league);
    let summary = summary_json(window, rows, days.len());
    let ghost model = model_node(note.games as int, note.epochs as int, note.recent@);
    let ghost games = shown(window@, rows@);
    let ghost day_views = node_views(days@);
    let ghost table_views = node_views(table@);
    let entries: Vec<(String, Node<R>)> = vec![
        entry("generado", text(stamp.generated.as_str())),
        entry("hoy", text(stamp.today.as_str())),
        entry("ultimoPartido", text(stamp.last_game.as_str())),
        entry("temporada", int_node(stamp.season as i64)),
        entry("modelo", model_json(note)),
        entry("resumen", summary),
        entry("fechas", list(days)),
        entry("tabla", list(table)),
    ];
    assert(entry_views(entries@) =~= payload_node(
        stamp@,
        model,
        games,
        day_views,
        table_views,
    )->Record_0);
    record(entries)
}

// ----------------------------------------------------------------------- laws

/// Without both starters announced, a game has no percentage.
pub proof fn lemma_no_chances_without_starters<R>(
    g: ScheduledView,
    f: Forecast<R>,
    league: LeagueView,
    snaps: Map<i64, SnapshotView<i64, R>>,
    blanks: Blanks<R>,
)
    requires
        !g.pitchers_confirmed,
    ensures
        game_node(g, f, league, snaps, blanks).get("pHome"@) == Some(NodeView::<R>::Null),
        game_node(g, f, league, snaps, blanks).get("pAway"@) == Some(NodeView::<R>::Null),
        game_node(g, f, league, snaps, blanks).get("eloHome"@) == Some(NodeView::<R>::Null),
        game_node(g, f, league, snaps, blanks).get("hit"@) == Some(NodeView::<R>::Null),
{
    lemma_game_keys(g, f, league, snaps, blanks);
}

/// With both starters announced, a game has its percentages.
pub proof fn lemma_chances_with_starters<R>(
    g: ScheduledView,
    f: Forecast<R>,
    league: LeagueView,
    snaps: Map<i64, SnapshotView<i64, R>>,
    blanks: Blanks<R>,
)
    requires
        g.pitchers_confirmed,
    ensures
        game_node(g, f, league, snaps, blanks).get("pHome"@) == Some(NodeView::Real(f.home_pct)),
        game_node(g, f, league, snaps, blanks).get("pAway"@) == Some(NodeView::Real(f.away_pct)),
        game_node(g, f, league, snaps, blanks).get("eloHome"@) == Some(NodeView::Real(f.elo_pct)),
{
    lemma_game_keys(g, f, league, snaps, blanks);
}

/// A game shows its score as soon as there is one. Once it is over with a winner, and
/// had a forecast, it also shows whether the forecast named the winner; before that it
/// does not.
pub proof fn lemma_results_are_shown<R>(
    g: ScheduledView,
    f: Forecast<R>,
    league: LeagueView,
    snaps: Map<i64, SnapshotView<i64, R>>,
    blanks: Blanks<R>,
)
    ensures
        g.home_score matches Some(s) ==> game_node(g, f, league, snaps, blanks).get("homeScore"@)
            == Some(NodeView::<R>::Int(s as int)),
        g.away_score matches Some(s) ==> game_node(g, f, league, snaps, blanks).get("awayScore"@)
            == Some(NodeView::<R>::Int(s as int)),
        !g.is_final ==> game_node(g, f, league, snaps, blanks).get("hit"@) == Some(
            NodeView::<R>::Null,
        ),
        g.is_final && g.pitchers_confirmed && g.home_score is Some && g.away_score is Some
            && g.home_score != g.away_score ==> game_node(g, f, league, snaps, blanks).get("hit"@)
            == Some(NodeView::<R>::Bool(f.picks_home == (g.home_score->0 > g.away_score->0))),
{
    lemma_game_keys(g, f, league, snaps, blanks);
}

/// The entries before the one at `n` have other keys.
proof fn lemma_value_at<R>(entries: Seq<(Seq<char>, NodeView<R>)>, n: int)
    requires
        0 <= n < entries.len(),
        forall|i: int| 0 <= i < n ==> (#[trigger] entries[i]).0 != entries[n].0,
    ensures
        value_under(entries, entries[n].0) == Some(entries[n].1),
    decreases n,
{
    if n > 0 {
        let rest = entries.drop_first();
        assert(entries[0].0 != entries[n].0);
        assert forall|i: int| 0 <= i < n - 1 implies (#[trigger] rest[i]).0 != rest[n - 1].0 by {
            assert(rest[i] == entries[i + 1]);
        }
        lemma_value_at(rest, n - 1);
    }
}

proof fn lemma_game_keys<R>(
    g: ScheduledView,
    f: Forecast<R>,
    league: LeagueView,
    snaps: Map<i64, SnapshotView<i64, R>>,
    blanks: Blanks<R>,
)
    ensures
        game_node(g, f, league, snaps, blanks).get("homeScore"@) == Some(
            score_node::<R>(g.home_score),
        ),
        game_node(g, f, league, snaps, blanks).get("awayScore"@) == Some(
            score_node::<R>(g.away_score),
        ),
        game_node(g, f, league, snaps, blanks).get("hit"@) == Some(
            hit_node::<R>(hit_of(g, f.picks_home)),
        ),
        game_node(g, f, league, snaps, blanks).get("pHome"@) == Some(
            pct_node(g.pitchers_confirmed, f.home_pct),
        ),
        game_node(g, f, league, snaps, blanks).get("pAway"@) == Some(
            pct_node(g.pitchers_confirmed, f.away_pct),
        ),
        game_node(g, f, league, snaps, blanks).get("eloHome"@) == Some(
            pct_node(g.pitchers_confirmed, f.elo_pct),
        ),
{
    reveal_strlit("gamePk");
    reveal_strlit("start");
    reveal_strlit("venue");
    reveal_strlit("status");
    reveal_strlit("confirmed");
    reveal_strlit("final");
    reveal_strlit("live");
    reveal_strlit("homeScore");
    reveal_strlit("awayScore");
    reveal_strlit("hit");
    reveal_strlit("pHome");
    reveal_strlit("pAway");
    reveal_strlit("eloHome");
    let entries = game_node(g, f, league, snaps, blanks)->Record_0;
    assert forall|i: int, j: int| 0 <= i < j < 13 implies (#[trigger] entries[i]).0 != (
    #[trigger] entries[j]).0 by {
        let a = entries[i].0;
        let b = entries[j].0;
        assert(a.len() != b.len() || a[0] != b[0] || a[1] != b[1]);
    }
    lemma_value_at(entries, 7);
    lemma_value_at(entries, 8);
    lemma_value_at(entries, 9);
    lemma_value_at(entries, 10);
    lemma_value_at(entries, 11);
    lemma_value_at(entries, 12);
}

/// The games of all the days, one day after the other.
pub open spec fn joined<R>(days: Seq<DayView<R>>) -> Seq<NodeView<R>>
    decreases days.len(),
{
    if days.len() == 0 {
        Seq::empty()
    } else {
        joined(days.drop_last()) + days.last().games
    }
}

/// No game is lost or shown twice: the games of the days are all the games, in
/// their order, and no day is empty.
pub proof fn lemma_days_hold_all_games<R>(dates: Seq<Seq<char>>, games: Seq<NodeView<R>>)
    requires
        dates.len() == games.len(),
    ensures
        joined(days_of(dates, games)) == games,
        games.len() > 0 ==> days_of(dates, games).len() > 0 && days_of(dates, games).last().date
            == dates.last(),
        forall|i: int|
            0 <= i < days_of(dates, games).len() ==> (#[trigger] days_of(
                dates,
                games,
            )[i]).games.len() > 0,
    decreases games.len(),
{
    if games.len() > 0 {
        lemma_days_hold_all_games(dates.drop_last(), games.drop_last());
        let before = days_of(dates.drop_last(), games.drop_last());
        let after = days_of(dates, games);
        if before.len() > 0 && before.last().date == dates.last() {
            assert(after.drop_last() =~= before.drop_last());
            assert(joined(after) =~= joined(before).push(games.last()));
        } else {
            assert(after.drop_last() =~= before);
            assert(joined(after) =~= joined(before).push(games.last()));
        }
        assert(games.drop_last().push(games.last()) =~= games);
    } else {
        assert(games =~= Seq::<NodeView<R>>::empty());
    }
}

/// Of games in the order of their dates, each date makes one day, and the days are
/// in order.
pub proof fn lemma_one_day_per_date<R>(dates: Seq<Seq<char>>, games: Seq<NodeView<R>>)
    requires
        dates.len() == games.len(),
        forall|i: int, j: int| 0 <= i < j < dates.len() ==> text_le(dates[i], dates[j]),
    ensures
        forall|i: int, j: int|
            0 <= i < j < days_of(dates, games).len() ==> text_lt(
                #[trigger] days_of(dates, games)[i].date,
                #[trigger] days_of(dates, games)[j].date,
            ),
    decreases games.len(),
{
    if games.len() > 0 {
        let before = days_of(dates.drop_last(), games.drop_last());
        let after = days_of(dates, games);
        lemma_one_day_per_date(dates.drop_last(), games.drop_last());
        lemma_days_hold_all_games(dates.drop_last(), games.drop_last());
        assert forall|i: int, j: int| 0 <= i < j < after.len() implies text_lt(
            #[trigger] after[i].date,
            #[trigger] after[j].date,
        ) by {
            if before.len() > 0 && before.last().date == dates.last() {
                assert(after[i].date == before[i].date && after[j].date == before[j].date);
            } else if j < after.len() - 1 {
                assert(after[i] == before[i] && after[j] == before[j]);
            } else {
                // The last day before is dated no later than the new one, and they differ.
                let last = before.last().date;
                assert(last == dates[dates.len() - 2]);
                assert(text_le(last, dates.last()));
                if text_le(dates.last(), last) {
                    lemma_text_antisymmetric(last, dates.last());
                }
                if i < before.len() - 1 {
                    assert(text_lt(before[i].date, last));
                    if text_le(dates.last(), before[i].date) {
                        lemma_text_transitive(last, dates.last(), before[i].date);
                    }
                }
            }
        }
    }
}

} // verus!
