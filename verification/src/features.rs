//! Strictly chronological features.
//!
//! What is known before a game is all that its row holds: the state of both
//! teams and of both starting pitchers is read first, and the result of the game
//! enters the state afterwards. Sums, counts and recent form are kept exactly;
//! a row holds them as fractions of integers.

use std::collections::{HashMap, VecDeque};
use vstd::prelude::*;
use vstd::std_specs::hash::group_hash_axioms;
use crate::mlb::{game_views, GameView, RawGame};
use crate::outside::{day_of_text, day_reading};

verus! {

broadcast use group_hash_axioms;

/// Number of columns of a feature row.
pub const NUM_FEATURES: usize = 29;

/// Columns of a feature row, in order.
pub const FEATURE_NAMES: [&'static str; 29] = [
    "elo_diff",
    "elo_prob",
    "home_wpct",
    "away_wpct",
    "wpct_diff",
    "home_rs_pg",
    "home_ra_pg",
    "away_rs_pg",
    "away_ra_pg",
    "home_rundiff_pg",
    "away_rundiff_pg",
    "home_form10",
    "away_form10",
    "home_rs10",
    "home_ra10",
    "away_rs10",
    "away_ra10",
    "home_pyth",
    "away_pyth",
    "home_rest",
    "away_rest",
    "home_sp_ra",
    "away_sp_ra",
    "home_sp_exp",
    "away_sp_exp",
    "home_wpct_at_home",
    "away_wpct_on_road",
    "home_rundiff_at_home",
    "away_rundiff_on_road",
];

/// How many recent games the form of a team covers.
pub const FORM_GAMES: usize = 10;

/// How many recent starts the form of a pitcher covers.
pub const FORM_STARTS: usize = 8;

/// A fraction with a positive denominator.
#[derive(Debug, Clone, Copy, PartialEq, Eq, Structural)]
pub struct Ratio {
    pub num: i128,
    pub den: i128,
}

pub struct Fraction {
    pub num: int,
    pub den: int,
}

impl View for Ratio {
    type V = Fraction;

    open spec fn view(&self) -> Fraction {
        Fraction { num: self.num as int, den: self.den as int }
    }
}

/// Runs per game that an average team is given before it has played: 4.4.
pub open spec fn league_runs() -> Fraction {
    Fraction { num: 22, den: 5 }
}

pub open spec fn one_half() -> Fraction {
    Fraction { num: 1, den: 2 }
}

// ------------------------------------------------------------------ records

/// Games, wins and runs.
#[derive(Debug, Clone, Copy, PartialEq, Eq, Structural)]
pub struct Record {
    pub gp: usize,
    pub wins: usize,
    pub rs: i128,
    pub ra: i128,
}

pub struct RecordView {
    pub gp: int,
    pub wins: int,
    pub rs: int,
    pub ra: int,
}

impl View for Record {
    type V = RecordView;

    open spec fn view(&self) -> RecordView {
        RecordView {
            gp: self.gp as int,
            wins: self.wins as int,
            rs: self.rs as int,
            ra: self.ra as int,
        }
    }
}

impl RecordView {
    pub open spec fn empty() -> RecordView {
        RecordView { gp: 0, wins: 0, rs: 0, ra: 0 }
    }

    /// No more wins than games, and no more runs than so many games can have.
    pub open spec fn wf(self) -> bool {
        &&& 0 <= self.wins <= self.gp
        &&& -0x8000_0000 * self.gp <= self.rs <= 0x7fff_ffff * self.gp
        &&& -0x8000_0000 * self.gp <= self.ra <= 0x7fff_ffff * self.gp
    }

    /// With one more game.
    pub open spec fn with_game(self, won: bool, scored: i32, allowed: i32) -> RecordView {
        RecordView {
            gp: self.gp + 1,
            wins: self.wins + if won {
                1int
            } else {
                0int
            },
            rs: self.rs + scored,
            ra: self.ra + allowed,
        }
    }

    /// Both records taken together.
    pub open spec fn plus(self, other: RecordView) -> RecordView {
        RecordView {
            gp: self.gp + other.gp,
            wins: self.wins + other.wins,
            rs: self.rs + other.rs,
            ra: self.ra + other.ra,
        }
    }

    /// Share of games won, drawn towards one half as if by eight more games of
    /// which four were won.
    pub open spec fn wpct(self) -> Fraction {
        Fraction { num: self.wins + 4, den: self.gp + 8 }
    }

    /// Runs scored per game.
    pub open spec fn rs_pg(self) -> Fraction {
        if self.gp == 0 {
            league_runs()
        } else {
            Fraction { num: self.rs, den: self.gp }
        }
    }

    /// Runs allowed per game.
    pub open spec fn ra_pg(self) -> Fraction {
        if self.gp == 0 {
            league_runs()
        } else {
            Fraction { num: self.ra, den: self.gp }
        }
    }

    /// Runs scored and allowed, where there were games.
    pub open spec fn runs(self) -> Option<(int, int)> {
        if self.gp == 0 {
            None
        } else {
            Some((self.rs, self.ra))
        }
    }
}

impl Record {
    fn empty() -> (r: Record)
        ensures
            r@ == RecordView::empty(),
            r@.wf(),
    {
        Record { gp: 0, wins: 0, rs: 0, ra: 0 }
    }

    fn add_game(&mut self, won: bool, scored: i32, allowed: i32)
        requires
            old(self)@.wf(),
            old(self).gp < usize::MAX,
        ensures
            final(self)@ == old(self)@.with_game(won, scored, allowed),
            final(self)@.wf(),
    {
        self.gp = self.gp + 1;
        if won {
            self.wins = self.wins + 1;
        }
        self.rs = self.rs + scored as i128;
        self.ra = self.ra + allowed as i128;
    }

    fn wpct(&self) -> (r: Ratio)
        requires
            self@.wf(),
        ensures
            r@ == self@.wpct(),
    {
        Ratio { num: self.wins as i128 + 4, den: self.gp as i128 + 8 }
    }

    fn rs_pg(&self) -> (r: Ratio)
        ensures
            r@ == self@.rs_pg(),
    {
        if self.gp == 0 {
            Ratio { num: 22, den: 5 }
        } else {
            Ratio { num: self.rs, den: self.gp as i128 }
        }
    }

    fn ra_pg(&self) -> (r: Ratio)
        ensures
            r@ == self@.ra_pg(),
    {
        if self.gp == 0 {
            Ratio { num: 22, den: 5 }
        } else {
            Ratio { num: self.ra, den: self.gp as i128 }
        }
    }

    fn runs(&self) -> (r: Option<(i128, i128)>)
        ensures
            runs_view(r) == self@.runs(),
    {
        if self.gp == 0 {
            None
        } else {
            Some((self.rs, self.ra))
        }
    }
}

pub open spec fn runs_view(runs: Option<(i128, i128)>) -> Option<(int, int)> {
    match runs {
        Some((rs, ra)) => Some((rs as int, ra as int)),
        None => None,
    }
}

// ------------------------------------------------------------------ windows

/// The last items of a list, at most `cap` of them.
pub open spec fn tail<T>(s: Seq<T>, cap: int) -> Seq<T> {
    if s.len() <= cap {
        s
    } else {
        s.skip(s.len() - cap)
    }
}

/// Adds an item at the end and drops the first ones over `cap`.
pub fn push_capped<T>(dq: &mut VecDeque<T>, v: T, cap: usize)
    requires
        old(dq)@.len() < usize::MAX,
    ensures
        final(dq)@ == tail(old(dq)@.push(v), cap as int),
{
    dq.push_back(v);
    let ghost all = dq@;
    assert(all.skip(0) =~= all);
    while dq.len() > cap
        invariant
            dq@.len() <= all.len(),
            dq@ == all.skip(all.len() - dq@.len()),
            all.len() > cap ==> dq@.len() >= cap,
            all.len() <= cap ==> dq@.len() == all.len(),
        decreases dq@.len(),
    {
        let ghost before = dq@;
        let _first = dq.pop_front();
        assert(dq@ =~= all.skip(all.len() - dq@.len()));
    }
}

pub open spec fn sum(s: Seq<i32>) -> int
    decreases s.len(),
{
    if s.len() == 0 {
        0
    } else {
        sum(s.drop_last()) + s.last()
    }
}

/// How many of the items are true.
pub open spec fn count_true(s: Seq<bool>) -> int
    decreases s.len(),
{
    if s.len() == 0 {
        0
    } else {
        count_true(s.drop_last()) + if s.last() {
            1int
        } else {
            0int
        }
    }
}

/// The mean, or a default where there is nothing to average.
pub open spec fn mean(s: Seq<i32>, default: Fraction) -> Fraction {
    if s.len() == 0 {
        default
    } else {
        Fraction { num: sum(s), den: s.len() as int }
    }
}

/// The share of true items, or one half where there is none.
pub open spec fn share(s: Seq<bool>) -> Fraction {
    if s.len() == 0 {
        one_half()
    } else {
        Fraction { num: count_true(s), den: s.len() as int }
    }
}

fn mean_runs(dq: &VecDeque<i32>) -> (r: Ratio)
    ensures
        r@ == mean(dq@, league_runs()),
{
    let n = dq.len();
    if n == 0 {
        return Ratio { num: 22, den: 5 };
    }
    let mut total: i128 = 0;
    let mut i: usize = 0;
    assert(dq@.take(0) =~= Seq::<i32>::empty());
    while i < n
        invariant
            i <= n,
            n == dq@.len(),
            total == sum(dq@.take(i as int)),
            -0x8000_0000 * i <= total <= 0x7fff_ffff * i,
        decreases n - i,
    {
        assert(dq@.take(i + 1).drop_last() =~= dq@.take(i as int));
        total = total + dq[i] as i128;
        i += 1;
    }
    assert(dq@.take(i as int) =~= dq@);
    Ratio { num: total, den: n as i128 }
}

fn share_won(dq: &VecDeque<bool>) -> (r: Ratio)
    ensures
        r@ == share(dq@),
{
    let n = dq.len();
    if n == 0 {
        return Ratio { num: 1, den: 2 };
    }
    let mut won: usize = 0;
    let mut i: usize = 0;
    assert(dq@.take(0) =~= Seq::<bool>::empty());
    while i < n
        invariant
            i <= n,
            n == dq@.len(),
            won == count_true(dq@.take(i as int)),
            won <= i,
        decreases n - i,
    {
        assert(dq@.take(i + 1).drop_last() =~= dq@.take(i as int));
        if dq[i] {
            won = won + 1;
        }
        i += 1;
    }
    assert(dq@.take(i as int) =~= dq@);
    Ratio { num: won as i128, den: n as i128 }
}

// -------------------------------------------------------------------- teams

/// What is known of a team in its current season.
#[derive(Debug, Clone)]
pub struct TeamState {
    pub name: String,
    /// The season that the records are of, 0 before the first.
    pub season: i32,
    pub total: Record,
    pub at_home: Record,
    pub on_road: Record,
    pub last_results: VecDeque<bool>,
    pub last_rs: VecDeque<i32>,
    pub last_ra: VecDeque<i32>,
    pub last_day: Option<i32>,
}

#[verifier::ext_equal]
pub struct TeamView {
    pub name: Seq<char>,
    pub season: i32,
    pub total: RecordView,
    pub at_home: RecordView,
    pub on_road: RecordView,
    pub results: Seq<bool>,
    pub scored: Seq<i32>,
    pub allowed: Seq<i32>,
    pub last_day: Option<i32>,
}

impl View for TeamState {
    type V = TeamView;

    open spec fn view(&self) -> TeamView {
        TeamView {
            name: self.name@,
            season: self.season,
            total: self.total@,
            at_home: self.at_home@,
            on_road: self.on_road@,
            results: self.last_results@,
            scored: self.last_rs@,
            allowed: self.last_ra@,
            last_day: self.last_day,
        }
    }
}

impl TeamView {
    /// A team of which nothing is known.
    pub open spec fn fresh() -> TeamView {
        TeamView {
            name: Seq::empty(),
            season: 0,
            total: RecordView::empty(),
            at_home: RecordView::empty(),
            on_road: RecordView::empty(),
            results: Seq::empty(),
            scored: Seq::empty(),
            allowed: Seq::empty(),
            last_day: None,
        }
    }

    /// The home and road records make up the whole, and the form covers the last
    /// games of the season, as many as there are up to the limit.
    pub open spec fn wf(self) -> bool {
        &&& self.total.wf()
        &&& self.at_home.wf()
        &&& self.on_road.wf()
        &&& self.total == self.at_home.plus(self.on_road)
        &&& self.results.len() == if self.total.gp <= FORM_GAMES {
            self.total.gp
        } else {
            FORM_GAMES as int
        }
        &&& self.scored.len() == self.results.len()
        &&& self.allowed.len() == self.results.len()
    }

    pub open spec fn named(self, name: Seq<char>) -> TeamView {
        TeamView { name, ..self }
    }

    /// Whether the rating of the team regresses to the mean as it enters a
    /// season: it does between seasons, not before its first.
    pub open spec fn carries_into(self, season: i32) -> bool {
        self.season != season && self.season != 0
    }

    /// In a new season the records and the form start over.
    pub open spec fn rolled(self, season: i32) -> TeamView {
        if self.season == season {
            self
        } else {
            TeamView { name: self.name, season, last_day: self.last_day, ..TeamView::fresh() }
        }
    }

    /// After a game.
    pub open spec fn after_game(
        self,
        day: i32,
        home: bool,
        won: bool,
        scored: i32,
        allowed: i32,
    ) -> TeamView {
        TeamView {
            name: self.name,
            season: self.season,
            total: self.total.with_game(won, scored, allowed),
            at_home: if home {
                self.at_home.with_game(won, scored, allowed)
            } else {
                self.at_home
            },
            on_road: if home {
                self.on_road
            } else {
                self.on_road.with_game(won, scored, allowed)
            },
            results: tail(self.results.push(won), FORM_GAMES as int),
            scored: tail(self.scored.push(scored), FORM_GAMES as int),
            allowed: tail(self.allowed.push(allowed), FORM_GAMES as int),
            last_day: Some(day),
        }
    }

    /// Days since the last game, between 0 and 7; 3 before the first game.
    pub open spec fn rest_days(self, day: i32) -> int {
        match self.last_day {
            Some(last) => if day - last < 0 {
                0
            } else if day - last > 7 {
                7
            } else {
                day - last
            },
            None => 3,
        }
    }
}

impl TeamState {
    fn new() -> (t: TeamState)
        ensures
            t@ == TeamView::fresh(),
            t@.wf(),
    {
        let t = TeamState {
            name: String::new(),
            season: 0,
            total: Record::empty(),
            at_home: Record::empty(),
            on_road: Record::empty(),
            last_results: VecDeque::new(),
            last_rs: VecDeque::new(),
            last_ra: VecDeque::new(),
            last_day: None,
        };
        assert(t@ =~= TeamView::fresh());
        t
    }

    /// Enters a season. Says whether the rating of the team regresses.
    fn roll_season(&mut self, season: i32) -> (carries: bool)
        requires
            old(self)@.wf(),
        ensures
            final(self)@ == old(self)@.rolled(season),
            final(self)@.wf(),
            carries == old(self)@.carries_into(season),
    {
        if self.season == season {
            return false;
        }
        let carries = self.season != 0;
        self.season = season;
        self.total = Record::empty();
        self.at_home = Record::empty();
        self.on_road = Record::empty();
        self.last_results.clear();
        self.last_rs.clear();
        self.last_ra.clear();
        assert(self@ =~= old(self)@.rolled(season));
        carries
    }

    fn update(&mut self, day: i32, home: bool, won: bool, scored: i32, allowed: i32)
        requires
            old(self)@.wf(),
            old(self)@.total.gp < usize::MAX,
        ensures
            final(self)@ == old(self)@.after_game(day, home, won, scored, allowed),
            final(self)@.wf(),
    {
        self.total.add_game(won, scored, allowed);
        if home {
            self.at_home.add_game(won, scored, allowed);
        } else {
            self.on_road.add_game(won, scored, allowed);
        }
        push_capped(&mut self.last_results, won, FORM_GAMES);
        push_capped(&mut self.last_rs, scored, FORM_GAMES);
        push_capped(&mut self.last_ra, allowed, FORM_GAMES);
        self.last_day = Some(day);
        assert(self@ =~= old(self)@.after_game(day, home, won, scored, allowed));
    }

    fn rest_days(&self, day: i32) -> (r: i64)
        ensures
            r == self@.rest_days(day),
    {
        match self.last_day {
            Some(last) => {
                let days: i64 = day as i64 - last as i64;
                if days < 0 {
                    0
                } else if days > 7 {
                    7
                } else {
                    days
                }
            },
            None => 3,
        }
    }
}

/// Recent form of a starting pitcher: the runs that the team allowed in their last
/// starts.
#[derive(Debug, Clone)]
pub struct PitcherState {
    pub starts: usize,
    pub recent_ra: VecDeque<i32>,
}

#[verifier::ext_equal]
pub struct PitcherView {
    pub starts: int,
    pub recent: Seq<i32>,
}

impl View for PitcherState {
    type V = PitcherView;

    open spec fn view(&self) -> PitcherView {
        PitcherView { starts: self.starts as int, recent: self.recent_ra@ }
    }
}

impl PitcherView {
    pub open spec fn fresh() -> PitcherView {
        PitcherView { starts: 0, recent: Seq::empty() }
    }

    pub open spec fn wf(self) -> bool {
        &&& 0 <= self.starts
        &&& self.recent.len() == if self.starts <= FORM_STARTS {
            self.starts
        } else {
            FORM_STARTS as int
        }
    }

    pub open spec fn after_start(self, allowed: i32) -> PitcherView {
        PitcherView {
            starts: self.starts + 1,
            recent: tail(self.recent.push(allowed), FORM_STARTS as int),
        }
    }

    /// Experience: starts out of thirty, at most one.
    pub open spec fn experience(self) -> Fraction {
        Fraction {
            num: if self.starts < 30 {
                self.starts
            } else {
                30
            },
            den: 30,
        }
    }
}

impl PitcherState {
    fn new() -> (p: PitcherState)
        ensures
            p@ == PitcherView::fresh(),
            p@.wf(),
    {
        let p = PitcherState { starts: 0, recent_ra: VecDeque::new() };
        assert(p@ =~= PitcherView::fresh());
        p
    }

    fn add_start(&mut self, allowed: i32)
        requires
            old(self)@.wf(),
            old(self).starts < usize::MAX,
        ensures
            final(self)@ == old(self)@.after_start(allowed),
            final(self)@.wf(),
    {
        self.starts = self.starts + 1;
        push_capped(&mut self.recent_ra, allowed, FORM_STARTS);
        assert(self@ =~= old(self)@.after_start(allowed));
    }

    fn experience(&self) -> (r: Ratio)
        ensures
            r@ == self@.experience(),
    {
        let num: i128 = if self.starts < 30 {
            self.starts as i128
        } else {
            30
        };
        Ratio { num, den: 30 }
    }
}

// --------------------------------------------------------------------- rows

/// What a row holds of one side: the team as it is before the game, its record
/// in the condition in which it plays, and its starting pitcher.
#[derive(Debug, Clone, Copy, PartialEq, Eq)]
pub struct SideInputs {
    pub wpct: Ratio,
    pub rs_pg: Ratio,
    pub ra_pg: Ratio,
    pub form10: Ratio,
    pub rs10: Ratio,
    pub ra10: Ratio,
    /// Runs scored and allowed in the season, `None` before its first game.
    pub runs: Option<(i128, i128)>,
    pub rest: i64,
    pub sp_ra: Ratio,
    pub sp_exp: Ratio,
    /// The record at home of the home team, and on the road of the visitors.
    pub here_wpct: Ratio,
    pub here_rs_pg: Ratio,
    pub here_ra_pg: Ratio,
}

pub struct SideView {
    pub wpct: Fraction,
    pub rs_pg: Fraction,
    pub ra_pg: Fraction,
    pub form10: Fraction,
    pub rs10: Fraction,
    pub ra10: Fraction,
    pub runs: Option<(int, int)>,
    pub rest: int,
    pub sp_ra: Fraction,
    pub sp_exp: Fraction,
    pub here_wpct: Fraction,
    pub here_rs_pg: Fraction,
    pub here_ra_pg: Fraction,
}

impl View for SideInputs {
    type V = SideView;

    open spec fn view(&self) -> SideView {
        SideView {
            wpct: self.wpct@,
            rs_pg: self.rs_pg@,
            ra_pg: self.ra_pg@,
            form10: self.form10@,
            rs10: self.rs10@,
            ra10: self.ra10@,
            runs: runs_view(self.runs),
            rest: self.rest as int,
            sp_ra: self.sp_ra@,
            sp_exp: self.sp_exp@,
            here_wpct: self.here_wpct@,
            here_rs_pg: self.here_rs_pg@,
            here_ra_pg: self.here_ra_pg@,
        }
    }
}

/// The inputs of one side before a game on a day.
pub open spec fn side_view(t: TeamView, here: RecordView, p: PitcherView, day: i32) -> SideView {
    SideView {
        wpct: t.total.wpct(),
        rs_pg: t.total.rs_pg(),
        ra_pg: t.total.ra_pg(),
        form10: share(t.results),
        rs10: mean(t.scored, league_runs()),
        ra10: mean(t.allowed, league_runs()),
        runs: t.total.runs(),
        rest: t.rest_days(day),
        sp_ra: mean(p.recent, league_runs()),
        sp_exp: p.experience(),
        here_wpct: here.wpct(),
        here_rs_pg: here.rs_pg(),
        here_ra_pg: here.ra_pg(),
    }
}

fn side_inputs(t: &TeamState, here: &Record, p: &PitcherState, day: i32) -> (r: SideInputs)
    requires
        t@.wf(),
        here@.wf(),
    ensures
        r@ == side_view(t@, here@, p@, day),
{
    SideInputs {
        wpct: t.total.wpct(),
        rs_pg: t.total.rs_pg(),
        ra_pg: t.total.ra_pg(),
        form10: share_won(&t.last_results),
        rs10: mean_runs(&t.last_rs),
        ra10: mean_runs(&t.last_ra),
        runs: t.total.runs(),
        rest: t.rest_days(day),
        sp_ra: mean_runs(&p.recent_ra),
        sp_exp: p.experience(),
        here_wpct: here.wpct(),
        here_rs_pg: here.rs_pg(),
        here_ra_pg: here.ra_pg(),
    }
}

/// What a feature row is computed from, the ratings of the teams aside.
#[derive(Debug, Clone, Copy, PartialEq, Eq)]
pub struct RowInputs {
    pub home: SideInputs,
    pub away: SideInputs,
}

pub struct RowView {
    pub home: SideView,
    pub away: SideView,
}

impl View for RowInputs {
    type V = RowView;

    open spec fn view(&self) -> RowView {
        RowView { home: self.home@, away: self.away@ }
    }
}

/// The inputs of a row: the home team by how it does at home, the visitors by how
/// they do on the road.
pub open spec fn row_view(
    h: TeamView,
    a: TeamView,
    hp: PitcherView,
    ap: PitcherView,
    day: i32,
) -> RowView {
    RowView { home: side_view(h, h.at_home, hp, day), away: side_view(a, a.on_road, ap, day) }
}

fn row_inputs(
    h: &TeamState,
    a: &TeamState,
    hp: &PitcherState,
    ap: &PitcherState,
    day: i32,
) -> (r: RowInputs)
    requires
        h@.wf(),
        a@.wf(),
    ensures
        r@ == row_view(h@, a@, hp@, ap@, day),
{
    RowInputs {
        home: side_inputs(h, &h.at_home, hp, day),
        away: side_inputs(a, &a.on_road, ap, day),
    }
}

/// What a game does to the ratings of its teams: first those that enter a new
/// season regress to the mean, then the winner takes points from the loser.
#[derive(Debug, Clone, Copy, PartialEq, Eq, Structural)]
pub struct EloStep {
    pub home_id: i64,
    pub away_id: i64,
    pub home_carries: bool,
    pub away_carries: bool,
    pub home_won: bool,
    pub margin: i64,
}

/// The row of a game: what is known before it, and its result.
#[derive(Debug, Clone)]
pub struct GameRow {
    pub game_pk: i64,
    pub date: String,
    pub season: i32,
    pub home_name: String,
    pub away_name: String,
    pub home_score: i32,
    pub away_score: i32,
    /// 1 if the home team won.
    pub label: usize,
    /// Games that each team had played before this one.
    pub home_gp: usize,
    pub away_gp: usize,
    pub inputs: RowInputs,
    pub elo: EloStep,
}

#[verifier::ext_equal]
pub struct GameRowView {
    pub game_pk: i64,
    pub date: Seq<char>,
    pub season: i32,
    pub home_name: Seq<char>,
    pub away_name: Seq<char>,
    pub home_score: i32,
    pub away_score: i32,
    pub label: usize,
    pub home_gp: int,
    pub away_gp: int,
    pub inputs: RowView,
    pub elo: EloStep,
}

impl View for GameRow {
    type V = GameRowView;

    open spec fn view(&self) -> GameRowView {
        GameRowView {
            game_pk: self.game_pk,
            date: self.date@,
            season: self.season,
            home_name: self.home_name@,
            away_name: self.away_name@,
            home_score: self.home_score,
            away_score: self.away_score,
            label: self.label,
            home_gp: self.home_gp as int,
            away_gp: self.away_gp as int,
            inputs: self.inputs@,
            elo: self.elo,
        }
    }
}

pub open spec fn game_row_views(rows: Seq<GameRow>) -> Seq<GameRowView> {
    Seq::new(rows.len(), |i: int| rows[i]@)
}

// ------------------------------------------------------------------ builder

/// The state of all teams and pitchers.
#[verifier::ext_equal]
pub struct BuilderView {
    pub teams: Map<i64, TeamView>,
    pub pitchers: Map<i64, PitcherView>,
}

impl BuilderView {
    pub open spec fn fresh() -> BuilderView {
        BuilderView { teams: Map::empty(), pitchers: Map::empty() }
    }

    pub open spec fn wf(self) -> bool {
        &&& forall|id: i64| #[trigger] self.teams.contains_key(id) ==> self.teams[id].wf()
        &&& forall|id: i64| #[trigger] self.pitchers.contains_key(id) ==> self.pitchers[id].wf()
    }

    /// The counters can take `n` more games each.
    pub open spec fn has_room(self, n: int) -> bool {
        &&& n <= usize::MAX
        &&& forall|id: i64| #[trigger]
            self.teams.contains_key(id) ==> self.teams[id].total.gp + n <= usize::MAX
        &&& forall|id: i64| #[trigger]
            self.pitchers.contains_key(id) ==> self.pitchers[id].starts + n <= usize::MAX
    }

    /// A team, one of which nothing is known if it is new.
    pub open spec fn team(self, id: i64) -> TeamView {
        if self.teams.contains_key(id) {
            self.teams[id]
        } else {
            TeamView::fresh()
        }
    }

    pub open spec fn pitcher(self, id: i64) -> PitcherView {
        if self.pitchers.contains_key(id) {
            self.pitchers[id]
        } else {
            PitcherView::fresh()
        }
    }

    pub open spec fn with_team(self, id: i64, t: TeamView) -> BuilderView {
        BuilderView { teams: self.teams.insert(id, t), ..self }
    }

    pub open spec fn with_pitcher(self, id: i64, p: PitcherView) -> BuilderView {
        BuilderView { pitchers: self.pitchers.insert(id, p), ..self }
    }

    /// A team enters a season under a name.
    pub open spec fn entered(self, id: i64, name: Seq<char>, season: i32) -> BuilderView {
        self.with_team(id, self.team(id).named(name).rolled(season))
    }

    /// Both teams and both pitchers of a game are known, and the teams are in its
    /// season. This is the state that the row of the game is read from.
    pub open spec fn before_game(self, g: GameView) -> BuilderView {
        let teams = self.entered(g.home_id, g.home_name, g.season).entered(
            g.away_id,
            g.away_name,
            g.season,
        );
        let home = teams.with_pitcher(g.home_sp_id, teams.pitcher(g.home_sp_id));
        home.with_pitcher(g.away_sp_id, home.pitcher(g.away_sp_id))
    }

    /// The result of a game enters the state.
    pub open spec fn with_result(self, g: GameView, day: i32) -> BuilderView {
        let home = self.with_team(
            g.home_id,
            self.team(g.home_id).after_game(day, true, g.home_won(), g.home_score, g.away_score),
        );
        let both = home.with_team(
            g.away_id,
            home.team(g.away_id).after_game(day, false, !g.home_won(), g.away_score, g.home_score),
        );
        let starter = both.with_pitcher(
            g.home_sp_id,
            both.pitcher(g.home_sp_id).after_start(g.away_score),
        );
        starter.with_pitcher(g.away_sp_id, starter.pitcher(g.away_sp_id).after_start(g.home_score))
    }

    /// The state after a game.
    pub open spec fn after_game(self, g: GameView, day: i32) -> BuilderView {
        self.before_game(g).with_result(g, day)
    }

    /// What is known before a game on a day.
    pub open spec fn inputs_of(self, g: GameView, day: i32) -> RowView {
        let b = self.before_game(g);
        row_view(
            b.team(g.home_id),
            b.team(g.away_id),
            b.pitcher(g.home_sp_id),
            b.pitcher(g.away_sp_id),
            day,
        )
    }

    /// The row of a game.
    pub open spec fn row_of(self, g: GameView, day: i32) -> GameRowView {
        let b = self.before_game(g);
        let margin = g.home_score - g.away_score;
        GameRowView {
            game_pk: g.game_pk,
            date: g.date,
            season: g.season,
            home_name: g.home_name,
            away_name: g.away_name,
            home_score: g.home_score,
            away_score: g.away_score,
            label: if g.home_won() {
                1
            } else {
                0
            },
            home_gp: b.team(g.home_id).total.gp,
            away_gp: b.team(g.away_id).total.gp,
            inputs: self.inputs_of(g, day),
            elo: EloStep {
                home_id: g.home_id,
                away_id: g.away_id,
                home_carries: self.team(g.home_id).carries_into(g.season),
                away_carries: self.entered(g.home_id, g.home_name, g.season).team(
                    g.away_id,
                ).carries_into(g.season),
                home_won: g.home_won(),
                margin: if margin < 0 {
                    -margin
                } else {
                    margin
                } as i64,
            },
        }
    }

    /// The state after several games. A game whose date does not read as one is
    /// left out.
    pub open spec fn after_games(self, games: Seq<GameView>) -> BuilderView
        decreases games.len(),
    {
        if games.len() == 0 {
            self
        } else {
            let before = self.after_games(games.drop_last());
            match day_reading(games.last().date) {
                Ok(day) => before.after_game(games.last(), day),
                Err(_) => before,
            }
        }
    }

    /// The rows of several games, each from the state that the games before it
    /// left behind.
    pub open spec fn rows_of(self, games: Seq<GameView>) -> Seq<GameRowView>
        decreases games.len(),
    {
        if games.len() == 0 {
            Seq::empty()
        } else {
            let rows = self.rows_of(games.drop_last());
            match day_reading(games.last().date) {
                Ok(day) => rows.push(
                    self.after_games(games.drop_last()).row_of(games.last(), day),
                ),
                Err(_) => rows,
            }
        }
    }
}

/// Builds feature rows game by game.
pub struct FeatureBuilder {
    teams: HashMap<i64, TeamState>,
    pitchers: HashMap<i64, PitcherState>,
}

impl View for FeatureBuilder {
    type V = BuilderView;

    closed spec fn view(&self) -> BuilderView {
        BuilderView {
            teams: self.teams@.map_values(|t: TeamState| t@),
            pitchers: self.pitchers@.map_values(|p: PitcherState| p@),
        }
    }
}

impl FeatureBuilder {
    pub fn new() -> (b: FeatureBuilder)
        ensures
            b@ == BuilderView::fresh(),
            b@.wf(),
    {
        let b = FeatureBuilder { teams: HashMap::new(), pitchers: HashMap::new() };
        assert(b@.teams =~= Map::<i64, TeamView>::empty());
        assert(b@.pitchers =~= Map::<i64, PitcherView>::empty());
        b
    }

    fn take_team(&mut self, id: i64) -> (t: TeamState)
        ensures
            t@ == old(self)@.team(id),
            final(self)@.teams == old(self)@.teams.remove(id),
            final(self)@.pitchers == old(self)@.pitchers,
    {
        let found = self.teams.remove(&id);
        assert(self@.teams =~= old(self)@.teams.remove(id));
        match found {
            Some(t) => t,
            None => TeamState::new(),
        }
    }

    fn put_team(&mut self, id: i64, t: TeamState)
        ensures
            final(self)@ == old(self)@.with_team(id, t@),
    {
        self.teams.insert(id, t);
        assert(self@.teams =~= old(self)@.teams.insert(id, t@));
    }

    fn take_pitcher(&mut self, id: i64) -> (p: PitcherState)
        ensures
            p@ == old(self)@.pitcher(id),
            final(self)@.pitchers == old(self)@.pitchers.remove(id),
            final(self)@.teams == old(self)@.teams,
    {
        let found = self.pitchers.remove(&id);
        assert(self@.pitchers =~= old(self)@.pitchers.remove(id));
        match found {
            Some(p) => p,
            None => PitcherState::new(),
        }
    }

    fn put_pitcher(&mut self, id: i64, p: PitcherState)
        ensures
            final(self)@ == old(self)@.with_pitcher(id, p@),
    {
        self.pitchers.insert(id, p);
        assert(self@.pitchers =~= old(self)@.pitchers.insert(id, p@));
    }

    fn find_team(&self, id: i64) -> (r: Option<&TeamState>)
        ensures
            match r {
                Some(t) => self@.teams.contains_key(id) && self@.teams[id] == t@,
                None => !self@.teams.contains_key(id),
            },
    {
        self.teams.get(&id)
    }

    fn find_pitcher(&self, id: i64) -> (r: Option<&PitcherState>)
        ensures
            match r {
                Some(p) => self@.pitchers.contains_key(id) && self@.pitchers[id] == p@,
                None => !self@.pitchers.contains_key(id),
            },
    {
        self.pitchers.get(&id)
    }

    fn enter_team(&mut self, id: i64, name: &String, season: i32) -> (carries: bool)
        requires
            old(self)@.wf(),
        ensures
            final(self)@ == old(self)@.entered(id, name@, season),
            final(self)@.wf(),
            carries == old(self)@.team(id).carries_into(season),
    {
        let mut t = self.take_team(id);
        t.name = name.clone();
        let carries = t.roll_season(season);
        self.put_team(id, t);
        assert(self@ =~= old(self)@.entered(id, name@, season));
        carries
    }

    fn enter_pitcher(&mut self, id: i64)
        requires
            old(self)@.wf(),
        ensures
            final(self)@ == old(self)@.with_pitcher(id, old(self)@.pitcher(id)),
            final(self)@.wf(),
    {
        let p = self.take_pitcher(id);
        self.put_pitcher(id, p);
        assert(self@ =~= old(self)@.with_pitcher(id, old(self)@.pitcher(id)));
    }
}

/// A game uses up at most two places in each counter.
proof fn lemma_room_after_game(b: BuilderView, g: GameView, day: i32, n: int)
    requires
        b.has_room(n + 2),
        0 <= n,
    ensures
        b.before_game(g).has_room(n + 2),
        b.after_game(g, day).has_room(n),
{
}

impl FeatureBuilder {
    /// Reads the row of a game that is played on a day, then takes its result in.
    pub fn play(&mut self, g: &RawGame, day: i32) -> (row: GameRow)
        requires
            old(self)@.wf(),
            old(self)@.has_room(2),
        ensures
            row@ == old(self)@.row_of(g@, day),
            final(self)@ == old(self)@.after_game(g@, day),
            final(self)@.wf(),
    {
        let home_carries = self.enter_team(g.home_id, &g.home_name, g.season);
        let away_carries = self.enter_team(g.away_id, &g.away_name, g.season);
        self.enter_pitcher(g.home_sp_id);
        self.enter_pitcher(g.away_sp_id);
        let ghost before = self@;
        assert(before == old(self)@.before_game(g@));
        proof {
            lemma_room_after_game(old(self)@, g@, day, 0);
        }
        let home_won = g.home_wins();
        let margin: i64 = if g.home_score < g.away_score {
            g.away_score as i64 - g.home_score as i64
        } else {
            g.home_score as i64 - g.away_score as i64
        };

        // What is known before the game.
        let (home_gp, away_gp, inputs) = match (
            self.find_team(g.home_id),
            self.find_team(g.away_id),
            self.find_pitcher(g.home_sp_id),
            self.find_pitcher(g.away_sp_id),
        ) {
            (Some(h), Some(a), Some(hp), Some(ap)) => (
                h.total.gp,
                a.total.gp,
                row_inputs(h, a, hp, ap, day),
            ),
            _ => vstd::pervasive::unreached(),
        };
        let row = GameRow {
            game_pk: g.game_pk,
            date: g.date.clone(),
            season: g.season,
            home_name: g.home_name.clone(),
            away_name: g.away_name.clone(),
            home_score: g.home_score,
            away_score: g.away_score,
            label: if home_won {
                1
            } else {
                0
            },
            home_gp,
            away_gp,
            inputs,
            elo: EloStep {
                home_id: g.home_id,
                away_id: g.away_id,
                home_carries,
                away_carries,
                home_won,
                margin,
            },
        };
        assert(row@ =~= old(self)@.row_of(g@, day));

        // Only now the result.
        self.take_result(g, day, home_won);
        row
    }

    fn take_result(&mut self, g: &RawGame, day: i32, home_won: bool)
        requires
            old(self)@.wf(),
            old(self)@.has_room(2),
            home_won == g@.home_won(),
        ensures
            final(self)@ == old(self)@.with_result(g@, day),
            final(self)@.wf(),
    {
        let ghost s0 = self@;
        let mut h = self.take_team(g.home_id);
        h.update(day, true, home_won, g.home_score, g.away_score);
        self.put_team(g.home_id, h);
        let ghost s1 = self@;
        assert(s1 =~= s0.with_team(
            g.home_id,
            s0.team(g.home_id).after_game(
                day,
                true,
                home_won,
                g.home_score,
                g.away_score,
            ),
        ));
        let mut a = self.take_team(g.away_id);
        a.update(day, false, !home_won, g.away_score, g.home_score);
        self.put_team(g.away_id, a);
        let ghost s2 = self@;
        assert(s2 =~= s1.with_team(
            g.away_id,
            s1.team(g.away_id).after_game(
                day,
                false,
                !home_won,
                g.away_score,
                g.home_score,
            ),
        ));
        let mut hp = self.take_pitcher(g.home_sp_id);
        hp.add_start(g.away_score);
        self.put_pitcher(g.home_sp_id, hp);
        let ghost s3 = self@;
        assert(s3 =~= s2.with_pitcher(
            g.home_sp_id,
            s2.pitcher(g.home_sp_id).after_start(g.away_score),
        ));
        let mut ap = self.take_pitcher(g.away_sp_id);
        ap.add_start(g.home_score);
        self.put_pitcher(g.away_sp_id, ap);
        assert(self@ =~= s3.with_pitcher(
            g.away_sp_id,
            s3.pitcher(g.away_sp_id).after_start(g.home_score),
        ));
    }

    /// Goes through the games in order and gives a row for each of them, from
    /// what was known before it. A game whose date does not read as one is left
    /// out.
    pub fn build(&mut self, games: &[RawGame]) -> (out: Vec<GameRow>)
        requires
            old(self)@.wf(),
            old(self)@.has_room(2 * games@.len() as int),
        ensures
            game_row_views(out@) == old(self)@.rows_of(game_views(games@)),
            final(self)@ == old(self)@.after_games(game_views(games@)),
            final(self)@.wf(),
    {
        let mut out: Vec<GameRow> = Vec::new();
        let ghost start = self@;
        let ghost views = game_views(games@);
        let mut i: usize = 0;
        assert(views.take(0) =~= Seq::<GameView>::empty());
        assert(game_row_views(out@) =~= Seq::<GameRowView>::empty());
        while i < games.len()
            invariant
                i <= games@.len(),
                views == game_views(games@),
                self@.wf(),
                self@.has_room(2 * (games@.len() - i)),
                self@ == start.after_games(views.take(i as int)),
                game_row_views(out@) == start.rows_of(views.take(i as int)),
            decreases games@.len() - i,
        {
            let g = &games[i];
            assert(views.take(i + 1).drop_last() =~= views.take(i as int));
            assert(views.take(i + 1).last() == g@);
            let ghost rows = out@;
            if let Ok(day) = day_of_text(g.date.as_str()) {
                proof {
                    lemma_room_after_game(self@, g@, day, 2 * (games@.len() - i - 1));
                }
                let row = self.play(g, day);
                out.push(row);
                assert(game_row_views(out@) =~= game_row_views(rows).push(row@));
            }
            i += 1;
        }
        assert(views.take(i as int) =~= views);
        out
    }
}

// ----------------------------------------------------------------- upcoming

impl BuilderView {
    /// The starter that a game announces. An unknown one, and one without any
    /// start, is taken for an average pitcher, not for the unknown ones before.
    pub open spec fn starter(self, id: i64) -> PitcherView {
        if id == 0 {
            PitcherView::fresh()
        } else {
            self.pitcher(id)
        }
    }

    /// What is known of a game that is still to be played, where both teams are.
    pub open spec fn upcoming(
        self,
        home_id: i64,
        away_id: i64,
        day: i32,
        home_sp: i64,
        away_sp: i64,
    ) -> Option<RowView> {
        if self.teams.contains_key(home_id) && self.teams.contains_key(away_id) {
            Some(
                row_view(
                    self.teams[home_id],
                    self.teams[away_id],
                    self.starter(home_sp),
                    self.starter(away_sp),
                    day,
                ),
            )
        } else {
            None
        }
    }
}

pub open spec fn inputs_view(r: Option<RowInputs>) -> Option<RowView> {
    match r {
        Some(inputs) => Some(inputs@),
        None => None,
    }
}

impl FeatureBuilder {
    /// The inputs of a game that is still to be played on a day, from the state
    /// after all the games so far.
    pub fn inputs_on(
        &self,
        home_id: i64,
        away_id: i64,
        day: i32,
        home_sp: i64,
        away_sp: i64,
    ) -> (r: Option<RowInputs>)
        requires
            self@.wf(),
        ensures
            inputs_view(r) == self@.upcoming(home_id, away_id, day, home_sp, away_sp),
    {
        let (h, a) = match (self.find_team(home_id), self.find_team(away_id)) {
            (Some(h), Some(a)) => (h, a),
            _ => {
                return None;
            },
        };
        let prior = PitcherState::new();
        let hp = match self.find_pitcher(home_sp) {
            Some(p) => if home_sp == 0 {
                &prior
            } else {
                p
            },
            None => &prior,
        };
        let ap = match self.find_pitcher(away_sp) {
            Some(p) => if away_sp == 0 {
                &prior
            } else {
                p
            },
            None => &prior,
        };
        Some(row_inputs(h, a, hp, ap, day))
    }

    /// The inputs of a game that is still to be played. `None` where the date does
    /// not read as one, or where a team is unknown.
    pub fn features_for(
        &self,
        home_id: i64,
        away_id: i64,
        date: &str,
        home_sp: i64,
        away_sp: i64,
    ) -> (r: Option<RowInputs>)
        requires
            self@.wf(),
        ensures
            match day_reading(date@) {
                Ok(day) => inputs_view(r) == self@.upcoming(
                    home_id,
                    away_id,
                    day,
                    home_sp,
                    away_sp,
                ),
                Err(_) => r is None,
            },
            date@.len() == 0 ==> r is None,
    {
        match day_of_text(date) {
            Ok(day) => self.inputs_on(home_id, away_id, day, home_sp, away_sp),
            Err(_) => None,
        }
    }
}

/// The state of a team, to be shown: its rating and figures, and its record,
/// also at home and on the road.
#[derive(Debug, Clone)]
pub struct TeamSnapshot<E, R> {
    pub id: i64,
    pub name: String,
    pub elo: E,
    pub wins: usize,
    pub losses: usize,
    pub home_wins: usize,
    pub home_losses: usize,
    pub away_wins: usize,
    pub away_losses: usize,
    pub rs_pg: R,
    pub ra_pg: R,
    pub form10: R,
}

#[verifier::ext_equal]
pub struct SnapshotView<E, R> {
    pub id: i64,
    pub name: Seq<char>,
    pub elo: E,
    pub wins: int,
    pub losses: int,
    pub home_wins: int,
    pub home_losses: int,
    pub away_wins: int,
    pub away_losses: int,
    pub rs_pg: R,
    pub ra_pg: R,
    pub form10: R,
}

impl<E, R> View for TeamSnapshot<E, R> {
    type V = SnapshotView<E, R>;

    open spec fn view(&self) -> SnapshotView<E, R> {
        SnapshotView {
            id: self.id,
            name: self.name@,
            elo: self.elo,
            wins: self.wins as int,
            losses: self.losses as int,
            home_wins: self.home_wins as int,
            home_losses: self.home_losses as int,
            away_wins: self.away_wins as int,
            away_losses: self.away_losses as int,
            rs_pg: self.rs_pg,
            ra_pg: self.ra_pg,
            form10: self.form10,
        }
    }
}

/// `snap` shows a team: its record, its runs per game and its form.
pub open spec fn shows_team<E>(
    snap: TeamSnapshot<E, Ratio>,
    id: i64,
    t: TeamView,
    elo: E,
) -> bool {
    &&& snap.id == id
    &&& snap.name@ == t.name
    &&& snap.elo == elo
    &&& snap.wins == t.total.wins
    &&& snap.losses == t.total.gp - t.total.wins
    &&& snap.home_wins == t.at_home.wins
    &&& snap.home_losses == t.at_home.gp - t.at_home.wins
    &&& snap.away_wins == t.on_road.wins
    &&& snap.away_losses == t.on_road.gp - t.on_road.wins
    &&& snap.rs_pg@ == t.total.rs_pg()
    &&& snap.ra_pg@ == t.total.ra_pg()
    &&& snap.form10@ == share(t.results)
}

/// The rating of a team, or the first rating of a team that has none.
pub open spec fn rating<E>(elos: Map<i64, E>, id: i64, first: E) -> E {
    if elos.contains_key(id) {
        elos[id]
    } else {
        first
    }
}

impl FeatureBuilder {
    /// The state of each team. The ratings come from `elos`; a team that has none
    /// there is shown with the rating `first`.
    pub fn snapshot<E: Copy>(&self, elos: &HashMap<i64, E>, first: E) -> (out: HashMap<
        i64,
        TeamSnapshot<E, Ratio>,
    >)
        requires
            self@.wf(),
        ensures
            out@.dom() == self@.teams.dom(),
            forall|id: i64| #[trigger]
                out@.contains_key(id) ==> shows_team(
                    out@[id],
                    id,
                    self@.teams[id],
                    rating(elos@, id, first),
                ),
    {
        let mut out: HashMap<i64, TeamSnapshot<E, Ratio>> = HashMap::new();
        for entry in it: self.teams.iter()
            invariant
                self@.wf(),
                forall|id: i64| #[trigger]
                    out@.contains_key(id) ==> self@.teams.contains_key(id) && shows_team(
                        out@[id],
                        id,
                        self@.teams[id],
                        rating(elos@, id, first),
                    ),
                forall|k: int|
                    0 <= k < it.index() ==> out@.contains_key(*(#[trigger] it.seq()[k]).0),
                it.seq() == vstd::std_specs::iter::IteratorSpec::remaining(
                    &vstd::std_specs::hash::spec_hash_map_iter(&self.teams),
                ),
        {
            let (key, t) = entry;
            let id = *key;
            assert(self.teams@.contains_key(id) && self.teams@[id] == *t);
            assert(self@.teams.contains_key(id) && self@.teams[id] == t@);
            let elo = match elos.get(&id) {
                Some(e) => *e,
                None => first,
            };
            let snap = TeamSnapshot {
                id,
                name: t.name.clone(),
                elo,
                wins: t.total.wins,
                losses: t.total.gp - t.total.wins,
                home_wins: t.at_home.wins,
                home_losses: t.at_home.gp - t.at_home.wins,
                away_wins: t.on_road.wins,
                away_losses: t.on_road.gp - t.on_road.wins,
                rs_pg: t.total.rs_pg(),
                ra_pg: t.total.ra_pg(),
                form10: share_won(&t.last_results),
            };
            out.insert(id, snap);
        }
        proof {
            let all = vstd::std_specs::iter::IteratorSpec::remaining(
                &vstd::std_specs::hash::spec_hash_map_iter(&self.teams),
            );
            assert forall|id: i64| self@.teams.contains_key(id) implies out@.contains_key(id) by {
                assert(self.teams@.contains_key(id));
                assert(all.contains((&id, &self.teams@[id])));
                let k = choose|k: int| 0 <= k < all.len() && all[k] == (&id, &self.teams@[id]);
                assert(*all[k].0 == id);
            }
            assert(out@.dom() =~= self@.teams.dom());
        }
        out
    }
}

// ------------------------------------------------------------------- samples

/// A row ready to learn from: the features, known before the game, and the real
/// result.
#[derive(Debug, Clone)]
pub struct Sample<R> {
    pub game_pk: i64,
    pub date: String,
    pub season: i32,
    pub home_name: String,
    pub away_name: String,
    pub home_score: i32,
    pub away_score: i32,
    /// 1 if the home team won.
    pub label: usize,
    pub features: Vec<R>,
    /// Games that each team had played before this one.
    pub home_gp: usize,
    pub away_gp: usize,
    /// The chances of the home team by the ratings alone.
    pub elo_prob: R,
}

#[verifier::ext_equal]
pub struct SampleView<R> {
    pub game_pk: i64,
    pub date: Seq<char>,
    pub season: i32,
    pub home_name: Seq<char>,
    pub away_name: Seq<char>,
    pub home_score: i32,
    pub away_score: i32,
    pub label: usize,
    pub features: Seq<R>,
    pub home_gp: usize,
    pub away_gp: usize,
    pub elo_prob: R,
}

impl<R> View for Sample<R> {
    type V = SampleView<R>;

    open spec fn view(&self) -> SampleView<R> {
        SampleView {
            game_pk: self.game_pk,
            date: self.date@,
            season: self.season,
            home_name: self.home_name@,
            away_name: self.away_name@,
            home_score: self.home_score,
            away_score: self.away_score,
            label: self.label,
            features: self.features@,
            home_gp: self.home_gp,
            away_gp: self.away_gp,
            elo_prob: self.elo_prob,
        }
    }
}

/// The columns of one side.
#[derive(Debug, Clone, Copy)]
pub struct SideValues<R> {
    pub wpct: R,
    pub rs_pg: R,
    pub ra_pg: R,
    pub rundiff_pg: R,
    pub form10: R,
    pub rs10: R,
    pub ra10: R,
    pub pyth: R,
    pub rest: R,
    pub sp_ra: R,
    pub sp_exp: R,
    pub here_wpct: R,
    pub here_rundiff: R,
}

/// The columns of a row, in their order.
pub open spec fn feature_columns<R>(
    elo_diff: R,
    elo_prob: R,
    wpct_diff: R,
    h: SideValues<R>,
    a: SideValues<R>,
) -> Seq<R> {
    seq![
        elo_diff,
        elo_prob,
        h.wpct,
        a.wpct,
        wpct_diff,
        h.rs_pg,
        h.ra_pg,
        a.rs_pg,
        a.ra_pg,
        h.rundiff_pg,
        a.rundiff_pg,
        h.form10,
        a.form10,
        h.rs10,
        h.ra10,
        a.rs10,
        a.ra10,
        h.pyth,
        a.pyth,
        h.rest,
        a.rest,
        h.sp_ra,
        a.sp_ra,
        h.sp_exp,
        a.sp_exp,
        h.here_wpct,
        a.here_wpct,
        h.here_rundiff,
        a.here_rundiff,
    ]
}

/// Each column holds what its name says: the figures of the home team those whose names
/// begin with it, the figures of the visitors the others.
pub proof fn lemma_columns_hold_what_they_are_named<R>(
    elo_diff: R,
    elo_prob: R,
    wpct_diff: R,
    h: SideValues<R>,
    a: SideValues<R>,
)
    ensures
        ({
            let row = feature_columns(elo_diff, elo_prob, wpct_diff, h, a);
            &&& row.len() == 29
            &&& FEATURE_NAMES@[0]@ == "elo_diff"@ && row[0] == elo_diff
            &&& FEATURE_NAMES@[1]@ == "elo_prob"@ && row[1] == elo_prob
            &&& FEATURE_NAMES@[2]@ == "home_wpct"@ && row[2] == h.wpct
            &&& FEATURE_NAMES@[3]@ == "away_wpct"@ && row[3] == a.wpct
            &&& FEATURE_NAMES@[4]@ == "wpct_diff"@ && row[4] == wpct_diff
            &&& FEATURE_NAMES@[5]@ == "home_rs_pg"@ && row[5] == h.rs_pg
            &&& FEATURE_NAMES@[6]@ == "home_ra_pg"@ && row[6] == h.ra_pg
            &&& FEATURE_NAMES@[7]@ == "away_rs_pg"@ && row[7] == a.rs_pg
            &&& FEATURE_NAMES@[8]@ == "away_ra_pg"@ && row[8] == a.ra_pg
            &&& FEATURE_NAMES@[9]@ == "home_rundiff_pg"@ && row[9] == h.rundiff_pg
            &&& FEATURE_NAMES@[10]@ == "away_rundiff_pg"@ && row[10] == a.rundiff_pg
            &&& FEATURE_NAMES@[11]@ == "home_form10"@ && row[11] == h.form10
            &&& FEATURE_NAMES@[12]@ == "away_form10"@ && row[12] == a.form10
            &&& FEATURE_NAMES@[13]@ == "home_rs10"@ && row[13] == h.rs10
            &&& FEATURE_NAMES@[14]@ == "home_ra10"@ && row[14] == h.ra10
            &&& FEATURE_NAMES@[15]@ == "away_rs10"@ && row[15] == a.rs10
            &&& FEATURE_NAMES@[16]@ == "away_ra10"@ && row[16] == a.ra10
            &&& FEATURE_NAMES@[17]@ == "home_pyth"@ && row[17] == h.pyth
            &&& FEATURE_NAMES@[18]@ == "away_pyth"@ && row[18] == a.pyth
            &&& FEATURE_NAMES@[19]@ == "home_rest"@ && row[19] == h.rest
            &&& FEATURE_NAMES@[20]@ == "away_rest"@ && row[20] == a.rest
            &&& FEATURE_NAMES@[21]@ == "home_sp_ra"@ && row[21] == h.sp_ra
            &&& FEATURE_NAMES@[22]@ == "away_sp_ra"@ && row[22] == a.sp_ra
            &&& FEATURE_NAMES@[23]@ == "home_sp_exp"@ && row[23] == h.sp_exp
            &&& FEATURE_NAMES@[24]@ == "away_sp_exp"@ && row[24] == a.sp_exp
            &&& FEATURE_NAMES@[25]@ == "home_wpct_at_home"@ && row[25] == h.here_wpct
            &&& FEATURE_NAMES@[26]@ == "away_wpct_on_road"@ && row[26] == a.here_wpct
            &&& FEATURE_NAMES@[27]@ == "home_rundiff_at_home"@ && row[27] == h.here_rundiff
            &&& FEATURE_NAMES@[28]@ == "away_rundiff_on_road"@ && row[28] == a.here_rundiff
        }),
{
}

/// The feature row in the order of its columns.
pub fn feature_vector<R: Copy>(
    elo_diff: R,
    elo_prob: R,
    wpct_diff: R,
    h: &SideValues<R>,
    a: &SideValues<R>,
) -> (row: Vec<R>)
    ensures
        row@ == seq![
            elo_diff,
            elo_prob,
            h.wpct,
            a.wpct,
            wpct_diff,
            h.rs_pg,
            h.ra_pg,
            a.rs_pg,
            a.ra_pg,
            h.rundiff_pg,
            a.rundiff_pg,
            h.form10,
            a.form10,
            h.rs10,
            h.ra10,
            a.rs10,
            a.ra10,
            h.pyth,
            a.pyth,
            h.rest,
            a.rest,
            h.sp_ra,
            a.sp_ra,
            h.sp_exp,
            a.sp_exp,
            h.here_wpct,
            a.here_wpct,
            h.here_rundiff,
            a.here_rundiff,
        ],
        row@ == feature_columns(elo_diff, elo_prob, wpct_diff, *h, *a),
        row@.len() == NUM_FEATURES,
{
    vec![
        elo_diff,
        elo_prob,
        h.wpct,
        a.wpct,
        wpct_diff,
        h.rs_pg,
        h.ra_pg,
        a.rs_pg,
        a.ra_pg,
        h.rundiff_pg,
        a.rundiff_pg,
        h.form10,
        a.form10,
        h.rs10,
        h.ra10,
        a.rs10,
        a.ra10,
        h.pyth,
        a.pyth,
        h.rest,
        a.rest,
        h.sp_ra,
        a.sp_ra,
        h.sp_exp,
        a.sp_exp,
        h.here_wpct,
        a.here_wpct,
        h.here_rundiff,
        a.here_rundiff,
    ]
}

impl GameRow {
    /// The sample of a game, with the features that were computed from its row.
    pub fn into_sample<R>(self, features: Vec<R>, elo_prob: R) -> (s: Sample<R>)
        ensures
            s@ == (SampleView {
                game_pk: self.game_pk,
                date: self.date@,
                season: self.season,
                home_name: self.home_name@,
                away_name: self.away_name@,
                home_score: self.home_score,
                away_score: self.away_score,
                label: self.label,
                features: features@,
                home_gp: self.home_gp,
                away_gp: self.away_gp,
                elo_prob,
            }),
            s.home_score == self.home_score && s.away_score == self.away_score,
            s.home_name@ == self.home_name@ && s.away_name@ == self.away_name@,
            s.home_gp == self.home_gp && s.away_gp == self.away_gp,
            s.label == self.label && s.season == self.season && s.game_pk == self.game_pk,
            s.date@ == self.date@ && s.features@ == features@ && s.elo_prob == elo_prob,
    {
        Sample {
            game_pk: self.game_pk,
            date: self.date,
            season: self.season,
            home_name: self.home_name,
            away_name: self.away_name,
            home_score: self.home_score,
            away_score: self.away_score,
            label: self.label,
            features,
            home_gp: self.home_gp,
            away_gp: self.away_gp,
            elo_prob,
        }
    }
}

/// A team stands with its own rating, and with the first rating where it has none yet.
pub proof fn lemma_teams_stand_with_their_ratings<E>(elos: Map<i64, E>, id: i64, e: E, first: E)
    ensures
        rating(elos.insert(id, e), id, first) == e,
        rating(elos.remove(id), id, first) == first,
        forall|other: i64|
            other != id ==> #[trigger] rating(elos.insert(id, e), other, first) == rating(
                elos,
                other,
                first,
            ),
{
}

} // verus!
