//! The live panel: what is kept between refreshes, and what a refresh does.
//!
//! A refresh always brings the games of the next days. Games that have ended enter
//! the history, and only then, or when a newly loaded history is longer, the state
//! of the teams is built anew and the model is due for training.

use std::collections::{HashMap, HashSet};
use vstd::prelude::*;
use vstd::std_specs::hash::group_hash_axioms;
use crate::backtest::{
    is_before, is_from, is_usable, lemma_picked_rows, picked, rows_before, rows_from, usable, Tally,
};
use crate::features::{
    game_row_views, inputs_view, BuilderView, FeatureBuilder, GameRow, RowInputs, RowView, Sample,
    SampleView, TeamSnapshot,
};
use crate::mlb::{
    game_views, one_or_none, scheduled_views, GameView, RawGame, ScheduledGame, ScheduledView,
};
use crate::node::{count, entry, entry_views, list, node_views, record, text, Node, NodeView};
use crate::order::{
    arranged, is_stable_order, is_stable_sort, lemma_permutation_hits, lemma_sort_is_ordered,
    stable_sort, Ranked,
};
use crate::outside::{day_of_text, day_reading, day_writing, text_of_day};
use crate::panel::{
    day_nodes, days_of, dates_of, game_nodes, is_table_order, model_node, payload, payload_node,
    shown, snapshot_views, table_nodes, Blanks, Forecast, ModelNote, Stamp, StampView,
};
use crate::stats::League;
use crate::text::{lemma_text_total, lemma_text_transitive, text_le, text_lt};

verus! {

broadcast use group_hash_axioms;

/// How many days ahead are shown.
pub const DEFAULT_DAYS: i64 = 10;

/// After how many minutes players and totals are loaded again.
pub const LEAGUE_TTL_MIN: u64 = 30;

/// After how many minutes the whole history is loaded again.
pub const HISTORY_TTL_MIN: u64 = 60;

/// How many days the model is judged by.
pub const RECENT_DAYS: i64 = 30;

/// With so many earlier games or fewer the model is not judged.
pub const MIN_JUDGED: usize = 500;

/// Whether something that was loaded some seconds ago is due again.
pub fn is_stale(elapsed_secs: u64, ttl_min: u64) -> (r: bool)
    ensures
        r == (elapsed_secs > ttl_min * 60),
{
    (elapsed_secs as u128) > (ttl_min as u128) * 60
}

// --------------------------------------------------------------------- engine

/// What the live panel keeps between refreshes, the model aside.
pub struct LiveEngine {
    pub min_gp: usize,
    pub days: i64,
    pub seasons: Vec<i32>,
    pub history: Vec<RawGame>,
    /// The rows of the games of the history.
    pub rows: Vec<GameRow>,
    pub fb: FeatureBuilder,
    pub league: League,
}

impl LiveEngine {
    /// The state and the rows are those that the history leads to.
    pub open spec fn is_current(&self) -> bool {
        &&& self.fb@ == BuilderView::fresh().after_games(game_views(self.history@))
        &&& game_row_views(self.rows@) == BuilderView::fresh().rows_of(game_views(self.history@))
    }

    /// All but the history, the rows, the state and the league stays as it is.
    pub open spec fn has_settings_of(&self, other: &LiveEngine) -> bool {
        &&& self.min_gp == other.min_gp
        &&& self.days == other.days
        &&& self.seasons == other.seasons
    }

    /// Starts from a history that is in order.
    pub fn new(
        seasons: Vec<i32>,
        min_gp: usize,
        days: i64,
        history: Vec<RawGame>,
        league: League,
    ) -> (e: LiveEngine)
        requires
            2 * history@.len() <= usize::MAX,
        ensures
            e.history@ == history@,
            e.is_current(),
            e.fb@.wf(),
            e.league == league,
            e.seasons == seasons,
            e.min_gp == min_gp,
            e.days == days,
    {
        let mut fb = FeatureBuilder::new();
        let rows = fb.build(history.as_slice());
        LiveEngine { min_gp, days, seasons, history, rows, fb, league }
    }
}

// --------------------------------------------------------------------- absorb

/// The game of the history that a scheduled game has become: one that is over, with
/// both scores and a winner.
pub open spec fn ended_game(g: ScheduledView, year: i32) -> Option<GameView> {
    match (g.home_score, g.away_score) {
        (Some(hs), Some(aws)) => if g.is_final && hs != aws {
            Some(
                GameView {
                    game_pk: g.game_pk,
                    date: g.date,
                    season: year,
                    home_id: g.home_id,
                    home_name: g.home_name,
                    away_id: g.away_id,
                    away_name: g.away_name,
                    home_score: hs,
                    away_score: aws,
                    home_sp_id: g.home_sp_id,
                    away_sp_id: g.away_sp_id,
                },
            )
        } else {
            None
        },
        _ => None,
    }
}

/// The numbers of the games of a history.
pub open spec fn known_games(history: Seq<GameView>) -> Set<i64> {
    Set::new(|pk: i64| exists|i: int| 0 <= i < history.len() && #[trigger] history[i].game_pk == pk)
}

/// The games of a window that have ended and are not known.
pub open spec fn new_finals(
    known: Set<i64>,
    window: Seq<ScheduledView>,
    year: i32,
) -> Seq<GameView>
    decreases window.len(),
{
    if window.len() == 0 {
        Seq::empty()
    } else {
        let before = new_finals(known, window.drop_last(), year);
        if known.contains(window.last().game_pk) {
            before
        } else {
            before + one_or_none(ended_game(window.last(), year))
        }
    }
}

fn ended(g: &ScheduledGame, year: i32) -> (r: Option<RawGame>)
    ensures
        match r {
            Some(game) => ended_game(g@, year) == Some(game@),
            None => ended_game(g@, year) is None,
        },
{
    match (g.home_score, g.away_score) {
        (Some(hs), Some(aws)) => {
            if !g.is_final || hs == aws {
                return None;
            }
            Some(
                RawGame {
                    game_pk: g.game_pk,
                    date: g.date.clone(),
                    season: year,
                    home_id: g.home_id,
                    home_name: g.home_name.clone(),
                    away_id: g.away_id,
                    away_name: g.away_name.clone(),
                    home_score: hs,
                    away_score: aws,
                    home_sp_id: g.home_sp_id,
                    away_sp_id: g.away_sp_id,
                },
            )
        },
        _ => None,
    }
}

fn known_numbers(history: &Vec<RawGame>) -> (known: HashSet<i64>)
    ensures
        known@ == known_games(game_views(history@)),
{
    let mut known: HashSet<i64> = HashSet::new();
    let ghost views = game_views(history@);
    let mut i: usize = 0;
    assert(known@ =~= known_games(views.take(0)));
    while i < history.len()
        invariant
            i <= history@.len(),
            views == game_views(history@),
            known@ == known_games(views.take(i as int)),
        decreases history@.len() - i,
    {
        let ghost before = known@;
        let pk = history[i].game_pk;
        known.insert(pk);
        proof {
            let now = known_games(views.take(i + 1));
            assert(views.take(i + 1)[i as int].game_pk == pk);
            assert forall|k: i64| before.contains(k) implies now.contains(k) by {
                let j = choose|j: int|
                    0 <= j < views.take(i as int).len() && #[trigger] views.take(
                        i as int,
                    )[j].game_pk == k;
                assert(views.take(i + 1)[j].game_pk == k);
            }
            assert forall|k: i64| now.contains(k) implies before.contains(k) || k == pk by {
                let j = choose|j: int|
                    0 <= j < views.take(i + 1).len() && #[trigger] views.take(i + 1)[j].game_pk
                        == k;
                if j < i {
                    assert(views.take(i as int)[j].game_pk == k);
                }
            }
            assert(known@ =~= now);
        }
        i += 1;
    }
    assert(views.take(i as int) =~= views);
    known
}

impl LiveEngine {
    /// Takes the games of the window that have ended and are not known into the
    /// history. Says how many there were.
    pub fn absorb_finals(&mut self, window: &Vec<ScheduledGame>, year: i32) -> (added: usize)
        ensures
            game_views(final(self).history@) == game_views(old(self).history@) + new_finals(
                known_games(game_views(old(self).history@)),
                scheduled_views(window@),
                year,
            ),
            final(self).history@.take(old(self).history@.len() as int) == old(self).history@,
            added == final(self).history@.len() - old(self).history@.len(),
            added <= window@.len(),
            final(self).has_settings_of(old(self)),
            final(self).rows == old(self).rows,
            final(self).fb == old(self).fb,
            final(self).league == old(self).league,
    {
        let known = known_numbers(&self.history);
        let ghost start = self.history@;
        let ghost numbers = known_games(game_views(start));
        let ghost views = scheduled_views(window@);
        let mut added: usize = 0;
        let mut i: usize = 0;
        assert(views.take(0) =~= Seq::<ScheduledView>::empty());
        assert(game_views(start) + Seq::<GameView>::empty() =~= game_views(start));
        assert(start.take(start.len() as int) =~= start);
        while i < window.len()
            invariant
                i <= window@.len(),
                known@ == numbers,
                views == scheduled_views(window@),
                game_views(self.history@) == game_views(start) + new_finals(
                    numbers,
                    views.take(i as int),
                    year,
                ),
                self.history@.len() == start.len() + added,
                self.history@.take(start.len() as int) == start,
                added <= i,
                self.has_settings_of(old(self)),
                self.rows == old(self).rows,
                self.fb == old(self).fb,
                self.league == old(self).league,
            decreases window@.len() - i,
        {
            let g = &window[i];
            let ghost before = self.history@;
            proof {
                assert(views.take(i + 1).drop_last() =~= views.take(i as int));
                assert(views.take(i + 1).last() == g@);
            }
            if !known.contains(&g.game_pk) {
                if let Some(game) = ended(g, year) {
                    self.history.push(game);
                    added += 1;
                    assert(game_views(self.history@) =~= game_views(before).push(game@));
                    assert(self.history@.take(start.len() as int) =~= before.take(
                        start.len() as int,
                    ));
                }
            }
            assert(game_views(self.history@) =~= game_views(start) + new_finals(
                numbers,
                views.take(i + 1),
                year,
            ));
            i += 1;
        }
        assert(views.take(i as int) =~= views);
        added
    }

    /// Puts the history in order and builds the state and the rows from it.
    pub fn rebuild_state(&mut self)
        requires
            2 * old(self).history@.len() <= usize::MAX,
        ensures
            is_stable_sort(final(self).history@, old(self).history@),
            final(self).history@.len() == old(self).history@.len(),
            final(self).is_current(),
            final(self).fb@.wf(),
            final(self).has_settings_of(old(self)),
            final(self).league == old(self).league,
    {
        let mut history: Vec<RawGame> = Vec::new();
        core::mem::swap(&mut history, &mut self.history);
        self.history = stable_sort(history);
        self.fb = FeatureBuilder::new();
        self.rows = self.fb.build(self.history.as_slice());
    }

    /// Takes a newly loaded history. Where it is longer than the one before, the
    /// state and the rows are built from it.
    pub fn replace_history(&mut self, history: Vec<RawGame>) -> (grew: bool)
        requires
            2 * history@.len() <= usize::MAX,
            old(self).fb@.wf(),
        ensures
            grew == (history@.len() > old(self).history@.len()),
            grew ==> is_stable_sort(final(self).history@, history@) && final(self).is_current(),
            !grew ==> final(self).history@ == history@ && final(self).rows == old(self).rows
                && final(self).fb == old(self).fb,
            final(self).history@.len() == history@.len(),
            final(self).fb@.wf(),
            final(self).has_settings_of(old(self)),
            final(self).league == old(self).league,
    {
        let grew = history.len() > self.history.len();
        self.history = history;
        if grew {
            self.rebuild_state();
        }
        grew
    }
}

// -------------------------------------------------------------------- refresh

/// What a refresh found.
#[derive(Debug, Clone, Copy, PartialEq, Eq, Structural)]
pub struct Refresh {
    /// The newly loaded history is longer than the one before.
    pub grew: bool,
    /// How many games have ended and entered the history.
    pub added: usize,
}

impl Refresh {
    pub open spec fn is_news(self) -> bool {
        self.grew || self.added > 0
    }

    /// Whether the model is due for training: when there are new results, and only
    /// then.
    pub fn retrains(&self) -> (r: bool)
        ensures
            r == self.is_news(),
    {
        self.grew || self.added > 0
    }
}

/// Games in the order of their dates and numbers.
pub open spec fn in_order(games: Seq<RawGame>) -> bool {
    forall|i: int, j: int| 0 <= i < j < games.len() ==> games[i].ranks_le(&games[j])
}

/// `mid` is the history once a newly loaded one has taken the place of `before`.
pub open spec fn is_loaded(
    mid: Seq<RawGame>,
    before: Seq<RawGame>,
    loaded: Option<Vec<RawGame>>,
) -> bool {
    match loaded {
        Some(h) => if h@.len() > before.len() {
            is_stable_sort(mid, h@)
        } else {
            mid == h@
        },
        None => mid == before,
    }
}

/// `after` is the history once new games have entered `mid`: in order again, where
/// there were any.
pub open spec fn is_extended(after: Seq<RawGame>, mid: Seq<RawGame>, new: Seq<GameView>) -> bool {
    if new.len() == 0 {
        after == mid
    } else {
        exists|all: Seq<RawGame>| #[trigger]
            is_stable_sort(after, all) && game_views(all) == game_views(mid) + new
    }
}

/// `after` is the history after a refresh.
pub open spec fn is_refreshed(
    after: Seq<RawGame>,
    before: Seq<RawGame>,
    loaded: Option<Vec<RawGame>>,
    window: Seq<ScheduledView>,
    year: i32,
    added: int,
) -> bool {
    exists|mid: Seq<RawGame>| #[trigger]
        is_loaded(mid, before, loaded) && {
            let new = new_finals(known_games(game_views(mid)), window, year);
            is_extended(after, mid, new) && added == new.len()
        }
}

proof fn lemma_sorted_in_order(out: Seq<RawGame>, v: Seq<RawGame>)
    requires
        is_stable_sort(out, v),
    ensures
        in_order(out),
        out.len() == v.len(),
{
    assert forall|i: int, j: int| 0 <= i < j < out.len() implies out[i].ranks_le(&out[j]) by {
        lemma_sort_is_ordered(out, v, i, j);
    }
}

impl LiveEngine {
    /// A refresh: takes a newly loaded history where there is one, then the games of
    /// the window that have ended, then newly loaded players where there are any.
    pub fn refresh(
        &mut self,
        window: &Vec<ScheduledGame>,
        loaded: Option<Vec<RawGame>>,
        league: Option<League>,
        year: i32,
    ) -> (r: Refresh)
        requires
            old(self).fb@.wf(),
            2 * (old(self).history@.len() + window@.len()) <= usize::MAX,
            loaded matches Some(h) ==> 2 * (h@.len() + window@.len()) <= usize::MAX,
        ensures
            is_refreshed(
                final(self).history@,
                old(self).history@,
                loaded,
                scheduled_views(window@),
                year,
                r.added as int,
            ),
            r.grew == (loaded is Some && loaded->0@.len() > old(self).history@.len()),
            final(self).history@.len() == r.added + (match loaded {
                Some(h) => h@.len(),
                None => old(self).history@.len(),
            }),
            r.is_news() ==> final(self).is_current(),
            !r.is_news() ==> final(self).rows == old(self).rows && final(self).fb == old(self).fb,
            !r.is_news() && loaded is None ==> final(self).history@ == old(self).history@,
            in_order(old(self).history@) && (loaded matches Some(h) ==> in_order(h@)) ==> in_order(
                final(self).history@,
            ),
            final(self).league == (match league {
                Some(l) => l,
                None => old(self).league,
            }),
            final(self).fb@.wf(),
            final(self).has_settings_of(old(self)),
    {
        let ghost before = self.history@;
        let mut grew = false;
        if let Some(h) = loaded {
            grew = self.replace_history(h);
            proof {
                if grew {
                    lemma_sorted_in_order(self.history@, h@);
                }
            }
        }
        let ghost mid = self.history@;
        assert(is_loaded(mid, before, loaded));
        let added = self.absorb_finals(window, year);
        let ghost all = self.history@;
        let ghost new = new_finals(known_games(game_views(mid)), scheduled_views(window@), year);
        assert(game_views(all).len() == game_views(mid).len() + new.len());
        if added > 0 {
            self.rebuild_state();
            proof {
                lemma_sorted_in_order(self.history@, all);
                assert(is_stable_sort(self.history@, all) && game_views(all) == game_views(mid)
                    + new);
            }
        } else {
            assert(all =~= mid);
        }
        assert(is_extended(self.history@, mid, new));
        if let Some(l) = league {
            self.league = l;
        }
        Refresh { grew, added }
    }
}

/// What has entered the history is known from then on.
proof fn lemma_known_grows(a: Seq<GameView>, b: Seq<GameView>, pk: i64)
    requires
        known_games(a).contains(pk) || known_games(b).contains(pk),
    ensures
        known_games(a + b).contains(pk),
{
    if known_games(a).contains(pk) {
        let i = choose|i: int| 0 <= i < a.len() && #[trigger] a[i].game_pk == pk;
        assert((a + b)[i].game_pk == pk);
    } else {
        let i = choose|i: int| 0 <= i < b.len() && #[trigger] b[i].game_pk == pk;
        assert((a + b)[a.len() + i].game_pk == pk);
    }
}

proof fn lemma_nothing_new(
    known: Set<i64>,
    later: Set<i64>,
    window: Seq<ScheduledView>,
    year: i32,
    year2: i32,
)
    requires
        known.subset_of(later),
        known_games(new_finals(known, window, year)).subset_of(later),
    ensures
        new_finals(later, window, year2).len() == 0,
    decreases window.len(),
{
    if window.len() > 0 {
        let g = window.last();
        let rest = window.drop_last();
        let before = new_finals(known, rest, year);
        let all = new_finals(known, window, year);
        assert forall|pk: i64| #[trigger] known_games(before).contains(pk) implies later.contains(
            pk,
        ) by {
            if !known.contains(g.game_pk) {
                lemma_known_grows(before, one_or_none(ended_game(g, year)), pk);
            }
            assert(known_games(all).contains(pk));
        }
        lemma_nothing_new(known, later, rest, year, year2);
        if !later.contains(g.game_pk) {
            assert(!known.contains(g.game_pk));
            if ended_game(g, year) is Some {
                let one = one_or_none(ended_game(g, year));
                assert(one[0].game_pk == g.game_pk);
                assert(known_games(one).contains(g.game_pk));
                lemma_known_grows(before, one, g.game_pk);
                assert(known_games(all).contains(g.game_pk));
            }
            assert(ended_game(g, year2) is None);
        }
    }
}

/// The numbers in a history do not depend on its order.
proof fn lemma_known_of_sorted(out: Seq<RawGame>, v: Seq<RawGame>)
    requires
        is_stable_sort(out, v),
    ensures
        known_games(game_views(out)) == known_games(game_views(v)),
{
    let order = choose|order: Seq<usize>| #[trigger]
        is_stable_order(order, v) && arranged(out, v, order);
    let a = game_views(out);
    let b = game_views(v);
    assert forall|pk: i64| known_games(a).contains(pk) <==> known_games(b).contains(pk) by {
        if known_games(a).contains(pk) {
            let i = choose|i: int| 0 <= i < a.len() && #[trigger] a[i].game_pk == pk;
            assert(out[i] == v[order[i] as int]);
            assert(b[order[i] as int].game_pk == pk);
        }
        if known_games(b).contains(pk) {
            let j = choose|j: int| 0 <= j < b.len() && #[trigger] b[j].game_pk == pk;
            lemma_permutation_hits(order, v.len(), j);
            let i = choose|i: int| 0 <= i < v.len() && order[i] == j;
            assert(out[i] == v[order[i] as int]);
            assert(a[i].game_pk == pk);
        }
    }
    assert(known_games(a) =~= known_games(b));
}

/// A game is taken in once only: once a window has been taken in, taking it in again
/// adds nothing, so that the model is not trained again for it.
pub proof fn lemma_window_is_absorbed_once(
    mid: Seq<RawGame>,
    after: Seq<RawGame>,
    window: Seq<ScheduledView>,
    year: i32,
    year2: i32,
)
    requires
        is_extended(
            after,
            mid,
            new_finals(known_games(game_views(mid)), window, year),
        ),
    ensures
        new_finals(known_games(game_views(after)), window, year2).len() == 0,
{
    let known = known_games(game_views(mid));
    let new = new_finals(known, window, year);
    let later = known_games(game_views(after));
    if new.len() > 0 {
        let all = choose|all: Seq<RawGame>| #[trigger]
            is_stable_sort(after, all) && game_views(all) == game_views(mid) + new;
        lemma_known_of_sorted(after, all);
        assert forall|pk: i64| #[trigger] known.contains(pk) implies later.contains(pk) by {
            lemma_known_grows(game_views(mid), new, pk);
        }
        assert forall|pk: i64| #[trigger] known_games(new).contains(pk) implies later.contains(
            pk,
        ) by {
            lemma_known_grows(game_views(mid), new, pk);
        }
    }
    lemma_nothing_new(known, later, window, year, year2);
}

/// A refresh that brings the same window again, and no newly loaded history, finds
/// nothing: the history stays, and the model is not trained again.
pub proof fn lemma_second_refresh_finds_nothing(
    before: Seq<RawGame>,
    first: Seq<RawGame>,
    second: Seq<RawGame>,
    loaded: Option<Vec<RawGame>>,
    window: Seq<ScheduledView>,
    year: i32,
    year2: i32,
    added: int,
    added2: int,
)
    requires
        is_refreshed(first, before, loaded, window, year, added),
        is_refreshed(second, first, None, window, year2, added2),
    ensures
        added2 == 0,
        second == first,
{
    let mid = choose|mid: Seq<RawGame>| #[trigger]
        is_loaded(mid, before, loaded) && {
            let new = new_finals(known_games(game_views(mid)), window, year);
            is_extended(first, mid, new) && added == new.len()
        };
    lemma_window_is_absorbed_once(mid, first, window, year, year2);
}

/// A game that has not ended, or that ended in a tie, never enters the history.
pub proof fn lemma_only_ended_games_enter(
    known: Set<i64>,
    window: Seq<ScheduledView>,
    year: i32,
    i: int,
)
    requires
        0 <= i < new_finals(known, window, year).len(),
    ensures
        new_finals(known, window, year)[i].home_score != new_finals(
            known,
            window,
            year,
        )[i].away_score,
        new_finals(known, window, year)[i].season == year,
        !known.contains(new_finals(known, window, year)[i].game_pk),
        exists|k: int|
            0 <= k < window.len() && (#[trigger] window[k]).is_final && ended_game(
                window[k],
                year,
            ) == Some(new_finals(known, window, year)[i]),
    decreases window.len(),
{
    let before = new_finals(known, window.drop_last(), year);
    if i < before.len() {
        lemma_only_ended_games_enter(known, window.drop_last(), year, i);
        let k = choose|k: int|
            0 <= k < window.len() - 1 && (#[trigger] window.drop_last()[k]).is_final && ended_game(
                window.drop_last()[k],
                year,
            ) == Some(before[i]);
        assert(window[k] == window.drop_last()[k]);
    } else {
        assert(window[window.len() - 1].is_final);
    }
}

proof fn lemma_ended_game_is_new(
    known: Set<i64>,
    window: Seq<ScheduledView>,
    year: i32,
    k: int,
) -> (i: int)
    requires
        0 <= k < window.len(),
        ended_game(window[k], year) is Some,
        !known.contains(window[k].game_pk),
    ensures
        0 <= i < new_finals(known, window, year).len(),
        new_finals(known, window, year)[i] == ended_game(window[k], year)->0,
    decreases window.len(),
{
    let rest = window.drop_last();
    let before = new_finals(known, rest, year);
    if k < rest.len() {
        assert(rest[k] == window[k]);
        lemma_ended_game_is_new(known, rest, year, k)
    } else {
        before.len() as int
    }
}

/// A game of the window that has ended is in the history after the refresh. Where it was
/// not known before, it enters with its result, and the model is due for training.
pub proof fn lemma_ended_games_enter(
    before: Seq<RawGame>,
    after: Seq<RawGame>,
    loaded: Option<Vec<RawGame>>,
    window: Seq<ScheduledView>,
    year: i32,
    r: Refresh,
    k: int,
)
    requires
        is_refreshed(after, before, loaded, window, year, r.added as int),
        0 <= k < window.len(),
        ended_game(window[k], year) is Some,
    ensures
        known_games(game_views(after)).contains(window[k].game_pk),
        loaded is None && !known_games(game_views(before)).contains(window[k].game_pk) ==> {
            &&& r.is_news()
            &&& game_views(after).contains(ended_game(window[k], year)->0)
        },
{
    let g = window[k];
    let mid = choose|mid: Seq<RawGame>| #[trigger]
        is_loaded(mid, before, loaded) && {
            let new = new_finals(known_games(game_views(mid)), window, year);
            is_extended(after, mid, new) && r.added == new.len()
        };
    let known = known_games(game_views(mid));
    let new = new_finals(known, window, year);
    if !known.contains(g.game_pk) {
        let i = lemma_ended_game_is_new(known, window, year, k);
        let all = choose|all: Seq<RawGame>| #[trigger]
            is_stable_sort(after, all) && game_views(all) == game_views(mid) + new;
        let order = choose|order: Seq<usize>| #[trigger]
            is_stable_order(order, all) && arranged(after, all, order);
        let j = mid.len() + i;
        assert(game_views(all).len() == game_views(mid).len() + new.len());
        assert(game_views(all)[j] == new[i]);
        lemma_permutation_hits(order, all.len(), j);
        let p = choose|p: int| 0 <= p < all.len() && order[p] == j;
        assert(after[p] == all[order[p] as int]);
        assert(game_views(after)[p] == new[i]);
        assert(new[i].game_pk == g.game_pk);
    } else if new.len() > 0 {
        let all = choose|all: Seq<RawGame>| #[trigger]
            is_stable_sort(after, all) && game_views(all) == game_views(mid) + new;
        lemma_known_grows(game_views(mid), new, g.game_pk);
        lemma_known_of_sorted(after, all);
    }
}

/// A game of the history is the one that the window shows: the same number, date and
/// teams, the same starters, and the same score on either side.
pub open spec fn is_as_shown(game: GameView, g: ScheduledView) -> bool {
    &&& game.game_pk == g.game_pk
    &&& game.date == g.date
    &&& game.home_id == g.home_id
    &&& game.home_name == g.home_name
    &&& game.away_id == g.away_id
    &&& game.away_name == g.away_name
    &&& g.home_score == Some(game.home_score)
    &&& g.away_score == Some(game.away_score)
    &&& game.home_sp_id == g.home_sp_id
    &&& game.away_sp_id == g.away_sp_id
}

/// A game becomes one of the history exactly where it is final, with two scores that
/// differ. It is the game as it is shown, in the season of the year, and the side that
/// led is the side that won.
pub proof fn lemma_ended_game_is_as_shown(g: ScheduledView, year: i32)
    ensures
        ended_game(g, year) is Some <==> g.is_final && g.home_score is Some && g.away_score is Some
            && g.home_score->0 != g.away_score->0,
        ended_game(g, year) matches Some(game) ==> {
            &&& is_as_shown(game, g)
            &&& game.season == year
            &&& game.home_won() <==> g.home_score->0 > g.away_score->0
        },
{
}

proof fn lemma_new_final_is_shown(
    known: Set<i64>,
    window: Seq<ScheduledView>,
    year: i32,
    i: int,
) -> (k: int)
    requires
        0 <= i < new_finals(known, window, year).len(),
    ensures
        0 <= k < window.len(),
        window[k].is_final,
        is_as_shown(new_finals(known, window, year)[i], window[k]),
        new_finals(known, window, year)[i].season == year,
        new_finals(known, window, year)[i].home_score != new_finals(
            known,
            window,
            year,
        )[i].away_score,
    decreases window.len(),
{
    let rest = window.drop_last();
    let before = new_finals(known, rest, year);
    if i < before.len() {
        let k = lemma_new_final_is_shown(known, rest, year, i);
        assert(rest[k] == window[k]);
        k
    } else {
        lemma_ended_game_is_as_shown(window.last(), year);
        window.len() - 1
    }
}

/// After a refresh every game of the history was there before, or came with a newly
/// loaded history, or is a game of the window that has ended, with the score that the
/// window shows on either side.
pub proof fn lemma_history_is_of_known_and_shown_games(
    before: Seq<RawGame>,
    after: Seq<RawGame>,
    loaded: Option<Vec<RawGame>>,
    window: Seq<ScheduledView>,
    year: i32,
    added: int,
    i: int,
)
    requires
        is_refreshed(after, before, loaded, window, year, added),
        0 <= i < after.len(),
    ensures
        ({
            ||| loaded is None && game_views(before).contains(after[i]@)
            ||| loaded is Some && game_views(loaded->0@).contains(after[i]@)
            ||| exists|k: int|
                0 <= k < window.len() && (#[trigger] window[k]).is_final && is_as_shown(
                    after[i]@,
                    window[k],
                ) && after[i].season == year && after[i].home_score != after[i].away_score
        }),
{
    let mid = choose|mid: Seq<RawGame>| #[trigger]
        is_loaded(mid, before, loaded) && {
            let new = new_finals(known_games(game_views(mid)), window, year);
            is_extended(after, mid, new) && added == new.len()
        };
    let known = known_games(game_views(mid));
    let new = new_finals(known, window, year);
    let mut m = i;
    let mut fresh = false;
    if new.len() > 0 {
        let all = choose|all: Seq<RawGame>| #[trigger]
            is_stable_sort(after, all) && game_views(all) == game_views(mid) + new;
        let order = choose|order: Seq<usize>| #[trigger]
            is_stable_order(order, all) && arranged(after, all, order);
        let j = order[i] as int;
        assert(after[i] == all[j]);
        assert(game_views(all)[j] == after[i]@);
        assert(game_views(all).len() == mid.len() + new.len());
        if j >= mid.len() {
            fresh = true;
            let k = lemma_new_final_is_shown(known, window, year, j - mid.len());
            assert(new[j - mid.len()] == after[i]@);
            assert(window[k].is_final);
        } else {
            m = j;
            assert(game_views(mid)[j] == after[i]@);
        }
    }
    if !fresh {
        assert(game_views(mid)[m] == after[i]@);
        match loaded {
            None => {
                assert(game_views(before)[m] == after[i]@);
            },
            Some(h) => {
                if h@.len() > before.len() {
                    let order = choose|order: Seq<usize>| #[trigger]
                        is_stable_order(order, h@) && arranged(mid, h@, order);
                    assert(mid[m] == h@[order[m] as int]);
                    assert(game_views(h@)[order[m] as int] == after[i]@);
                } else {
                    assert(game_views(h@)[m] == after[i]@);
                }
            },
        }
    }
}

/// No game leaves the history by a refresh that loads none.
pub proof fn lemma_history_keeps_its_games(
    before: Seq<RawGame>,
    after: Seq<RawGame>,
    window: Seq<ScheduledView>,
    year: i32,
    added: int,
    i: int,
)
    requires
        is_refreshed(after, before, None, window, year, added),
        0 <= i < before.len(),
    ensures
        game_views(after).contains(before[i]@),
        after.len() == before.len() + added,
{
    let mid = choose|mid: Seq<RawGame>| #[trigger]
        is_loaded(mid, before, None) && {
            let new = new_finals(known_games(game_views(mid)), window, year);
            is_extended(after, mid, new) && added == new.len()
        };
    let new = new_finals(known_games(game_views(mid)), window, year);
    if new.len() > 0 {
        let all = choose|all: Seq<RawGame>| #[trigger]
            is_stable_sort(after, all) && game_views(all) == game_views(mid) + new;
        let order = choose|order: Seq<usize>| #[trigger]
            is_stable_order(order, all) && arranged(after, all, order);
        assert(game_views(all).len() == mid.len() + new.len());
        assert(game_views(all)[i] == before[i]@);
        lemma_permutation_hits(order, all.len(), i);
        let p = choose|p: int| 0 <= p < all.len() && order[p] == i;
        assert(after[p] == all[order[p] as int]);
        assert(game_views(after)[p] == before[i]@);
    } else {
        assert(game_views(after)[i] == before[i]@);
    }
}

// --------------------------------------------------------------------- window

/// What a game of the window is forecast from: nothing where its date does not read
/// as one or where a team is unknown, and then the game is not shown.
pub open spec fn forecast_inputs(b: BuilderView, g: ScheduledView) -> Option<RowView> {
    match day_reading(g.date) {
        Ok(day) => b.upcoming(g.home_id, g.away_id, day, g.home_sp_id, g.away_sp_id),
        Err(_) => None,
    }
}

/// The games of a window that are shown.
pub open spec fn is_shown(b: BuilderView, window: Seq<ScheduledGame>) -> spec_fn(int) -> bool {
    |i: int| forecast_inputs(b, window[i]@) is Some
}

/// The games of a window that are shown, as places in the window, and what each is
/// forecast from.
pub struct WindowRows {
    pub rows: Vec<usize>,
    pub inputs: Vec<RowInputs>,
}

impl LiveEngine {
    /// The games of a window that are shown.
    pub fn window_rows(&self, window: &Vec<ScheduledGame>) -> (w: WindowRows)
        requires
            self.fb@.wf(),
        ensures
            w.rows@ == picked(window@.len() as int, is_shown(self.fb@, window@)),
            w.inputs@.len() == w.rows@.len(),
            forall|i: int| 0 <= i < w.rows@.len() ==> (#[trigger] w.rows@[i]) < window@.len(),
            forall|i: int|
                0 <= i < w.rows@.len() ==> forecast_inputs(
                    self.fb@,
                    window@[#[trigger] w.rows@[i] as int]@,
                ) == Some(w.inputs@[i]@),
            forall|i: int|
                0 <= i < w.rows@.len() ==> window@[#[trigger] w.rows@[i] as int].date@.len() > 0,
    {
        let mut rows: Vec<usize> = Vec::new();
        let mut inputs: Vec<RowInputs> = Vec::new();
        let mut i: usize = 0;
        while i < window.len()
            invariant
                i <= window@.len(),
                self.fb@.wf(),
                rows@ == picked(i as int, is_shown(self.fb@, window@)),
                inputs@.len() == rows@.len(),
                forall|k: int| 0 <= k < rows@.len() ==> (#[trigger] rows@[k]) < i,
                forall|k: int|
                    0 <= k < rows@.len() ==> forecast_inputs(
                        self.fb@,
                        window@[#[trigger] rows@[k] as int]@,
                    ) == Some(inputs@[k]@),
                forall|k: int|
                    0 <= k < rows@.len() ==> window@[#[trigger] rows@[k] as int].date@.len() > 0,
            decreases window@.len() - i,
        {
            let g = &window[i];
            let found = self.fb.features_for(
                g.home_id,
                g.away_id,
                g.date.as_str(),
                g.home_sp_id,
                g.away_sp_id,
            );
            assert(inputs_view(found) == forecast_inputs(self.fb@, g@));
            if let Some(row) = found {
                rows.push(i);
                inputs.push(row);
            }
            i += 1;
        }
        WindowRows { rows, inputs }
    }

    /// The whole panel. `rows` are the places of the games that are shown.
    pub fn payload<R: Copy>(
        &self,
        generated: String,
        today: String,
        year: i32,
        epochs: usize,
        recent: Node<R>,
        window: &Vec<ScheduledGame>,
        rows: &Vec<usize>,
        forecasts: &Vec<Forecast<R>>,
        snaps: &HashMap<i64, TeamSnapshot<i64, R>>,
        blanks: &Blanks<R>,
    ) -> (n: Node<R>)
        requires
            forall|i: int| 0 <= i < rows@.len() ==> (#[trigger] rows@[i]) < window@.len(),
            forecasts@.len() == rows@.len(),
        ensures
            exists|ids: Seq<i64>| #[trigger]
                is_table_order(ids, snapshot_views(snaps@)) && n@ == payload_node(
                    StampView {
                        generated: generated@,
                        today: today@,
                        last_game: last_date(self.history@),
                        season: year as int,
                    },
                    model_node(self.rows@.len() as int, epochs as int, recent@),
                    shown(window@, rows@),
                    day_nodes(
                        days_of(
                            dates_of(shown(window@, rows@)),
                            game_nodes(
                                shown(window@, rows@),
                                forecasts@,
                                self.league@,
                                snapshot_views(snaps@),
                                *blanks,
                            ),
                        ),
                    ),
                    table_nodes(ids, snapshot_views(snaps@), self.league@),
                ),
    {
        let last_game = if self.history.len() > 0 {
            self.history[self.history.len() - 1].date.clone()
        } else {
            String::new()
        };
        assert(last_game@ =~= last_date(self.history@));
        let stamp = Stamp { generated, today, last_game, season: year };
        let note = ModelNote { games: self.rows.len(), epochs, recent };
        payload(stamp, note, window, rows, forecasts, &self.league, snaps, blanks)
    }
}

/// The date of the last game of a history, empty where there is none.
pub open spec fn last_date(history: Seq<RawGame>) -> Seq<char> {
    if history.len() > 0 {
        history.last().date@
    } else {
        Seq::empty()
    }
}

/// The row that a game of the window is forecast by: no result is known of it.
pub fn window_sample<R>(g: &ScheduledGame, season: i32, features: Vec<R>, elo_prob: R) -> (s:
    Sample<R>)
    ensures
        s@ == (SampleView {
            game_pk: g.game_pk,
            date: g.date@,
            season,
            home_name: g.home_name@,
            away_name: g.away_name@,
            home_score: 0,
            away_score: 0,
            label: 0,
            features: features@,
            home_gp: 0,
            away_gp: 0,
            elo_prob,
        }),
        s.home_name@ == g.home_name@ && s.away_name@ == g.away_name@,
        s.game_pk == g.game_pk && s.date@ == g.date@ && s.season == season,
        s.features@ == features@ && s.elo_prob == elo_prob,
{
    Sample {
        game_pk: g.game_pk,
        date: g.date.clone(),
        season,
        home_name: g.home_name.clone(),
        away_name: g.away_name.clone(),
        home_score: 0,
        away_score: 0,
        label: 0,
        features,
        home_gp: 0,
        away_gp: 0,
        elo_prob,
    }
}

// -------------------------------------------------------------------- judging

/// The number of the first of the days that the model is judged by.
pub fn first_judged(today: i32) -> (r: Option<i32>)
    ensures
        match r {
            Some(day) => day == today - RECENT_DAYS,
            None => today - RECENT_DAYS < i32::MIN,
        },
        r is Some <==> today >= i32::MIN + 30,
        r matches Some(day) ==> day + 30 == today,
{
    let first: i64 = today as i64 - RECENT_DAYS;
    if first < -0x8000_0000 {
        None
    } else {
        Some(first as i32)
    }
}

/// The first of the days that the model is judged by. `None` where today does not
/// read as a date, or where no date is so many days before it.
pub fn recent_cutoff(today: &str) -> (r: Option<String>)
    ensures
        match (day_reading(today@), r) {
            (Ok(day), Some(text)) => {
                &&& day - RECENT_DAYS >= i32::MIN
                &&& day_writing((day - RECENT_DAYS) as i32) == Some(text@)
                &&& day_reading(text@) == Ok::<i32, Seq<char>>((day - RECENT_DAYS) as i32)
            },
            (Ok(day), None) => day - RECENT_DAYS < i32::MIN || day_writing(
                (day - RECENT_DAYS) as i32,
            ) is None,
            (Err(_), _) => r is None,
        },
        day_reading(today@) matches Ok(day) && RECENT_DAYS < day <= 3_652_059 ==> r is Some,
        r matches Some(text) ==> {
            &&& day_reading(today@) is Ok
            &&& day_reading(text@) is Ok
            &&& day_reading(text@)->Ok_0 + 30 == day_reading(today@)->Ok_0
        },
{
    match day_of_text(today) {
        Ok(day) => match first_judged(day) {
            Some(first) => text_of_day(first),
            None => None,
        },
        Err(_) => None,
    }
}

/// The rows that the model is trained with, and those that a second model is
/// trained with and judged by, where there are enough.
pub struct FitPlan {
    /// The first day of the games that the second model is judged by.
    pub cutoff: String,
    pub history: Vec<usize>,
    pub train: Vec<usize>,
    pub test: Vec<usize>,
    pub judged: bool,
}

/// Games that are not early in a season.
pub open spec fn is_late<R>(all: Seq<Sample<R>>, min_gp: usize) -> spec_fn(int) -> bool {
    |i: int| is_usable(all[i], min_gp)
}

/// Plans the training: the model is trained with all usable rows, and a second one
/// with those before `cutoff`, to be judged by the others.
pub fn fit_plan<R>(all: &[Sample<R>], min_gp: usize, cutoff: &str) -> (p: FitPlan)
    ensures
        p.cutoff@ == cutoff@,
        p.history@ == picked(all@.len() as int, is_late(all@, min_gp)),
        p.train@ == picked(all@.len() as int, is_before(all@, cutoff@, min_gp)),
        p.test@ == picked(all@.len() as int, is_from(all@, cutoff@, min_gp)),
        p.judged == (p.train@.len() > MIN_JUDGED && p.test@.len() > 0),
        forall|row: usize| #[trigger]
            p.history@.contains(row) <==> row < all@.len() && all@[row as int].home_gp >= min_gp
                && all@[row as int].away_gp >= min_gp,
        forall|row: usize| #[trigger]
            p.train@.contains(row) <==> row < all@.len() && all@[row as int].home_gp >= min_gp
                && all@[row as int].away_gp >= min_gp && text_lt(all@[row as int].date@, cutoff@),
        forall|row: usize| #[trigger]
            p.test@.contains(row) <==> row < all@.len() && all@[row as int].home_gp >= min_gp
                && all@[row as int].away_gp >= min_gp && !text_lt(all@[row as int].date@, cutoff@),
{
    let total = all.len();
    let mut history: Vec<usize> = Vec::new();
    let mut i: usize = 0;
    while i < all.len()
        invariant
            i <= all@.len(),
            history@ == picked(i as int, is_late(all@, min_gp)),
        decreases all@.len() - i,
    {
        if usable(&all[i], min_gp) {
            history.push(i);
        }
        i += 1;
    }
    let train = rows_before(all, cutoff, min_gp);
    let test = rows_from(all, cutoff, min_gp);
    let judged = train.len() > MIN_JUDGED && test.len() > 0;
    proof {
        let n = total as int;
        let (h, p, q) = (
            is_late(all@, min_gp),
            is_before(all@, cutoff@, min_gp),
            is_from(all@, cutoff@, min_gp),
        );
        assert forall|row: usize| #[trigger] history@.contains(row) <==> row < n && h(
            row as int,
        ) by {
            lemma_picked_rows(n, h, row);
        }
        assert forall|row: usize| #[trigger] train@.contains(row) <==> row < n && p(
            row as int,
        ) by {
            lemma_picked_rows(n, p, row);
        }
        assert forall|row: usize| #[trigger] test@.contains(row) <==> row < n && q(
            row as int,
        ) by {
            lemma_picked_rows(n, q, row);
        }
    }
    FitPlan { cutoff: cutoff.to_owned(), history, train, test, judged }
}

/// The model is trained with exactly the rows of teams that have both played often
/// enough. The second one is trained with those of them before the cutoff and judged by
/// those from the cutoff on, and it is judged where more than five hundred are before.
pub proof fn lemma_fit_plan_divides_the_rows<R>(
    all: Seq<Sample<R>>,
    min_gp: usize,
    plan: FitPlan,
    row: usize,
)
    requires
        all.len() <= usize::MAX,
        plan.history@ == picked(all.len() as int, is_late(all, min_gp)),
        plan.train@ == picked(all.len() as int, is_before(all, plan.cutoff@, min_gp)),
        plan.test@ == picked(all.len() as int, is_from(all, plan.cutoff@, min_gp)),
        plan.judged == (plan.train@.len() > MIN_JUDGED && plan.test@.len() > 0),
    ensures
        plan.history@.contains(row) <==> row < all.len() && all[row as int].home_gp >= min_gp
            && all[row as int].away_gp >= min_gp,
        plan.train@.contains(row) <==> plan.history@.contains(row) && text_lt(
            all[row as int].date@,
            plan.cutoff@,
        ),
        plan.test@.contains(row) <==> plan.history@.contains(row) && !text_lt(
            all[row as int].date@,
            plan.cutoff@,
        ),
        plan.judged <==> plan.train@.len() > 500 && plan.test@.len() > 0,
{
    lemma_picked_rows(all.len() as int, is_late(all, min_gp), row);
    lemma_picked_rows(all.len() as int, is_before(all, plan.cutoff@, min_gp), row);
    lemma_picked_rows(all.len() as int, is_from(all, plan.cutoff@, min_gp), row);
}

/// The second model is judged by games that it has not seen: each usable row is
/// either trained with or judged by, never both, and the former are dated earlier.
pub proof fn lemma_judged_by_unseen_games<R>(
    all: Seq<Sample<R>>,
    min_gp: usize,
    cutoff: Seq<char>,
    i: int,
    j: int,
)
    requires
        0 <= i < all.len(),
        0 <= j < all.len(),
    ensures
        is_late(all, min_gp)(i) <==> is_before(all, cutoff, min_gp)(i) || is_from(
            all,
            cutoff,
            min_gp,
        )(i),
        !(is_before(all, cutoff, min_gp)(i) && is_from(all, cutoff, min_gp)(i)),
        is_before(all, cutoff, min_gp)(i) && is_from(all, cutoff, min_gp)(j) ==> text_lt(
            all[i].date@,
            all[j].date@,
        ),
{
    if is_before(all, cutoff, min_gp)(i) && is_from(all, cutoff, min_gp)(j) && text_le(
        all[j].date@,
        all[i].date@,
    ) {
        lemma_text_transitive(cutoff, all[j].date@, all[i].date@);
    }
}

/// The forecasts in which the favourite had at least some chances, and how many of
/// them were right, as a percentage.
pub struct Band<R> {
    /// In percent.
    pub threshold: i64,
    pub games: usize,
    pub hit_pct: R,
}

/// The chances of the favourite, in percent, from which on forecasts are judged apart.
pub open spec fn band_thresholds() -> Seq<i64> {
    seq![55, 60, 65, 70]
}

/// The chances of the favourite, in percent, from which on forecasts are judged apart.
pub fn thresholds() -> (out: Vec<i64>)
    ensures
        out@ == band_thresholds(),
        out@.len() == 4 && out@[0] == 55 && out@[3] == 70,
        forall|i: int| 0 <= i < 4 ==> #[trigger] out@[i] == 55 + 5 * i,
{
    let out: Vec<i64> = vec![55, 60, 65, 70];
    assert(out@ =~= band_thresholds());
    out
}

/// The figures of the model on the games it was judged by.
pub struct Scores<R> {
    pub net_pct: R,
    pub elo_pct: R,
    pub logloss: R,
    pub brier: R,
}

/// How the model did on the games it was judged by.
pub struct RecentReport<R> {
    pub since: String,
    pub games: usize,
    pub net_pct: R,
    pub elo_pct: R,
    pub logloss: R,
    pub brier: R,
    pub bands: Vec<Band<R>>,
}

/// The report on a plan: it begins with the cutoff and covers all the games that the
/// model was judged by. The bands are given by the counts of the forecasts in each and
/// by their shares of right ones; a band without any has the share `none`.
pub fn recent_report<R: Copy>(
    plan: &FitPlan,
    scores: Scores<R>,
    counts: &Vec<Tally>,
    shares: &Vec<R>,
    none: R,
) -> (r: RecentReport<R>)
    requires
        plan.judged,
        counts@.len() == band_thresholds().len(),
        shares@.len() == band_thresholds().len(),
    ensures
        r.since@ == plan.cutoff@,
        r.games == plan.test@.len(),
        r.net_pct == scores.net_pct,
        r.elo_pct == scores.elo_pct,
        r.logloss == scores.logloss,
        r.brier == scores.brier,
        r.bands@.len() == band_thresholds().len(),
        forall|i: int|
            0 <= i < r.bands@.len() ==> {
                &&& (#[trigger] r.bands@[i]).threshold == band_thresholds()[i]
                &&& r.bands@[i].games == counts@[i].n
                &&& r.bands@[i].hit_pct == if counts@[i].n > 0 {
                    shares@[i]
                } else {
                    none
                }
            },
{
    let levels = thresholds();
    let mut bands: Vec<Band<R>> = Vec::new();
    let mut i: usize = 0;
    while i < levels.len()
        invariant
            i <= levels@.len(),
            levels@ == band_thresholds(),
            counts@.len() == levels@.len(),
            shares@.len() == levels@.len(),
            bands@.len() == i,
            forall|k: int|
                0 <= k < i ==> {
                    &&& (#[trigger] bands@[k]).threshold == band_thresholds()[k]
                    &&& bands@[k].games == counts@[k].n
                    &&& bands@[k].hit_pct == if counts@[k].n > 0 {
                        shares@[k]
                    } else {
                        none
                    }
                },
        decreases levels@.len() - i,
    {
        let hit_pct = if counts[i].n > 0 {
            shares[i]
        } else {
            none
        };
        bands.push(Band { threshold: levels[i], games: counts[i].n, hit_pct });
        i += 1;
    }
    RecentReport {
        since: plan.cutoff.clone(),
        games: plan.test.len(),
        net_pct: scores.net_pct,
        elo_pct: scores.elo_pct,
        logloss: scores.logloss,
        brier: scores.brier,
        bands,
    }
}

pub open spec fn band_node<R>(b: Band<R>) -> NodeView<R> {
    NodeView::Record(
        seq![
            ("umbral"@, NodeView::Whole(b.threshold as int)),
            ("partidos"@, NodeView::Int(b.games as int)),
            ("acierto"@, NodeView::Real(b.hit_pct)),
        ],
    )
}

/// What is told of how the model did lately; nothing where it was not judged.
pub open spec fn recent_node<R>(report: Option<RecentReport<R>>) -> NodeView<R> {
    match report {
        Some(r) => NodeView::Record(
            seq![
                ("desde"@, NodeView::Text(r.since@)),
                ("partidos"@, NodeView::Int(r.games as int)),
                ("aciertoRed"@, NodeView::Real(r.net_pct)),
                ("aciertoElo"@, NodeView::Real(r.elo_pct)),
                ("logloss"@, NodeView::Real(r.logloss)),
                ("brier"@, NodeView::Real(r.brier)),
                (
                    "bandas"@,
                    NodeView::List(
                        Seq::new(r.bands@.len(), |i: int| band_node(r.bands@[i])),
                    ),
                ),
            ],
        ),
        None => NodeView::Null,
    }
}

/// What is told of how the model did lately.
pub fn recent_json<R: Copy>(report: &Option<RecentReport<R>>) -> (n: Node<R>)
    ensures
        n@ == recent_node(*report),
{
    match report {
        Some(r) => {
            let mut bands: Vec<Node<R>> = Vec::new();
            let mut i: usize = 0;
            while i < r.bands.len()
                invariant
                    i <= r.bands@.len(),
                    bands@.len() == i,
                    forall|k: int| 0 <= k < i ==> (#[trigger] bands@[k])@ == band_node(r.bands@[k]),
                decreases r.bands@.len() - i,
            {
                let b = &r.bands[i];
                let entries: Vec<(String, Node<R>)> = vec![
                    entry("umbral", Node::Whole(b.threshold)),
                    entry("partidos", count(b.games)),
                    entry("acierto", Node::Real(b.hit_pct)),
                ];
                assert(entry_views(entries@) =~= band_node(*b)->Record_0);
                bands.push(record(entries));
                i += 1;
            }
            assert(node_views(bands@) =~= Seq::new(r.bands@.len(), |i: int| band_node(r.bands@[i])));
            let entries: Vec<(String, Node<R>)> = vec![
                entry("desde", text(r.since.as_str())),
                entry("partidos", count(r.games)),
                entry("aciertoRed", Node::Real(r.net_pct)),
                entry("aciertoElo", Node::Real(r.elo_pct)),
                entry("logloss", Node::Real(r.logloss)),
                entry("brier", Node::Real(r.brier)),
                entry("bandas", list(bands)),
            ];
            assert(entry_views(entries@) =~= recent_node(*report)->Record_0);
            record(entries)
        },
        None => Node::Null,
    }
}

/// The last game that the panel tells of is of the latest date of the history.
pub proof fn lemma_last_date_is_the_latest(history: Seq<RawGame>, i: int)
    requires
        in_order(history),
        0 <= i < history.len(),
    ensures
        text_le(history[i].date@, last_date(history)),
        exists|k: int| 0 <= k < history.len() && (#[trigger] history[k]).date@ == last_date(history),
{
    let n = history.len() - 1;
    assert(history[n].date@ == last_date(history));
    if i < n {
        assert(history[i].ranks_le(&history[n]));
    }
    lemma_text_total(history[i].date@, history[n].date@);
}

/// Players and totals are due again once more than half an hour has passed, the whole
/// history once more than an hour has.
pub proof fn lemma_players_are_due_before_the_history(elapsed_secs: u64)
    ensures
        elapsed_secs > LEAGUE_TTL_MIN * 60 <==> elapsed_secs > 1_800,
        elapsed_secs > HISTORY_TTL_MIN * 60 <==> elapsed_secs > 3_600,
{
}

} // verus!
