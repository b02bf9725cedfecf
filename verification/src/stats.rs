//! Statistics of the current season: totals of each team, the hitters of its
//! active roster, and its pitchers with their numbers.

use std::collections::HashMap;
use vstd::prelude::*;
use vstd::std_specs::hash::group_hash_axioms;
use crate::big::{lemma_pow2_product, pow2};
use crate::json::{
    int_of, int_or_zero, integer, integer_or_zero, items, items_of, part, text, text_else, text_of,
    text_or, Json, JsonView,
};
use crate::mlb::one_or_none;
use crate::numbers::{
    all_figures, decimal, digits_value, int_text, is_digits, is_fraction_text, mantissa, mark,
    point, unsigned_part,
};
use crate::order::{arrange, arranged, goes_first, is_stable_order, stable_order, Ranked};
use crate::single::{lemma_exact_numbers_stay, lemma_place_is_bounded, place, place_of};
use crate::text::same;

verus! {

broadcast use group_hash_axioms;

/// For how many hours downloads of statistics are kept.
pub const MAX_AGE_H: u64 = 6;

/// Fewer times at bat than this, and an average says nothing.
pub const MIN_AT_BATS: i64 = 50;

#[derive(Debug, Clone, Default)]
pub struct Hitter {
    pub name: String,
    pub pos: String,
    pub avg: String,
    pub obp: String,
    pub ops: String,
    pub hr: i64,
    pub rbi: i64,
    pub hits: i64,
    pub at_bats: i64,
    pub games: i64,
}

#[verifier::ext_equal]
pub struct HitterView {
    pub name: Seq<char>,
    pub pos: Seq<char>,
    pub avg: Seq<char>,
    pub obp: Seq<char>,
    pub ops: Seq<char>,
    pub hr: i64,
    pub rbi: i64,
    pub hits: i64,
    pub at_bats: i64,
    pub games: i64,
}

impl View for Hitter {
    type V = HitterView;

    open spec fn view(&self) -> HitterView {
        HitterView {
            name: self.name@,
            pos: self.pos@,
            avg: self.avg@,
            obp: self.obp@,
            ops: self.ops@,
            hr: self.hr,
            rbi: self.rbi,
            hits: self.hits,
            at_bats: self.at_bats,
            games: self.games,
        }
    }
}

pub open spec fn hitter_views(hitters: Seq<Hitter>) -> Seq<HitterView> {
    Seq::new(hitters.len(), |i: int| hitters[i]@)
}

#[derive(Debug, Clone, Default)]
pub struct Pitcher {
    pub id: i64,
    pub name: String,
    pub era: String,
    pub whip: String,
    pub wins: i64,
    pub losses: i64,
    pub innings: String,
    pub strikeouts: i64,
    pub walks: i64,
    pub starts: i64,
}

#[verifier::ext_equal]
pub struct PitcherLine {
    pub id: i64,
    pub name: Seq<char>,
    pub era: Seq<char>,
    pub whip: Seq<char>,
    pub wins: i64,
    pub losses: i64,
    pub innings: Seq<char>,
    pub strikeouts: i64,
    pub walks: i64,
    pub starts: i64,
}

impl View for Pitcher {
    type V = PitcherLine;

    open spec fn view(&self) -> PitcherLine {
        PitcherLine {
            id: self.id,
            name: self.name@,
            era: self.era@,
            whip: self.whip@,
            wins: self.wins,
            losses: self.losses,
            innings: self.innings@,
            strikeouts: self.strikeouts,
            walks: self.walks,
            starts: self.starts,
        }
    }
}

pub open spec fn pitcher_lines(pitchers: Seq<Pitcher>) -> Seq<PitcherLine> {
    Seq::new(pitchers.len(), |i: int| pitchers[i]@)
}

#[derive(Debug, Clone, Default)]
pub struct TeamInfo {
    pub name: String,
    pub abbrev: String,
    // Batting of the team
    pub bat_avg: String,
    pub obp: String,
    pub slg: String,
    pub ops: String,
    pub runs: i64,
    pub home_runs: i64,
    // Pitching of the team
    pub era: String,
    pub whip: String,
    pub strikeouts: i64,
    // Roster
    pub hitters: Vec<Hitter>,
    pub pitchers: Vec<Pitcher>,
}

#[verifier::ext_equal]
pub struct TeamInfoView {
    pub name: Seq<char>,
    pub abbrev: Seq<char>,
    pub bat_avg: Seq<char>,
    pub obp: Seq<char>,
    pub slg: Seq<char>,
    pub ops: Seq<char>,
    pub runs: i64,
    pub home_runs: i64,
    pub era: Seq<char>,
    pub whip: Seq<char>,
    pub strikeouts: i64,
    pub hitters: Seq<HitterView>,
    pub pitchers: Seq<PitcherLine>,
}

impl View for TeamInfo {
    type V = TeamInfoView;

    open spec fn view(&self) -> TeamInfoView {
        TeamInfoView {
            name: self.name@,
            abbrev: self.abbrev@,
            bat_avg: self.bat_avg@,
            obp: self.obp@,
            slg: self.slg@,
            ops: self.ops@,
            runs: self.runs,
            home_runs: self.home_runs,
            era: self.era@,
            whip: self.whip@,
            strikeouts: self.strikeouts,
            hitters: hitter_views(self.hitters@),
            pitchers: pitcher_lines(self.pitchers@),
        }
    }
}

#[derive(Debug, Default)]
pub struct League {
    pub teams: HashMap<i64, TeamInfo>,
    /// All pitchers by number, to find a starter at once.
    pub pitchers: HashMap<i64, Pitcher>,
}

// ------------------------------------------------------------------- lookups

/// A text of a block of statistics, a dash where it has none.
pub open spec fn stat_text(block: JsonView, key: Seq<char>) -> Seq<char> {
    text_or(block.get(key), "-"@)
}

/// A number of a block of statistics, 0 where it has none.
pub open spec fn stat_int(block: JsonView, key: Seq<char>) -> i64 {
    int_or_zero(block.get(key)) as i64
}

fn s(block: &Json, key: &str) -> (r: String)
    ensures
        r@ == stat_text(block@, key@),
{
    text_else(block.get(key), "-")
}

fn i(block: &Json, key: &str) -> (r: i64)
    ensures
        r == stat_int(block@, key@),
{
    integer_or_zero(block.get(key))
}

/// A block of season statistics of a group ("hitting" or "pitching").
pub open spec fn is_season_block(block: JsonView, group: Seq<char>) -> bool {
    &&& text_of(block.get2("group"@, "displayName"@)) == Some(group)
    &&& text_of(block.get2("type"@, "displayName"@)) == Some("season"@)
}

/// The first block of season statistics of a group.
pub open spec fn season_block(blocks: Seq<JsonView>, group: Seq<char>) -> Option<JsonView>
    decreases blocks.len(),
{
    if blocks.len() == 0 {
        None
    } else if is_season_block(blocks[0], group) {
        Some(blocks[0])
    } else {
        season_block(blocks.drop_first(), group)
    }
}

/// The first item of a list, if it has any.
pub open spec fn first_item(list: Option<Seq<JsonView>>) -> Option<JsonView> {
    match list {
        Some(s) => if s.len() > 0 {
            Some(s[0])
        } else {
            None
        },
        None => None,
    }
}

/// The value under a key of an optional value.
pub open spec fn get_of(v: Option<JsonView>, key: Seq<char>) -> Option<JsonView> {
    match v {
        Some(j) => j.get(key),
        None => None,
    }
}

/// The season statistics of a person in a group: those of the first split of the
/// first block that is of the group and of the season.
pub open spec fn split_view(person: JsonView, group: Seq<char>) -> Option<JsonView> {
    match items_of(person.get("stats"@)) {
        Some(blocks) => get_of(
            first_item(items_of(get_of(season_block(blocks, group), "splits"@))),
            "stat"@,
        ),
        None => None,
    }
}

fn is_text(v: Option<&Json>, expected: &str) -> (r: bool)
    ensures
        r == (text_of(part(v)) == Some(expected@)),
{
    match text(v) {
        Some(t) => same(t, expected),
        None => false,
    }
}

proof fn lemma_season_block_later(blocks: Seq<JsonView>, group: Seq<char>, n: int)
    requires
        0 <= n <= blocks.len(),
        forall|k: int| 0 <= k < n ==> !is_season_block(#[trigger] blocks[k], group),
    ensures
        season_block(blocks, group) == season_block(blocks.skip(n), group),
    decreases n,
{
    if n > 0 {
        let rest = blocks.drop_first();
        assert(rest.skip(n - 1) =~= blocks.skip(n));
        assert forall|k: int| 0 <= k < n - 1 implies !is_season_block(
            #[trigger] rest[k],
            group,
        ) by {
            assert(rest[k] == blocks[k + 1]);
        }
        assert(!is_season_block(blocks[0], group));
        lemma_season_block_later(rest, group, n - 1);
    } else {
        assert(blocks.skip(0) =~= blocks);
    }
}

/// The season statistics of a person in a group ("hitting" or "pitching").
pub fn split_of<'a>(person: &'a Json, group: &str) -> (r: Option<&'a Json>)
    ensures
        part(r) == split_view(person@, group@),
{
    let blocks = match items(person.get("stats")) {
        Some(blocks) => blocks,
        None => {
            return None;
        },
    };
    let ghost views = items_of(person@.get("stats"@))->0;
    let mut n: usize = 0;
    while n < blocks.len()
        invariant
            n <= blocks@.len(),
            views.len() == blocks@.len(),
            items_of(person@.get("stats"@)) == Some(views),
            forall|k: int| 0 <= k < blocks@.len() ==> #[trigger] views[k] == blocks@[k]@,
            forall|k: int| 0 <= k < n ==> !is_season_block(#[trigger] views[k], group@),
        decreases blocks@.len() - n,
    {
        let b = &blocks[n];
        assert(views[n as int] == b@);
        if is_text(b.get2("group", "displayName"), group) && is_text(
            b.get2("type", "displayName"),
            "season",
        ) {
            proof {
                lemma_season_block_later(views, group@, n as int);
                assert(views.skip(n as int)[0] == views[n as int]);
                assert(season_block(views, group@) == Some(b@));
            }
            let splits = match items(b.get("splits")) {
                Some(splits) => splits,
                None => {
                    return None;
                },
            };
            if splits.len() == 0 {
                return None;
            }
            return splits[0].get("stat");
        }
        n += 1;
    }
    proof {
        lemma_season_block_later(views, group@, n as int);
    }
    None
}

// -------------------------------------------------------------------- rosters

/// What the rows of an entry of a roster begin with.
pub open spec fn person_of(entry: JsonView) -> JsonView {
    match entry.get("person"@) {
        Some(person) => person,
        None => JsonView::Null,
    }
}

/// The hitter that an entry of a roster reports, if they have batted often enough.
pub open spec fn hitter_of(entry: JsonView) -> Option<HitterView> {
    let person = person_of(entry);
    match split_view(person, "hitting"@) {
        Some(st) => if stat_int(st, "atBats"@) >= MIN_AT_BATS {
            Some(
                HitterView {
                    name: stat_text(person, "fullName"@),
                    pos: text_or(entry.get2("position"@, "abbreviation"@), "-"@),
                    avg: stat_text(st, "avg"@),
                    obp: stat_text(st, "obp"@),
                    ops: stat_text(st, "ops"@),
                    hr: stat_int(st, "homeRuns"@),
                    rbi: stat_int(st, "rbi"@),
                    hits: stat_int(st, "hits"@),
                    at_bats: stat_int(st, "atBats"@),
                    games: stat_int(st, "gamesPlayed"@),
                },
            )
        } else {
            None
        },
        None => None,
    }
}

/// The pitcher that an entry of a roster reports, if they have pitched.
pub open spec fn pitcher_of(entry: JsonView) -> Option<PitcherLine> {
    let person = person_of(entry);
    match split_view(person, "pitching"@) {
        Some(st) => Some(
            PitcherLine {
                id: stat_int(person, "id"@),
                name: stat_text(person, "fullName"@),
                era: stat_text(st, "era"@),
                whip: stat_text(st, "whip"@),
                wins: stat_int(st, "wins"@),
                losses: stat_int(st, "losses"@),
                innings: stat_text(st, "inningsPitched"@),
                strikeouts: stat_int(st, "strikeOuts"@),
                walks: stat_int(st, "baseOnBalls"@),
                starts: stat_int(st, "gamesStarted"@),
            },
        ),
        None => None,
    }
}

/// The hitters among the entries of a roster.
pub open spec fn hitters_of(entries: Seq<JsonView>) -> Seq<HitterView>
    decreases entries.len(),
{
    if entries.len() == 0 {
        Seq::empty()
    } else {
        hitters_of(entries.drop_last()) + one_or_none(hitter_of(entries.last()))
    }
}

/// The pitchers among the entries of a roster.
pub open spec fn pitchers_of(entries: Seq<JsonView>) -> Seq<PitcherLine>
    decreases entries.len(),
{
    if entries.len() == 0 {
        Seq::empty()
    } else {
        pitchers_of(entries.drop_last()) + one_or_none(pitcher_of(entries.last()))
    }
}

/// The entries of a roster document, none where it lists no roster.
pub open spec fn roster_entries(doc: JsonView) -> Seq<JsonView> {
    match items_of(doc.get("roster"@)) {
        Some(entries) => entries,
        None => Seq::empty(),
    }
}

/// The hitter and the pitcher that an entry of a roster reports.
pub fn parse_entry(entry: &Json) -> (r: (Option<Hitter>, Option<Pitcher>))
    ensures
        match r.0 {
            Some(h) => hitter_of(entry@) == Some(h@),
            None => hitter_of(entry@) is None,
        },
        match r.1 {
            Some(p) => pitcher_of(entry@) == Some(p@),
            None => pitcher_of(entry@) is None,
        },
{
    let nobody = Json::Null;
    let person = match entry.get("person") {
        Some(person) => person,
        None => &nobody,
    };
    assert(person@ == person_of(entry@));
    let hitter = match split_of(person, "hitting") {
        Some(st) => {
            let ab = i(st, "atBats");
            if ab >= MIN_AT_BATS {
                Some(
                    Hitter {
                        name: s(person, "fullName"),
                        pos: text_else(entry.get2("position", "abbreviation"), "-"),
                        avg: s(st, "avg"),
                        obp: s(st, "obp"),
                        ops: s(st, "ops"),
                        hr: i(st, "homeRuns"),
                        rbi: i(st, "rbi"),
                        hits: i(st, "hits"),
                        at_bats: ab,
                        games: i(st, "gamesPlayed"),
                    },
                )
            } else {
                None
            }
        },
        None => None,
    };
    let pitcher = match split_of(person, "pitching") {
        Some(st) => Some(
            Pitcher {
                id: i(person, "id"),
                name: s(person, "fullName"),
                era: s(st, "era"),
                whip: s(st, "whip"),
                wins: i(st, "wins"),
                losses: i(st, "losses"),
                innings: s(st, "inningsPitched"),
                strikeouts: i(st, "strikeOuts"),
                walks: i(st, "baseOnBalls"),
                starts: i(st, "gamesStarted"),
            },
        ),
        None => None,
    };
    (hitter, pitcher)
}

/// The hitters and the pitchers of a roster, in the order of its document.
pub fn parse_roster(doc: &Json) -> (r: (Vec<Hitter>, Vec<Pitcher>))
    ensures
        hitter_views(r.0@) == hitters_of(roster_entries(doc@)),
        pitcher_lines(r.1@) == pitchers_of(roster_entries(doc@)),
{
    let mut hitters: Vec<Hitter> = Vec::new();
    let mut pitchers: Vec<Pitcher> = Vec::new();
    assert(hitter_views(hitters@) =~= Seq::<HitterView>::empty());
    assert(pitcher_lines(pitchers@) =~= Seq::<PitcherLine>::empty());
    let entries = match items(doc.get("roster")) {
        Some(entries) => entries,
        None => {
            return (hitters, pitchers);
        },
    };
    let ghost views = roster_entries(doc@);
    assert(views.take(0) =~= Seq::<JsonView>::empty());
    let mut n: usize = 0;
    while n < entries.len()
        invariant
            n <= entries@.len(),
            views.len() == entries@.len(),
            forall|k: int| 0 <= k < entries@.len() ==> #[trigger] views[k] == entries@[k]@,
            hitter_views(hitters@) == hitters_of(views.take(n as int)),
            pitcher_lines(pitchers@) == pitchers_of(views.take(n as int)),
        decreases entries@.len() - n,
    {
        let ghost h0 = hitters@;
        let ghost p0 = pitchers@;
        assert(views.take(n + 1).drop_last() =~= views.take(n as int));
        assert(views.take(n + 1).last() == entries@[n as int]@);
        let (hitter, pitcher) = parse_entry(&entries[n]);
        if let Some(h) = hitter {
            hitters.push(h);
            assert(hitter_views(hitters@) =~= hitter_views(h0) + seq![h@]);
        } else {
            assert(hitter_views(h0) + Seq::<HitterView>::empty() =~= hitter_views(h0));
        }
        if let Some(p) = pitcher {
            pitchers.push(p);
            assert(pitcher_lines(pitchers@) =~= pitcher_lines(p0) + seq![p@]);
        } else {
            assert(pitcher_lines(p0) + Seq::<PitcherLine>::empty() =~= pitcher_lines(p0));
        }
        n += 1;
    }
    assert(views.take(n as int) =~= views);
    (hitters, pitchers)
}

/// Whoever is listed among the hitters has batted often enough.
pub proof fn lemma_hitters_have_batted(entries: Seq<JsonView>, i: int)
    requires
        0 <= i < hitters_of(entries).len(),
    ensures
        hitters_of(entries)[i].at_bats >= MIN_AT_BATS,
    decreases entries.len(),
{
    if i < hitters_of(entries.drop_last()).len() {
        lemma_hitters_have_batted(entries.drop_last(), i);
    }
}

/// The players of a team.
pub struct Roster {
    pub hitters: Vec<Hitter>,
    pub pitchers: Vec<Pitcher>,
}

// ------------------------------------------------------------------- averages

/// Leaves out the leading points.
pub open spec fn unpointed(s: Seq<char>) -> Seq<char>
    decreases s.len(),
{
    if s.len() > 0 && s[0] == '.' {
        unpointed(s.drop_first())
    } else {
        s
    }
}

/// The place of a batting average among the numbers. A text that is no number is read
/// without its leading points, and counts as 0 where it is none then either.
pub open spec fn average_of(avg: Seq<char>) -> int {
    if is_fraction_text(avg) {
        place(avg)
    } else if is_fraction_text(unpointed(avg)) {
        place(unpointed(avg))
    } else {
        0
    }
}

/// The place of 99 among the numbers.
pub const NINETY_NINE: i64 = 0x42c6_0000;

/// The place of an earned run average among the numbers. What is no number counts as 99.
pub open spec fn era_of(era: Seq<char>) -> int {
    if is_fraction_text(era) {
        place(era)
    } else {
        NINETY_NINE as int
    }
}

/// An earned run average that is no number is placed as 99 is.
pub proof fn lemma_no_number_counts_as_99(era: Seq<char>)
    requires
        !is_fraction_text(era),
    ensures
        is_fraction_text("99"@),
        era_of(era) == place("99"@),
{
    reveal_strlit("99");
    let s = "99"@;
    assert(is_digits(s));
    assert(unsigned_part(s) == s);
    reveal_with_fuel(mark, 3);
    reveal_with_fuel(point, 3);
    assert(mark(s) == 2);
    assert(mantissa(s) =~= s);
    assert(point(s) == 2);
    assert(all_figures(s) =~= s);
    assert(digits_value(s) == 99) by {
        reveal_with_fuel(digits_value, 3);
        assert(s.drop_last() =~= seq!['9']);
        assert(s.drop_last().drop_last() =~= Seq::<char>::empty());
    }
    assert(pow2(17) == 0x2_0000) by {
        reveal_with_fuel(pow2, 18);
    }
    lemma_pow2_product(17, 132);
    let p = pow2(132);
    assert(99 * (0x2_0000 * p) == 0xc6_0000 * p) by (nonlinear_arith);
    lemma_exact_numbers_stay(NINETY_NINE as int, 99, 1);
}

fn without_points(s: &str) -> (r: String)
    ensures
        r@ == unpointed(s@),
{
    let n = s.unicode_len();
    let mut i: usize = 0;
    assert(s@.skip(0) =~= s@);
    while i < n && s.get_char(i) == '.'
        invariant
            i <= n,
            n == s@.len(),
            unpointed(s@.skip(i as int)) == unpointed(s@),
        decreases n - i,
    {
        assert(s@.skip(i as int).drop_first() =~= s@.skip(i + 1));
        i += 1;
    }
    let r = s.substring_char(i, n);
    assert(r@ =~= s@.skip(i as int));
    r.to_owned()
}

/// The place of a batting average among the numbers.
pub fn average_key(avg: &str) -> (r: i64)
    ensures
        r == average_of(avg@),
{
    match place_of(avg) {
        Some(k) => k,
        None => match place_of(without_points(avg).as_str()) {
            Some(k) => k,
            None => 0,
        },
    }
}

/// The place of an earned run average among the numbers.
pub fn era_key(era: &str) -> (r: i64)
    ensures
        r == era_of(era@),
{
    match place_of(era) {
        Some(k) => k,
        None => NINETY_NINE,
    }
}

// -------------------------------------------------------------------- ranking

/// Hitters rank by their batting average, the best first.
pub struct HitterRank {
    /// The place among the numbers.
    pub avg: i64,
}

impl Ranked for HitterRank {
    open spec fn ranks_le(&self, other: &Self) -> bool {
        self.avg >= other.avg
    }

    proof fn lemma_rank_total(a: &Self, b: &Self) {
    }

    proof fn lemma_rank_transitive(a: &Self, b: &Self, c: &Self) {
    }

    fn not_after(&self, other: &Self) -> (r: bool) {
        self.avg >= other.avg
    }
}

/// Pitchers rank by their starts, the most first, then by their earned run
/// average, the lowest first.
pub struct PitcherRank {
    pub starts: i64,
    /// The place among the numbers.
    pub era: i64,
}

impl Ranked for PitcherRank {
    open spec fn ranks_le(&self, other: &Self) -> bool {
        self.starts > other.starts || self.starts == other.starts && self.era <= other.era
    }

    proof fn lemma_rank_total(a: &Self, b: &Self) {
    }

    proof fn lemma_rank_transitive(a: &Self, b: &Self, c: &Self) {
    }

    fn not_after(&self, other: &Self) -> (r: bool) {
        self.starts > other.starts || self.starts == other.starts && self.era <= other.era
    }
}

/// The ranks of hitters, by their averages.
pub open spec fn hitter_ranks(hitters: Seq<HitterView>) -> Seq<HitterRank> {
    Seq::new(hitters.len(), |i: int| HitterRank { avg: average_of(hitters[i].avg) as i64 })
}

/// The ranks of pitchers, by their starts and averages.
pub open spec fn pitcher_ranks(pitchers: Seq<PitcherLine>) -> Seq<PitcherRank> {
    Seq::new(
        pitchers.len(),
        |i: int|
            PitcherRank { starts: pitchers[i].starts, era: era_of(pitchers[i].era) as i64 },
    )
}

/// `out` holds the items of `v` in the stable order of their ranks.
pub open spec fn is_ranked<T, K: Ranked>(out: Seq<T>, v: Seq<T>, ranks: Seq<K>) -> bool {
    exists|order: Seq<usize>| #[trigger] is_stable_order(order, ranks) && arranged(out, v, order)
}

/// The hitters by batting average, the best first.
pub fn sort_hitters(hitters: Vec<Hitter>) -> (out: Vec<Hitter>)
    ensures
        is_ranked(
            hitter_views(out@),
            hitter_views(hitters@),
            hitter_ranks(hitter_views(hitters@)),
        ),
{
    let ghost views = hitter_views(hitters@);
    let mut ranks: Vec<HitterRank> = Vec::new();
    let mut n: usize = 0;
    while n < hitters.len()
        invariant
            n <= hitters@.len(),
            views == hitter_views(hitters@),
            ranks@ == hitter_ranks(views).take(n as int),
        decreases hitters@.len() - n,
    {
        ranks.push(HitterRank { avg: average_key(hitters[n].avg.as_str()) });
        n += 1;
        assert(ranks@ =~= hitter_ranks(views).take(n as int));
    }
    assert(hitter_ranks(views).take(n as int) =~= hitter_ranks(views));
    let order = stable_order(ranks.as_slice());
    let out = arrange(hitters, &order);
    assert(arranged(hitter_views(out@), views, order@));
    assert(is_stable_order(order@, hitter_ranks(views)));
    out
}

/// The pitchers by starts, the most first, then by earned run average, the lowest
/// first.
pub fn sort_pitchers(pitchers: Vec<Pitcher>) -> (out: Vec<Pitcher>)
    ensures
        is_ranked(
            pitcher_lines(out@),
            pitcher_lines(pitchers@),
            pitcher_ranks(pitcher_lines(pitchers@)),
        ),
{
    let ghost lines = pitcher_lines(pitchers@);
    let mut ranks: Vec<PitcherRank> = Vec::new();
    let mut n: usize = 0;
    while n < pitchers.len()
        invariant
            n <= pitchers@.len(),
            lines == pitcher_lines(pitchers@),
            ranks@ == pitcher_ranks(lines).take(n as int),
        decreases pitchers@.len() - n,
    {
        let p = &pitchers[n];
        ranks.push(PitcherRank { starts: p.starts, era: era_key(p.era.as_str()) });
        n += 1;
        assert(ranks@ =~= pitcher_ranks(lines).take(n as int));
    }
    assert(pitcher_ranks(lines).take(n as int) =~= pitcher_ranks(lines));
    let order = stable_order(ranks.as_slice());
    let out = arrange(pitchers, &order);
    assert(arranged(pitcher_lines(out@), lines, order@));
    assert(is_stable_order(order@, pitcher_ranks(lines)));
    out
}

/// The players of a roster document, ranked.
pub fn fetch_roster(doc: &Json) -> (r: Roster)
    ensures
        is_ranked(
            hitter_views(r.hitters@),
            hitters_of(roster_entries(doc@)),
            hitter_ranks(hitters_of(roster_entries(doc@))),
        ),
        is_ranked(
            pitcher_lines(r.pitchers@),
            pitchers_of(roster_entries(doc@)),
            pitcher_ranks(pitchers_of(roster_entries(doc@))),
        ),
{
    let (hitters, pitchers) = parse_roster(doc);
    Roster { hitters: sort_hitters(hitters), pitchers: sort_pitchers(pitchers) }
}

/// The best batting average comes first.
pub proof fn lemma_best_hitter_first(
    out: Seq<HitterView>,
    hitters: Seq<HitterView>,
    i: int,
    j: int,
)
    requires
        is_ranked(out, hitters, hitter_ranks(hitters)),
        0 <= i < j < out.len(),
    ensures
        average_of(out[i].avg) >= average_of(out[j].avg),
{
    let ranks = hitter_ranks(hitters);
    let order = choose|order: Seq<usize>| #[trigger]
        is_stable_order(order, ranks) && arranged(out, hitters, order);
    assert(goes_first(ranks, order[i] as int, order[j] as int));
    assert(out[i] == hitters[order[i] as int] && out[j] == hitters[order[j] as int]);
    lemma_average_fits(hitters[order[i] as int].avg);
    lemma_average_fits(hitters[order[j] as int].avg);
}

proof fn lemma_average_fits(avg: Seq<char>)
    ensures
        i64::MIN <= average_of(avg) <= i64::MAX,
{
    lemma_place_is_bounded(avg);
    lemma_place_is_bounded(unpointed(avg));
}

/// Pitchers with more starts come first, and among those with as many the lowest earned
/// run average does.
pub proof fn lemma_starters_first(
    out: Seq<PitcherLine>,
    pitchers: Seq<PitcherLine>,
    i: int,
    j: int,
)
    requires
        is_ranked(out, pitchers, pitcher_ranks(pitchers)),
        0 <= i < j < out.len(),
    ensures
        out[i].starts >= out[j].starts,
        out[i].starts == out[j].starts ==> era_of(out[i].era) <= era_of(out[j].era),
{
    let ranks = pitcher_ranks(pitchers);
    let order = choose|order: Seq<usize>| #[trigger]
        is_stable_order(order, ranks) && arranged(out, pitchers, order);
    assert(goes_first(ranks, order[i] as int, order[j] as int));
    assert(out[i] == pitchers[order[i] as int] && out[j] == pitchers[order[j] as int]);
    lemma_place_is_bounded(out[i].era);
    lemma_place_is_bounded(out[j].era);
}

// --------------------------------------------------------------------- league

#[verifier::ext_equal]
pub struct LeagueView {
    pub teams: Map<i64, TeamInfoView>,
    pub pitchers: Map<i64, PitcherLine>,
}

impl View for League {
    type V = LeagueView;

    open spec fn view(&self) -> LeagueView {
        LeagueView {
            teams: self.teams@.map_values(|t: TeamInfo| t@),
            pitchers: self.pitchers@.map_values(|p: Pitcher| p@),
        }
    }
}

/// The first item of a list, or what an object holds under "0".
pub open spec fn at_zero(v: Option<JsonView>) -> Option<JsonView> {
    match v {
        Some(JsonView::Array(list)) => if list.len() > 0 {
            Some(list[0])
        } else {
            None
        },
        Some(j) => j.get("0"@),
        None => None,
    }
}

/// The totals that a document lists, one entry per team.
pub open spec fn totals_entries(doc: JsonView) -> Seq<JsonView> {
    match items_of(get_of(at_zero(doc.get("stats"@)), "splits"@)) {
        Some(list) => list,
        None => Seq::empty(),
    }
}

/// The last of the entries that is of a team.
pub open spec fn last_of_team(entries: Seq<JsonView>, id: i64) -> Option<JsonView>
    decreases entries.len(),
{
    if entries.len() == 0 {
        None
    } else if int_of(entries.last().get2("team"@, "id"@)) == Some(id as int) {
        Some(entries.last())
    } else {
        last_of_team(entries.drop_last(), id)
    }
}

/// The totals of a team.
pub open spec fn team_totals(doc: JsonView, id: i64) -> Option<JsonView> {
    get_of(last_of_team(totals_entries(doc), id), "stat"@)
}

/// The totals of a team in a document that lists those of all teams.
pub fn find_totals<'a>(doc: &'a Json, id: i64) -> (r: Option<&'a Json>)
    ensures
        part(r) == team_totals(doc@, id),
{
    let first = match doc.get("stats") {
        Some(Json::Array(list)) => if list.len() > 0 {
            Some(&list[0])
        } else {
            None
        },
        Some(other) => other.get("0"),
        None => None,
    };
    assert(part(first) == at_zero(doc@.get("stats"@)));
    let list = match first {
        Some(block) => match items(block.get("splits")) {
            Some(list) => list,
            None => {
                return None;
            },
        },
        None => {
            return None;
        },
    };
    let ghost views = totals_entries(doc@);
    let mut n: usize = list.len();
    assert(views.take(n as int) =~= views);
    while n > 0
        invariant
            n <= list@.len(),
            views.len() == list@.len(),
            forall|k: int| 0 <= k < list@.len() ==> #[trigger] views[k] == list@[k]@,
            views == totals_entries(doc@),
            last_of_team(views, id) == last_of_team(views.take(n as int), id),
        decreases n,
    {
        let entry = &list[n - 1];
        assert(views[n - 1] == entry@);
        assert(views.take(n as int).last() == entry@);
        assert(views.take(n as int).drop_last() =~= views.take(n - 1));
        if let Some(of) = integer(entry.get2("team", "id")) {
            if of == id {
                return entry.get("stat");
            }
        }
        n -= 1;
    }
    None
}

pub open spec fn roster_hitters(roster: Option<Roster>) -> Seq<HitterView> {
    match roster {
        Some(r) => hitter_views(r.hitters@),
        None => Seq::empty(),
    }
}

pub open spec fn roster_pitchers(roster: Option<Roster>) -> Seq<PitcherLine> {
    match roster {
        Some(r) => pitcher_lines(r.pitchers@),
        None => Seq::empty(),
    }
}

/// A text of optional totals, empty where there are none.
pub open spec fn totals_text(totals: Option<JsonView>, key: Seq<char>) -> Seq<char> {
    match totals {
        Some(block) => stat_text(block, key),
        None => Seq::empty(),
    }
}

/// A number of optional totals, 0 where there are none.
pub open spec fn totals_int(totals: Option<JsonView>, key: Seq<char>) -> i64 {
    match totals {
        Some(block) => stat_int(block, key),
        None => 0,
    }
}

/// What is known of a team: its names, its totals where they are known, and its
/// players where they are.
pub open spec fn info_view(
    team: JsonView,
    hitting: Option<JsonView>,
    pitching: Option<JsonView>,
    hitters: Seq<HitterView>,
    pitchers: Seq<PitcherLine>,
) -> TeamInfoView {
    TeamInfoView {
        name: stat_text(team, "name"@),
        abbrev: stat_text(team, "abbreviation"@),
        bat_avg: totals_text(hitting, "avg"@),
        obp: totals_text(hitting, "obp"@),
        slg: totals_text(hitting, "slg"@),
        ops: totals_text(hitting, "ops"@),
        runs: totals_int(hitting, "runs"@),
        home_runs: totals_int(hitting, "homeRuns"@),
        era: totals_text(pitching, "era"@),
        whip: totals_text(pitching, "whip"@),
        strikeouts: totals_int(pitching, "strikeOuts"@),
        hitters,
        pitchers,
    }
}

fn s_of(totals: Option<&Json>, key: &str) -> (r: String)
    ensures
        r@ == totals_text(part(totals), key@),
{
    match totals {
        Some(block) => s(block, key),
        None => String::new(),
    }
}

fn i_of(totals: Option<&Json>, key: &str) -> (r: i64)
    ensures
        r == totals_int(part(totals), key@),
{
    match totals {
        Some(block) => i(block, key),
        None => 0,
    }
}

/// What is known of a team.
pub fn team_info(
    team: &Json,
    hitting: Option<&Json>,
    pitching: Option<&Json>,
    roster: Option<Roster>,
) -> (r: TeamInfo)
    ensures
        r@ == info_view(
            team@,
            part(hitting),
            part(pitching),
            roster_hitters(roster),
            roster_pitchers(roster),
        ),
{
    let (hitters, pitchers) = match roster {
        Some(players) => (players.hitters, players.pitchers),
        None => (Vec::new(), Vec::new()),
    };
    let info = TeamInfo {
        name: s(team, "name"),
        abbrev: s(team, "abbreviation"),
        bat_avg: s_of(hitting, "avg"),
        obp: s_of(hitting, "obp"),
        slg: s_of(hitting, "slg"),
        ops: s_of(hitting, "ops"),
        runs: i_of(hitting, "runs"),
        home_runs: i_of(hitting, "homeRuns"),
        era: s_of(pitching, "era"),
        whip: s_of(pitching, "whip"),
        strikeouts: i_of(pitching, "strikeOuts"),
        hitters,
        pitchers,
    };
    assert(info@ =~= info_view(
        team@,
        part(hitting),
        part(pitching),
        roster_hitters(roster),
        roster_pitchers(roster),
    ));
    info
}

impl Pitcher {
    /// The same pitcher once more.
    pub fn copy(&self) -> (r: Pitcher)
        ensures
            r@ == self@,
    {
        Pitcher {
            id: self.id,
            name: self.name.clone(),
            era: self.era.clone(),
            whip: self.whip.clone(),
            wins: self.wins,
            losses: self.losses,
            innings: self.innings.clone(),
            strikeouts: self.strikeouts,
            walks: self.walks,
            starts: self.starts,
        }
    }
}

/// The index of pitchers with those of a team; a later one replaces an earlier one
/// with the same number.
pub open spec fn indexed(
    index: Map<i64, PitcherLine>,
    pitchers: Seq<PitcherLine>,
) -> Map<i64, PitcherLine>
    decreases pitchers.len(),
{
    if pitchers.len() == 0 {
        index
    } else {
        indexed(index, pitchers.drop_last()).insert(pitchers.last().id, pitchers.last())
    }
}

impl LeagueView {
    pub open spec fn empty() -> LeagueView {
        LeagueView { teams: Map::empty(), pitchers: Map::empty() }
    }

    /// With one more team.
    pub open spec fn with_team(self, id: i64, info: TeamInfoView) -> LeagueView {
        LeagueView {
            teams: self.teams.insert(id, info),
            pitchers: indexed(self.pitchers, info.pitchers),
        }
    }
}

impl League {
    pub fn new() -> (l: League)
        ensures
            l@ == LeagueView::empty(),
    {
        let l = League { teams: HashMap::new(), pitchers: HashMap::new() };
        assert(l@ =~= LeagueView::empty());
        l
    }

    /// Takes a team in, and its pitchers into the index.
    pub fn add_team(&mut self, id: i64, info: TeamInfo)
        ensures
            final(self)@ == old(self)@.with_team(id, info@),
    {
        let ghost index = self@.pitchers;
        let ghost lines = pitcher_lines(info.pitchers@);
        let mut n: usize = 0;
        assert(lines.take(0) =~= Seq::<PitcherLine>::empty());
        while n < info.pitchers.len()
            invariant
                n <= info.pitchers@.len(),
                lines == pitcher_lines(info.pitchers@),
                self@.teams == old(self)@.teams,
                self@.pitchers == indexed(index, lines.take(n as int)),
            decreases info.pitchers@.len() - n,
        {
            let p = &info.pitchers[n];
            let ghost before = self@.pitchers;
            self.pitchers.insert(p.id, p.copy());
            proof {
                assert(lines.take(n + 1).drop_last() =~= lines.take(n as int));
                assert(lines.take(n + 1).last() == p@);
                assert(self@.pitchers =~= before.insert(p.id, p@));
                assert(self@.teams =~= old(self)@.teams);
            }
            n += 1;
        }
        assert(lines.take(n as int) =~= lines);
        let ghost before = self@;
        self.teams.insert(id, info);
        assert(self@.teams =~= before.teams.insert(id, info@));
        assert(self@.pitchers =~= before.pitchers);
    }
}

/// The teams of a document, none where it lists none.
pub open spec fn team_entries(doc: JsonView) -> Seq<JsonView> {
    match items_of(doc.get("teams"@)) {
        Some(list) => list,
        None => Seq::empty(),
    }
}

/// The numbers of the teams among the entries that have one.
pub open spec fn ids_of(entries: Seq<JsonView>) -> Seq<i64>
    decreases entries.len(),
{
    if entries.len() == 0 {
        Seq::empty()
    } else {
        match int_of(entries.last().get("id"@)) {
            Some(id) => ids_of(entries.drop_last()).push(id as i64),
            None => ids_of(entries.drop_last()),
        }
    }
}

/// The names of the teams among the entries that have a number.
pub open spec fn names_of(entries: Seq<JsonView>) -> Seq<Seq<char>>
    decreases entries.len(),
{
    if entries.len() == 0 {
        Seq::empty()
    } else {
        match int_of(entries.last().get("id"@)) {
            Some(_) => names_of(entries.drop_last()).push(stat_text(entries.last(), "name"@)),
            None => names_of(entries.drop_last()),
        }
    }
}

/// A team of a document: its number and its name.
pub struct ListedTeam {
    pub id: i64,
    pub name: String,
}

/// The teams of a document that have a number, in its order.
pub fn listed_teams(doc: &Json) -> (out: Vec<ListedTeam>)
    ensures
        out@.len() == ids_of(team_entries(doc@)).len(),
        out@.len() == names_of(team_entries(doc@)).len(),
        forall|k: int|
            0 <= k < out@.len() ==> (#[trigger] out@[k]).id == ids_of(team_entries(doc@))[k]
                && out@[k].name@ == names_of(team_entries(doc@))[k],
{
    let mut out: Vec<ListedTeam> = Vec::new();
    let teams = match items(doc.get("teams")) {
        Some(teams) => teams,
        None => {
            return out;
        },
    };
    let ghost views = team_entries(doc@);
    let mut n: usize = 0;
    assert(views.take(0) =~= Seq::<JsonView>::empty());
    while n < teams.len()
        invariant
            n <= teams@.len(),
            views.len() == teams@.len(),
            forall|k: int| 0 <= k < teams@.len() ==> #[trigger] views[k] == teams@[k]@,
            out@.len() == ids_of(views.take(n as int)).len(),
            out@.len() == names_of(views.take(n as int)).len(),
            forall|k: int|
                0 <= k < out@.len() ==> (#[trigger] out@[k]).id == ids_of(views.take(n as int))[k]
                    && out@[k].name@ == names_of(views.take(n as int))[k],
        decreases teams@.len() - n,
    {
        assert(views.take(n + 1).drop_last() =~= views.take(n as int));
        assert(views.take(n + 1).last() == teams@[n as int]@);
        if let Some(id) = integer(teams[n].get("id")) {
            out.push(ListedTeam { id, name: s(&teams[n], "name") });
        }
        n += 1;
    }
    assert(views.take(n as int) =~= views);
    out
}

/// The league of the teams among the entries that have a number. `rosters` holds
/// the players of those teams, in their order.
pub open spec fn league_of(
    entries: Seq<JsonView>,
    hitting: JsonView,
    pitching: JsonView,
    rosters: Seq<Option<Roster>>,
) -> LeagueView
    decreases entries.len(),
{
    if entries.len() == 0 {
        LeagueView::empty()
    } else {
        let before = league_of(entries.drop_last(), hitting, pitching, rosters);
        match int_of(entries.last().get("id"@)) {
            Some(id) => {
                let roster = rosters[ids_of(entries.drop_last()).len() as int];
                before.with_team(
                    id as i64,
                    info_view(
                        entries.last(),
                        team_totals(hitting, id as i64),
                        team_totals(pitching, id as i64),
                        roster_hitters(roster),
                        roster_pitchers(roster),
                    ),
                )
            },
            None => before,
        }
    }
}

proof fn lemma_ids_grow(entries: Seq<JsonView>, n: int)
    requires
        0 <= n <= entries.len(),
    ensures
        ids_of(entries.take(n)).len() <= ids_of(entries).len(),
        n < entries.len() && int_of(entries[n].get("id"@)) is Some ==> ids_of(
            entries.take(n),
        ).len() < ids_of(entries).len(),
    decreases entries.len(),
{
    if n == entries.len() {
        assert(entries.take(n) =~= entries);
    } else {
        assert(entries.drop_last().take(n) =~= entries.take(n));
        lemma_ids_grow(entries.drop_last(), n);
        if n == entries.len() - 1 {
            assert(entries.drop_last() =~= entries.take(n));
        } else {
            assert(entries.drop_last()[n] == entries[n]);
        }
    }
}

/// The whole league: the teams of a document that have a number, with their totals
/// and with the players in `rosters`. A team whose roster could not be had is
/// taken in without players.
pub fn fetch_league(
    teams_doc: &Json,
    hitting: &Json,
    pitching: &Json,
    rosters: Vec<Option<Roster>>,
) -> (league: League)
    requires
        rosters@.len() == ids_of(team_entries(teams_doc@)).len(),
    ensures
        league@ == league_of(team_entries(teams_doc@), hitting@, pitching@, rosters@),
{
    let mut league = League::new();
    let teams = match items(teams_doc.get("teams")) {
        Some(teams) => teams,
        None => {
            return league;
        },
    };
    let ghost given = rosters@;
    let ghost views = team_entries(teams_doc@);
    let mut rosters = rosters;
    let total = rosters.len();
    let mut k: usize = 0;
    let mut n: usize = 0;
    assert(views.take(0) =~= Seq::<JsonView>::empty());
    while n < teams.len()
        invariant
            n <= teams@.len(),
            views.len() == teams@.len(),
            forall|j: int| 0 <= j < teams@.len() ==> #[trigger] views[j] == teams@[j]@,
            given.len() == ids_of(views).len(),
            rosters@.len() == given.len(),
            given.len() == total,
            k == ids_of(views.take(n as int)).len(),
            k <= given.len(),
            forall|j: int| k <= j < given.len() ==> #[trigger] rosters@[j] == given[j],
            league@ == league_of(views.take(n as int), hitting@, pitching@, given),
        decreases teams@.len() - n,
    {
        let team = &teams[n];
        proof {
            assert(views.take(n + 1).drop_last() =~= views.take(n as int));
            assert(views[n as int] == team@);
            assert(views.take(n + 1).last() == team@);
            lemma_ids_grow(views, n as int);
        }
        if let Some(id) = integer(team.get("id")) {
            let mut roster: Option<Roster> = None;
            core::mem::swap(&mut roster, &mut rosters[k]);
            assert(roster == given[k as int]);
            let info = team_info(team, find_totals(hitting, id), find_totals(pitching, id), roster);
            league.add_team(id, info);
            k += 1;
            proof {
                lemma_ids_grow(views, n + 1);
            }
        }
        n += 1;
    }
    assert(views.take(n as int) =~= views);
    league
}

impl LeagueView {
    /// The index holds each pitcher of each team, under their number.
    pub open spec fn wf(self) -> bool {
        &&& forall|id: i64| #[trigger] self.pitchers.contains_key(id) ==> self.pitchers[id].id == id
        &&& forall|id: i64, i: int|
            self.teams.contains_key(id) && 0 <= i < self.teams[id].pitchers.len()
                ==> self.pitchers.contains_key((#[trigger] self.teams[id].pitchers[i]).id)
    }
}

proof fn lemma_indexed(index: Map<i64, PitcherLine>, pitchers: Seq<PitcherLine>)
    requires
        forall|id: i64| #[trigger] index.contains_key(id) ==> index[id].id == id,
    ensures
        forall|id: i64| #[trigger]
            indexed(index, pitchers).contains_key(id) ==> indexed(index, pitchers)[id].id == id,
        forall|id: i64| #[trigger]
            index.contains_key(id) ==> indexed(index, pitchers).contains_key(id),
        forall|i: int|
            0 <= i < pitchers.len() ==> indexed(index, pitchers).contains_key(
                (#[trigger] pitchers[i]).id,
            ),
    decreases pitchers.len(),
{
    if pitchers.len() > 0 {
        lemma_indexed(index, pitchers.drop_last());
        let before = indexed(index, pitchers.drop_last());
        let after = indexed(index, pitchers);
        assert forall|id: i64| #[trigger] after.contains_key(id) implies after[id].id == id by {
            if id != pitchers.last().id {
                assert(before.contains_key(id));
            }
        }
        assert forall|i: int| 0 <= i < pitchers.len() implies indexed(
            index,
            pitchers,
        ).contains_key((#[trigger] pitchers[i]).id) by {
            if i < pitchers.len() - 1 {
                assert(pitchers.drop_last()[i] == pitchers[i]);
            }
        }
    }
}

/// Whatever the documents hold, a pitcher of any team is found in the index by their
/// number, and what is found there under a number is a pitcher with that number.
pub proof fn lemma_pitchers_are_found(
    entries: Seq<JsonView>,
    hitting: JsonView,
    pitching: JsonView,
    rosters: Seq<Option<Roster>>,
)
    ensures
        league_of(entries, hitting, pitching, rosters).wf(),
    decreases entries.len(),
{
    if entries.len() > 0 {
        let before = league_of(entries.drop_last(), hitting, pitching, rosters);
        lemma_pitchers_are_found(entries.drop_last(), hitting, pitching, rosters);
        if let Some(id) = int_of(entries.last().get("id"@)) {
            let after = league_of(entries, hitting, pitching, rosters);
            lemma_indexed(before.pitchers, after.teams[id as i64].pitchers);
            assert forall|t: i64, i: int|
                after.teams.contains_key(t) && 0 <= i < after.teams[t].pitchers.len() implies
                after.pitchers.contains_key((#[trigger] after.teams[t].pitchers[i]).id) by {
                if t != id {
                    assert(before.teams[t].pitchers[i] == after.teams[t].pitchers[i]);
                }
            }
        }
    }
}

// ------------------------------------------------------------------ addresses

/// The address of the totals of all teams in a group ("hitting" or "pitching").
pub fn totals_url(season: i32, group: &str) -> (r: String)
    ensures
        r@ == "https://statsapi.mlb.com/api/v1/teams/stats?season="@ + int_text(season as int)
            + "&group="@ + group@ + "&stats=season&sportIds=1"@,
{
    let mut r = "https://statsapi.mlb.com/api/v1/teams/stats?season=".to_owned();
    r.append(decimal(season as i128).as_str());
    r.append("&group=");
    r.append(group);
    r.append("&stats=season&sportIds=1");
    r
}

/// Where the totals of all teams in a group are kept.
pub fn totals_cache_file(season: i32, group: &str) -> (r: String)
    ensures
        r@ == "team_"@ + group@ + "_"@ + int_text(season as int) + ".json"@,
{
    let mut r = "team_".to_owned();
    r.append(group);
    r.append("_");
    r.append(decimal(season as i128).as_str());
    r.append(".json");
    r
}

/// The address of the active roster of a team.
pub fn roster_url(team_id: i64, season: i32) -> (r: String)
    ensures
        r@ == "https://statsapi.mlb.com/api/v1/teams/"@ + int_text(team_id as int)
            + "/roster?rosterType=active&hydrate=person(stats(type=season,season="@ + int_text(
            season as int,
        ) + "))"@,
{
    let mut r = "https://statsapi.mlb.com/api/v1/teams/".to_owned();
    r.append(decimal(team_id as i128).as_str());
    r.append("/roster?rosterType=active&hydrate=person(stats(type=season,season=");
    r.append(decimal(season as i128).as_str());
    r.append("))");
    r
}

/// Where the active roster of a team is kept.
pub fn roster_cache_file(team_id: i64, season: i32) -> (r: String)
    ensures
        r@ == "roster_"@ + int_text(team_id as int) + "_"@ + int_text(season as int) + ".json"@,
{
    let mut r = "roster_".to_owned();
    r.append(decimal(team_id as i128).as_str());
    r.append("_");
    r.append(decimal(season as i128).as_str());
    r.append(".json");
    r
}

/// The address of the teams of a season.
pub fn teams_url(season: i32) -> (r: String)
    ensures
        r@ == "https://statsapi.mlb.com/api/v1/teams?sportId=1&season="@ + int_text(season as int),
{
    let mut r = "https://statsapi.mlb.com/api/v1/teams?sportId=1&season=".to_owned();
    r.append(decimal(season as i128).as_str());
    r
}

/// Where the teams of a season are kept.
pub fn teams_cache_file(season: i32) -> (r: String)
    ensures
        r@ == "teams_"@ + int_text(season as int) + ".json"@,
{
    let mut r = "teams_".to_owned();
    r.append(decimal(season as i128).as_str());
    r.append(".json");
    r
}

// --------------------------------------------------------------- laws of averages

/// A batting average that is a number is placed as that number. One that is none is placed
/// as what is left of it behind its leading points, and as nothing where that is none either.
pub proof fn lemma_averages_are_placed_as_numbers(points: Seq<char>, rest: Seq<char>)
    requires
        forall|i: int| 0 <= i < points.len() ==> (#[trigger] points[i]) == '.',
        rest.len() > 0 ==> rest[0] != '.',
    ensures
        is_fraction_text(points + rest) ==> average_of(points + rest) == place(points + rest),
        !is_fraction_text(points + rest) && is_fraction_text(rest) ==> average_of(points + rest)
            == place(rest),
        !is_fraction_text(points + rest) && !is_fraction_text(rest) ==> average_of(points + rest)
            == 0,
        is_fraction_text(rest) ==> era_of(rest) == place(rest),
{
    lemma_points_are_left_out(points, rest);
}

proof fn lemma_points_are_left_out(points: Seq<char>, rest: Seq<char>)
    requires
        forall|i: int| 0 <= i < points.len() ==> (#[trigger] points[i]) == '.',
        rest.len() > 0 ==> rest[0] != '.',
    ensures
        unpointed(points + rest) == rest,
    decreases points.len(),
{
    if points.len() == 0 {
        assert(points + rest =~= rest);
    } else {
        let fewer = points.drop_first();
        assert(points[0] == '.');
        assert forall|i: int| 0 <= i < fewer.len() implies (#[trigger] fewer[i]) == '.' by {
            assert(fewer[i] == points[i + 1]);
        }
        lemma_points_are_left_out(fewer, rest);
        assert((points + rest).drop_first() =~= fewer + rest);
    }
}

} // verus!
