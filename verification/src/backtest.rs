//! Validation forward in time.
//!
//! For each block of test games a new model is trained on the games before the
//! block only. Here are the plans: which games each model is trained and tested
//! on, and the counts that its forecasts are judged by.

use vstd::prelude::*;
use crate::features::{count_true, Sample};
use crate::text::{
    at_most, has_month, lemma_text_antisymmetric, lemma_text_total, lemma_text_transitive,
    month_of, month_prefix, same, text_le, text_lt,
};

verus! {

/// Fewer training games than this are too few.
pub const MIN_HISTORY: usize = 500;

pub open spec fn is_usable<R>(s: Sample<R>, min_gp: usize) -> bool {
    s.home_gp >= min_gp && s.away_gp >= min_gp
}

/// Leaves out games early in a season, when the totals of a team say nothing yet.
pub fn usable<R>(s: &Sample<R>, min_gp: usize) -> (r: bool)
    ensures
        r == is_usable(*s, min_gp),
{
    s.home_gp >= min_gp && s.away_gp >= min_gp
}

/// How good a set of forecasts is.
#[derive(Debug, Clone)]
pub struct Metrics<R> {
    pub n: usize,
    pub acc: R,
    pub logloss: R,
    pub brier: R,
}

/// What a model is compared with.
#[derive(Debug, Clone)]
pub struct Baselines<R> {
    /// Always the home team.
    pub home: Metrics<R>,
    /// The chances by the ratings.
    pub elo: Metrics<R>,
    /// The team with the better record.
    pub record: Metrics<R>,
}

/// The outcome of a block of test games: one month.
#[derive(Debug, Clone)]
pub struct Block<R> {
    pub label: String,
    pub train_n: usize,
    pub metrics: Metrics<R>,
    pub elo_metrics: Metrics<R>,
    pub home_metrics: Metrics<R>,
    pub probs: Vec<R>,
    pub labels: Vec<R>,
    /// The forecasts by the better record, game by game.
    pub records: Vec<R>,
    pub samples: Vec<Sample<R>>,
}

impl<R> Block<R> {
    /// One forecast of each sort, and one outcome, for each game.
    pub open spec fn is_even(&self) -> bool {
        &&& self.probs@.len() == self.samples@.len()
        &&& self.labels@.len() == self.samples@.len()
        &&& self.records@.len() == self.samples@.len()
    }
}

// ---------------------------------------------------------------- selections

/// The numbers below `n` that satisfy `p`, in order.
pub open spec fn picked(n: int, p: spec_fn(int) -> bool) -> Seq<usize>
    decreases n,
{
    if n <= 0 {
        Seq::empty()
    } else if p(n - 1) {
        picked(n - 1, p).push((n - 1) as usize)
    } else {
        picked(n - 1, p)
    }
}

/// Usable and dated strictly before a date.
pub open spec fn is_before<R>(all: Seq<Sample<R>>, date: Seq<char>, min_gp: usize) -> spec_fn(
    int,
) -> bool {
    |i: int| text_lt(all[i].date@, date) && is_usable(all[i], min_gp)
}

/// Usable and dated on a date or later.
pub open spec fn is_from<R>(all: Seq<Sample<R>>, date: Seq<char>, min_gp: usize) -> spec_fn(
    int,
) -> bool {
    |i: int| text_le(date, all[i].date@) && is_usable(all[i], min_gp)
}

/// Usable and dated exactly on a date.
pub open spec fn is_on<R>(all: Seq<Sample<R>>, date: Seq<char>, min_gp: usize) -> spec_fn(
    int,
) -> bool {
    |i: int| all[i].date@ == date && is_usable(all[i], min_gp)
}

/// Usable and dated in a month, on a date or later.
pub open spec fn is_in_month<R>(
    all: Seq<Sample<R>>,
    month: Seq<char>,
    test_from: Seq<char>,
    min_gp: usize,
) -> spec_fn(int) -> bool {
    |i: int|
        month_of(all[i].date@) == month && text_le(test_from, all[i].date@) && is_usable(
            all[i],
            min_gp,
        )
}

/// Usable and of an earlier season, or of the same one.
pub open spec fn is_of_season<R>(
    all: Seq<Sample<R>>,
    season: i32,
    earlier: bool,
    min_gp: usize,
) -> spec_fn(int) -> bool {
    |i: int|
        (if earlier {
            all[i].season < season
        } else {
            all[i].season == season
        }) && is_usable(all[i], min_gp)
}

/// What is picked is below `n`, satisfies `p`, and nothing else does.
pub proof fn lemma_picked(n: int, p: spec_fn(int) -> bool)
    requires
        n <= usize::MAX,
    ensures
        forall|k: int|
            0 <= k < picked(n, p).len() ==> 0 <= #[trigger] picked(n, p)[k] < n && p(
                picked(n, p)[k] as int,
            ),
        forall|u: usize| u < n && p(u as int) ==> #[trigger] picked(n, p).contains(u),
        forall|j: int, k: int|
            0 <= j < k < picked(n, p).len() ==> picked(n, p)[j] < picked(n, p)[k],
    decreases n,
{
    if n > 0 {
        lemma_picked(n - 1, p);
        let s = picked(n - 1, p);
        let t = picked(n, p);
        assert forall|u: usize| u < n && p(u as int) implies #[trigger] t.contains(u) by {
            if u < n - 1 {
                assert(s.contains(u));
                let k = choose|k: int| 0 <= k < s.len() && s[k] == u;
                assert(t[k] == u);
            } else {
                assert(t[t.len() - 1] == u);
            }
        }
    }
}

/// The usable rows dated strictly before a date.
pub fn rows_before<R>(all: &[Sample<R>], date: &str, min_gp: usize) -> (rows: Vec<usize>)
    ensures
        rows@ == picked(all@.len() as int, is_before(all@, date@, min_gp)),
{
    let mut rows: Vec<usize> = Vec::new();
    let mut i: usize = 0;
    while i < all.len()
        invariant
            i <= all@.len(),
            rows@ == picked(i as int, is_before(all@, date@, min_gp)),
        decreases all@.len() - i,
    {
        if !at_most(date, all[i].date.as_str()) && usable(&all[i], min_gp) {
            rows.push(i);
        }
        i += 1;
    }
    rows
}

/// The usable rows dated on a date or later.
pub fn rows_from<R>(all: &[Sample<R>], date: &str, min_gp: usize) -> (rows: Vec<usize>)
    ensures
        rows@ == picked(all@.len() as int, is_from(all@, date@, min_gp)),
{
    let mut rows: Vec<usize> = Vec::new();
    let mut i: usize = 0;
    while i < all.len()
        invariant
            i <= all@.len(),
            rows@ == picked(i as int, is_from(all@, date@, min_gp)),
        decreases all@.len() - i,
    {
        if at_most(date, all[i].date.as_str()) && usable(&all[i], min_gp) {
            rows.push(i);
        }
        i += 1;
    }
    rows
}

fn rows_on<R>(all: &[Sample<R>], date: &str, min_gp: usize) -> (rows: Vec<usize>)
    ensures
        rows@ == picked(all@.len() as int, is_on(all@, date@, min_gp)),
{
    let mut rows: Vec<usize> = Vec::new();
    let mut i: usize = 0;
    while i < all.len()
        invariant
            i <= all@.len(),
            rows@ == picked(i as int, is_on(all@, date@, min_gp)),
        decreases all@.len() - i,
    {
        if same(all[i].date.as_str(), date) && usable(&all[i], min_gp) {
            rows.push(i);
        }
        i += 1;
    }
    rows
}

fn rows_in_month<R>(all: &[Sample<R>], month: &str, test_from: &str, min_gp: usize) -> (rows: Vec<
    usize,
>)
    requires
        forall|i: int| 0 <= i < all@.len() ==> has_month((#[trigger] all@[i]).date@),
    ensures
        rows@ == picked(all@.len() as int, is_in_month(all@, month@, test_from@, min_gp)),
{
    let mut rows: Vec<usize> = Vec::new();
    let mut i: usize = 0;
    while i < all.len()
        invariant
            i <= all@.len(),
            forall|i: int| 0 <= i < all@.len() ==> has_month((#[trigger] all@[i]).date@),
            rows@ == picked(i as int, is_in_month(all@, month@, test_from@, min_gp)),
        decreases all@.len() - i,
    {
        assert(has_month(all@[i as int].date@));
        let prefix = month_prefix(all[i].date.as_str());
        if same(prefix.as_str(), month) && at_most(test_from, all[i].date.as_str()) && usable(
            &all[i],
            min_gp,
        ) {
            rows.push(i);
        }
        i += 1;
    }
    rows
}

fn rows_of_season<R>(all: &[Sample<R>], season: i32, earlier: bool, min_gp: usize) -> (rows: Vec<
    usize,
>)
    ensures
        rows@ == picked(all@.len() as int, is_of_season(all@, season, earlier, min_gp)),
{
    let mut rows: Vec<usize> = Vec::new();
    let mut i: usize = 0;
    while i < all.len()
        invariant
            i <= all@.len(),
            rows@ == picked(i as int, is_of_season(all@, season, earlier, min_gp)),
        decreases all@.len() - i,
    {
        let fits = if earlier {
            all[i].season < season
        } else {
            all[i].season == season
        };
        if fits && usable(&all[i], min_gp) {
            rows.push(i);
        }
        i += 1;
    }
    rows
}

// -------------------------------------------------------------- walk forward

/// The games that a month is forecast from, and the games of the month, as
/// numbers of rows.
#[derive(Debug, Clone)]
pub struct MonthPlan {
    pub label: String,
    pub train: Vec<usize>,
    pub test: Vec<usize>,
}

#[verifier::ext_equal]
pub struct MonthPlanView {
    pub label: Seq<char>,
    pub train: Seq<usize>,
    pub test: Seq<usize>,
}

impl View for MonthPlan {
    type V = MonthPlanView;

    open spec fn view(&self) -> MonthPlanView {
        MonthPlanView { label: self.label@, train: self.train@, test: self.test@ }
    }
}

pub open spec fn plan_views(plans: Seq<MonthPlan>) -> Seq<MonthPlanView> {
    Seq::new(plans.len(), |i: int| plans[i]@)
}

pub open spec fn month_views(months: Seq<String>) -> Seq<Seq<char>> {
    Seq::new(months.len(), |i: int| months[i]@)
}

/// A month has a usable game in the test period.
pub open spec fn is_tested<R>(
    all: Seq<Sample<R>>,
    n: int,
    test_from: Seq<char>,
    min_gp: usize,
    month: Seq<char>,
) -> bool {
    exists|i: int|
        0 <= i < n && is_from(all, test_from, min_gp)(i) && month_of((#[trigger] all[i]).date@)
            == month
}

/// The months of the test period, each once and in order.
pub open spec fn is_month_list<R>(
    months: Seq<Seq<char>>,
    all: Seq<Sample<R>>,
    n: int,
    test_from: Seq<char>,
    min_gp: usize,
) -> bool {
    &&& forall|j: int, k: int| 0 <= j < k < months.len() ==> text_lt(months[j], months[k])
    &&& forall|m: Seq<char>| #[trigger]
        months.contains(m) <==> is_tested(all, n, test_from, min_gp, m)
}

/// The later of two dates.
pub open spec fn later(a: Seq<char>, b: Seq<char>) -> Seq<char> {
    if text_le(a, b) {
        b
    } else {
        a
    }
}

/// Up to where a month has its history: its first day, or the first day of the test
/// period where that is later. All that is before the test period is history.
pub open spec fn history_end(month: Seq<char>, test_from: Seq<char>) -> Seq<char> {
    later(month + "-01"@, test_from)
}

/// The plan of a month: trained on all that is strictly before the end of its
/// history, tested on its games in the test period.
pub open spec fn month_plan<R>(
    all: Seq<Sample<R>>,
    month: Seq<char>,
    test_from: Seq<char>,
    min_gp: usize,
) -> MonthPlanView {
    MonthPlanView {
        label: month,
        train: picked(all.len() as int, is_before(all, history_end(month, test_from), min_gp)),
        test: picked(all.len() as int, is_in_month(all, month, test_from, min_gp)),
    }
}

/// Whether a month has enough games before it, and games.
pub open spec fn is_planned(plan: MonthPlanView) -> bool {
    plan.train.len() >= MIN_HISTORY && plan.test.len() > 0
}

/// The plans of the months that have enough games before them, and games.
pub open spec fn month_plans<R>(
    all: Seq<Sample<R>>,
    months: Seq<Seq<char>>,
    test_from: Seq<char>,
    min_gp: usize,
) -> Seq<MonthPlanView>
    decreases months.len(),
{
    if months.len() == 0 {
        Seq::empty()
    } else {
        let before = month_plans(all, months.drop_last(), test_from, min_gp);
        let plan = month_plan(all, months.last(), test_from, min_gp);
        if is_planned(plan) {
            before.push(plan)
        } else {
            before
        }
    }
}

/// The dates can be cut to months as far as that is needed: all of them, once
/// there is a game in the test period.
pub open spec fn dates_have_months<R>(
    all: Seq<Sample<R>>,
    test_from: Seq<char>,
    min_gp: usize,
) -> bool {
    (exists|i: int|
        0 <= i < all.len() && text_le(test_from, (#[trigger] all[i]).date@) && is_usable(
            all[i],
            min_gp,
        )) ==> forall|i: int| 0 <= i < all.len() ==> has_month((#[trigger] all[i]).date@)
}

/// Inserts a month into an ordered list, unless it is there.
fn insert_month(months: &mut Vec<String>, month: String)
    requires
        forall|j: int, k: int|
            0 <= j < k < old(months)@.len() ==> text_lt(
                #[trigger] old(months)@[j]@,
                #[trigger] old(months)@[k]@,
            ),
    ensures
        forall|j: int, k: int|
            0 <= j < k < final(months)@.len() ==> text_lt(
                #[trigger] final(months)@[j]@,
                #[trigger] final(months)@[k]@,
            ),
        forall|m: Seq<char>| #[trigger]
            month_views(final(months)@).contains(m) <==> month_views(old(months)@).contains(m)
                || m == month@,
{
    let ghost before = months@;
    let ghost views = month_views(before);
    let mut i: usize = 0;
    while i < months.len() && !at_most(month.as_str(), months[i].as_str())
        invariant
            months@ == before,
            i <= before.len(),
            forall|k: int| 0 <= k < i ==> text_lt(#[trigger] before[k]@, month@),
        decreases before.len() - i,
    {
        i += 1;
    }
    if i < months.len() && same(months[i].as_str(), month.as_str()) {
        assert(views[i as int] == month@);
        return;
    }
    proof {
        assert forall|k: int| i <= k < before.len() implies text_lt(
            month@,
            #[trigger] before[k]@,
        ) by {
            if text_le(before[k]@, month@) {
                if k > i {
                    lemma_text_total(before[i as int]@, before[k]@);
                    lemma_text_transitive(before[k]@, month@, before[i as int]@);
                    assert(text_lt(before[i as int]@, before[k]@));
                } else {
                    lemma_text_antisymmetric(before[k]@, month@);
                }
            }
        }
    }
    let ghost m0 = month@;
    months.insert(i, month);
    proof {
        let now = month_views(months@);
        assert(now =~= views.insert(i as int, m0));
        assert forall|m: Seq<char>| #[trigger] now.contains(m) <==> views.contains(m) || m
            == m0 by {
            if now.contains(m) {
                let k = choose|k: int| 0 <= k < now.len() && now[k] == m;
                if k < i {
                    assert(views[k] == m);
                } else if k > i {
                    assert(views[k - 1] == m);
                }
            }
            if views.contains(m) {
                let k = choose|k: int| 0 <= k < views.len() && views[k] == m;
                if k < i {
                    assert(now[k] == m);
                } else {
                    assert(now[k + 1] == m);
                }
            }
            assert(now[i as int] == m0);
        }
    }
}

fn tested_months<R>(all: &[Sample<R>], test_from: &str, min_gp: usize) -> (months: Vec<String>)
    requires
        dates_have_months(all@, test_from@, min_gp),
    ensures
        is_month_list(month_views(months@), all@, all@.len() as int, test_from@, min_gp),
{
    let mut months: Vec<String> = Vec::new();
    let mut i: usize = 0;
    while i < all.len()
        invariant
            i <= all@.len(),
            dates_have_months(all@, test_from@, min_gp),
            forall|j: int, k: int|
                0 <= j < k < months@.len() ==> text_lt(
                    #[trigger] months@[j]@,
                    #[trigger] months@[k]@,
                ),
            forall|m: Seq<char>| #[trigger]
                month_views(months@).contains(m) <==> is_tested(
                    all@,
                    i as int,
                    test_from@,
                    min_gp,
                    m,
                ),
        decreases all@.len() - i,
    {
        let ghost before = month_views(months@);
        let tested = at_most(test_from, all[i].date.as_str()) && usable(&all[i], min_gp);
        assert(tested == is_from(all@, test_from@, min_gp)(i as int));
        if tested {
            assert(has_month(all@[i as int].date@));
            let month = month_prefix(all[i].date.as_str());
            insert_month(&mut months, month);
        }
        proof {
            assert forall|m: Seq<char>| #[trigger]
                month_views(months@).contains(m) <==> is_tested(
                    all@,
                    i + 1,
                    test_from@,
                    min_gp,
                    m,
                ) by {
                assert(before.contains(m) <==> is_tested(all@, i as int, test_from@, min_gp, m));
                if is_tested(all@, i + 1, test_from@, min_gp, m) {
                    let k = choose|k: int|
                        0 <= k < i + 1 && is_from(all@, test_from@, min_gp)(k) && month_of(
                            (#[trigger] all@[k]).date@,
                        ) == m;
                    if k < i {
                        assert(is_tested(all@, i as int, test_from@, min_gp, m));
                    }
                }
                if is_tested(all@, i as int, test_from@, min_gp, m) {
                    let k = choose|k: int|
                        0 <= k < i && is_from(all@, test_from@, min_gp)(k) && month_of(
                            (#[trigger] all@[k]).date@,
                        ) == m;
                    assert(is_tested(all@, i + 1, test_from@, min_gp, m));
                }
                if tested && m == month_of(all@[i as int].date@) {
                    assert(is_tested(all@, i + 1, test_from@, min_gp, m));
                }
            }
        }
        i += 1;
    }
    months
}

/// The plans of a validation month by month, from `test_from` on.
pub fn walk_forward<R>(all: &[Sample<R>], test_from: &str, min_gp: usize) -> (plans: Vec<MonthPlan>)
    requires
        dates_have_months(all@, test_from@, min_gp),
    ensures
        exists|months: Seq<Seq<char>>| #[trigger]
            is_month_list(months, all@, all@.len() as int, test_from@, min_gp) && plan_views(plans@)
                == month_plans(all@, months, test_from@, min_gp),
{
    let months = tested_months(all, test_from, min_gp);
    let ghost views = month_views(months@);
    let mut plans: Vec<MonthPlan> = Vec::new();
    let mut i: usize = 0;
    assert(views.take(0) =~= Seq::<Seq<char>>::empty());
    assert(plan_views(plans@) =~= Seq::<MonthPlanView>::empty());
    while i < months.len()
        invariant
            i <= months@.len(),
            views == month_views(months@),
            is_month_list(views, all@, all@.len() as int, test_from@, min_gp),
            dates_have_months(all@, test_from@, min_gp),
            plan_views(plans@) == month_plans(all@, views.take(i as int), test_from@, min_gp),
        decreases months@.len() - i,
    {
        let label = months[i].clone();
        proof {
            assert(views[i as int] == label@);
            assert(views.contains(label@));
            assert(is_tested(all@, all@.len() as int, test_from@, min_gp, label@));
            assert(views.take(i + 1).drop_last() =~= views.take(i as int));
        }
        let mut start = label.clone();
        start.append("-01");
        let end = if at_most(start.as_str(), test_from) {
            test_from
        } else {
            start.as_str()
        };
        let train = rows_before(all, end, min_gp);
        let test = rows_in_month(all, label.as_str(), test_from, min_gp);
        let ghost before = plans@;
        if train.len() >= MIN_HISTORY && test.len() > 0 {
            let plan = MonthPlan { label, train, test };
            assert(plan@ == month_plan(all@, views[i as int], test_from@, min_gp));
            plans.push(plan);
            assert(plan_views(plans@) =~= plan_views(before).push(plan@));
        }
        i += 1;
    }
    assert(views.take(i as int) =~= views);
    plans
}

/// The months of the test period are a list of which there is one only.
pub proof fn lemma_month_list_is_unique<R>(
    a: Seq<Seq<char>>,
    b: Seq<Seq<char>>,
    all: Seq<Sample<R>>,
    test_from: Seq<char>,
    min_gp: usize,
)
    requires
        is_month_list(a, all, all.len() as int, test_from, min_gp),
        is_month_list(b, all, all.len() as int, test_from, min_gp),
    ensures
        a == b,
{
    lemma_ascending_lists_agree(a, b, 0);
}

/// Two ascending lists of the same texts are equal.
pub proof fn lemma_ascending_lists_agree(a: Seq<Seq<char>>, b: Seq<Seq<char>>, i: int)
    requires
        forall|j: int, k: int| 0 <= j < k < a.len() ==> text_lt(a[j], a[k]),
        forall|j: int, k: int| 0 <= j < k < b.len() ==> text_lt(b[j], b[k]),
        forall|m: Seq<char>| #[trigger] a.contains(m) <==> b.contains(m),
        0 <= i <= a.len(),
        i <= b.len(),
        forall|k: int| 0 <= k < i ==> a[k] == b[k],
    ensures
        a == b,
    decreases a.len() - i,
{
    if i < a.len() && i < b.len() {
        // Neither can skip the next one of the other.
        assert(b.contains(a[i])) by {
            assert(a.contains(a[i]));
        }
        let p = choose|p: int| 0 <= p < b.len() && b[p] == a[i];
        if p < i {
            assert(a[p] == a[i] && text_lt(a[p], a[i]));
            lemma_text_total(a[p], a[p]);
        }
        assert(a.contains(b[i])) by {
            assert(b.contains(b[i]));
        }
        let q = choose|q: int| 0 <= q < a.len() && a[q] == b[i];
        if q < i {
            assert(b[q] == b[i] && text_lt(b[q], b[i]));
            lemma_text_total(b[q], b[q]);
        }
        if p > i && q > i {
            assert(text_lt(b[i], b[p]));
            assert(text_lt(a[i], a[q]));
            lemma_text_total(a[i], b[i]);
        }
        assert(a[i] == b[i]);
        lemma_ascending_lists_agree(a, b, i + 1);
    } else if i < a.len() {
        assert(a.contains(a[i]));
        assert(b.contains(a[i]));
        let p = choose|p: int| 0 <= p < b.len() && b[p] == a[i];
        assert(text_lt(a[p], a[i]));
        lemma_text_total(a[p], a[p]);
    } else if i < b.len() {
        assert(b.contains(b[i]));
        assert(a.contains(b[i]));
        let q = choose|q: int| 0 <= q < a.len() && a[q] == b[i];
        assert(text_lt(b[q], b[i]));
        lemma_text_total(b[q], b[q]);
    } else {
        assert(a =~= b);
    }
}

/// Testing begins with the test period: whatever the month, no tested game is dated
/// before `test_from`.
pub proof fn lemma_testing_starts_at_test_from<R>(
    all: Seq<Sample<R>>,
    month: Seq<char>,
    test_from: Seq<char>,
    min_gp: usize,
    j: int,
)
    requires
        all.len() <= usize::MAX,
        0 <= j < month_plan(all, month, test_from, min_gp).test.len(),
    ensures
        text_le(
            test_from,
            all[month_plan(all, month, test_from, min_gp).test[j] as int].date@,
        ),
{
    lemma_picked(all.len() as int, is_in_month(all, month, test_from, min_gp));
    let row = month_plan(all, month, test_from, min_gp).test[j];
    assert(is_in_month(all, month, test_from, min_gp)(row as int));
}

/// All that is dated before the test period is history: each usable game before
/// `test_from` is trained with, in every month.
pub proof fn lemma_all_before_is_history<R>(
    all: Seq<Sample<R>>,
    month: Seq<char>,
    test_from: Seq<char>,
    min_gp: usize,
    row: usize,
)
    requires
        all.len() <= usize::MAX,
        row < all.len(),
        text_lt(all[row as int].date@, test_from),
        is_usable(all[row as int], min_gp),
    ensures
        month_plan(all, month, test_from, min_gp).train.contains(row),
{
    let end = history_end(month, test_from);
    lemma_picked(all.len() as int, is_before(all, end, min_gp));
    lemma_text_total(month + "-01"@, test_from);
    if text_le(end, all[row as int].date@) {
        if end != test_from {
            lemma_text_transitive(test_from, end, all[row as int].date@);
        }
    }
    assert(is_before(all, end, min_gp)(row as int));
}

/// A model never sees the future: every game that a month is forecast from is
/// dated before every game of the month, where the month begins on its first day.
pub proof fn lemma_training_precedes_testing<R>(
    all: Seq<Sample<R>>,
    month: Seq<char>,
    test_from: Seq<char>,
    min_gp: usize,
    i: int,
    j: int,
)
    requires
        all.len() <= usize::MAX,
        0 <= i < month_plan(all, month, test_from, min_gp).train.len(),
        0 <= j < month_plan(all, month, test_from, min_gp).test.len(),
        text_le(
            month + "-01"@,
            all[month_plan(all, month, test_from, min_gp).test[j] as int].date@,
        ),
    ensures
        text_lt(
            all[month_plan(all, month, test_from, min_gp).train[i] as int].date@,
            all[month_plan(all, month, test_from, min_gp).test[j] as int].date@,
        ),
        month_plan(all, month, test_from, min_gp).train[i] != month_plan(
            all,
            month,
            test_from,
            min_gp,
        ).test[j],
{
    let end = history_end(month, test_from);
    lemma_picked(all.len() as int, is_before(all, end, min_gp));
    lemma_testing_starts_at_test_from(all, month, test_from, min_gp, j);
    let plan = month_plan(all, month, test_from, min_gp);
    let a = all[plan.train[i] as int].date@;
    let b = all[plan.test[j] as int].date@;
    assert(is_before(all, end, min_gp)(plan.train[i] as int));
    assert(text_lt(a, end));
    if text_le(b, a) {
        lemma_text_transitive(end, b, a);
    }
    lemma_text_total(b, b);
}

// ------------------------------------------------------------------ next day

/// A day of games and the games before it that it is forecast from.
#[derive(Debug, Clone)]
pub struct DayPlan {
    pub day: String,
    pub train: Vec<usize>,
    pub test: Vec<usize>,
}

/// What can be forecast of the first day of games from a date on.
#[derive(Debug, Clone)]
pub enum NextDay {
    /// No game is dated on the date or later.
    NoGames,
    /// Too few games are dated before it.
    TooLittleHistory,
    Planned(DayPlan),
}

/// The first day with a usable game on a date or later.
pub open spec fn is_first_day<R>(
    all: Seq<Sample<R>>,
    cutoff: Seq<char>,
    min_gp: usize,
    day: Seq<char>,
) -> bool {
    &&& exists|i: int|
        0 <= i < all.len() && (#[trigger] all[i]).date@ == day && is_from(all, cutoff, min_gp)(i)
    &&& forall|i: int|
        0 <= i < all.len() && is_from(all, cutoff, min_gp)(i) ==> text_le(
            day,
            (#[trigger] all[i]).date@,
        )
}

/// Plans the first day of games from `cutoff` on, forecast from all the games
/// before `cutoff`.
pub fn next_day_demo<R>(all: &[Sample<R>], cutoff: &str, min_gp: usize) -> (r: NextDay)
    ensures
        match r {
            NextDay::NoGames => picked(
                all@.len() as int,
                is_from(all@, cutoff@, min_gp),
            ).len() == 0,
            NextDay::TooLittleHistory => {
                &&& picked(all@.len() as int, is_from(all@, cutoff@, min_gp)).len() > 0
                &&& picked(all@.len() as int, is_before(all@, cutoff@, min_gp)).len() < MIN_HISTORY
            },
            NextDay::Planned(plan) => {
                &&& is_first_day(all@, cutoff@, min_gp, plan.day@)
                &&& plan.train@ == picked(all@.len() as int, is_before(all@, cutoff@, min_gp))
                &&& plan.train@.len() >= MIN_HISTORY
                &&& plan.test@ == picked(all@.len() as int, is_on(all@, plan.day@, min_gp))
                &&& forall|row: usize| #[trigger]
                    plan.train@.contains(row) <==> row < all@.len() && all@[row as int].home_gp
                        >= min_gp && all@[row as int].away_gp >= min_gp && text_lt(
                        all@[row as int].date@,
                        cutoff@,
                    )
                &&& forall|row: usize| #[trigger]
                    plan.test@.contains(row) <==> row < all@.len() && all@[row as int].home_gp
                        >= min_gp && all@[row as int].away_gp >= min_gp && all@[row as int].date@
                        == plan.day@
            },
        },
{
    let train = rows_before(all, cutoff, min_gp);
    let later = rows_from(all, cutoff, min_gp);
    let n = all.len();
    proof {
        lemma_picked(n as int, is_from(all@, cutoff@, min_gp));
    }
    if later.len() == 0 {
        return NextDay::NoGames;
    }
    assert(later@[0] < all@.len());
    let mut first: usize = later[0];
    let mut k: usize = 1;
    proof {
        lemma_text_total(all@[first as int].date@, all@[first as int].date@);
    }
    while k < later.len()
        invariant
            1 <= k <= later@.len(),
            first < all@.len(),
            later@.contains(first),
            forall|j: int| 0 <= j < later@.len() ==> (#[trigger] later@[j]) < all@.len(),
            forall|j: int|
                0 <= j < k ==> text_le(
                    all@[first as int].date@,
                    all@[#[trigger] later@[j] as int].date@,
                ),
        decreases later@.len() - k,
    {
        let next = later[k];
        assert(later@[k as int] < all@.len());
        if !at_most(all[first].date.as_str(), all[next].date.as_str()) {
            proof {
                lemma_text_total(all@[first as int].date@, all@[next as int].date@);
                assert forall|j: int| 0 <= j < k implies text_le(
                    all@[next as int].date@,
                    all@[#[trigger] later@[j] as int].date@,
                ) by {
                    lemma_text_transitive(
                        all@[next as int].date@,
                        all@[first as int].date@,
                        all@[later@[j] as int].date@,
                    );
                }
                lemma_text_total(all@[next as int].date@, all@[next as int].date@);
            }
            first = next;
        }
        k += 1;
    }
    if train.len() < MIN_HISTORY {
        return NextDay::TooLittleHistory;
    }
    let day = all[first].date.clone();
    proof {
        let j = choose|j: int| 0 <= j < later@.len() && later@[j] == first;
        assert(is_from(all@, cutoff@, min_gp)(later@[j] as int));
        assert(all@[first as int].date@ == day@);
        assert forall|i: int|
            0 <= i < all@.len() && is_from(all@, cutoff@, min_gp)(i) implies text_le(
            day@,
            (#[trigger] all@[i]).date@,
        ) by {
            assert(later@.contains(i as usize));
            let j = choose|j: int| 0 <= j < later@.len() && later@[j] == i as usize;
            assert(text_le(all@[first as int].date@, all@[later@[j] as int].date@));
        }
    }
    let test = rows_on(all, day.as_str(), min_gp);
    proof {
        let (p, q) = (is_before(all@, cutoff@, min_gp), is_on(all@, day@, min_gp));
        assert forall|row: usize| #[trigger] train@.contains(row) <==> row < n && p(
            row as int,
        ) by {
            lemma_picked_rows(n as int, p, row);
        }
        assert forall|row: usize| #[trigger] test@.contains(row) <==> row < n && q(
            row as int,
        ) by {
            lemma_picked_rows(n as int, q, row);
        }
    }
    NextDay::Planned(DayPlan { day, train, test })
}

/// The games that a day is forecast from are dated before it.
pub proof fn lemma_history_precedes_day<R>(
    all: Seq<Sample<R>>,
    cutoff: Seq<char>,
    min_gp: usize,
    day: Seq<char>,
    i: int,
)
    requires
        all.len() <= usize::MAX,
        is_first_day(all, cutoff, min_gp, day),
        0 <= i < picked(all.len() as int, is_before(all, cutoff, min_gp)).len(),
    ensures
        text_lt(
            all[picked(all.len() as int, is_before(all, cutoff, min_gp))[i] as int].date@,
            day,
        ),
{
    lemma_picked(all.len() as int, is_before(all, cutoff, min_gp));
    let a = all[picked(all.len() as int, is_before(all, cutoff, min_gp))[i] as int].date@;
    let k = choose|k: int|
        0 <= k < all.len() && (#[trigger] all[k]).date@ == day && is_from(all, cutoff, min_gp)(k);
    if text_le(day, a) {
        lemma_text_transitive(cutoff, day, a);
    }
}

// -------------------------------------------------------------------- holdout

/// The last season for testing and the seasons before it for training.
#[derive(Debug, Clone)]
pub struct SeasonPlan {
    pub last_season: i32,
    pub train: Vec<usize>,
    pub test: Vec<usize>,
}

/// The latest season of the samples, 0 where there is none.
pub open spec fn is_last_season<R>(all: Seq<Sample<R>>, season: i32) -> bool {
    if all.len() == 0 {
        season == 0
    } else {
        &&& exists|i: int| 0 <= i < all.len() && (#[trigger] all[i]).season == season
        &&& forall|i: int| 0 <= i < all.len() ==> (#[trigger] all[i]).season <= season
    }
}

/// Plans a single training: the past against the last season.
pub fn holdout<R>(all: &[Sample<R>], min_gp: usize) -> (plan: SeasonPlan)
    ensures
        is_last_season(all@, plan.last_season),
        plan.train@ == picked(
            all@.len() as int,
            is_of_season(all@, plan.last_season, true, min_gp),
        ),
        plan.test@ == picked(
            all@.len() as int,
            is_of_season(all@, plan.last_season, false, min_gp),
        ),
        forall|row: usize| #[trigger]
            plan.train@.contains(row) <==> row < all@.len() && all@[row as int].home_gp >= min_gp
                && all@[row as int].away_gp >= min_gp && all@[row as int].season
                < plan.last_season,
        forall|row: usize| #[trigger]
            plan.test@.contains(row) <==> row < all@.len() && all@[row as int].home_gp >= min_gp
                && all@[row as int].away_gp >= min_gp && all@[row as int].season
                == plan.last_season,
{
    let total = all.len();
    let mut last_season: i32 = 0;
    let mut i: usize = 0;
    while i < all.len()
        invariant
            i <= all@.len(),
            i == 0 ==> last_season == 0,
            i > 0 ==> exists|k: int| 0 <= k < i && (#[trigger] all@[k]).season == last_season,
            forall|k: int| 0 <= k < i ==> (#[trigger] all@[k]).season <= last_season,
        decreases all@.len() - i,
    {
        if i == 0 || all[i].season > last_season {
            last_season = all[i].season;
            assert(all@[i as int].season == last_season);
        }
        i += 1;
    }
    let train = rows_of_season(all, last_season, true, min_gp);
    let test = rows_of_season(all, last_season, false, min_gp);
    proof {
        let (p, q) = (
            is_of_season(all@, last_season, true, min_gp),
            is_of_season(all@, last_season, false, min_gp),
        );
        assert forall|row: usize| #[trigger] train@.contains(row) <==> row < total && p(
            row as int,
        ) by {
            lemma_picked_rows(total as int, p, row);
        }
        assert forall|row: usize| #[trigger] test@.contains(row) <==> row < total && q(
            row as int,
        ) by {
            lemma_picked_rows(total as int, q, row);
        }
    }
    SeasonPlan { last_season, train, test }
}

/// A row is picked exactly where it is one of the rows and satisfies `p`.
pub proof fn lemma_picked_rows(n: int, p: spec_fn(int) -> bool, row: usize)
    requires
        0 <= n <= usize::MAX,
    ensures
        picked(n, p).contains(row) <==> row < n && p(row as int),
{
    lemma_picked(n, p);
    if picked(n, p).contains(row) {
        let j = choose|j: int| 0 <= j < picked(n, p).len() && picked(n, p)[j] == row;
        assert(p(picked(n, p)[j] as int));
    }
    if row < n && p(row as int) {
        assert(picked(n, p).contains(row as int as usize));
    }
}

/// The past against the last season: a row of two teams that have played often enough is
/// trained with exactly where its season is before the last, and tested exactly where it
/// is the last, which no row is after. So each such row is in one of the two, once, and no
/// other row is in either.
pub proof fn lemma_holdout_divides_the_rows<R>(
    all: Seq<Sample<R>>,
    plan: SeasonPlan,
    min_gp: usize,
    row: usize,
)
    requires
        0 < all.len() <= usize::MAX,
        is_last_season(all, plan.last_season),
        plan.train@ == picked(all.len() as int, is_of_season(all, plan.last_season, true, min_gp)),
        plan.test@ == picked(all.len() as int, is_of_season(all, plan.last_season, false, min_gp)),
    ensures
        plan.train@.contains(row) <==> row < all.len() && all[row as int].home_gp >= min_gp
            && all[row as int].away_gp >= min_gp && all[row as int].season < plan.last_season,
        plan.test@.contains(row) <==> row < all.len() && all[row as int].home_gp >= min_gp
            && all[row as int].away_gp >= min_gp && all[row as int].season == plan.last_season,
        row < all.len() && all[row as int].home_gp >= min_gp && all[row as int].away_gp >= min_gp
            ==> (plan.train@.contains(row) <==> !plan.test@.contains(row)),
        plan.train@.no_duplicates(),
        plan.test@.no_duplicates(),
        exists|k: int| 0 <= k < all.len() && (#[trigger] all[k]).season == plan.last_season,
{
    let n = all.len() as int;
    let (p, q) = (
        is_of_season(all, plan.last_season, true, min_gp),
        is_of_season(all, plan.last_season, false, min_gp),
    );
    lemma_picked_rows(n, p, row);
    lemma_picked_rows(n, q, row);
    lemma_picked_once(n, p);
    lemma_picked_once(n, q);
    if row < all.len() {
        assert(all[row as int].season <= plan.last_season);
    }
}

proof fn lemma_picked_once(n: int, p: spec_fn(int) -> bool)
    requires
        0 <= n <= usize::MAX,
    ensures
        picked(n, p).no_duplicates(),
{
    lemma_picked(n, p);
}

/// A month is trained with exactly the rows of teams that have played often enough which
/// are dated before its first day or before the test period, and tested with exactly
/// those which are of the month and not before the test period.
pub proof fn lemma_month_plan_divides_the_rows<R>(
    all: Seq<Sample<R>>,
    month: Seq<char>,
    test_from: Seq<char>,
    min_gp: usize,
    row: usize,
)
    requires
        all.len() <= usize::MAX,
    ensures
        ({
            let plan = month_plan(all, month, test_from, min_gp);
            let date = all[row as int].date@;
            let known = row < all.len() && all[row as int].home_gp >= min_gp
                && all[row as int].away_gp >= min_gp;
            &&& plan.label == month
            &&& plan.train.contains(row) <==> known && (text_lt(date, month + "-01"@) || text_lt(
                date,
                test_from,
            ))
            &&& plan.test.contains(row) <==> known && month_of(date) == month && !text_lt(
                date,
                test_from,
            )
            &&& plan.train.no_duplicates()
            &&& plan.test.no_duplicates()
        }),
{
    let n = all.len() as int;
    let first = month + "-01"@;
    let end = history_end(month, test_from);
    let date = all[row as int].date@;
    lemma_picked_rows(n, is_before(all, end, min_gp), row);
    lemma_picked_rows(n, is_in_month(all, month, test_from, min_gp), row);
    lemma_picked_once(n, is_before(all, end, min_gp));
    lemma_picked_once(n, is_in_month(all, month, test_from, min_gp));
    lemma_text_total(first, test_from);
    if text_le(first, test_from) && text_le(test_from, date) {
        lemma_text_transitive(first, test_from, date);
    }
    if !text_le(first, test_from) && text_le(first, date) {
        lemma_text_transitive(test_from, first, date);
    }
}

/// Each tested month that has games enough before it is planned, and no other is: a plan
/// is listed for it, with five hundred games or more to train with.
pub proof fn lemma_months_are_planned<R>(
    all: Seq<Sample<R>>,
    months: Seq<Seq<char>>,
    test_from: Seq<char>,
    min_gp: usize,
    month: Seq<char>,
)
    ensures
        months.contains(month) && month_plan(all, month, test_from, min_gp).train.len() >= 500
            && month_plan(all, month, test_from, min_gp).test.len() > 0 ==> month_plans(
            all,
            months,
            test_from,
            min_gp,
        ).contains(month_plan(all, month, test_from, min_gp)),
        forall|i: int|
            0 <= i < month_plans(all, months, test_from, min_gp).len() ==> {
                let plan = #[trigger] month_plans(all, months, test_from, min_gp)[i];
                &&& plan.train.len() >= 500
                &&& plan.test.len() > 0
                &&& months.contains(plan.label)
                &&& plan == month_plan(all, plan.label, test_from, min_gp)
            },
    decreases months.len(),
{
    if months.len() > 0 {
        let rest = months.drop_last();
        lemma_months_are_planned(all, rest, test_from, min_gp, month);
        let before = month_plans(all, rest, test_from, min_gp);
        let plans = month_plans(all, months, test_from, min_gp);
        let last = month_plan(all, months.last(), test_from, min_gp);
        if months.contains(month) {
            let k = choose|k: int| 0 <= k < months.len() && months[k] == month;
            let plan = month_plan(all, month, test_from, min_gp);
            if k < rest.len() {
                assert(rest[k] == month);
                if before.contains(plan) {
                    let j = choose|j: int| 0 <= j < before.len() && before[j] == plan;
                    assert(plans[j] == plan);
                }
            } else if is_planned(last) {
                assert(plans[before.len() as int] == plan);
            }
        }
        assert forall|i: int| 0 <= i < plans.len() implies {
            let plan = #[trigger] plans[i];
            &&& plan.train.len() >= 500
            &&& plan.test.len() > 0
            &&& months.contains(plan.label)
            &&& plan == month_plan(all, plan.label, test_from, min_gp)
        } by {
            if i < before.len() {
                assert(plans[i] == before[i]);
                assert(rest.contains(before[i].label));
                let k = choose|k: int| 0 <= k < rest.len() && rest[k] == before[i].label;
                assert(months[k] == before[i].label);
            } else {
                assert(months[months.len() - 1] == last.label);
            }
        }
    }
}

/// A day is forecast from exactly the rows of teams that have played often enough which
/// are dated before the cutoff, and tested with exactly those of the day itself. It is the
/// first day from the cutoff on with such a row.
pub proof fn lemma_day_plan_divides_the_rows<R>(
    all: Seq<Sample<R>>,
    cutoff: Seq<char>,
    min_gp: usize,
    plan: DayPlan,
    row: usize,
)
    requires
        all.len() <= usize::MAX,
        is_first_day(all, cutoff, min_gp, plan.day@),
        plan.train@ == picked(all.len() as int, is_before(all, cutoff, min_gp)),
        plan.test@ == picked(all.len() as int, is_on(all, plan.day@, min_gp)),
    ensures
        ({
            let date = all[row as int].date@;
            let known = row < all.len() && all[row as int].home_gp >= min_gp
                && all[row as int].away_gp >= min_gp;
            &&& plan.train@.contains(row) <==> known && text_lt(date, cutoff)
            &&& plan.test@.contains(row) <==> known && date == plan.day@
            &&& known && !text_lt(date, cutoff) ==> !text_lt(date, plan.day@)
            &&& !text_lt(plan.day@, cutoff)
            &&& plan.test@.len() > 0
        }),
{
    let n = all.len() as int;
    lemma_picked_rows(n, is_before(all, cutoff, min_gp), row);
    lemma_picked_rows(n, is_on(all, plan.day@, min_gp), row);
    let k = choose|k: int|
        0 <= k < all.len() && (#[trigger] all[k]).date@ == plan.day@ && is_from(
            all,
            cutoff,
            min_gp,
        )(k);
    lemma_picked_rows(n, is_on(all, plan.day@, min_gp), k as usize);
    if row < all.len() && is_from(all, cutoff, min_gp)(row as int) {
        assert(text_le(plan.day@, all[row as int].date@));
    }
}

/// Splits a list in two at `cut`: the first part to train with, the last part to
/// stop training by.
pub fn split_history(rows: &Vec<usize>, cut: usize) -> (r: (Vec<usize>, Vec<usize>))
    requires
        cut <= rows@.len(),
    ensures
        r.0@ == rows@.take(cut as int),
        r.1@ == rows@.skip(cut as int),
{
    let mut head: Vec<usize> = Vec::new();
    let mut last: Vec<usize> = Vec::new();
    let mut i: usize = 0;
    assert(rows@.subrange(cut as int, cut as int) =~= Seq::<usize>::empty());
    while i < rows.len()
        invariant
            i <= rows@.len(),
            cut <= rows@.len(),
            head@ == rows@.take(if i < cut {
                i as int
            } else {
                cut as int
            }),
            last@ == rows@.subrange(
                cut as int,
                if i < cut {
                    cut as int
                } else {
                    i as int
                },
            ),
        decreases rows@.len() - i,
    {
        if i < cut {
            head.push(rows[i]);
            assert(head@ =~= rows@.take(i + 1));
        } else {
            last.push(rows[i]);
            assert(last@ =~= rows@.subrange(cut as int, i + 1));
        }
        i += 1;
    }
    assert(last@ =~= rows@.skip(cut as int));
    (head, last)
}

// --------------------------------------------------------------------- counts

/// How many there are, and how many of them are good.
#[derive(Debug, Clone, Copy, PartialEq, Eq, Structural)]
pub struct Tally {
    pub n: usize,
    pub hits: usize,
}

/// The places where both lists are true, up to the end of the shorter one.
pub open spec fn both(a: Seq<bool>, b: Seq<bool>) -> Seq<bool> {
    Seq::new(
        if a.len() < b.len() {
            a.len()
        } else {
            b.len()
        },
        |i: int| a[i] && b[i],
    )
}

/// The places where the lists agree, up to the end of the shorter one.
pub open spec fn agreements(a: Seq<bool>, b: Seq<bool>) -> Seq<bool> {
    Seq::new(
        if a.len() < b.len() {
            a.len()
        } else {
            b.len()
        },
        |i: int| a[i] == b[i],
    )
}

/// Counts the forecasts in a band, and the good ones among them.
pub fn tally(in_band: &[bool], good: &[bool]) -> (t: Tally)
    requires
        in_band@.len() == good@.len(),
    ensures
        t.n == count_true(in_band@),
        t.hits == count_true(both(in_band@, good@)),
        t.hits <= t.n <= in_band@.len(),
{
    let mut t = Tally { n: 0, hits: 0 };
    let ghost hits = both(in_band@, good@);
    let mut i: usize = 0;
    assert(in_band@.take(0) =~= Seq::<bool>::empty());
    assert(hits.take(0) =~= Seq::<bool>::empty());
    while i < in_band.len()
        invariant
            i <= in_band@.len(),
            in_band@.len() == good@.len(),
            hits == both(in_band@, good@),
            t.n == count_true(in_band@.take(i as int)),
            t.hits == count_true(hits.take(i as int)),
            t.hits <= t.n <= i,
        decreases in_band@.len() - i,
    {
        assert(in_band@.take(i + 1).drop_last() =~= in_band@.take(i as int));
        assert(hits.take(i + 1).drop_last() =~= hits.take(i as int));
        if in_band[i] {
            t.n = t.n + 1;
            if good[i] {
                t.hits = t.hits + 1;
            }
        }
        i += 1;
    }
    assert(in_band@.take(i as int) =~= in_band@);
    assert(hits.take(i as int) =~= hits);
    t
}

/// How many picks of the winner were right.
pub fn count_hits(picks: &[bool], outcomes: &[bool]) -> (n: usize)
    ensures
        n == count_true(agreements(picks@, outcomes@)),
        n <= picks@.len(),
{
    let ghost hits = agreements(picks@, outcomes@);
    let mut n: usize = 0;
    let mut i: usize = 0;
    assert(hits.take(0) =~= Seq::<bool>::empty());
    while i < picks.len() && i < outcomes.len()
        invariant
            i <= picks@.len(),
            i <= outcomes@.len(),
            hits == agreements(picks@, outcomes@),
            n == count_true(hits.take(i as int)),
            n <= i,
        decreases picks@.len() - i,
    {
        assert(hits.take(i + 1).drop_last() =~= hits.take(i as int));
        if picks[i] == outcomes[i] {
            n = n + 1;
        }
        i += 1;
    }
    assert(hits.take(i as int) =~= hits);
    n
}

/// The place of the largest key, the last of several.
pub fn last_largest(keys: &[i64]) -> (r: Option<usize>)
    ensures
        match r {
            Some(p) => {
                &&& p < keys@.len()
                &&& forall|i: int| 0 <= i <= p ==> #[trigger] keys@[i] <= keys@[p as int]
                &&& forall|i: int| p < i < keys@.len() ==> #[trigger] keys@[i] < keys@[p as int]
            },
            None => keys@.len() == 0,
        },
{
    if keys.len() == 0 {
        return None;
    }
    let mut p: usize = 0;
    let mut i: usize = 1;
    while i < keys.len()
        invariant
            p < i <= keys@.len(),
            forall|k: int| 0 <= k <= p ==> #[trigger] keys@[k] <= keys@[p as int],
            forall|k: int| p < k < i ==> #[trigger] keys@[k] < keys@[p as int],
        decreases keys@.len() - i,
    {
        if keys[i] >= keys[p] {
            p = i;
        }
        i += 1;
    }
    Some(p)
}

/// The place of the smallest key, the first of several.
pub fn first_smallest(keys: &[i64]) -> (r: Option<usize>)
    ensures
        match r {
            Some(p) => {
                &&& p < keys@.len()
                &&& forall|i: int| 0 <= i < p ==> #[trigger] keys@[i] > keys@[p as int]
                &&& forall|i: int| p <= i < keys@.len() ==> #[trigger] keys@[i] >= keys@[p as int]
            },
            None => keys@.len() == 0,
        },
{
    if keys.len() == 0 {
        return None;
    }
    let mut p: usize = 0;
    let mut i: usize = 1;
    while i < keys.len()
        invariant
            p < i <= keys@.len(),
            forall|k: int| 0 <= k < p ==> #[trigger] keys@[k] > keys@[p as int],
            forall|k: int| p <= k < i ==> #[trigger] keys@[k] >= keys@[p as int],
        decreases keys@.len() - i,
    {
        if keys[i] < keys[p] {
            p = i;
        }
        i += 1;
    }
    Some(p)
}

// ------------------------------------------------------------------ aggregate

/// The forecasts of all the blocks, in one list each.
#[derive(Debug, Clone)]
pub struct Pooled<R> {
    pub probs: Vec<R>,
    pub labels: Vec<R>,
    pub elo: Vec<R>,
    pub record: Vec<R>,
    pub home: Vec<R>,
}

pub open spec fn all_probs<R>(blocks: Seq<Block<R>>) -> Seq<R>
    decreases blocks.len(),
{
    if blocks.len() == 0 {
        Seq::empty()
    } else {
        all_probs(blocks.drop_last()) + blocks.last().probs@
    }
}

pub open spec fn all_labels<R>(blocks: Seq<Block<R>>) -> Seq<R>
    decreases blocks.len(),
{
    if blocks.len() == 0 {
        Seq::empty()
    } else {
        all_labels(blocks.drop_last()) + blocks.last().labels@
    }
}

pub open spec fn elo_probs<R>(samples: Seq<Sample<R>>) -> Seq<R> {
    Seq::new(samples.len(), |i: int| samples[i].elo_prob)
}

pub open spec fn all_elo<R>(blocks: Seq<Block<R>>) -> Seq<R>
    decreases blocks.len(),
{
    if blocks.len() == 0 {
        Seq::empty()
    } else {
        all_elo(blocks.drop_last()) + elo_probs(blocks.last().samples@)
    }
}

pub open spec fn all_record<R>(blocks: Seq<Block<R>>) -> Seq<R>
    decreases blocks.len(),
{
    if blocks.len() == 0 {
        Seq::empty()
    } else {
        all_record(blocks.drop_last()) + blocks.last().records@
    }
}

/// How many games the blocks have.
pub open spec fn all_games<R>(blocks: Seq<Block<R>>) -> nat
    decreases blocks.len(),
{
    if blocks.len() == 0 {
        0
    } else {
        all_games(blocks.drop_last()) + blocks.last().samples@.len()
    }
}

proof fn lemma_columns_are_even<R>(blocks: Seq<Block<R>>)
    requires
        forall|i: int| 0 <= i < blocks.len() ==> (#[trigger] blocks[i]).is_even(),
    ensures
        all_probs(blocks).len() == all_games(blocks),
        all_labels(blocks).len() == all_games(blocks),
        all_elo(blocks).len() == all_games(blocks),
        all_record(blocks).len() == all_games(blocks),
    decreases blocks.len(),
{
    if blocks.len() > 0 {
        let rest = blocks.drop_last();
        assert forall|i: int| 0 <= i < rest.len() implies (#[trigger] rest[i]).is_even() by {
            assert(rest[i] == blocks[i]);
        }
        lemma_columns_are_even(rest);
        assert(blocks[blocks.len() - 1].is_even());
    }
}

/// The forecast by the better record: `likely` for the home team where its record is
/// not the worse one, else `unlikely`.
pub fn record_column<R: Copy>(home_better: &[bool], likely: R, unlikely: R) -> (out: Vec<R>)
    ensures
        out@.len() == home_better@.len(),
        forall|i: int|
            0 <= i < out@.len() ==> #[trigger] out@[i] == if home_better@[i] {
                likely
            } else {
                unlikely
            },
{
    let mut out: Vec<R> = Vec::new();
    let mut i: usize = 0;
    while i < home_better.len()
        invariant
            i <= home_better@.len(),
            out@.len() == i,
            forall|k: int|
                0 <= k < i ==> #[trigger] out@[k] == if home_better@[k] {
                    likely
                } else {
                    unlikely
                },
        decreases home_better@.len() - i,
    {
        out.push(
            if home_better[i] {
                likely
            } else {
                unlikely
            },
        );
        i += 1;
    }
    out
}

fn push_all<R: Copy>(out: &mut Vec<R>, items: &Vec<R>)
    ensures
        final(out)@ == old(out)@ + items@,
{
    let ghost before = out@;
    let mut i: usize = 0;
    assert(before + items@.take(0) =~= before);
    while i < items.len()
        invariant
            i <= items@.len(),
            out@ == before + items@.take(i as int),
        decreases items@.len() - i,
    {
        out.push(items[i]);
        assert(before + items@.take(i + 1) =~= (before + items@.take(i as int)).push(
            items@[i as int],
        ));
        i += 1;
    }
    assert(items@.take(i as int) =~= items@);
}

/// The chances by the ratings, sample by sample.
pub fn elo_column<R: Copy>(samples: &Vec<Sample<R>>) -> (out: Vec<R>)
    ensures
        out@ == elo_probs(samples@),
{
    let mut out: Vec<R> = Vec::new();
    let mut i: usize = 0;
    while i < samples.len()
        invariant
            i <= samples@.len(),
            out@ == elo_probs(samples@).take(i as int),
        decreases samples@.len() - i,
    {
        out.push(samples[i].elo_prob);
        assert(out@ =~= elo_probs(samples@).take(i + 1));
        i += 1;
    }
    assert(elo_probs(samples@).take(i as int) =~= elo_probs(samples@));
    out
}

/// Joins the blocks: the forecasts of the model, the outcomes, the chances by the
/// ratings, the forecasts by the better record, and as many certain forecasts for the
/// home team, each written `one`.
pub fn aggregate<R: Copy>(blocks: &Vec<Block<R>>, one: R) -> (p: Pooled<R>)
    ensures
        p.probs@ == all_probs(blocks@),
        p.labels@ == all_labels(blocks@),
        p.elo@ == all_elo(blocks@),
        p.record@ == all_record(blocks@),
        (forall|i: int| 0 <= i < blocks@.len() ==> (#[trigger] blocks@[i]).is_even()) ==> {
            &&& p.probs@.len() == all_games(blocks@)
            &&& p.labels@.len() == all_games(blocks@)
            &&& p.elo@.len() == all_games(blocks@)
            &&& p.record@.len() == all_games(blocks@)
            &&& p.home@.len() == all_games(blocks@)
        },
        p.home@ == Seq::new(all_probs(blocks@).len(), |i: int| one),
{
    let mut p = Pooled {
        probs: Vec::new(),
        labels: Vec::new(),
        elo: Vec::new(),
        record: Vec::new(),
        home: Vec::new(),
    };
    let mut i: usize = 0;
    assert(blocks@.take(0) =~= Seq::<Block<R>>::empty());
    while i < blocks.len()
        invariant
            i <= blocks@.len(),
            p.probs@ == all_probs(blocks@.take(i as int)),
            p.labels@ == all_labels(blocks@.take(i as int)),
            p.elo@ == all_elo(blocks@.take(i as int)),
            p.record@ == all_record(blocks@.take(i as int)),
        decreases blocks@.len() - i,
    {
        assert(blocks@.take(i + 1).drop_last() =~= blocks@.take(i as int));
        push_all(&mut p.probs, &blocks[i].probs);
        push_all(&mut p.labels, &blocks[i].labels);
        let elo = elo_column(&blocks[i].samples);
        push_all(&mut p.elo, &elo);
        push_all(&mut p.record, &blocks[i].records);
        i += 1;
    }
    assert(blocks@.take(i as int) =~= blocks@);
    let n = p.probs.len();
    let mut home: Vec<R> = Vec::new();
    let mut k: usize = 0;
    while k < n
        invariant
            k <= n,
            home@ == Seq::new(k as nat, |i: int| one),
        decreases n - k,
    {
        home.push(one);
        k += 1;
        assert(home@ =~= Seq::new(k as nat, |i: int| one));
    }
    proof {
        if forall|i: int| 0 <= i < blocks@.len() ==> (#[trigger] blocks@[i]).is_even() {
            lemma_columns_are_even(blocks@);
        }
    }
    Pooled { probs: p.probs, labels: p.labels, elo: p.elo, record: p.record, home }
}

/// Forecasts that are compared, under a name.
#[derive(Debug, Clone)]
pub struct Contender<R> {
    pub name: String,
    pub probs: Vec<R>,
}

/// What is compared: the model and always the three baselines, by the ratings, by the
/// better record, and the home team. All are judged by the same outcomes.
pub fn contenders<R>(p: Pooled<R>) -> (r: (Vec<Contender<R>>, Vec<R>))
    ensures
        r.1@ == p.labels@,
        r.0@.len() == 4,
        r.0@[0].name@ == "Red neuronal"@ && r.0@[0].probs@ == p.probs@,
        r.0@[1].name@ == "Baseline: Elo"@ && r.0@[1].probs@ == p.elo@,
        r.0@[2].name@ == "Baseline: mejor record"@ && r.0@[2].probs@ == p.record@,
        r.0@[3].name@ == "Baseline: siempre local"@ && r.0@[3].probs@ == p.home@,
{
    let list = vec![
        Contender { name: "Red neuronal".to_owned(), probs: p.probs },
        Contender { name: "Baseline: Elo".to_owned(), probs: p.elo },
        Contender { name: "Baseline: mejor record".to_owned(), probs: p.record },
        Contender { name: "Baseline: siempre local".to_owned(), probs: p.home },
    ];
    (list, p.labels)
}

// ----------------------------------------------------------------------- names

/// A name of at most 25 characters: a longer one is cut to 24 and a point.
pub open spec fn trimmed(s: Seq<char>) -> Seq<char> {
    if s.len() > 25 {
        s.take(24).push('.')
    } else {
        s
    }
}

pub fn trim(s: &str) -> (r: String)
    ensures
        r@ == trimmed(s@),
        r@.len() <= 25,
{
    let n = s.unicode_len();
    if n > 25 {
        proof {
            reveal_strlit(".");
        }
        let mut r = s.substring_char(0, 24).to_owned();
        r.append(".");
        assert(r@ =~= s@.take(24).push('.'));
        r
    } else {
        s.to_owned()
    }
}

// -------------------------------------------------------------- laws of counts

/// The places of a list that are true.
pub open spec fn true_places(s: Seq<bool>) -> Set<int> {
    Set::new(|i: int| 0 <= i < s.len() && s[i])
}

/// A count is the number of the places that it counts.
pub proof fn lemma_count_is_of_places(s: Seq<bool>)
    ensures
        true_places(s).finite(),
        count_true(s) == true_places(s).len(),
    decreases s.len(),
{
    if s.len() == 0 {
        assert(true_places(s) =~= Set::empty());
    } else {
        let rest = s.drop_last();
        lemma_count_is_of_places(rest);
        if s.last() {
            assert(true_places(s) =~= true_places(rest).insert(s.len() - 1));
        } else {
            assert(true_places(s) =~= true_places(rest));
        }
    }
}

/// Of two lists of the same length, those that are counted as right are the places where
/// the pick and the outcome are the same, and the good ones of a band those that are in it
/// and good.
pub proof fn lemma_hits_are_of_places(a: Seq<bool>, b: Seq<bool>, i: int)
    requires
        a.len() == b.len(),
    ensures
        true_places(agreements(a, b)).contains(i) <==> 0 <= i < a.len() && a[i] == b[i],
        true_places(both(a, b)).contains(i) <==> 0 <= i < a.len() && a[i] && b[i],
        count_true(agreements(a, b)) == true_places(agreements(a, b)).len(),
        count_true(both(a, b)) == true_places(both(a, b)).len(),
{
    lemma_count_is_of_places(agreements(a, b));
    lemma_count_is_of_places(both(a, b));
}

/// In the joined lists each game has one place, the same in all of them: its forecast by
/// the model, its outcome, its chances by the ratings and its forecast by the better record
/// stand there.
pub proof fn lemma_games_keep_their_place<R>(blocks: Seq<Block<R>>, b: int, i: int)
    requires
        forall|k: int| 0 <= k < blocks.len() ==> (#[trigger] blocks[k]).is_even(),
        0 <= b < blocks.len(),
        0 <= i < blocks[b].samples@.len(),
    ensures
        ({
            let place = all_games(blocks.take(b)) + i;
            &&& 0 <= place < all_games(blocks)
            &&& all_probs(blocks)[place] == blocks[b].probs@[i]
            &&& all_labels(blocks)[place] == blocks[b].labels@[i]
            &&& all_elo(blocks)[place] == blocks[b].samples@[i].elo_prob
            &&& all_record(blocks)[place] == blocks[b].records@[i]
        }),
    decreases blocks.len(),
{
    let rest = blocks.drop_last();
    assert forall|k: int| 0 <= k < rest.len() implies (#[trigger] rest[k]).is_even() by {
        assert(rest[k] == blocks[k]);
    }
    lemma_columns_are_even(rest);
    assert(blocks[blocks.len() - 1].is_even());
    if b < rest.len() {
        assert(rest[b] == blocks[b]);
        assert(rest.take(b) =~= blocks.take(b));
        lemma_games_keep_their_place(rest, b, i);
    } else {
        assert(blocks.take(b) =~= rest);
    }
}

/// A name of up to 25 characters is written whole; of a longer one its first 24 characters
/// and a point are.
pub proof fn lemma_names_are_cut(s: Seq<char>, i: int)
    ensures
        s.len() <= 25 ==> trimmed(s) == s,
        s.len() > 25 ==> trimmed(s).len() == 25 && trimmed(s)[24] == '.',
        0 <= i < 24 && i < s.len() ==> trimmed(s)[i] == s[i],
{
}

/// The months that are planned follow one another, each with a plan of its own: at least
/// 500 games to train with, and a game to test.
pub proof fn lemma_plans_follow_the_months<R>(
    all: Seq<Sample<R>>,
    months: Seq<Seq<char>>,
    test_from: Seq<char>,
    min_gp: usize,
)
    requires
        forall|j: int, k: int| 0 <= j < k < months.len() ==> text_lt(months[j], months[k]),
    ensures
        ({
            let plans = month_plans(all, months, test_from, min_gp);
            &&& forall|j: int, k: int|
                0 <= j < k < plans.len() ==> text_lt(
                    (#[trigger] plans[j]).label,
                    (#[trigger] plans[k]).label,
                )
            &&& forall|k: int|
                0 <= k < plans.len() ==> {
                    &&& (#[trigger] plans[k]).train.len() >= 500
                    &&& plans[k].test.len() >= 1
                    &&& months.contains(plans[k].label)
                }
        }),
    decreases months.len(),
{
    if months.len() > 0 {
        let rest = months.drop_last();
        lemma_plans_follow_the_months(all, rest, test_from, min_gp);
        let before = month_plans(all, rest, test_from, min_gp);
        let plans = month_plans(all, months, test_from, min_gp);
        assert(months[months.len() - 1] == months.last());
        assert forall|k: int| 0 <= k < plans.len() implies {
            &&& (#[trigger] plans[k]).train.len() >= 500
            &&& plans[k].test.len() >= 1
            &&& months.contains(plans[k].label)
        } by {
            if k < before.len() {
                assert(plans[k] == before[k]);
                let m = choose|m: int| 0 <= m < rest.len() && rest[m] == before[k].label;
                assert(months[m] == plans[k].label);
            }
        }
        assert forall|j: int, k: int| 0 <= j < k < plans.len() implies text_lt(
            (#[trigger] plans[j]).label,
            (#[trigger] plans[k]).label,
        ) by {
            assert(plans[j] == before[j]);
            if k < before.len() {
                assert(plans[k] == before[k]);
            } else {
                let m = choose|m: int| 0 <= m < rest.len() && rest[m] == before[j].label;
                assert(months[m] == plans[j].label);
                assert(text_lt(months[m], months[months.len() - 1]));
            }
        }
    }
}

} // verus!
