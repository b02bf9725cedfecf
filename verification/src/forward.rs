//! What holds of the validation month by month as a whole: later games change
//! nothing of what was planned before them.

use vstd::prelude::*;
use crate::backtest::{
    history_end, is_before, is_from, is_in_month, is_month_list, is_planned, is_tested, is_usable,
    lemma_ascending_lists_agree, month_plan, month_plans, picked, MonthPlanView,
};
use crate::features::Sample;
use crate::text::{
    has_month, lemma_month_before_day, lemma_months_follow_dates, lemma_text_total,
    lemma_text_transitive, month_of, text_le, text_lt,
};

verus! {

/// The items of a list that satisfy `p`, in order.
pub open spec fn those<T>(s: Seq<T>, p: spec_fn(T) -> bool) -> Seq<T>
    decreases s.len(),
{
    if s.len() == 0 {
        Seq::empty()
    } else if p(s.last()) {
        those(s.drop_last(), p).push(s.last())
    } else {
        those(s.drop_last(), p)
    }
}

proof fn lemma_those_contains<T>(s: Seq<T>, p: spec_fn(T) -> bool, x: T)
    ensures
        those(s, p).contains(x) <==> s.contains(x) && p(x),
    decreases s.len(),
{
    if s.len() > 0 {
        let rest = s.drop_last();
        let t = those(rest, p);
        lemma_those_contains(rest, p, x);
        if s.contains(x) {
            let i = choose|i: int| 0 <= i < s.len() && s[i] == x;
            if i < rest.len() {
                assert(rest[i] == x);
            }
        }
        if rest.contains(x) {
            let i = choose|i: int| 0 <= i < rest.len() && rest[i] == x;
            assert(s[i] == x);
        }
        if p(s.last()) {
            let u = t.push(s.last());
            if t.contains(x) {
                let i = choose|i: int| 0 <= i < t.len() && t[i] == x;
                assert(u[i] == x);
            }
            assert(u[t.len() as int] == s.last());
            if u.contains(x) {
                let i = choose|i: int| 0 <= i < u.len() && u[i] == x;
                if i < t.len() {
                    assert(t[i] == x);
                }
            }
        }
        assert(s[s.len() - 1] == s.last());
    }
}

/// Choosing from what was chosen more widely is choosing from all.
proof fn lemma_those_of_those<T>(s: Seq<T>, p: spec_fn(T) -> bool, q: spec_fn(T) -> bool)
    requires
        forall|i: int| 0 <= i < s.len() && p(#[trigger] s[i]) ==> q(s[i]),
    ensures
        those(those(s, q), p) == those(s, p),
    decreases s.len(),
{
    if s.len() > 0 {
        let rest = s.drop_last();
        assert forall|i: int| 0 <= i < rest.len() && p(#[trigger] rest[i]) implies q(rest[i]) by {
            assert(rest[i] == s[i]);
        }
        lemma_those_of_those(rest, p, q);
        assert(p(s[s.len() - 1]) ==> q(s[s.len() - 1]));
        if q(s.last()) {
            assert(those(s, q).drop_last() =~= those(rest, q));
        }
    }
}

/// The samples at some places.
pub open spec fn samples_at<R>(all: Seq<Sample<R>>, rows: Seq<usize>) -> Seq<Sample<R>> {
    Seq::new(rows.len(), |k: int| all[rows[k] as int])
}

proof fn lemma_picked_samples<R>(
    all: Seq<Sample<R>>,
    n: int,
    at: spec_fn(int) -> bool,
    p: spec_fn(Sample<R>) -> bool,
)
    requires
        0 <= n <= all.len() <= usize::MAX,
        forall|i: int| 0 <= i < n ==> at(i) == p(#[trigger] all[i]),
    ensures
        samples_at(all, picked(n, at)) == those(all.take(n), p),
    decreases n,
{
    if n > 0 {
        lemma_picked_samples(all, n - 1, at, p);
        assert(all.take(n).drop_last() =~= all.take(n - 1));
        assert(at(n - 1) == p(all[n - 1]));
        assert(all.take(n).last() == all[n - 1]);
        if at(n - 1) {
            assert(samples_at(all, picked(n, at)) =~= samples_at(all, picked(n - 1, at)).push(
                all[n - 1],
            ));
        }
    } else {
        assert(samples_at(all, picked(n, at)) =~= Seq::<Sample<R>>::empty());
    }
}

/// Dated in a month or in an earlier one.
pub open spec fn is_up_to<R>(month: Seq<char>) -> spec_fn(Sample<R>) -> bool {
    |s: Sample<R>| text_le(month_of(s.date@), month)
}

/// No later than a month.
pub open spec fn is_month_up_to(last: Seq<char>) -> spec_fn(Seq<char>) -> bool {
    |m: Seq<char>| text_le(m, last)
}

/// Usable and dated strictly before a date.
pub open spec fn is_dated_before<R>(date: Seq<char>, min_gp: usize) -> spec_fn(Sample<R>) -> bool {
    |s: Sample<R>| text_lt(s.date@, date) && is_usable(s, min_gp)
}

/// Usable and dated in a month, on a date or later.
pub open spec fn is_dated_in<R>(
    month: Seq<char>,
    test_from: Seq<char>,
    min_gp: usize,
) -> spec_fn(Sample<R>) -> bool {
    |s: Sample<R>|
        month_of(s.date@) == month && text_le(test_from, s.date@) && is_usable(s, min_gp)
}

/// A block of the validation: a month, the games its model is trained on, and the
/// games it is tested on.
#[verifier::ext_equal]
pub struct BlockGames<R> {
    pub label: Seq<char>,
    pub train: Seq<Sample<R>>,
    pub test: Seq<Sample<R>>,
}

pub open spec fn games_of_plan<R>(all: Seq<Sample<R>>, plan: MonthPlanView) -> BlockGames<R> {
    BlockGames {
        label: plan.label,
        train: samples_at(all, plan.train),
        test: samples_at(all, plan.test),
    }
}

/// The blocks of the months up to a month.
pub open spec fn blocks_up_to<R>(
    all: Seq<Sample<R>>,
    plans: Seq<MonthPlanView>,
    last: Seq<char>,
) -> Seq<BlockGames<R>>
    decreases plans.len(),
{
    if plans.len() == 0 {
        Seq::empty()
    } else {
        let before = blocks_up_to(all, plans.drop_last(), last);
        if text_le(plans.last().label, last) {
            before.push(games_of_plan(all, plans.last()))
        } else {
            before
        }
    }
}

/// The blocks of some months.
spec fn blocks_of<R>(
    all: Seq<Sample<R>>,
    months: Seq<Seq<char>>,
    test_from: Seq<char>,
    min_gp: usize,
) -> Seq<BlockGames<R>>
    decreases months.len(),
{
    if months.len() == 0 {
        Seq::empty()
    } else {
        let before = blocks_of(all, months.drop_last(), test_from, min_gp);
        let plan = month_plan(all, months.last(), test_from, min_gp);
        if is_planned(plan) {
            before.push(games_of_plan(all, plan))
        } else {
            before
        }
    }
}

proof fn lemma_blocks_of_months<R>(
    all: Seq<Sample<R>>,
    months: Seq<Seq<char>>,
    test_from: Seq<char>,
    min_gp: usize,
    last: Seq<char>,
)
    ensures
        blocks_up_to(all, month_plans(all, months, test_from, min_gp), last) == blocks_of(
            all,
            those(months, is_month_up_to(last)),
            test_from,
            min_gp,
        ),
    decreases months.len(),
{
    if months.len() > 0 {
        let rest = months.drop_last();
        lemma_blocks_of_months(all, rest, test_from, min_gp, last);
        let kept = those(rest, is_month_up_to(last));
        let plan = month_plan(all, months.last(), test_from, min_gp);
        let plans = month_plans(all, months, test_from, min_gp);
        if is_planned(plan) {
            assert(plans.drop_last() =~= month_plans(all, rest, test_from, min_gp));
        }
        if text_le(months.last(), last) {
            assert(kept.push(months.last()).drop_last() =~= kept);
        }
    }
}

/// A tested month, and what its history ends with, lie within the months up to `last`.
proof fn lemma_plan_is_of_known_games<R>(
    all: Seq<Sample<R>>,
    month: Seq<char>,
    test_from: Seq<char>,
    min_gp: usize,
    last: Seq<char>,
)
    requires
        all.len() <= usize::MAX,
        forall|i: int| 0 <= i < all.len() ==> has_month((#[trigger] all[i]).date@),
        has_month(test_from),
        is_tested(all, all.len() as int, test_from, min_gp, month),
        text_le(month, last),
    ensures
        games_of_plan(all, month_plan(all, month, test_from, min_gp)) == (BlockGames {
            label: month,
            train: those(
                those(all, is_up_to(last)),
                is_dated_before::<R>(history_end(month, test_from), min_gp),
            ),
            test: those(
                those(all, is_up_to(last)),
                is_dated_in::<R>(month, test_from, min_gp),
            ),
        }),
{
    let n = all.len() as int;
    let end = history_end(month, test_from);
    let before = is_dated_before::<R>(end, min_gp);
    let inside = is_dated_in::<R>(month, test_from, min_gp);
    lemma_picked_samples(all, n, is_before(all, end, min_gp), before);
    lemma_picked_samples(all, n, is_in_month(all, month, test_from, min_gp), inside);
    assert(all.take(n) =~= all);
    let t = choose|t: int|
        0 <= t < n && is_from(all, test_from, min_gp)(t) && month_of((#[trigger] all[t]).date@)
            == month;
    assert forall|i: int| 0 <= i < n && before(#[trigger] all[i]) implies is_up_to(last)(all[i]) by {
        let date = all[i].date@;
        lemma_text_total(date, end);
        if end == test_from {
            lemma_months_follow_dates(date, test_from);
            lemma_months_follow_dates(test_from, all[t].date@);
            lemma_text_transitive(month_of(date), month_of(test_from), month);
        } else {
            lemma_month_before_day(date, all[t].date@, "-01"@);
        }
        lemma_text_transitive(month_of(date), month, last);
    }
    lemma_those_of_those(all, before, is_up_to(last));
    lemma_those_of_those(all, inside, is_up_to(last));
}

/// Whether a month up to `last` is tested shows in the games up to `last`.
proof fn lemma_tested_shows<R>(
    a: Seq<Sample<R>>,
    b: Seq<Sample<R>>,
    test_from: Seq<char>,
    min_gp: usize,
    month: Seq<char>,
    last: Seq<char>,
)
    requires
        those(a, is_up_to(last)) == those(b, is_up_to(last)),
        is_tested(a, a.len() as int, test_from, min_gp, month),
        text_le(month, last),
    ensures
        is_tested(b, b.len() as int, test_from, min_gp, month),
{
    let i = choose|i: int|
        0 <= i < a.len() && is_from(a, test_from, min_gp)(i) && month_of((#[trigger] a[i]).date@)
            == month;
    let x = a[i];
    assert(a.contains(x));
    lemma_those_contains(a, is_up_to(last), x);
    lemma_those_contains(b, is_up_to(last), x);
    let j = choose|j: int| 0 <= j < b.len() && b[j] == x;
    assert(is_from(b, test_from, min_gp)(j) && month_of(b[j].date@) == month);
}

proof fn lemma_those_ascend(s: Seq<Seq<char>>, p: spec_fn(Seq<char>) -> bool)
    requires
        forall|j: int, k: int| 0 <= j < k < s.len() ==> text_lt(s[j], s[k]),
    ensures
        forall|j: int, k: int|
            0 <= j < k < those(s, p).len() ==> text_lt(those(s, p)[j], those(s, p)[k]),
    decreases s.len(),
{
    if s.len() > 0 {
        let rest = s.drop_last();
        let t = those(rest, p);
        let u = those(s, p);
        lemma_those_ascend(rest, p);
        assert forall|j: int, k: int| 0 <= j < k < u.len() implies text_lt(u[j], u[k]) by {
            if k < t.len() {
                assert(u[j] == t[j] && u[k] == t[k]);
            } else {
                assert(u[j] == t[j]);
                lemma_those_contains(rest, p, t[j]);
                assert(t.contains(t[j]));
                let i = choose|i: int| 0 <= i < rest.len() && rest[i] == t[j];
                assert(text_lt(s[i], s[s.len() - 1]));
            }
        }
    }
}

proof fn lemma_blocks_agree<R>(
    a: Seq<Sample<R>>,
    b: Seq<Sample<R>>,
    months: Seq<Seq<char>>,
    test_from: Seq<char>,
    min_gp: usize,
    last: Seq<char>,
)
    requires
        a.len() <= usize::MAX,
        b.len() <= usize::MAX,
        forall|i: int| 0 <= i < a.len() ==> has_month((#[trigger] a[i]).date@),
        forall|i: int| 0 <= i < b.len() ==> has_month((#[trigger] b[i]).date@),
        has_month(test_from),
        those(a, is_up_to(last)) == those(b, is_up_to(last)),
        forall|k: int|
            0 <= k < months.len() ==> text_le(#[trigger] months[k], last) && is_tested(
                a,
                a.len() as int,
                test_from,
                min_gp,
                months[k],
            ),
    ensures
        blocks_of(a, months, test_from, min_gp) == blocks_of(b, months, test_from, min_gp),
    decreases months.len(),
{
    if months.len() > 0 {
        let rest = months.drop_last();
        assert forall|k: int| 0 <= k < rest.len() implies text_le(#[trigger] rest[k], last)
            && is_tested(a, a.len() as int, test_from, min_gp, rest[k]) by {
            assert(rest[k] == months[k]);
        }
        lemma_blocks_agree(a, b, rest, test_from, min_gp, last);
        let month = months[months.len() - 1];
        lemma_tested_shows(a, b, test_from, min_gp, month, last);
        lemma_plan_is_of_known_games(a, month, test_from, min_gp, last);
        lemma_plan_is_of_known_games(b, month, test_from, min_gp, last);
        let p = month_plan(a, month, test_from, min_gp);
        let q = month_plan(b, month, test_from, min_gp);
        assert(samples_at(a, p.train).len() == samples_at(b, q.train).len());
        assert(samples_at(a, p.test).len() == samples_at(b, q.test).len());
    }
}

/// The model never sees the future: two lists of games that are the same up to the
/// end of a month, in the same order, lead to the same blocks up to that month,
/// whatever the later games are. Each block trains on the same games and is tested on
/// the same games.
pub proof fn lemma_later_games_change_no_plan<R>(
    a: Seq<Sample<R>>,
    b: Seq<Sample<R>>,
    months_a: Seq<Seq<char>>,
    months_b: Seq<Seq<char>>,
    test_from: Seq<char>,
    min_gp: usize,
    last: Seq<char>,
)
    requires
        a.len() <= usize::MAX,
        b.len() <= usize::MAX,
        forall|i: int| 0 <= i < a.len() ==> has_month((#[trigger] a[i]).date@),
        forall|i: int| 0 <= i < b.len() ==> has_month((#[trigger] b[i]).date@),
        has_month(test_from),
        those(a, is_up_to(last)) == those(b, is_up_to(last)),
        is_month_list(months_a, a, a.len() as int, test_from, min_gp),
        is_month_list(months_b, b, b.len() as int, test_from, min_gp),
    ensures
        blocks_up_to(a, month_plans(a, months_a, test_from, min_gp), last) == blocks_up_to(
            b,
            month_plans(b, months_b, test_from, min_gp),
            last,
        ),
{
    let known = is_month_up_to(last);
    let kept_a = those(months_a, known);
    let kept_b = those(months_b, known);
    lemma_blocks_of_months(a, months_a, test_from, min_gp, last);
    lemma_blocks_of_months(b, months_b, test_from, min_gp, last);
    lemma_those_ascend(months_a, known);
    lemma_those_ascend(months_b, known);
    assert forall|m: Seq<char>| #[trigger] kept_a.contains(m) <==> kept_b.contains(m) by {
        lemma_those_contains(months_a, known, m);
        lemma_those_contains(months_b, known, m);
        assert(months_a.contains(m) <==> is_tested(a, a.len() as int, test_from, min_gp, m));
        assert(months_b.contains(m) <==> is_tested(b, b.len() as int, test_from, min_gp, m));
        if kept_a.contains(m) {
            lemma_tested_shows(a, b, test_from, min_gp, m, last);
        }
        if kept_b.contains(m) {
            lemma_tested_shows(b, a, test_from, min_gp, m, last);
        }
    }
    lemma_ascending_lists_agree(kept_a, kept_b, 0);
    assert forall|k: int| 0 <= k < kept_a.len() implies text_le(#[trigger] kept_a[k], last)
        && is_tested(a, a.len() as int, test_from, min_gp, kept_a[k]) by {
        assert(kept_a.contains(kept_a[k]));
        lemma_those_contains(months_a, known, kept_a[k]);
        assert(months_a.contains(kept_a[k]));
    }
    lemma_blocks_agree(a, b, kept_a, test_from, min_gp, last);
}

} // verus!
