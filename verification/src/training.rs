//! The course of training: reproducible shuffling, batches, and early stopping.

use vstd::prelude::*;
use crate::features::{Ratio, Sample, NUM_FEATURES};
use crate::order::{is_permutation, lemma_permutation_hits};

verus! {

/// How a model is trained.
#[derive(Debug, Clone, Copy)]
pub struct TrainConfig<R> {
    pub epochs: usize,
    pub lr: R,
    pub batch_size: usize,
    pub hidden1: usize,
    pub hidden2: usize,
    pub dropout: R,
    pub weight_decay: R,
    pub patience: usize,
    pub seed: u64,
    pub verbose: bool,
}

impl Default for TrainConfig<Ratio> {
    fn default() -> (c: TrainConfig<Ratio>)
        ensures
            c == (TrainConfig {
                epochs: 120,
                lr: Ratio { num: 3, den: 1_000 },
                batch_size: 256,
                hidden1: 32,
                hidden2: 16,
                dropout: Ratio { num: 1, den: 4 },
                weight_decay: Ratio { num: 1, den: 10_000 },
                patience: 15,
                seed: 42,
                verbose: false,
            }),
            c.epochs == 120 && c.batch_size == 256 && c.patience == 15 && c.seed == 42,
            c.hidden1 == 32 && c.hidden2 == 16 && !c.verbose,
            c.lr@.num * 1_000 == 3 * c.lr@.den,
            c.dropout@.num * 4 == c.dropout@.den,
            c.weight_decay@.num * 10_000 == c.weight_decay@.den,
    {
        TrainConfig {
            epochs: 120,
            lr: Ratio { num: 3, den: 1_000 },
            batch_size: 256,
            hidden1: 32,
            hidden2: 16,
            dropout: Ratio { num: 1, den: 4 },
            weight_decay: Ratio { num: 1, den: 10_000 },
            patience: 15,
            seed: 42,
            verbose: false,
        }
    }
}

impl<R> TrainConfig<R> {
    /// The same training with its rates given in another type.
    pub fn with_rates<S>(self, lr: S, dropout: S, weight_decay: S) -> (c: TrainConfig<S>)
        ensures
            c == (TrainConfig {
                epochs: self.epochs,
                lr,
                batch_size: self.batch_size,
                hidden1: self.hidden1,
                hidden2: self.hidden2,
                dropout,
                weight_decay,
                patience: self.patience,
                seed: self.seed,
                verbose: self.verbose,
            }),
    {
        TrainConfig {
            epochs: self.epochs,
            lr,
            batch_size: self.batch_size,
            hidden1: self.hidden1,
            hidden2: self.hidden2,
            dropout,
            weight_decay,
            patience: self.patience,
            seed: self.seed,
            verbose: self.verbose,
        }
    }
}

// ----------------------------------------------------------------- shuffling

/// One step of the xorshift generator.
pub open spec fn xorshift(x: u64) -> u64 {
    let a = x ^ (x << 13u64);
    let b = a ^ (a >> 7u64);
    b ^ (b << 17u64)
}

/// A xorshift generator: shuffling that can be repeated.
#[derive(Debug, Clone, Copy, PartialEq, Eq, Structural)]
pub struct Rng {
    pub state: u64,
}

/// Two items changed places.
pub open spec fn swapped<T>(s: Seq<T>, i: int, j: int) -> Seq<T> {
    s.update(i, s[j]).update(j, s[i])
}

/// From place `i` down to the second, each item changes places with one that the
/// generator picks among those not after it.
pub open spec fn shuffled<T>(x: u64, s: Seq<T>, i: int) -> (u64, Seq<T>)
    decreases i,
{
    if i < 1 {
        (x, s)
    } else {
        let next = xorshift(x);
        shuffled(next, swapped(s, i, next as int % (i + 1)), i - 1)
    }
}

impl Rng {
    /// The generator for a seed. Its state is never zero.
    pub fn seeded(seed: u64) -> (r: Rng)
        ensures
            r.state == seed | 1,
            r.state != 0,
    {
        assert(seed | 1 != 0) by (bit_vector);
        Rng { state: seed | 1 }
    }

    pub fn next(&mut self) -> (x: u64)
        ensures
            x == xorshift(old(self).state),
            final(self).state == x,
    {
        let mut x: u64 = self.state;
        x = x ^ (x << 13u64);
        x = x ^ (x >> 7u64);
        x = x ^ (x << 17u64);
        self.state = x;
        x
    }

    pub fn shuffle<T: Copy>(&mut self, v: &mut Vec<T>)
        ensures
            (final(self).state, final(v)@) == shuffled(
                old(self).state,
                old(v)@,
                old(v)@.len() - 1,
            ),
    {
        if v.len() == 0 {
            return;
        }
        let ghost end = shuffled(self.state, v@, v@.len() - 1);
        let n = v.len();
        let mut i: usize = n - 1;
        while i >= 1
            invariant
                v@.len() == n,
                i < n,
                shuffled(self.state, v@, i as int) == end,
            decreases i,
        {
            let x = self.next();
            let j: usize = (x % (i as u64 + 1)) as usize;
            let a = v[i];
            let b = v[j];
            let ghost before = v@;
            v.set(i, b);
            v.set(j, a);
            assert(v@ =~= swapped(before, i as int, j as int));
            i -= 1;
        }
    }
}

/// A generator whose state is not zero never comes to zero, where it would stay.
pub proof fn lemma_xorshift_nonzero(x: u64)
    requires
        x != 0,
    ensures
        xorshift(x) != 0,
{
    let a = x ^ (x << 13u64);
    assert(x != 0 ==> x ^ (x << 13u64) != 0) by (bit_vector);
    let b = a ^ (a >> 7u64);
    assert(a != 0 ==> a ^ (a >> 7u64) != 0) by (bit_vector);
    assert(b != 0 ==> b ^ (b << 17u64) != 0) by (bit_vector);
}

proof fn lemma_swapped_multiset<T>(s: Seq<T>, i: int, j: int)
    requires
        0 <= i < s.len(),
        0 <= j < s.len(),
    ensures
        swapped(s, i, j).to_multiset() == s.to_multiset(),
{
    broadcast use vstd::seq_lib::group_to_multiset_ensures;

    if i != j {
        let t = swapped(s, i, j);
        let (lo, hi) = if i < j {
            (i, j)
        } else {
            (j, i)
        };
        // Take both items out of either list, the later first.
        assert(s.remove(hi).remove(lo) =~= t.remove(hi).remove(lo));
        let m = s.remove(hi).remove(lo).to_multiset();
        assert(s.remove(hi)[lo] == s[lo] && t.remove(hi)[lo] == t[lo]);
        assert(s.remove(hi).insert(hi, s[hi]) =~= s);
        assert(t.remove(hi).insert(hi, t[hi]) =~= t);
        assert(s.remove(hi).remove(lo).insert(lo, s[lo]) =~= s.remove(hi));
        assert(t.remove(hi).remove(lo).insert(lo, t[lo]) =~= t.remove(hi));
        vstd::seq_lib::to_multiset_insert(s.remove(hi), hi, s[hi]);
        vstd::seq_lib::to_multiset_insert(t.remove(hi), hi, t[hi]);
        vstd::seq_lib::to_multiset_insert(s.remove(hi).remove(lo), lo, s[lo]);
        vstd::seq_lib::to_multiset_insert(t.remove(hi).remove(lo), lo, t[lo]);
        assert(m.insert(s[lo]).insert(s[hi]) =~= m.insert(s[hi]).insert(s[lo]));
    } else {
        assert(swapped(s, i, j) =~= s);
    }
}

/// Shuffling loses no item and adds none.
pub proof fn lemma_shuffle_keeps_items<T>(x: u64, s: Seq<T>, i: int)
    requires
        i < s.len(),
    ensures
        shuffled(x, s, i).1.to_multiset() == s.to_multiset(),
        shuffled(x, s, i).1.len() == s.len(),
    decreases i,
{
    if i >= 1 {
        let next = xorshift(x);
        let j = next as int % (i + 1);
        lemma_swapped_multiset(s, i, j);
        lemma_shuffle_keeps_items(next, swapped(s, i, j), i - 1);
    }
}

// ------------------------------------------------------------------- batches

/// The labels of the samples as class numbers.
pub fn labels_of<R>(samples: &[Sample<R>]) -> (out: Vec<i32>)
    ensures
        out@.len() == samples@.len(),
        forall|i: int| 0 <= i < out@.len() ==> #[trigger] out@[i] == samples@[i].label as i32,
{
    let mut out: Vec<i32> = Vec::new();
    let mut i: usize = 0;
    while i < samples.len()
        invariant
            i <= samples@.len(),
            out@.len() == i,
            forall|k: int| 0 <= k < i ==> #[trigger] out@[k] == samples@[k].label as i32,
        decreases samples@.len() - i,
    {
        out.push(
            #[verifier::truncate]
            (samples[i].label as i32),
        );
        i += 1;
    }
    out
}

/// The numbers below `n`, in order.
pub fn first_numbers(n: usize) -> (out: Vec<usize>)
    ensures
        out@.len() == n,
        forall|i: int| 0 <= i < n ==> #[trigger] out@[i] == i,
{
    let mut out: Vec<usize> = Vec::new();
    let mut i: usize = 0;
    while i < n
        invariant
            i <= n,
            out@.len() == i,
            forall|k: int| 0 <= k < i ==> #[trigger] out@[k] == k,
        decreases n - i,
    {
        out.push(i);
        i += 1;
    }
    out
}

/// The items of all the lists, one list after another.
pub open spec fn joined(lists: Seq<Vec<usize>>) -> Seq<usize>
    decreases lists.len(),
{
    if lists.len() == 0 {
        Seq::empty()
    } else {
        joined(lists.drop_last()) + lists.last()@
    }
}

/// Cuts a list into batches of `size`. Only the last batch may be smaller, and no
/// batch is empty.
pub fn batches(order: &Vec<usize>, size: usize) -> (out: Vec<Vec<usize>>)
    requires
        size > 0,
    ensures
        joined(out@) == order@,
        forall|k: int| 0 <= k < out@.len() - 1 ==> (#[trigger] out@[k])@.len() == size,
        out@.len() > 0 ==> 0 < out@.last()@.len() <= size,
{
    let mut out: Vec<Vec<usize>> = Vec::new();
    let mut i: usize = 0;
    assert(order@.take(0) =~= Seq::<usize>::empty());
    while i < order.len()
        invariant
            size > 0,
            i <= order@.len(),
            joined(out@) == order@.take(i as int),
            i < order@.len() ==> forall|k: int|
                0 <= k < out@.len() ==> (#[trigger] out@[k])@.len() == size,
            forall|k: int| 0 <= k < out@.len() - 1 ==> (#[trigger] out@[k])@.len() == size,
            out@.len() > 0 ==> 0 < out@.last()@.len() <= size,
        decreases order@.len() - i,
    {
        let total = order.len();
        let left: usize = total - i;
        let n: usize = if left < size {
            left
        } else {
            size
        };
        let mut batch: Vec<usize> = Vec::new();
        let mut k: usize = 0;
        while k < n
            invariant
                k <= n,
                total == order@.len(),
                i + n <= total,
                batch@ == order@.subrange(i as int, i + k),
            decreases n - k,
        {
            batch.push(order[i + k]);
            assert(batch@ =~= order@.subrange(i as int, i + k + 1));
            k += 1;
        }
        let ghost before = out@;
        out.push(batch);
        assert(out@.drop_last() =~= before);
        assert(order@.take(i as int) + order@.subrange(i as int, i + n) =~= order@.take(i + n));
        i += n;
    }
    assert(order@.take(i as int) =~= order@);
    out
}

/// The rows of a flat table that a batch picks.
pub fn gather<T: Copy>(table: &Vec<T>, picks: &Vec<usize>) -> (out: Vec<T>)
    requires
        forall|k: int|
            0 <= k < picks@.len() ==> ((#[trigger] picks@[k]) + 1) * NUM_FEATURES <= table@.len(),
    ensures
        out@.len() == picks@.len() * NUM_FEATURES,
        forall|k: int, c: int|
            0 <= k < picks@.len() && 0 <= c < NUM_FEATURES ==> out@[#[trigger] (k * 29 + c)]
                == table@[picks@[k] * 29 + c],
{
    let mut out: Vec<T> = Vec::new();
    let mut k: usize = 0;
    while k < picks.len()
        invariant
            k <= picks@.len(),
            forall|k: int|
                0 <= k < picks@.len() ==> ((#[trigger] picks@[k]) + 1) * NUM_FEATURES
                    <= table@.len(),
            out@.len() == k * NUM_FEATURES,
            forall|j: int, c: int|
                0 <= j < k && 0 <= c < NUM_FEATURES ==> out@[#[trigger] (j * 29 + c)]
                    == table@[picks@[j] * 29 + c],
        decreases picks@.len() - k,
    {
        let row = picks[k];
        assert((picks@[k as int] + 1) * NUM_FEATURES <= table@.len());
        let mut c: usize = 0;
        let n = table.len();
        while c < NUM_FEATURES
            invariant
                c <= NUM_FEATURES,
                k < picks@.len(),
                row == picks@[k as int],
                n == table@.len(),
                (row + 1) * NUM_FEATURES <= n,
                out@.len() == k * NUM_FEATURES + c,
                forall|j: int, d: int|
                    0 <= j < k && 0 <= d < NUM_FEATURES ==> out@[#[trigger] (j * 29 + d)]
                        == table@[picks@[j] * 29 + d],
                forall|d: int| 0 <= d < c ==> out@[#[trigger] (k * 29 + d)] == table@[row * 29 + d],
            decreases NUM_FEATURES - c,
        {
            out.push(table[row * 29 + c]);
            c += 1;
        }
        k += 1;
    }
    out
}

/// The second of each pair of class probabilities: that of a home win.
pub fn home_column<R: Copy>(flat: &Vec<R>, n: usize) -> (out: Vec<R>)
    requires
        2 * n <= flat@.len(),
    ensures
        out@.len() == n,
        forall|i: int| 0 <= i < n ==> #[trigger] out@[i] == flat@[2 * i + 1],
{
    let mut out: Vec<R> = Vec::new();
    let mut i: usize = 0;
    let total = flat.len();
    while i < n
        invariant
            i <= n,
            total == flat@.len(),
            2 * n <= total,
            out@.len() == i,
            forall|k: int| 0 <= k < i ==> #[trigger] out@[k] == flat@[2 * k + 1],
        decreases n - i,
    {
        out.push(flat[2 * i + 1]);
        i += 1;
    }
    out
}

// ------------------------------------------------------------- early stopping

/// How far training has come.
#[derive(Debug, Clone, Copy, PartialEq, Eq, Structural)]
pub struct Progress {
    pub epochs_run: usize,
    /// Epochs since the best one.
    pub since_best: usize,
    pub stopped: bool,
}

/// How many of the last items are false.
pub open spec fn trailing_failures(improved: Seq<bool>) -> int
    decreases improved.len(),
{
    if improved.len() == 0 || improved.last() {
        0
    } else {
        trailing_failures(improved.drop_last()) + 1
    }
}

impl Progress {
    pub open spec fn at_start() -> Progress {
        Progress { epochs_run: 0, since_best: 0, stopped: false }
    }

    /// One more epoch, measured on held-out games.
    pub open spec fn after(self, improved: bool, patience: usize) -> Progress {
        let since = if improved {
            0int
        } else {
            self.since_best + 1
        };
        Progress {
            epochs_run: (self.epochs_run + 1) as usize,
            since_best: since as usize,
            stopped: since >= patience,
        }
    }

    /// After several epochs; none is run once training has stopped.
    pub open spec fn after_all(improved: Seq<bool>, patience: usize) -> Progress
        decreases improved.len(),
    {
        if improved.len() == 0 {
            Progress::at_start()
        } else {
            let before = Progress::after_all(improved.drop_last(), patience);
            if before.stopped {
                before
            } else {
                before.after(improved.last(), patience)
            }
        }
    }

    pub fn start() -> (p: Progress)
        ensures
            p == Progress::at_start(),
    {
        Progress { epochs_run: 0, since_best: 0, stopped: false }
    }

    /// The next epoch, counted from 1, unless training has stopped or has run all
    /// its epochs.
    pub fn next_epoch(&self, epochs: usize) -> (r: Option<usize>)
        ensures
            match r {
                Some(epoch) => !self.stopped && self.epochs_run < epochs && epoch
                    == self.epochs_run + 1,
                None => self.stopped || self.epochs_run >= epochs,
            },
    {
        if self.stopped || self.epochs_run >= epochs {
            None
        } else {
            Some(self.epochs_run + 1)
        }
    }

    /// Takes in an epoch that was measured on held-out games. Training stops once
    /// so many epochs in a row as `patience` says brought no improvement.
    pub fn measured(&mut self, improved: bool, patience: usize)
        requires
            old(self).epochs_run < usize::MAX,
            old(self).since_best <= old(self).epochs_run,
        ensures
            *final(self) == old(self).after(improved, patience),
            final(self).since_best <= final(self).epochs_run,
    {
        self.epochs_run = self.epochs_run + 1;
        if improved {
            self.since_best = 0;
        } else {
            self.since_best = self.since_best + 1;
        }
        self.stopped = self.since_best >= patience;
    }

    /// Takes in an epoch without held-out games: nothing can stop training.
    pub fn unmeasured(&mut self)
        requires
            old(self).epochs_run < usize::MAX,
        ensures
            *final(self) == (Progress {
                epochs_run: (old(self).epochs_run + 1) as usize,
                ..*old(self)
            }),
    {
        self.epochs_run = self.epochs_run + 1;
    }
}

/// Training stops after the first epoch that ends a row of `patience` epochs
/// without improvement, and not before.
pub proof fn lemma_stops_after_patience(improved: Seq<bool>, patience: usize)
    requires
        improved.len() <= usize::MAX,
        patience > 0,
        forall|k: int|
            0 <= k < improved.len() ==> trailing_failures(#[trigger] improved.take(k)) < patience,
    ensures
        ({
            let p = Progress::after_all(improved, patience);
            &&& p.epochs_run == improved.len()
            &&& p.since_best == trailing_failures(improved)
            &&& p.stopped <==> trailing_failures(improved) >= patience
        }),
    decreases improved.len(),
{
    if improved.len() > 0 {
        let rest = improved.drop_last();
        assert forall|k: int| 0 <= k < rest.len() implies trailing_failures(
            #[trigger] rest.take(k),
        ) < patience by {
            assert(rest.take(k) =~= improved.take(k));
        }
        lemma_stops_after_patience(rest, patience);
        assert(improved.take(rest.len() as int) =~= rest);
        lemma_failures_bounded(rest);
    }
}

proof fn lemma_failures_bounded(improved: Seq<bool>)
    ensures
        0 <= trailing_failures(improved) <= improved.len(),
    decreases improved.len(),
{
    if improved.len() > 0 {
        lemma_failures_bounded(improved.drop_last());
    }
}

// ------------------------------------------------------------- the kept model

/// An epoch that was measured on held-out games: its model, and whether it was better
/// than the one kept.
#[verifier::reject_recursive_types(M)]
pub struct Trial<M> {
    pub model: M,
    pub improved: bool,
}

/// How far training has come, and the model that it would give back.
#[verifier::reject_recursive_types(M)]
pub struct Standing<M> {
    pub progress: Progress,
    pub kept: M,
}

/// Whether each epoch was an improvement.
pub open spec fn improvements<M>(trials: Seq<Trial<M>>) -> Seq<bool> {
    Seq::new(trials.len(), |k: int| trials[k].improved)
}

impl<M> Standing<M> {
    pub open spec fn at_start(first: M) -> Standing<M> {
        Standing { progress: Progress::at_start(), kept: first }
    }

    /// One more epoch, measured on held-out games.
    pub open spec fn after(self, trial: Trial<M>, patience: usize) -> Standing<M> {
        Standing {
            progress: self.progress.after(trial.improved, patience),
            kept: if trial.improved {
                trial.model
            } else {
                self.kept
            },
        }
    }

    /// After several epochs; none is run once training has stopped.
    pub open spec fn after_all(first: M, trials: Seq<Trial<M>>, patience: usize) -> Standing<M>
        decreases trials.len(),
    {
        if trials.len() == 0 {
            Standing::at_start(first)
        } else {
            let before = Standing::after_all(first, trials.drop_last(), patience);
            if before.progress.stopped {
                before
            } else {
                before.after(trials.last(), patience)
            }
        }
    }

    /// One more epoch, without held-out games.
    pub open spec fn after_unmeasured(self, model: M) -> Standing<M> {
        Standing {
            progress: Progress {
                epochs_run: (self.progress.epochs_run + 1) as usize,
                ..self.progress
            },
            kept: model,
        }
    }

    /// After several epochs, all without held-out games.
    pub open spec fn after_all_unmeasured(first: M, models: Seq<M>) -> Standing<M>
        decreases models.len(),
    {
        if models.len() == 0 {
            Standing::at_start(first)
        } else {
            Standing::after_all_unmeasured(first, models.drop_last()).after_unmeasured(
                models.last(),
            )
        }
    }

    /// Another epoch is due.
    pub open spec fn is_open(self, epochs: usize) -> bool {
        !self.progress.stopped && self.progress.epochs_run < epochs
    }
}

/// These are the epochs of a training on held-out games from its start to its end: each
/// was due, and after the last no other is.
pub open spec fn is_whole_course<M>(
    first: M,
    trials: Seq<Trial<M>>,
    epochs: usize,
    patience: usize,
) -> bool {
    &&& forall|k: int|
        0 <= k < trials.len() ==> Standing::after_all(
            first,
            #[trigger] trials.take(k),
            patience,
        ).is_open(epochs)
    &&& !Standing::after_all(first, trials, patience).is_open(epochs)
}

/// The model that is kept is that of the last epoch that was an improvement, or the
/// first model where none was; the epochs since then are counted.
pub proof fn lemma_keeps_the_last_improvement<M>(
    first: M,
    trials: Seq<Trial<M>>,
    patience: usize,
)
    requires
        trials.len() <= usize::MAX,
    ensures
        ({
            let end = Standing::after_all(first, trials, patience);
            let run = end.progress.epochs_run as int;
            let best = run - end.progress.since_best;
            &&& 0 <= best <= run <= trials.len()
            &&& !end.progress.stopped ==> run == trials.len()
            &&& end.progress == Progress::after_all(improvements(trials), patience)
            &&& best == 0 ==> end.kept == first
            &&& best > 0 ==> trials[best - 1].improved && end.kept == trials[best - 1].model
            &&& forall|k: int| best <= k < run ==> !(#[trigger] trials[k]).improved
        }),
    decreases trials.len(),
{
    if trials.len() > 0 {
        let rest = trials.drop_last();
        lemma_keeps_the_last_improvement(first, rest, patience);
        assert(improvements(trials).drop_last() =~= improvements(rest));
        let before = Standing::after_all(first, rest, patience);
        let end = Standing::after_all(first, trials, patience);
        let run = end.progress.epochs_run as int;
        let best = run - end.progress.since_best;
        assert forall|k: int| best <= k < run implies !(#[trigger] trials[k]).improved by {
            if k < rest.len() {
                assert(rest[k] == trials[k]);
            }
        }
        if best > 0 && best - 1 < rest.len() {
            assert(rest[best - 1] == trials[best - 1]);
        }
    }
}

/// A model is kept together with its own measure: where the first epoch is an improvement
/// on nothing, the measure that is given back is that of the model given back.
pub proof fn lemma_kept_measure_is_of_the_kept_model<M, L>(
    first: (M, L),
    trials: Seq<Trial<(M, L)>>,
    patience: usize,
    measure: spec_fn(M) -> L,
)
    requires
        0 < trials.len() <= usize::MAX,
        trials[0].improved,
        forall|k: int|
            0 <= k < trials.len() ==> (#[trigger] trials[k]).model.1 == measure(trials[k].model.0),
    ensures
        Standing::after_all(first, trials, patience).kept.1 == measure(
            Standing::after_all(first, trials, patience).kept.0,
        ),
    decreases trials.len(),
{
    let rest = trials.drop_last();
    let n = trials.len() - 1;
    if n > 0 {
        assert forall|k: int| 0 <= k < rest.len() implies (#[trigger] rest[k]).model.1 == measure(
            rest[k].model.0,
        ) by {
            assert(rest[k] == trials[k]);
        }
        assert(rest[0] == trials[0]);
        lemma_kept_measure_is_of_the_kept_model(first, rest, patience, measure);
    } else {
        assert(Standing::after_all(first, rest, patience) == Standing::at_start(first));
    }
    assert(trials[n].model.1 == measure(trials[n].model.0));
}

/// No model of any epoch is better than the one that is kept, nor is the first, by any
/// order that the improvements were judged by.
#[verifier::rlimit(50)]
#[verifier::spinoff_prover]
pub proof fn lemma_keeps_a_best<M>(
    first: M,
    trials: Seq<Trial<M>>,
    patience: usize,
    better: spec_fn(M, M) -> bool,
)
    requires
        trials.len() <= usize::MAX,
        forall|a: M| !#[trigger] better(a, a),
        forall|a: M, b: M, c: M| #[trigger] better(a, b) && #[trigger] better(b, c) ==> better(a, c),
        forall|k: int|
            0 <= k < trials.len() ==> ((#[trigger] trials[k]).improved <==> better(
                trials[k].model,
                Standing::after_all(first, trials.take(k), patience).kept,
            )),
    ensures
        !better(first, Standing::after_all(first, trials, patience).kept),
        forall|k: int|
            0 <= k < Standing::after_all(first, trials, patience).progress.epochs_run ==> !better(
                (#[trigger] trials[k]).model,
                Standing::after_all(first, trials, patience).kept,
            ),
    decreases trials.len(),
{
    if trials.len() > 0 {
        let n = trials.len() - 1;
        let rest = trials.drop_last();
        assert(trials.take(n) =~= rest);
        assert forall|k: int| 0 <= k < rest.len() implies ((#[trigger] rest[k]).improved <==> better(
            rest[k].model,
            Standing::after_all(first, rest.take(k), patience).kept,
        )) by {
            assert(rest[k] == trials[k]);
            assert(rest.take(k) =~= trials.take(k));
        }
        lemma_keeps_a_best(first, rest, patience, better);
        lemma_keeps_the_last_improvement(first, rest, patience);
        let before = Standing::after_all(first, rest, patience);
        let end = Standing::after_all(first, trials, patience);
        assert(trials[n].improved <==> better(trials[n].model, before.kept));
        assert forall|k: int| 0 <= k < end.progress.epochs_run implies !better(
            (#[trigger] trials[k]).model,
            end.kept,
        ) by {
            if k < before.progress.epochs_run {
                assert(rest[k] == trials[k]);
                assert(!better(rest[k].model, before.kept));
                if end.kept != before.kept {
                    assert(end.kept == trials[n].model);
                    lemma_worse_than_the_better(better, rest[k].model, before.kept, end.kept);
                }
            } else {
                assert(k == n);
                assert(end.kept == trials[n].model || end.kept == before.kept);
            }
        }
        if end.kept != before.kept {
            assert(end.kept == trials[n].model);
            lemma_worse_than_the_better(better, first, before.kept, end.kept);
        }
    }
}

proof fn lemma_worse_than_the_better<M>(better: spec_fn(M, M) -> bool, a: M, b: M, c: M)
    requires
        forall|a: M, b: M, c: M| #[trigger] better(a, b) && #[trigger] better(b, c) ==> better(a, c),
        !better(a, b),
        better(c, b),
    ensures
        !better(a, c),
{
}

/// Training runs at least one epoch, where any is asked for, and no more than asked. It
/// ends with all of them run, or after `patience` epochs in a row without improvement.
pub proof fn lemma_epochs_run<M>(first: M, trials: Seq<Trial<M>>, epochs: usize, patience: usize)
    requires
        is_whole_course(first, trials, epochs, patience),
        trials.len() <= usize::MAX,
    ensures
        ({
            let end = Standing::after_all(first, trials, patience).progress;
            &&& end.epochs_run == trials.len()
            &&& end.epochs_run <= epochs
            &&& epochs > 0 ==> 1 <= end.epochs_run
            &&& end.epochs_run < epochs ==> trailing_failures(improvements(trials)) >= patience
        }),
{
    let end = Standing::after_all(first, trials, patience);
    lemma_keeps_the_last_improvement(first, trials, patience);
    if trials.len() > 0 {
        let n = trials.len() - 1;
        let rest = trials.take(n);
        assert(trials.drop_last() =~= rest);
        lemma_keeps_the_last_improvement(first, rest, patience);
        assert(Standing::after_all(first, rest, patience).is_open(epochs));
        let best = trials.len() - end.progress.since_best;
        assert forall|k: int| best <= k < trials.len() implies !#[trigger] improvements(
            trials,
        )[k] by {
            assert(!trials[k].improved);
        }
        lemma_failures_at_the_end(improvements(trials), end.progress.since_best as int);
    }
}

proof fn lemma_failures_at_the_end(improved: Seq<bool>, n: int)
    requires
        0 <= n <= improved.len(),
        forall|k: int| improved.len() - n <= k < improved.len() ==> !#[trigger] improved[k],
    ensures
        trailing_failures(improved) >= n,
    decreases n,
{
    lemma_failures_bounded(improved);
    if n > 0 {
        let rest = improved.drop_last();
        assert forall|k: int| rest.len() - (n - 1) <= k < rest.len() implies !#[trigger] rest[k] by {
            assert(rest[k] == improved[k]);
        }
        lemma_failures_at_the_end(rest, n - 1);
        assert(!improved[improved.len() - 1]);
    }
}

/// Without held-out games training never stops early, and the last model is kept.
pub proof fn lemma_unmeasured_keeps_the_last<M>(first: M, models: Seq<M>)
    requires
        models.len() <= usize::MAX,
    ensures
        ({
            let end = Standing::after_all_unmeasured(first, models);
            &&& !end.progress.stopped
            &&& end.progress.epochs_run == models.len()
            &&& end.kept == if models.len() == 0 {
                first
            } else {
                models.last()
            }
        }),
    decreases models.len(),
{
    if models.len() > 0 {
        lemma_unmeasured_keeps_the_last(first, models.drop_last());
    }
}

// --------------------------------------------------------------------- course

/// The course of a training: the order of the rows, the generator that shuffles it,
/// how far training has come, and the model that it would give back.
#[derive(Debug, Clone)]
#[verifier::reject_recursive_types(M)]
pub struct Course<M> {
    pub order: Vec<usize>,
    pub rng: Rng,
    pub progress: Progress,
    pub kept: M,
}

impl<M> Course<M> {
    /// Training on so many rows: each row has its place in the order, once.
    pub open spec fn wf(&self, rows: nat) -> bool {
        &&& is_permutation(self.order@, rows)
        &&& self.progress.since_best <= self.progress.epochs_run
    }

    pub open spec fn standing(&self) -> Standing<M> {
        Standing { progress: self.progress, kept: self.kept }
    }

    pub fn new(rows: usize, seed: u64, first: M) -> (c: Course<M>)
        ensures
            c.wf(rows as nat),
            forall|i: int| 0 <= i < rows ==> #[trigger] c.order@[i] == i,
            c.rng.state == seed | 1,
            c.standing() == Standing::at_start(first),
    {
        Course {
            order: first_numbers(rows),
            rng: Rng::seeded(seed),
            progress: Progress::start(),
            kept: first,
        }
    }

    /// The batches of the next epoch, in a new order, unless training is over.
    pub fn next_epoch<R>(&mut self, cfg: &TrainConfig<R>) -> (r: Option<Vec<Vec<usize>>>)
        requires
            cfg.batch_size > 0,
        ensures
            final(self).standing() == old(self).standing(),
            match r {
                Some(cuts) => {
                    &&& old(self).standing().is_open(cfg.epochs)
                    &&& (final(self).rng.state, final(self).order@) == shuffled(
                        old(self).rng.state,
                        old(self).order@,
                        old(self).order@.len() - 1,
                    )
                    &&& joined(cuts@) == final(self).order@
                    &&& forall|k: int|
                        0 <= k < cuts@.len() - 1 ==> (#[trigger] cuts@[k])@.len() == cfg.batch_size
                    &&& cuts@.len() > 0 ==> 0 < cuts@.last()@.len() <= cfg.batch_size
                },
                None => {
                    &&& !old(self).standing().is_open(cfg.epochs)
                    &&& *final(self) == *old(self)
                },
            },
    {
        if self.progress.next_epoch(cfg.epochs).is_none() {
            return None;
        }
        self.rng.shuffle(&mut self.order);
        Some(batches(&self.order, cfg.batch_size))
    }

    /// Takes in an epoch that was measured on held-out games: its model is kept where it
    /// was an improvement.
    pub fn measured(&mut self, model: M, improved: bool, patience: usize)
        requires
            old(self).progress.epochs_run < usize::MAX,
            old(self).progress.since_best <= old(self).progress.epochs_run,
        ensures
            final(self).standing() == old(self).standing().after(
                (Trial { model, improved }),
                patience,
            ),
            final(self).progress.since_best <= final(self).progress.epochs_run,
            final(self).order == old(self).order,
            final(self).rng == old(self).rng,
    {
        self.progress.measured(improved, patience);
        if improved {
            self.kept = model;
        }
    }

    /// Takes in an epoch without held-out games: its model is kept.
    pub fn unmeasured(&mut self, model: M)
        requires
            old(self).progress.epochs_run < usize::MAX,
        ensures
            final(self).standing() == old(self).standing().after_unmeasured(model),
            final(self).order == old(self).order,
            final(self).rng == old(self).rng,
    {
        self.progress.unmeasured();
        self.kept = model;
    }
}

proof fn lemma_shuffle_keeps_permutation(x: u64, s: Seq<usize>, i: int, n: nat)
    requires
        is_permutation(s, n),
        i < n,
    ensures
        is_permutation(shuffled(x, s, i).1, n),
    decreases i,
{
    if i >= 1 {
        let next = xorshift(x);
        let j = next as int % (i + 1);
        let t = swapped(s, i, j);
        assert forall|k: int| 0 <= k < n implies (#[trigger] t[k]) < n by {
            assert(s[k] < n && s[i] < n && s[j] < n);
        }
        lemma_shuffle_keeps_permutation(next, t, i - 1, n);
    }
}

/// Each epoch goes through every row, and through none twice: the order of the rows
/// stays one.
pub proof fn lemma_epoch_visits_each_row_once<M>(
    before: Course<M>,
    after: Course<M>,
    rows: nat,
)
    requires
        before.wf(rows),
        (after.rng.state, after.order@) == shuffled(
            before.rng.state,
            before.order@,
            before.order@.len() - 1,
        ),
        after.progress == before.progress,
    ensures
        after.wf(rows),
        forall|row: int|
            #![trigger after.order@.contains(row as usize)]
            0 <= row < rows && rows <= usize::MAX ==> after.order@.contains(row as usize),
{
    lemma_shuffle_keeps_permutation(
        before.rng.state,
        before.order@,
        before.order@.len() - 1,
        rows,
    );
    assert forall|row: int|
        #![trigger after.order@.contains(row as usize)]
        0 <= row < rows && rows <= usize::MAX implies after.order@.contains(row as usize) by {
        lemma_permutation_hits(after.order@, rows, row);
        let p = choose|p: int| 0 <= p < rows && after.order@[p] == row;
        assert(after.order@[p] == row as usize);
    }
}

/// Whether an epoch is reported: every tenth, or every twentieth where nothing is
/// held out, and the first.
pub fn is_reported(verbose: bool, has_valid: bool, epoch: usize) -> (r: bool)
    ensures
        r == (verbose && (epoch == 1 || if has_valid {
            epoch % 10 == 0
        } else {
            epoch % 20 == 0
        })),
{
    let every: usize = if has_valid {
        10
    } else {
        20
    };
    verbose && (epoch % every == 0 || epoch == 1)
}

/// The generator's step, as the shifts of its state that it is made of.
pub proof fn lemma_step_of_the_generator(x: u64)
    ensures
        xorshift(x) == x ^ (x << 13u64) ^ (x >> 7u64) ^ ((x << 13u64) >> 7u64) ^ (x << 17u64) ^ (x
            << 30u64) ^ ((x >> 7u64) << 17u64) ^ (((x << 13u64) >> 7u64) << 17u64),
{
    assert({
        let a = x ^ (x << 13u64);
        let b = a ^ (a >> 7u64);
        b ^ (b << 17u64)
    } == x ^ (x << 13u64) ^ (x >> 7u64) ^ ((x << 13u64) >> 7u64) ^ (x << 17u64) ^ (x << 30u64) ^ ((x
        >> 7u64) << 17u64) ^ (((x << 13u64) >> 7u64) << 17u64)) by (bit_vector);
}

/// The last item of a shuffled list is the one at the place that the first number drawn
/// gives, of all the places of the list.
pub proof fn lemma_last_place_is_drawn<T>(x: u64, s: Seq<T>)
    requires
        s.len() >= 2,
    ensures
        shuffled(x, s, s.len() - 1).1.len() == s.len(),
        shuffled(x, s, s.len() - 1).1.last() == s[xorshift(x) as int % s.len() as int],
{
    let n = s.len() - 1;
    let next = xorshift(x);
    let j = next as int % (n + 1);
    lemma_later_places_stay(next, swapped(s, n, j), n - 1, n);
}

/// Shuffling up to a place leaves the items behind it.
pub proof fn lemma_later_places_stay<T>(x: u64, s: Seq<T>, i: int, k: int)
    requires
        i < k < s.len(),
    ensures
        shuffled(x, s, i).1.len() == s.len(),
        shuffled(x, s, i).1[k] == s[k],
    decreases i,
{
    if i >= 1 {
        let next = xorshift(x);
        let j = next as int % (i + 1);
        lemma_later_places_stay(next, swapped(s, i, j), i - 1, k);
    }
}

} // verus!
