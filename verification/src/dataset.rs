//! The rows of the data set as comma-separated text, one line per game. Features
//! and probabilities are carried as the texts that are written for them.

use vstd::prelude::*;
use vstd::utf8::encode_utf8;
use crate::features::{Sample, SampleView, FEATURE_NAMES, NUM_FEATURES};
use crate::grid::{
    body_values, cell_views, grid_text, is_plain, is_table, push_line, row_text, row_values, Cell,
    Field,
};
use crate::numbers::{
    all_digits, bounded_int, decimal, int_of_text, int_text, is_digit, is_digits, is_exponent, is_fraction,
    is_fraction_text, is_mantissa, is_unsigned_decimal, is_word, lemma_int_text_reads_back,
    lemma_nat_text, nat_text, parse_i32, parse_i64, parse_usize, unsigned_part,
};
use crate::outside::{csv_reading, csv_records, message_view, record_view, record_views};

verus! {

/// Columns before those of the features.
pub const META_COLUMNS: usize = 11;

/// Columns of a row.
pub const COLUMNS: usize = 40;

/// The names of the columns before those of the features.
pub const META_NAMES: [&'static str; 11] = [
    "game_pk",
    "date",
    "season",
    "home",
    "away",
    "home_score",
    "away_score",
    "label",
    "home_gp",
    "away_gp",
    "elo_baseline",
];

/// The texts of a list.
pub open spec fn texts(list: Seq<String>) -> Seq<Seq<char>> {
    Seq::new(list.len(), |i: int| list[i]@)
}

/// What a sample says, its features and its probability as texts.
pub open spec fn text_sample(s: Sample<String>) -> SampleView<Seq<char>> {
    SampleView {
        game_pk: s.game_pk,
        date: s.date@,
        season: s.season,
        home_name: s.home_name@,
        away_name: s.away_name@,
        home_score: s.home_score,
        away_score: s.away_score,
        label: s.label,
        features: texts(s.features@),
        home_gp: s.home_gp,
        away_gp: s.away_gp,
        elo_prob: s.elo_prob@,
    }
}

pub open spec fn text_samples(samples: Seq<Sample<String>>) -> Seq<SampleView<Seq<char>>> {
    Seq::new(samples.len(), |i: int| text_sample(samples[i]))
}

// ------------------------------------------------------------------- writing

/// The header of the table.
pub open spec fn header_row() -> Seq<Field> {
    Seq::new(
        COLUMNS as nat,
        |c: int|
            if c < META_COLUMNS {
                Field::Plain(META_NAMES@[c]@)
            } else {
                Field::Plain(FEATURE_NAMES@[c - META_COLUMNS]@)
            },
    )
}

/// The columns of a row before those of the features. The names of the teams are
/// quoted.
pub open spec fn meta_row(s: SampleView<Seq<char>>) -> Seq<Field> {
    seq![
        Field::Plain(int_text(s.game_pk as int)),
        Field::Plain(s.date),
        Field::Plain(int_text(s.season as int)),
        Field::Quoted(s.home_name),
        Field::Quoted(s.away_name),
        Field::Plain(int_text(s.home_score as int)),
        Field::Plain(int_text(s.away_score as int)),
        Field::Plain(int_text(s.label as int)),
        Field::Plain(int_text(s.home_gp as int)),
        Field::Plain(int_text(s.away_gp as int)),
        Field::Plain(s.elo_prob),
    ]
}

/// The line of a sample.
pub open spec fn sample_row(s: SampleView<Seq<char>>) -> Seq<Field> {
    meta_row(s) + Seq::new(s.features.len(), |i: int| Field::Plain(s.features[i]))
}

/// The header and a line for each sample.
pub open spec fn dataset_grid(samples: Seq<SampleView<Seq<char>>>) -> Seq<Seq<Field>> {
    seq![header_row()] + Seq::new(samples.len(), |i: int| sample_row(samples[i]))
}

/// The text of the data set.
pub open spec fn csv_text(samples: Seq<SampleView<Seq<char>>>) -> Seq<char> {
    grid_text(dataset_grid(samples))
}

fn plain(text: String) -> (c: Cell)
    ensures
        c@ == Field::Plain(text@),
{
    Cell { quoted: false, text }
}

fn header_cells() -> (cells: Vec<Cell>)
    ensures
        cell_views(cells@) == header_row(),
{
    let mut cells: Vec<Cell> = Vec::new();
    let mut c: usize = 0;
    while c < META_COLUMNS
        invariant
            c <= META_COLUMNS,
            cells@.len() == c,
            forall|k: int| 0 <= k < c ==> (#[trigger] cells@[k])@ == header_row()[k],
        decreases META_COLUMNS - c,
    {
        cells.push(plain(META_NAMES[c].to_owned()));
        c += 1;
    }
    let mut f: usize = 0;
    while f < NUM_FEATURES
        invariant
            f <= NUM_FEATURES,
            cells@.len() == META_COLUMNS + f,
            forall|k: int| 0 <= k < cells@.len() ==> (#[trigger] cells@[k])@ == header_row()[k],
        decreases NUM_FEATURES - f,
    {
        cells.push(plain(FEATURE_NAMES[f].to_owned()));
        f += 1;
    }
    assert(cell_views(cells@) =~= header_row());
    cells
}

fn sample_cells(s: &Sample<String>) -> (cells: Vec<Cell>)
    ensures
        cell_views(cells@) == sample_row(text_sample(*s)),
{
    let ghost row = sample_row(text_sample(*s));
    let mut cells: Vec<Cell> = vec![
        plain(decimal(s.game_pk as i128)),
        plain(s.date.clone()),
        plain(decimal(s.season as i128)),
        Cell { quoted: true, text: s.home_name.clone() },
        Cell { quoted: true, text: s.away_name.clone() },
        plain(decimal(s.home_score as i128)),
        plain(decimal(s.away_score as i128)),
        plain(decimal(s.label as i128)),
        plain(decimal(s.home_gp as i128)),
        plain(decimal(s.away_gp as i128)),
        plain(s.elo_prob.clone()),
    ];
    assert(cell_views(cells@) =~= meta_row(text_sample(*s)));
    assert forall|k: int| 0 <= k < cells@.len() implies (#[trigger] cells@[k])@ == row[k] by {
        assert(cell_views(cells@)[k] == row[k]);
    }
    let mut f: usize = 0;
    while f < s.features.len()
        invariant
            f <= s.features@.len(),
            row == sample_row(text_sample(*s)),
            cells@.len() == META_COLUMNS + f,
            forall|k: int| 0 <= k < cells@.len() ==> (#[trigger] cells@[k])@ == row[k],
        decreases s.features@.len() - f,
    {
        cells.push(plain(s.features[f].clone()));
        assert(row[META_COLUMNS + f] == Field::Plain(s.features@[f as int]@));
        f += 1;
    }
    assert(cell_views(cells@) =~= row);
    cells
}

/// The rows as comma-separated text, with one column per feature.
pub fn save_csv(samples: &Vec<Sample<String>>) -> (out: String)
    ensures
        out@ == csv_text(text_samples(samples@)),
{
    let mut out = String::new();
    let ghost grid = dataset_grid(text_samples(samples@));
    push_line(&mut out, &header_cells());
    proof {
        assert(grid.take(1).drop_last() =~= Seq::<Seq<Field>>::empty());
        assert(grid.take(1).last() == header_row());
        assert(grid_text(Seq::<Seq<Field>>::empty()) =~= Seq::<char>::empty());
        assert(out@ =~= grid_text(grid.take(1)));
    }
    let mut i: usize = 0;
    while i < samples.len()
        invariant
            i <= samples@.len(),
            grid == dataset_grid(text_samples(samples@)),
            out@ == grid_text(grid.take(i + 1)),
        decreases samples@.len() - i,
    {
        push_line(&mut out, &sample_cells(&samples[i]));
        proof {
            assert(grid.take(i + 2).drop_last() =~= grid.take(i + 1));
            assert(grid.take(i + 2).last() == sample_row(text_sample(samples@[i as int])));
        }
        i += 1;
    }
    assert(grid.take(i + 1) =~= grid);
    out
}

// ------------------------------------------------------------------- reading

/// Why a table is not a data set.
pub enum CsvFault {
    /// The table cannot be read: the message of the reader.
    Reader(String),
    /// A row with another number of columns.
    Columns(usize),
    /// A text that does not read as what its column holds.
    Field { column: usize, text: String },
}

pub enum CsvFaultView {
    Reader(Seq<char>),
    Columns(int),
    Field { column: int, text: Seq<char> },
}

impl View for CsvFault {
    type V = CsvFaultView;

    open spec fn view(&self) -> CsvFaultView {
        match self {
            CsvFault::Reader(message) => CsvFaultView::Reader(message@),
            CsvFault::Columns(n) => CsvFaultView::Columns(*n as int),
            CsvFault::Field { column, text } => CsvFaultView::Field {
                column: *column as int,
                text: text@,
            },
        }
    }
}

/// What a column holds.
#[derive(Debug, Clone, Copy, PartialEq, Eq, Structural)]
pub enum Holds {
    /// An integer of 64 bits.
    Long,
    /// An integer of 32 bits.
    Short,
    Count,
    AnyText,
    /// A fractional number.
    Fraction,
}

pub open spec fn column_holds(column: int) -> Holds {
    if column == 0 {
        Holds::Long
    } else if column == 2 || column == 5 || column == 6 {
        Holds::Short
    } else if column == 7 || column == 8 || column == 9 {
        Holds::Count
    } else if column == 1 || column == 3 || column == 4 {
        Holds::AnyText
    } else {
        Holds::Fraction
    }
}

/// What a column holds.
pub fn holds(column: usize) -> (r: Holds)
    ensures
        r == column_holds(column as int),
{
    match column {
        0 => Holds::Long,
        2 | 5 | 6 => Holds::Short,
        7 | 8 | 9 => Holds::Count,
        1 | 3 | 4 => Holds::AnyText,
        _ => Holds::Fraction,
    }
}

/// Whether a text reads as what a column holds.
pub open spec fn fits(column: int, text: Seq<char>) -> bool {
    match column_holds(column) {
        Holds::Long => bounded_int(text, i64::MIN as int, i64::MAX as int) is Some,
        Holds::Short => bounded_int(text, i32::MIN as int, i32::MAX as int) is Some,
        Holds::Count => bounded_int(text, 0, usize::MAX as int) is Some,
        Holds::AnyText => true,
        Holds::Fraction => is_fraction_text(text),
    }
}

/// The columns in the order in which they are read: first the features, then the
/// others.
pub open spec fn read_column(k: int) -> int {
    if k < NUM_FEATURES {
        META_COLUMNS + k
    } else {
        k - NUM_FEATURES
    }
}

/// The first column that does not fit, from the `k`-th on in the order of reading.
pub open spec fn misfit(record: Seq<Seq<char>>, k: int) -> Option<int>
    decreases COLUMNS - k,
{
    if k >= COLUMNS {
        None
    } else if !fits(read_column(k), record[read_column(k)]) {
        Some(read_column(k))
    } else {
        misfit(record, k + 1)
    }
}

/// The sample of a record whose columns all fit.
pub open spec fn record_sample(record: Seq<Seq<char>>) -> SampleView<Seq<char>> {
    SampleView {
        game_pk: bounded_int(record[0], i64::MIN as int, i64::MAX as int)->0 as i64,
        date: record[1],
        season: bounded_int(record[2], i32::MIN as int, i32::MAX as int)->0 as i32,
        home_name: record[3],
        away_name: record[4],
        home_score: bounded_int(record[5], i32::MIN as int, i32::MAX as int)->0 as i32,
        away_score: bounded_int(record[6], i32::MIN as int, i32::MAX as int)->0 as i32,
        label: bounded_int(record[7], 0, usize::MAX as int)->0 as usize,
        features: record.subrange(META_COLUMNS as int, COLUMNS as int),
        home_gp: bounded_int(record[8], 0, usize::MAX as int)->0 as usize,
        away_gp: bounded_int(record[9], 0, usize::MAX as int)->0 as usize,
        elo_prob: record[10],
    }
}

/// What a record is read as.
pub open spec fn row_reading(record: Seq<Seq<char>>) -> Result<
    SampleView<Seq<char>>,
    CsvFaultView,
> {
    if record.len() != COLUMNS {
        Err(CsvFaultView::Columns(record.len() as int))
    } else {
        match misfit(record, 0) {
            Some(column) => Err(CsvFaultView::Field { column, text: record[column] }),
            None => Ok(record_sample(record)),
        }
    }
}

/// What the records are read as: the samples, or the first fault.
pub open spec fn rows_reading(records: Seq<Seq<Seq<char>>>) -> Result<
    Seq<SampleView<Seq<char>>>,
    CsvFaultView,
>
    decreases records.len(),
{
    if records.len() == 0 {
        Ok(Seq::empty())
    } else {
        match rows_reading(records.drop_last()) {
            Err(fault) => Err(fault),
            Ok(samples) => match row_reading(records.last()) {
                Err(fault) => Err(fault),
                Ok(sample) => Ok(samples.push(sample)),
            },
        }
    }
}

/// What a table is read as: the samples of its records, or the first fault. An
/// error of the reader comes after the records before it.
pub open spec fn table_reading(
    records: Seq<Seq<Seq<char>>>,
    error: Option<Seq<char>>,
) -> Result<Seq<SampleView<Seq<char>>>, CsvFaultView> {
    match rows_reading(records) {
        Err(fault) => Err(fault),
        Ok(samples) => match error {
            Some(message) => Err(CsvFaultView::Reader(message)),
            None => Ok(samples),
        },
    }
}

/// `r` says what a table was read as.
pub open spec fn tells(
    r: Result<Vec<Sample<String>>, CsvFault>,
    reading: Result<Seq<SampleView<Seq<char>>>, CsvFaultView>,
) -> bool {
    match r {
        Ok(samples) => reading == Ok::<Seq<SampleView<Seq<char>>>, CsvFaultView>(
            text_samples(samples@),
        ),
        Err(fault) => reading == Err::<Seq<SampleView<Seq<char>>>, CsvFaultView>(fault@),
    }
}

fn field_fault(record: &Vec<String>, column: usize) -> (f: CsvFault)
    requires
        column < record@.len(),
    ensures
        f@ == (CsvFaultView::Field { column: column as int, text: record@[column as int]@ }),
{
    CsvFault::Field { column, text: record[column].clone() }
}

proof fn lemma_misfit_later(record: Seq<Seq<char>>, k: int)
    requires
        0 <= k <= COLUMNS,
        forall|j: int| 0 <= j < k ==> fits(#[trigger] read_column(j), record[read_column(j)]),
    ensures
        misfit(record, 0) == misfit(record, k),
    decreases k,
{
    if k > 0 {
        lemma_misfit_later(record, k - 1);
        assert(fits(read_column(k - 1), record[read_column(k - 1)]));
    }
}

fn column_fits(record: &Vec<String>, column: usize) -> (r: bool)
    requires
        column < record@.len(),
    ensures
        r == fits(column as int, record@[column as int]@),
{
    let text = record[column].as_str();
    match holds(column) {
        Holds::Long => parse_i64(text).is_some(),
        Holds::Short => parse_i32(text).is_some(),
        Holds::Count => parse_usize(text).is_some(),
        Holds::AnyText => true,
        Holds::Fraction => is_fraction(text),
    }
}

/// The first column that does not fit, in the order of reading.
fn find_misfit(record: &Vec<String>) -> (r: Option<usize>)
    requires
        record@.len() == COLUMNS,
    ensures
        match r {
            Some(column) => column < COLUMNS && misfit(record_view(*record), 0) == Some(
                column as int,
            ),
            None => misfit(record_view(*record), 0) is None,
        },
{
    let ghost view = record_view(*record);
    let mut k: usize = 0;
    while k < COLUMNS
        invariant
            k <= COLUMNS,
            record@.len() == COLUMNS,
            view == record_view(*record),
            forall|j: int| 0 <= j < k ==> fits(#[trigger] read_column(j), view[read_column(j)]),
        decreases COLUMNS - k,
    {
        let column: usize = if k < NUM_FEATURES {
            META_COLUMNS + k
        } else {
            k - NUM_FEATURES
        };
        assert(column == read_column(k as int));
        if !column_fits(record, column) {
            proof {
                lemma_misfit_later(view, k as int);
            }
            return Some(column);
        }
        k += 1;
    }
    proof {
        lemma_misfit_later(view, COLUMNS as int);
    }
    None
}

/// Where all columns fit, each of them does.
proof fn lemma_all_fit(record: Seq<Seq<char>>, k: int, column: int)
    requires
        misfit(record, k) is None,
        0 <= k,
        exists|j: int| k <= j < COLUMNS && #[trigger] read_column(j) == column,
    ensures
        fits(column, record[column]),
    decreases COLUMNS - k,
{
    let j = choose|j: int| k <= j < COLUMNS && #[trigger] read_column(j) == column;
    if j > k {
        assert(read_column(j) == column);
        lemma_all_fit(record, k + 1, column);
    }
}

proof fn lemma_meta_fits(record: Seq<Seq<char>>, column: int)
    requires
        misfit(record, 0) is None,
        0 <= column < META_COLUMNS,
    ensures
        fits(column, record[column]),
{
    assert(read_column(column + NUM_FEATURES) == column);
    lemma_all_fit(record, 0, column);
}

/// Reads a record.
pub fn parse_row(record: &Vec<String>) -> (r: Result<Sample<String>, CsvFault>)
    ensures
        match r {
            Ok(sample) => row_reading(record_view(*record)) == Ok::<
                SampleView<Seq<char>>,
                CsvFaultView,
            >(text_sample(sample)),
            Err(fault) => row_reading(record_view(*record)) == Err::<
                SampleView<Seq<char>>,
                CsvFaultView,
            >(fault@),
        },
{
    let ghost view = record_view(*record);
    if record.len() != COLUMNS {
        return Err(CsvFault::Columns(record.len()));
    }
    if let Some(column) = find_misfit(record) {
        return Err(field_fault(record, column));
    }
    let mut features: Vec<String> = Vec::new();
    let mut f: usize = META_COLUMNS;
    while f < COLUMNS
        invariant
            META_COLUMNS <= f <= COLUMNS,
            record@.len() == COLUMNS,
            features@.len() == f - META_COLUMNS,
            forall|k: int|
                0 <= k < features@.len() ==> (#[trigger] features@[k])@ == record@[k + META_COLUMNS]@,
        decreases COLUMNS - f,
    {
        features.push(record[f].clone());
        f += 1;
    }
    proof {
        lemma_meta_fits(view, 0);
        lemma_meta_fits(view, 2);
        lemma_meta_fits(view, 5);
        lemma_meta_fits(view, 6);
        lemma_meta_fits(view, 7);
        lemma_meta_fits(view, 8);
        lemma_meta_fits(view, 9);
    }
    match (
        parse_i64(record[0].as_str()),
        parse_i32(record[2].as_str()),
        parse_i32(record[5].as_str()),
        parse_i32(record[6].as_str()),
        parse_usize(record[7].as_str()),
        parse_usize(record[8].as_str()),
        parse_usize(record[9].as_str()),
    ) {
        (
            Some(game_pk),
            Some(season),
            Some(home_score),
            Some(away_score),
            Some(label),
            Some(home_gp),
            Some(away_gp),
        ) => {
            let sample = Sample {
                game_pk,
                date: record[1].clone(),
                season,
                home_name: record[3].clone(),
                away_name: record[4].clone(),
                home_score,
                away_score,
                label,
                features,
                home_gp,
                away_gp,
                elo_prob: record[10].clone(),
            };
            assert(text_sample(sample).features =~= record_sample(view).features);
            assert(text_sample(sample) =~= record_sample(view));
            Ok(sample)
        },
        _ => vstd::pervasive::unreached(),
    }
}

/// A fault among the first records is the fault of all of them.
proof fn lemma_fault_stays(records: Seq<Seq<Seq<char>>>, n: int)
    requires
        0 <= n <= records.len(),
        rows_reading(records.take(n)) is Err,
    ensures
        rows_reading(records) == rows_reading(records.take(n)),
    decreases records.len(),
{
    if n == records.len() {
        assert(records.take(n) =~= records);
    } else {
        assert(records.drop_last().take(n) =~= records.take(n));
        lemma_fault_stays(records.drop_last(), n);
    }
}

/// Reads the records of a table, of which `error` is the error that the reader
/// ended with, if any.
pub fn load_records(records: &Vec<Vec<String>>, error: Option<String>) -> (r: Result<
    Vec<Sample<String>>,
    CsvFault,
>)
    ensures
        tells(r, table_reading(record_views(records@), message_view(error))),
{
    let ghost views = record_views(records@);
    let mut out: Vec<Sample<String>> = Vec::new();
    let mut i: usize = 0;
    assert(views.take(0) =~= Seq::<Seq<Seq<char>>>::empty());
    assert(text_samples(out@) =~= Seq::<SampleView<Seq<char>>>::empty());
    while i < records.len()
        invariant
            i <= records@.len(),
            views == record_views(records@),
            rows_reading(views.take(i as int)) == Ok::<Seq<SampleView<Seq<char>>>, CsvFaultView>(
                text_samples(out@),
            ),
        decreases records@.len() - i,
    {
        let ghost before = out@;
        assert(views.take(i + 1).drop_last() =~= views.take(i as int));
        assert(views.take(i + 1).last() == record_view(records@[i as int]));
        match parse_row(&records[i]) {
            Ok(sample) => {
                out.push(sample);
                assert(text_samples(out@) =~= text_samples(before).push(text_sample(sample)));
            },
            Err(fault) => {
                proof {
                    lemma_fault_stays(views, i + 1);
                }
                return Err(fault);
            },
        }
        i += 1;
    }
    assert(views.take(i as int) =~= views);
    match error {
        Some(message) => Err(CsvFault::Reader(message)),
        None => Ok(out),
    }
}

// ---------------------------------------------------------------- round trip

/// A sample that can be told apart in the table: a date without commas and line
/// breaks that does not begin with a quote, names without quotes, and numbers in
/// place of the features and of the probability.
pub open spec fn is_storable(s: SampleView<Seq<char>>) -> bool {
    &&& is_plain(s.date)
    &&& !s.home_name.contains('"')
    &&& !s.away_name.contains('"')
    &&& is_fraction_text(s.elo_prob)
    &&& s.features.len() == NUM_FEATURES
    &&& forall|i: int| 0 <= i < s.features.len() ==> is_fraction_text(#[trigger] s.features[i])
}

pub open spec fn all_storable(samples: Seq<SampleView<Seq<char>>>) -> bool {
    forall|i: int| 0 <= i < samples.len() ==> is_storable(#[trigger] samples[i])
}

/// The characters of integers and of fractional numbers.
spec fn is_number_char(c: char) -> bool {
    c != ',' && c != '\n' && c != '\r' && c != '"'
}

spec fn is_number_text(t: Seq<char>) -> bool {
    forall|i: int| 0 <= i < t.len() ==> is_number_char(#[trigger] t[i])
}

proof fn lemma_mantissa_chars(t: Seq<char>)
    requires
        is_mantissa(t),
    ensures
        is_number_text(t),
{
    assert forall|i: int| 0 <= i < t.len() implies is_number_char(#[trigger] t[i]) by {
        if is_digits(t) {
            assert(is_digit(t[i]));
        } else {
            let p = choose|p: int|
                0 <= p < t.len() && #[trigger] t[p] == '.' && all_digits(t.take(p)) && all_digits(
                    t.skip(p + 1),
                ) && t.len() > 1;
            if i < p {
                assert(is_digit(t.take(p)[i]));
            } else if i > p {
                assert(is_digit(t.skip(p + 1)[i - p - 1]));
            }
        }
    }
}

proof fn lemma_exponent_chars(t: Seq<char>)
    requires
        is_exponent(t),
    ensures
        is_number_text(t),
{
    let rest = t.drop_first();
    assert forall|i: int| 0 <= i < t.len() implies is_number_char(#[trigger] t[i]) by {
        if i > 0 {
            assert(rest[i - 1] == t[i]);
            if rest[0] == '+' || rest[0] == '-' {
                if i > 1 {
                    assert(is_digit(rest.drop_first()[i - 2]));
                }
            } else {
                assert(is_digit(rest[i - 1]));
            }
        }
    }
}

proof fn lemma_word_chars(t: Seq<char>)
    requires
        is_word(t, "inf"@, "INF"@) || is_word(t, "infinity"@, "INFINITY"@) || is_word(
            t,
            "nan"@,
            "NAN"@,
        ),
    ensures
        is_number_text(t),
{
    reveal_strlit("inf");
    reveal_strlit("INF");
    reveal_strlit("infinity");
    reveal_strlit("INFINITY");
    reveal_strlit("nan");
    reveal_strlit("NAN");
}

proof fn lemma_fraction_is_plain(t: Seq<char>)
    requires
        is_fraction_text(t),
    ensures
        is_plain(t),
{
    let u = unsigned_part(t);
    if is_mantissa(u) {
        lemma_mantissa_chars(u);
    } else if is_unsigned_decimal(u) {
        let k = choose|k: int|
            0 <= k <= u.len() && is_mantissa(#[trigger] u.take(k)) && is_exponent(u.skip(k));
        lemma_mantissa_chars(u.take(k));
        lemma_exponent_chars(u.skip(k));
        assert forall|i: int| 0 <= i < u.len() implies is_number_char(#[trigger] u[i]) by {
            if i < k {
                assert(u.take(k)[i] == u[i]);
            } else {
                assert(u.skip(k)[i - k] == u[i]);
            }
        }
    } else {
        lemma_word_chars(u);
    }
    assert forall|i: int| 0 <= i < t.len() implies is_number_char(#[trigger] t[i]) by {
        if u.len() < t.len() {
            if i > 0 {
                assert(u[i - 1] == t[i]);
            }
        } else {
            assert(u[i] == t[i]);
        }
    }
}

proof fn lemma_int_is_plain(i: int)
    ensures
        is_plain(int_text(i)),
{
    let t = int_text(i);
    let digits = nat_text(if i < 0 {
        (-i) as nat
    } else {
        i as nat
    });
    lemma_nat_text(if i < 0 {
        (-i) as nat
    } else {
        i as nat
    });
    assert forall|k: int| 0 <= k < t.len() implies is_number_char(#[trigger] t[k]) by {
        if i < 0 {
            if k > 0 {
                assert(t[k] == digits[k - 1]);
                assert(is_digit(digits[k - 1]));
            }
        } else {
            assert(is_digit(digits[k]));
        }
    }
}

proof fn lemma_meta_names_are_plain()
    ensures
        forall|c: int| 0 <= c < META_COLUMNS ==> is_plain(#[trigger] META_NAMES@[c]@),
        META_NAMES@[0]@.len() > 0,
        META_NAMES@[0]@[0] == 'g',
{
    reveal_strlit("game_pk");
    reveal_strlit("date");
    reveal_strlit("season");
    reveal_strlit("home");
    reveal_strlit("away");
    reveal_strlit("home_score");
    reveal_strlit("away_score");
    reveal_strlit("label");
    reveal_strlit("home_gp");
    reveal_strlit("away_gp");
    reveal_strlit("elo_baseline");
}

proof fn lemma_feature_names_are_plain()
    ensures
        forall|c: int| 0 <= c < NUM_FEATURES ==> is_plain(#[trigger] FEATURE_NAMES@[c]@),
{
    reveal_strlit("elo_diff");
    reveal_strlit("elo_prob");
    reveal_strlit("home_wpct");
    reveal_strlit("away_wpct");
    reveal_strlit("wpct_diff");
    reveal_strlit("home_rs_pg");
    reveal_strlit("home_ra_pg");
    reveal_strlit("away_rs_pg");
    reveal_strlit("away_ra_pg");
    reveal_strlit("home_rundiff_pg");
    reveal_strlit("away_rundiff_pg");
    reveal_strlit("home_form10");
    reveal_strlit("away_form10");
    reveal_strlit("home_rs10");
    reveal_strlit("home_ra10");
    reveal_strlit("away_rs10");
    reveal_strlit("away_ra10");
    reveal_strlit("home_pyth");
    reveal_strlit("away_pyth");
    reveal_strlit("home_rest");
    reveal_strlit("away_rest");
    reveal_strlit("home_sp_ra");
    reveal_strlit("away_sp_ra");
    reveal_strlit("home_sp_exp");
    reveal_strlit("away_sp_exp");
    reveal_strlit("home_wpct_at_home");
    reveal_strlit("away_wpct_on_road");
    reveal_strlit("home_rundiff_at_home");
    reveal_strlit("away_rundiff_on_road");
}

/// A row begins with its first field.
proof fn lemma_row_start(row: Seq<Field>)
    requires
        row.len() > 0,
        row[0].written().len() > 0,
    ensures
        row_text(row).len() > 0,
        row_text(row)[0] == row[0].written()[0],
    decreases row.len(),
{
    if row.len() > 1 {
        lemma_row_start(row.drop_last());
    }
}

/// A table begins with its first row.
proof fn lemma_grid_start(rows: Seq<Seq<Field>>)
    requires
        rows.len() > 0,
        row_text(rows[0]).len() > 0,
    ensures
        grid_text(rows).len() > 0,
        grid_text(rows)[0] == row_text(rows[0])[0],
    decreases rows.len(),
{
    if rows.len() > 1 {
        lemma_grid_start(rows.drop_last());
    } else {
        assert(grid_text(rows.drop_last()) =~= Seq::<char>::empty());
    }
}

proof fn lemma_sample_row_is_clear(s: SampleView<Seq<char>>, c: int)
    requires
        is_storable(s),
        0 <= c < COLUMNS,
    ensures
        sample_row(s).len() == COLUMNS,
        sample_row(s)[c].is_clear(),
{
    lemma_int_is_plain(s.game_pk as int);
    lemma_int_is_plain(s.season as int);
    lemma_int_is_plain(s.home_score as int);
    lemma_int_is_plain(s.away_score as int);
    lemma_int_is_plain(s.label as int);
    lemma_int_is_plain(s.home_gp as int);
    lemma_int_is_plain(s.away_gp as int);
    lemma_fraction_is_plain(s.elo_prob);
    if c >= META_COLUMNS {
        assert(sample_row(s)[c] == Field::Plain(s.features[c - META_COLUMNS]));
        lemma_fraction_is_plain(s.features[c - META_COLUMNS]);
    } else {
        assert(sample_row(s)[c] == meta_row(s)[c]);
    }
}

/// What is written of storable samples is a table.
proof fn lemma_dataset_is_table(samples: Seq<SampleView<Seq<char>>>)
    requires
        all_storable(samples),
    ensures
        is_table(dataset_grid(samples)),
{
    let rows = dataset_grid(samples);
    assert(rows[0] == header_row());
    assert forall|i: int, c: int| 0 <= i < rows.len() && 0 <= c < COLUMNS implies (
    #[trigger] rows[i][c]).is_clear() by {
        if i > 0 {
            assert(rows[i] == sample_row(samples[i - 1]));
            lemma_sample_row_is_clear(samples[i - 1], c);
        } else {
            lemma_meta_names_are_plain();
            lemma_feature_names_are_plain();
        }
    }
    assert forall|i: int| 0 <= i < rows.len() implies (#[trigger] rows[i]).len() == COLUMNS by {
        if i > 0 {
            assert(rows[i] == sample_row(samples[i - 1]));
            lemma_sample_row_is_clear(samples[i - 1], 0);
        }
    }
    lemma_meta_names_are_plain();
    assert(header_row()[0] == Field::Plain(META_NAMES@[0]@));
    lemma_row_start(header_row());
    lemma_grid_start(rows);
}

proof fn lemma_fits_means_no_misfit(record: Seq<Seq<char>>, k: int)
    requires
        0 <= k <= COLUMNS,
        forall|c: int| 0 <= c < COLUMNS ==> fits(c, #[trigger] record[c]),
    ensures
        misfit(record, k) is None,
    decreases COLUMNS - k,
{
    if k < COLUMNS {
        assert(fits(read_column(k), record[read_column(k)]));
        lemma_fits_means_no_misfit(record, k + 1);
    }
}

/// The line of a storable sample reads back as the sample.
pub proof fn lemma_row_reads_back(s: SampleView<Seq<char>>)
    requires
        is_storable(s),
    ensures
        row_reading(row_values(sample_row(s))) == Ok::<SampleView<Seq<char>>, CsvFaultView>(s),
{
    let record = row_values(sample_row(s));
    lemma_int_text_reads_back(s.game_pk as int, i64::MIN as int, i64::MAX as int);
    lemma_int_text_reads_back(s.season as int, i32::MIN as int, i32::MAX as int);
    lemma_int_text_reads_back(s.home_score as int, i32::MIN as int, i32::MAX as int);
    lemma_int_text_reads_back(s.away_score as int, i32::MIN as int, i32::MAX as int);
    lemma_int_text_reads_back(s.label as int, 0, usize::MAX as int);
    lemma_int_text_reads_back(s.home_gp as int, 0, usize::MAX as int);
    lemma_int_text_reads_back(s.away_gp as int, 0, usize::MAX as int);
    assert forall|c: int| 0 <= c < COLUMNS implies fits(c, #[trigger] record[c]) by {
        if c >= META_COLUMNS {
            assert(record[c] == s.features[c - META_COLUMNS]);
        }
    }
    lemma_fits_means_no_misfit(record, 0);
    assert(record_sample(record).features =~= s.features);
    assert(record_sample(record) =~= s);
}

/// Under each name of the header stands what the name says of the sample: under the names
/// before the features its number, date, season, teams, scores, label, games played and
/// chances by the ratings, under the name of each feature that feature.
pub proof fn lemma_columns_stand_under_their_names(s: Sample<String>, c: int)
    requires
        s.features@.len() == 29,
        0 <= c < 29,
    ensures
        ({
            let names = row_values(header_row());
            let row = row_values(sample_row(text_sample(s)));
            &&& names.len() == 40
            &&& row.len() == 40
            &&& names[0] == "game_pk"@ && row[0] == int_text(s.game_pk as int)
            &&& names[1] == "date"@ && row[1] == s.date@
            &&& names[2] == "season"@ && row[2] == int_text(s.season as int)
            &&& names[3] == "home"@ && row[3] == s.home_name@
            &&& names[4] == "away"@ && row[4] == s.away_name@
            &&& names[5] == "home_score"@ && row[5] == int_text(s.home_score as int)
            &&& names[6] == "away_score"@ && row[6] == int_text(s.away_score as int)
            &&& names[7] == "label"@ && row[7] == int_text(s.label as int)
            &&& names[8] == "home_gp"@ && row[8] == int_text(s.home_gp as int)
            &&& names[9] == "away_gp"@ && row[9] == int_text(s.away_gp as int)
            &&& names[10] == "elo_baseline"@ && row[10] == s.elo_prob@
            &&& names[11 + c] == FEATURE_NAMES@[c]@ && row[11 + c] == s.features@[c]@
        }),
{
}

/// A line that reads as a sample has forty columns, and each figure of the sample is the
/// number in its column.
pub proof fn lemma_sample_is_read_from_its_columns(record: Seq<Seq<char>>, s: Sample<String>)
    requires
        row_reading(record) == Ok::<SampleView<Seq<char>>, CsvFaultView>(text_sample(s)),
    ensures
        record.len() == 40,
        int_of_text(record[0], true) == Some(s.game_pk as int),
        s.date@ == record[1],
        int_of_text(record[2], true) == Some(s.season as int),
        s.home_name@ == record[3],
        s.away_name@ == record[4],
        int_of_text(record[5], true) == Some(s.home_score as int),
        int_of_text(record[6], true) == Some(s.away_score as int),
        int_of_text(record[7], false) == Some(s.label as int),
        int_of_text(record[8], false) == Some(s.home_gp as int),
        int_of_text(record[9], false) == Some(s.away_gp as int),
        s.elo_prob@ == record[10],
        forall|c: int| 0 <= c < 29 ==> (#[trigger] s.features@[c])@ == record[11 + c],
        s.features@.len() == 29,
{
    assert forall|c: int| 0 <= c < 40 implies fits(c, #[trigger] record[c]) by {
        lemma_nothing_misfits(record, 0, if c >= 11 {
            c - 11
        } else {
            c + 29
        });
    }
    assert(fits(0, record[0]) && fits(2, record[2]) && fits(5, record[5]) && fits(6, record[6]));
    assert(fits(7, record[7]) && fits(8, record[8]) && fits(9, record[9]));
    let t = text_sample(s);
    assert(t.features.len() == 29);
    assert forall|c: int| 0 <= c < 29 implies (#[trigger] s.features@[c])@ == record[11 + c] by {
        assert(t.features[c] == s.features@[c]@);
    }
}

proof fn lemma_nothing_misfits(record: Seq<Seq<char>>, k: int, m: int)
    requires
        0 <= k <= m < COLUMNS,
        misfit(record, k) is None,
    ensures
        fits(read_column(m), record[read_column(m)]),
    decreases m - k,
{
    if k < m {
        lemma_nothing_misfits(record, k + 1, m);
    }
}

/// The lines of storable samples read back as the samples.
pub proof fn lemma_rows_read_back(samples: Seq<SampleView<Seq<char>>>)
    requires
        all_storable(samples),
    ensures
        table_reading(body_values(dataset_grid(samples)), None) == Ok::<
            Seq<SampleView<Seq<char>>>,
            CsvFaultView,
        >(samples),
    decreases samples.len(),
{
    let records = body_values(dataset_grid(samples));
    if samples.len() == 0 {
        assert(records =~= Seq::<Seq<Seq<char>>>::empty());
        assert(samples =~= Seq::<SampleView<Seq<char>>>::empty());
    } else {
        lemma_rows_read_back(samples.drop_last());
        assert(records.drop_last() =~= body_values(dataset_grid(samples.drop_last())));
        assert(records.last() == row_values(sample_row(samples.last())));
        assert(is_storable(samples[samples.len() - 1]));
        lemma_row_reads_back(samples.last());
        assert(samples.drop_last().push(samples.last()) =~= samples);
    }
}

/// Reads a table of samples. What `save_csv` wrote of storable samples reads back
/// as the samples.
pub fn load_csv(bytes: &[u8]) -> (r: Result<Vec<Sample<String>>, CsvFault>)
    ensures
        tells(r, table_reading(csv_reading(bytes@).0, csv_reading(bytes@).1)),
        forall|samples: Seq<SampleView<Seq<char>>>|
            all_storable(samples) && bytes@ == encode_utf8(#[trigger] csv_text(samples))
                ==> r is Ok && text_samples(r->Ok_0@) == samples,
{
    let (records, error) = csv_records(bytes);
    proof {
        assert forall|samples: Seq<SampleView<Seq<char>>>|
            all_storable(samples) && bytes@ == encode_utf8(#[trigger] csv_text(samples)) implies
            table_reading(record_views(records@), message_view(error)) == Ok::<
            Seq<SampleView<Seq<char>>>,
            CsvFaultView,
        >(samples) by {
            lemma_dataset_is_table(samples);
            lemma_rows_read_back(samples);
            assert(csv_text(samples) == grid_text(dataset_grid(samples)));
        }
    }
    load_records(&records, error)
}

/// What to tell of a row with another number of columns.
pub fn columns_message(columns: usize) -> (r: String)
    ensures
        r@ == "CSV con "@ + int_text(columns as int) + " columnas, se esperaban "@ + int_text(
            COLUMNS as int,
        ) + ". Regenera el dataset con `fetch`."@,
{
    let mut r = "CSV con ".to_owned();
    r.append(decimal(columns as i128).as_str());
    r.append(" columnas, se esperaban ");
    r.append(decimal(COLUMNS as i128).as_str());
    r.append(". Regenera el dataset con `fetch`.");
    r
}

/// What fits a column: an integer of 64 bits the number of the game, integers of 32 bits the
/// season and the scores, counts the label and the games played, any text the date and the
/// names, and a number each feature and the chances.
pub proof fn lemma_what_fits_a_column(text: Seq<char>, c: int)
    ensures
        fits(0, text) <==> bounded_int(text, i64::MIN as int, i64::MAX as int) is Some,
        c == 2 || c == 5 || c == 6 ==> (fits(c, text) <==> bounded_int(
            text,
            i32::MIN as int,
            i32::MAX as int,
        ) is Some),
        7 <= c <= 9 ==> (fits(c, text) <==> bounded_int(text, 0, usize::MAX as int) is Some),
        c == 1 || c == 3 || c == 4 ==> fits(c, text),
        10 <= c < 40 ==> (fits(c, text) <==> is_fraction_text(text)),
{
}

/// A line with a fault in it tells the first one: that it has not forty columns, or else the
/// first text that does not fit its column, among the features before the other columns.
pub proof fn lemma_first_fault_of_a_line_is_told(record: Seq<Seq<char>>, c: int)
    requires
        0 <= c < 40,
    ensures
        record.len() != 40 ==> row_reading(record) == Err::<SampleView<Seq<char>>, CsvFaultView>(
            CsvFaultView::Columns(record.len() as int),
        ),
        record.len() == 40 && !fits(c, record[c]) ==> match row_reading(record) {
            Err(CsvFaultView::Field { column, text }) => {
                &&& 0 <= column < 40
                &&& text == record[column]
                &&& !fits(column, record[column])
                &&& c >= 11 ==> 11 <= column <= c
                &&& c < 11 ==> column <= c || column >= 11
            },
            _ => false,
        },
{
    if record.len() == 40 && !fits(c, record[c]) {
        let k = if c >= 11 {
            c - 11
        } else {
            c + 29
        };
        lemma_misfit_is_first(record, 0, k);
    }
}

proof fn lemma_misfit_is_first(record: Seq<Seq<char>>, k: int, m: int)
    requires
        0 <= k <= m < COLUMNS,
        !fits(read_column(m), record[read_column(m)]),
    ensures
        misfit(record, k) is Some,
        !fits(misfit(record, k)->0, record[misfit(record, k)->0]),
        exists|j: int| k <= j <= m && misfit(record, k)->0 == #[trigger] read_column(j),
    decreases m - k,
{
    if fits(read_column(k), record[read_column(k)]) {
        lemma_misfit_is_first(record, k + 1, m);
        let j = choose|j: int| k + 1 <= j <= m && misfit(record, k + 1)->0 == #[trigger] read_column(j);
        assert(misfit(record, k)->0 == read_column(j));
    } else {
        assert(misfit(record, k)->0 == read_column(k));
    }
}

/// The fault of a table is that of its first faulty line; a message of the reader is told
/// only where no line has a fault, and a table without either gives the sample of each line,
/// in order.
pub proof fn lemma_first_faulty_line_is_told(
    records: Seq<Seq<Seq<char>>>,
    k: int,
    fault: CsvFaultView,
    error: Option<Seq<char>>,
)
    requires
        0 <= k <= records.len(),
        forall|j: int| 0 <= j < k ==> row_reading(#[trigger] records[j]) is Ok,
        k < records.len() ==> row_reading(records[k]) == Err::<
            SampleView<Seq<char>>,
            CsvFaultView,
        >(fault),
    ensures
        k < records.len() ==> table_reading(records, error) == Err::<
            Seq<SampleView<Seq<char>>>,
            CsvFaultView,
        >(fault),
        k == records.len() ==> match error {
            Some(message) => table_reading(records, error) == Err::<
                Seq<SampleView<Seq<char>>>,
                CsvFaultView,
            >(CsvFaultView::Reader(message)),
            None => table_reading(records, error) is Ok && table_reading(records, error)->Ok_0.len()
                == records.len() && forall|j: int|
                0 <= j < records.len() ==> row_reading(#[trigger] records[j]) == Ok::<
                    SampleView<Seq<char>>,
                    CsvFaultView,
                >(table_reading(records, error)->Ok_0[j]),
        },
    decreases records.len(),
{
    if records.len() > 0 {
        let rest = records.drop_last();
        let n = rest.len() as int;
        assert forall|j: int| 0 <= j < k && j < n implies row_reading(#[trigger] rest[j]) is Ok by {
            assert(rest[j] == records[j]);
        }
        if k < n {
            assert(rest[k] == records[k]);
            lemma_first_faulty_line_is_told(rest, k, fault, None);
        } else {
            lemma_first_faulty_line_is_told(rest, n, fault, None);
            if k == records.len() {
                assert(row_reading(records[n]) is Ok);
                let all = rows_reading(records)->Ok_0;
                assert forall|j: int| 0 <= j < records.len() implies row_reading(
                    #[trigger] records[j],
                ) == Ok::<SampleView<Seq<char>>, CsvFaultView>(all[j]) by {
                    if j < n {
                        assert(rest[j] == records[j]);
                    }
                }
            }
        }
    }
}

} // verus!
