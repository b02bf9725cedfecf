//! Numbers as text: decimal integers, and the shape of decimal fractions.

use vstd::prelude::*;

verus! {

pub open spec fn is_digit(c: char) -> bool {
    '0' <= c <= '9'
}

/// The value of a digit.
pub open spec fn digit_value(c: char) -> int {
    c as int - '0' as int
}

/// The digit with the given value.
pub open spec fn digit_char(d: int) -> char {
    if d == 0 {
        '0'
    } else if d == 1 {
        '1'
    } else if d == 2 {
        '2'
    } else if d == 3 {
        '3'
    } else if d == 4 {
        '4'
    } else if d == 5 {
        '5'
    } else if d == 6 {
        '6'
    } else if d == 7 {
        '7'
    } else if d == 8 {
        '8'
    } else {
        '9'
    }
}

/// Digits only, possibly none.
pub open spec fn all_digits(s: Seq<char>) -> bool {
    forall|i: int| 0 <= i < s.len() ==> is_digit(#[trigger] s[i])
}

/// One or more digits.
pub open spec fn is_digits(s: Seq<char>) -> bool {
    s.len() > 0 && all_digits(s)
}

/// The number that a row of digits writes.
pub open spec fn digits_value(s: Seq<char>) -> int
    decreases s.len(),
{
    if s.len() == 0 {
        0
    } else {
        digits_value(s.drop_last()) * 10 + digit_value(s.last())
    }
}

/// The decimal digits of a number, without leading zeros.
pub open spec fn nat_text(n: nat) -> Seq<char>
    decreases n,
{
    if n < 10 {
        seq![digit_char(n as int)]
    } else {
        nat_text(n / 10).push(digit_char((n % 10) as int))
    }
}

/// An integer in decimal, with a minus sign before negative ones.
pub open spec fn int_text(i: int) -> Seq<char> {
    if i < 0 {
        seq!['-'] + nat_text((-i) as nat)
    } else {
        nat_text(i as nat)
    }
}

/// The integer that a text writes: an optional sign and digits only. A minus
/// sign counts as a sign only where negative numbers are allowed.
pub open spec fn int_of_text(s: Seq<char>, negatives: bool) -> Option<int> {
    if is_digits(s) {
        Some(digits_value(s))
    } else if s.len() > 0 && s[0] == '+' && is_digits(s.drop_first()) {
        Some(digits_value(s.drop_first()))
    } else if negatives && s.len() > 0 && s[0] == '-' && is_digits(s.drop_first()) {
        Some(-digits_value(s.drop_first()))
    } else {
        None
    }
}

/// The integer that a text writes, if it lies between two bounds.
pub open spec fn bounded_int(s: Seq<char>, lo: int, hi: int) -> Option<int> {
    match int_of_text(s, lo < 0) {
        Some(i) => if lo <= i <= hi {
            Some(i)
        } else {
            None
        },
        None => None,
    }
}

/// A bounded integer lies within its bounds.
pub proof fn lemma_bounds_hold()
    ensures
        forall|s: Seq<char>, lo: int, hi: int| #[trigger]
            bounded_int(s, lo, hi) matches Some(i) ==> lo <= i <= hi,
{
}

/// Leaves out one leading plus or minus sign.
pub open spec fn unsigned_part(s: Seq<char>) -> Seq<char> {
    if s.len() > 0 && (s[0] == '+' || s[0] == '-') {
        s.drop_first()
    } else {
        s
    }
}

/// Digits with an optional point, and at least one digit.
pub open spec fn is_mantissa(s: Seq<char>) -> bool {
    ||| is_digits(s)
    ||| exists|p: int|
        0 <= p < s.len() && #[trigger] s[p] == '.' && all_digits(s.take(p)) && all_digits(
            s.skip(p + 1),
        ) && s.len() > 1
}

/// An exponent mark, an optional sign and digits.
pub open spec fn is_exponent(s: Seq<char>) -> bool {
    &&& s.len() > 0
    &&& s[0] == 'e' || s[0] == 'E'
    &&& is_digits(unsigned_part(s.drop_first()))
}

/// A mantissa with an optional exponent.
pub open spec fn is_unsigned_decimal(s: Seq<char>) -> bool {
    ||| is_mantissa(s)
    ||| exists|k: int|
        0 <= k <= s.len() && is_mantissa(#[trigger] s.take(k)) && is_exponent(s.skip(k))
}

/// The letters of a word, each in lower or in upper case.
pub open spec fn is_word(s: Seq<char>, lower: Seq<char>, upper: Seq<char>) -> bool {
    &&& s.len() == lower.len()
    &&& forall|i: int| 0 <= i < s.len() ==> #[trigger] s[i] == lower[i] || s[i] == upper[i]
}

/// The texts that read as a fractional number: an optional sign, then a decimal
/// number or one of the words for infinity and for no number at all.
pub open spec fn is_fraction_text(s: Seq<char>) -> bool {
    let t = unsigned_part(s);
    ||| is_unsigned_decimal(t)
    ||| is_word(t, "inf"@, "INF"@)
    ||| is_word(t, "infinity"@, "INFINITY"@)
    ||| is_word(t, "nan"@, "NAN"@)
}

/// The characters of a text, one by one.
pub fn chars_of(s: &str) -> (v: Vec<char>)
    ensures
        v@ == s@,
{
    let mut v: Vec<char> = Vec::new();
    for c in it: s.chars()
        invariant
            it.seq() == s@,
            v@ == s@.take(it.index() as int),
    {
        v.push(c);
        assert(s@.take(it.index() as int + 1) =~= s@.take(it.index() as int).push(c));
    }
    assert(s@.take(s@.len() as int) =~= s@);
    v
}

fn push_digit(out: &mut String, d: u128)
    requires
        d < 10,
    ensures
        final(out)@ == old(out)@.push(digit_char(d as int)),
{
    proof {
        reveal_strlit("0");
        reveal_strlit("1");
        reveal_strlit("2");
        reveal_strlit("3");
        reveal_strlit("4");
        reveal_strlit("5");
        reveal_strlit("6");
        reveal_strlit("7");
        reveal_strlit("8");
        reveal_strlit("9");
    }
    let digit = match d {
        0 => "0",
        1 => "1",
        2 => "2",
        3 => "3",
        4 => "4",
        5 => "5",
        6 => "6",
        7 => "7",
        8 => "8",
        _ => "9",
    };
    assert(digit@ =~= seq![digit_char(d as int)]);
    assert(out@ + seq![digit_char(d as int)] =~= out@.push(digit_char(d as int)));
    out.append(digit);
}

fn push_nat(out: &mut String, n: u128)
    ensures
        final(out)@ == old(out)@ + nat_text(n as nat),
    decreases n,
{
    if n >= 10 {
        push_nat(out, n / 10);
        push_digit(out, n % 10);
        assert(out@ =~= old(out)@ + nat_text(n as nat));
    } else {
        push_digit(out, n);
        assert(out@ =~= old(out)@ + nat_text(n as nat));
    }
}

/// An integer in decimal.
pub fn decimal(i: i128) -> (s: String)
    requires
        i > i128::MIN,
    ensures
        s@ == int_text(i as int),
{
    let mut out = String::new();
    if i < 0 {
        proof {
            reveal_strlit("-");
        }
        out.append("-");
        push_nat(&mut out, (-i) as u128);
        assert(out@ =~= seq!['-'] + nat_text((-i) as nat));
    } else {
        push_nat(&mut out, i as u128);
        assert(out@ =~= nat_text(i as nat));
    }
    out
}

proof fn lemma_digits_nonnegative(s: Seq<char>)
    requires
        all_digits(s),
    ensures
        0 <= digits_value(s),
    decreases s.len(),
{
    if s.len() > 0 {
        lemma_digits_nonnegative(s.drop_last());
        assert(is_digit(s.last()));
    }
}

/// Reads the digits from `from` to the end. Gives `None` where there is none,
/// where something else stands among them, or where the number is over `cap`.
fn read_digits(v: &Vec<char>, from: usize, cap: u128) -> (r: Option<u128>)
    requires
        from <= v@.len(),
        cap <= 0x1_0000_0000_0000_0000_0000,
    ensures
        r matches Some(n) ==> is_digits(v@.skip(from as int)) && n == digits_value(
            v@.skip(from as int),
        ) && n <= cap,
        r is None ==> !is_digits(v@.skip(from as int)) || digits_value(v@.skip(from as int)) > cap,
{
    let ghost s = v@.skip(from as int);
    if from == v.len() {
        return None;
    }
    let mut n: u128 = 0;
    let mut over = false;
    let mut i: usize = from;
    assert(s.take(0) =~= Seq::<char>::empty());
    while i < v.len()
        invariant
            from <= i <= v@.len(),
            s == v@.skip(from as int),
            cap <= 0x1_0000_0000_0000_0000_0000,
            all_digits(s.take(i - from)),
            !over ==> n == digits_value(s.take(i - from)) && n <= cap,
            over ==> digits_value(s.take(i - from)) > cap,
        decreases v@.len() - i,
    {
        let c = v[i];
        assert(s[i - from] == c);
        if !('0' <= c && c <= '9') {
            assert(!is_digit(s[i - from]));
            return None;
        }
        let ghost head = s.take(i - from);
        let ghost longer = s.take(i - from + 1);
        proof {
            assert(longer.drop_last() =~= head);
            assert(longer.last() == c);
            assert forall|k: int| 0 <= k < longer.len() implies is_digit(#[trigger] longer[k]) by {
                if k < head.len() {
                    assert(longer[k] == head[k]);
                }
            }
            lemma_digits_nonnegative(head);
        }
        if !over {
            let next: u128 = n * 10 + ((c as u32) - ('0' as u32)) as u128;
            if next > cap {
                over = true;
            } else {
                n = next;
            }
        }
        i += 1;
    }
    assert(s.take(i - from) =~= s);
    if over {
        None
    } else {
        Some(n)
    }
}

/// Reads an integer between two bounds: an optional sign and digits only.
pub fn parse_bounded(s: &str, lo: i128, hi: i128) -> (r: Option<i128>)
    requires
        -0x1_0000_0000_0000_0000 <= lo <= 0,
        0 <= hi <= 0x1_0000_0000_0000_0000,
    ensures
        match r {
            Some(i) => bounded_int(s@, lo as int, hi as int) == Some(i as int),
            None => bounded_int(s@, lo as int, hi as int) is None,
        },
{
    let v = chars_of(s);
    if v.len() == 0 {
        return None;
    }
    assert(v@.skip(1) =~= v@.drop_first());
    assert(v@.skip(0) =~= v@);
    let first = v[0];
    proof {
        // A sign is no digit, so at most one of the readings applies.
        if !is_digit(first) {
            assert(!is_digit(v@[0]));
            assert(!is_digits(v@));
        }
    }
    if first == '+' {
        match read_digits(&v, 1, hi as u128) {
            Some(n) => Some(n as i128),
            None => {
                None
            },
        }
    } else if lo < 0 && first == '-' {
        match read_digits(&v, 1, (-lo) as u128) {
            Some(n) => {
                proof {
                    lemma_digits_nonnegative(v@.drop_first());
                }
                Some(-(n as i128))
            },
            None => None,
        }
    } else {
        match read_digits(&v, 0, hi as u128) {
            Some(n) => Some(n as i128),
            None => None,
        }
    }
}

/// Reads a signed 64-bit integer.
pub fn parse_i64(s: &str) -> (r: Option<i64>)
    ensures
        match r {
            Some(i) => bounded_int(s@, i64::MIN as int, i64::MAX as int) == Some(i as int),
            None => bounded_int(s@, i64::MIN as int, i64::MAX as int) is None,
        },
{
    match parse_bounded(s, -0x8000_0000_0000_0000, 0x7fff_ffff_ffff_ffff) {
        Some(i) => Some(i as i64),
        None => None,
    }
}

/// Reads a signed 32-bit integer.
pub fn parse_i32(s: &str) -> (r: Option<i32>)
    ensures
        match r {
            Some(i) => bounded_int(s@, i32::MIN as int, i32::MAX as int) == Some(i as int),
            None => bounded_int(s@, i32::MIN as int, i32::MAX as int) is None,
        },
{
    match parse_bounded(s, -0x8000_0000, 0x7fff_ffff) {
        Some(i) => Some(i as i32),
        None => None,
    }
}

/// Reads an unsigned machine-word integer.
pub fn parse_usize(s: &str) -> (r: Option<usize>)
    ensures
        match r {
            Some(i) => bounded_int(s@, 0, usize::MAX as int) == Some(i as int),
            None => bounded_int(s@, 0, usize::MAX as int) is None,
        },
{
    match parse_bounded(s, 0, usize::MAX as i128) {
        Some(i) => Some(i as usize),
        None => None,
    }
}

/// Where the digits that start at `from` end.
fn digits_end(v: &Vec<char>, from: usize) -> (end: usize)
    requires
        from <= v@.len(),
    ensures
        from <= end <= v@.len(),
        forall|k: int| from <= k < end ==> is_digit(#[trigger] v@[k]),
        end < v@.len() ==> !is_digit(v@[end as int]),
{
    let mut i: usize = from;
    while i < v.len() && '0' <= v[i] && v[i] <= '9'
        invariant
            from <= i <= v@.len(),
            forall|k: int| from <= k < i ==> is_digit(#[trigger] v@[k]),
        decreases v@.len() - i,
    {
        i += 1;
    }
    i
}

/// The scan of a mantissa that starts at `from`: digits up to `a`, and where a
/// point stands at `a`, digits behind it up to `end`.
spec fn is_scan(v: Seq<char>, from: int, a: int, end: int) -> bool {
    &&& 0 <= from <= a <= end <= v.len()
    &&& forall|k: int| from <= k < a ==> is_digit(#[trigger] v[k])
    &&& a < v.len() ==> !is_digit(v[a])
    &&& if a < v.len() && v[a] == '.' {
        &&& a + 1 <= end
        &&& forall|k: int| a + 1 <= k < end ==> is_digit(#[trigger] v[k])
        &&& end < v.len() ==> !is_digit(v[end])
    } else {
        end == a
    }
}

/// A mantissa that is followed by the end or by an exponent is what the scan finds.
proof fn lemma_scan_unique(v: Seq<char>, from: int, a: int, end: int, k: int)
    requires
        is_scan(v, from, a, end),
        0 <= k <= v.len() - from,
        is_mantissa(v.skip(from).take(k)),
        k == v.len() - from || v[from + k] == 'e' || v[from + k] == 'E',
    ensures
        from + k == end,
        a > from || end > a + 1,
{
    let s = v.skip(from);
    let m = s.take(k);
    if is_digits(m) {
        if from + k > a {
            assert(m[a - from] == v[a]);
            assert(is_digit(m[a - from]));
        }
    } else {
        let p = choose|p: int|
            0 <= p < m.len() && #[trigger] m[p] == '.' && all_digits(m.take(p)) && all_digits(
                m.skip(p + 1),
            ) && m.len() > 1;
        assert(v[from + p] == '.');
        if from + p > a {
            assert(m.take(p)[a - from] == v[a]);
            assert(is_digit(m.take(p)[a - from]));
        }
        assert(from + p == a);
        if from + k > end {
            assert(m.skip(p + 1)[end - a - 1] == v[end]);
            assert(is_digit(m.skip(p + 1)[end - a - 1]));
        }
    }
}

proof fn lemma_scan_is_mantissa(v: Seq<char>, from: int, a: int, end: int)
    requires
        is_scan(v, from, a, end),
        a > from || end > a + 1,
    ensures
        is_mantissa(v.skip(from).take(end - from)),
{
    let m = v.skip(from).take(end - from);
    if a < v.len() && v[a] == '.' {
        let p = a - from;
        assert(m[p] == '.');
        assert forall|i: int| 0 <= i < m.take(p).len() implies is_digit(#[trigger] m.take(p)[i]) by {
            assert(m.take(p)[i] == v[from + i]);
        }
        assert forall|i: int| 0 <= i < m.skip(p + 1).len() implies is_digit(
            #[trigger] m.skip(p + 1)[i],
        ) by {
            assert(m.skip(p + 1)[i] == v[a + 1 + i]);
        }
        assert(m[p] == '.' && all_digits(m.take(p)) && all_digits(m.skip(p + 1)) && m.len() > 1);
    } else {
        assert forall|i: int| 0 <= i < m.len() implies is_digit(#[trigger] m[i]) by {
            assert(m[i] == v[from + i]);
        }
    }
}

fn is_exponent_from(v: &Vec<char>, from: usize) -> (r: bool)
    requires
        from <= v@.len(),
    ensures
        r == is_exponent(v@.skip(from as int)),
{
    let ghost x = v@.skip(from as int);
    if from == v.len() {
        return false;
    }
    assert(x[0] == v@[from as int]);
    if v[from] != 'e' && v[from] != 'E' {
        return false;
    }
    let mut k: usize = from + 1;
    if k < v.len() && (v[k] == '+' || v[k] == '-') {
        k += 1;
    }
    let ghost t = v@.skip(k as int);
    assert(unsigned_part(x.drop_first()) =~= t) by {
        if from + 1 < v@.len() {
            assert(x.drop_first()[0] == v@[from + 1]);
        }
    }
    let d = digits_end(v, k);
    let r = d == v.len() && d > k;
    proof {
        if r {
            assert forall|i: int| 0 <= i < t.len() implies is_digit(#[trigger] t[i]) by {
                assert(t[i] == v@[k + i]);
            }
        } else if d < v@.len() {
            assert(t[d - k] == v@[d as int]);
        }
    }
    r
}

/// A text whose mantissa the scan found reads as a number where nothing or an
/// exponent follows.
proof fn lemma_scan_decides(v: Seq<char>, from: int, a: int, end: int)
    requires
        is_scan(v, from, a, end),
    ensures
        is_unsigned_decimal(v.skip(from)) == ((a > from || end > a + 1) && (end == v.len()
            || is_exponent(v.skip(end)))),
{
    let s = v.skip(from);
    assert(s.take(s.len() as int) =~= s);
    if is_mantissa(s) {
        lemma_scan_unique(v, from, a, end, s.len() as int);
    } else if is_unsigned_decimal(s) {
        let k = choose|k: int|
            0 <= k <= s.len() && is_mantissa(#[trigger] s.take(k)) && is_exponent(s.skip(k));
        assert(s.skip(k)[0] == v[from + k]);
        lemma_scan_unique(v, from, a, end, k);
        assert(s.skip(k) =~= v.skip(end));
    }
    if a > from || end > a + 1 {
        lemma_scan_is_mantissa(v, from, a, end);
        assert(s.skip(end - from) =~= v.skip(end));
        assert(is_mantissa(s.take(end - from)));
    }
}

fn is_decimal_from(v: &Vec<char>, from: usize) -> (r: bool)
    requires
        from <= v@.len(),
    ensures
        r == is_unsigned_decimal(v@.skip(from as int)),
{
    let a = digits_end(v, from);
    let mut end: usize = a;
    if a < v.len() && v[a] == '.' {
        end = digits_end(v, a + 1);
    }
    proof {
        lemma_scan_decides(v@, from as int, a as int, end as int);
    }
    if a > from || (end > a && end - a > 1) {
        end == v.len() || is_exponent_from(v, end)
    } else {
        false
    }
}

pub fn is_word_from(v: &Vec<char>, from: usize, lower: &str, upper: &str) -> (r: bool)
    requires
        from <= v@.len(),
        lower@.len() == upper@.len(),
    ensures
        r == is_word(v@.skip(from as int), lower@, upper@),
{
    let lo = chars_of(lower);
    let up = chars_of(upper);
    let ghost s = v@.skip(from as int);
    let n = v.len();
    if n - from != lo.len() {
        return false;
    }
    let mut i: usize = 0;
    while i < lo.len()
        invariant
            i <= lo@.len(),
            lo@ == lower@,
            up@ == upper@,
            lo@.len() == up@.len(),
            n == v@.len(),
            from <= n,
            s == v@.skip(from as int),
            s.len() == lo@.len(),
            forall|k: int| 0 <= k < i ==> #[trigger] s[k] == lo@[k] || s[k] == up@[k],
        decreases lo@.len() - i,
    {
        let c = v[from + i];
        assert(c == s[i as int]);
        if c != lo[i] && c != up[i] {
            return false;
        }
        i += 1;
    }
    true
}

/// Whether a text reads as a fractional number.
pub fn is_fraction(s: &str) -> (r: bool)
    ensures
        r == is_fraction_text(s@),
{
    let v = chars_of(s);
    let mut from: usize = 0;
    if v.len() > 0 && (v[0] == '+' || v[0] == '-') {
        from = 1;
    }
    assert(v@.skip(from as int) =~= unsigned_part(s@));
    proof {
        reveal_strlit("inf");
        reveal_strlit("INF");
        reveal_strlit("infinity");
        reveal_strlit("INFINITY");
        reveal_strlit("nan");
        reveal_strlit("NAN");
    }
    is_decimal_from(&v, from) || is_word_from(&v, from, "inf", "INF") || is_word_from(
        &v,
        from,
        "infinity",
        "INFINITY",
    ) || is_word_from(&v, from, "nan", "NAN")
}

// ---------------------------------------------------- decimal numbers, in parts

/// Where the first point stands, or the end.
pub open spec fn point(s: Seq<char>) -> int
    decreases s.len(),
{
    if s.len() == 0 || s[0] == '.' {
        0
    } else {
        1 + point(s.drop_first())
    }
}

/// Where the exponent begins, or the end.
pub open spec fn mark(s: Seq<char>) -> int
    decreases s.len(),
{
    if s.len() == 0 || s[0] == 'e' || s[0] == 'E' {
        0
    } else {
        1 + mark(s.drop_first())
    }
}

/// The digits before the point.
pub open spec fn whole_digits(s: Seq<char>) -> Seq<char> {
    s.take(point(s))
}

/// The digits behind the point.
pub open spec fn decimals(s: Seq<char>) -> Seq<char> {
    if point(s) < s.len() {
        s.skip(point(s) + 1)
    } else {
        Seq::empty()
    }
}

/// A decimal number without its exponent.
pub open spec fn mantissa(s: Seq<char>) -> Seq<char> {
    s.take(mark(s))
}

/// The exponent of a decimal number, 0 where there is none.
pub open spec fn exponent(s: Seq<char>) -> int {
    if mark(s) < s.len() {
        int_of_text(s.skip(mark(s) + 1), true)->0
    } else {
        0
    }
}

/// The digits of a decimal number, without point and exponent.
pub open spec fn all_figures(s: Seq<char>) -> Seq<char> {
    whole_digits(mantissa(s)) + decimals(mantissa(s))
}

/// The power of ten that the digits, read as an integer, are to be taken times.
pub open spec fn scale(s: Seq<char>) -> int {
    exponent(s) - decimals(mantissa(s)).len()
}

proof fn lemma_point(s: Seq<char>, p: int)
    requires
        0 <= p <= s.len(),
        forall|i: int| 0 <= i < p ==> #[trigger] s[i] != '.',
        p < s.len() ==> s[p] == '.',
    ensures
        point(s) == p,
    decreases s.len(),
{
    if p > 0 {
        let rest = s.drop_first();
        assert(s[0] != '.');
        assert forall|i: int| 0 <= i < p - 1 implies #[trigger] rest[i] != '.' by {
            assert(rest[i] == s[i + 1]);
        }
        lemma_point(rest, p - 1);
    }
}

proof fn lemma_mark(s: Seq<char>, p: int)
    requires
        0 <= p <= s.len(),
        forall|i: int| 0 <= i < p ==> #[trigger] s[i] != 'e' && s[i] != 'E',
        p < s.len() ==> s[p] == 'e' || s[p] == 'E',
    ensures
        mark(s) == p,
    decreases s.len(),
{
    if p > 0 {
        let rest = s.drop_first();
        assert(s[0] != 'e' && s[0] != 'E');
        assert forall|i: int| 0 <= i < p - 1 implies #[trigger] rest[i] != 'e' && rest[i]
            != 'E' by {
            assert(rest[i] == s[i + 1]);
        }
        lemma_mark(rest, p - 1);
    }
}

/// The parts of a decimal number that the scan found.
proof fn lemma_scanned_parts(v: Seq<char>, from: int, a: int, end: int)
    requires
        is_scan(v, from, a, end),
        end == v.len() || v[end] == 'e' || v[end] == 'E',
    ensures
        mark(v.skip(from)) == end - from,
        whole_digits(mantissa(v.skip(from))) == v.subrange(from, a),
        decimals(mantissa(v.skip(from))) == if a < end {
            v.subrange(a + 1, end)
        } else {
            Seq::empty()
        },
{
    let t = v.skip(from);
    assert forall|i: int| 0 <= i < end - from implies #[trigger] t[i] != 'e' && t[i] != 'E' by {
        assert(t[i] == v[from + i]);
        if from + i < a {
            assert(is_digit(v[from + i]));
        } else if from + i > a {
            assert(is_digit(v[from + i]));
        }
    }
    if end < v.len() {
        assert(t[end - from] == v[end]);
    }
    lemma_mark(t, end - from);
    let m = mantissa(t);
    assert forall|i: int| 0 <= i < a - from implies #[trigger] m[i] != '.' by {
        assert(m[i] == v[from + i]);
        assert(is_digit(v[from + i]));
    }
    if a < end {
        assert(m[a - from] == v[a]);
    }
    lemma_point(m, a - from);
    assert(whole_digits(m) =~= v.subrange(from, a));
    if a < end {
        assert(decimals(m) =~= v.subrange(a + 1, end));
    }
}

/// Beyond this, only the side on which a scale lies is kept.
pub const SCALE_LIMIT: i128 = 0x8000_0000_0000_0000_0000;

/// A scale, exact up to the limit on either side.
pub open spec fn is_scale(kept: int, true_scale: int) -> bool {
    &&& -SCALE_LIMIT <= true_scale <= SCALE_LIMIT ==> kept == true_scale
    &&& true_scale > SCALE_LIMIT ==> kept >= SCALE_LIMIT
    &&& true_scale < -SCALE_LIMIT ==> kept <= -SCALE_LIMIT
}

/// A decimal number: its digits, read as an integer, times a power of ten.
pub struct Decimal {
    pub digits: Vec<char>,
    pub scale: i128,
}

/// Reads the exponent whose mark stands at `at`, up to 2 to the 80th on either side.
fn read_exponent(v: &Vec<char>, at: usize) -> (r: i128)
    requires
        at <= v@.len(),
        is_exponent(v@.skip(at as int)),
    ensures
        ({
            let x = int_of_text(v@.skip(at + 1), true)->0;
            &&& -0x1_0000_0000_0000_0000_0000 <= x <= 0x1_0000_0000_0000_0000_0000 ==> r == x
            &&& x > 0x1_0000_0000_0000_0000_0000 ==> r == 0x1_0000_0000_0000_0000_0001
            &&& x < -0x1_0000_0000_0000_0000_0000 ==> r == -0x1_0000_0000_0000_0000_0001
        }),
{
    assert(at < v@.len()) by {
        assert(v@.skip(at as int).len() > 0);
    }
    let ghost s = v@.skip(at + 1);
    assert(v@.skip(at as int).drop_first() =~= s);
    let total = v.len();
    let mut from: usize = at + 1;
    let mut minus = false;
    if from < total {
        assert(s[0] == v@[from as int]);
        if v[from] == '-' {
            minus = true;
            from += 1;
        } else if v[from] == '+' {
            from += 1;
        }
    }
    let ghost t = v@.skip(from as int);
    assert(unsigned_part(s) =~= t);
    proof {
        if from > at + 1 {
            assert(s.drop_first() =~= t);
            assert(!is_digit(s[0]));
        } else {
            assert(s =~= t);
        }
        lemma_digits_nonnegative(t);
    }
    let n: i128 = match read_digits(v, from, 0x1_0000_0000_0000_0000_0000) {
        Some(n) => n as i128,
        None => 0x1_0000_0000_0000_0000_0001,
    };
    if minus {
        -n
    } else {
        n
    }
}

fn push_range(out: &mut Vec<char>, v: &Vec<char>, from: usize, to: usize)
    requires
        from <= to <= v@.len(),
    ensures
        final(out)@ == old(out)@ + v@.subrange(from as int, to as int),
{
    let ghost start = out@;
    let mut i: usize = from;
    assert(start + v@.subrange(from as int, from as int) =~= start);
    while i < to
        invariant
            from <= i <= to <= v@.len(),
            out@ == start + v@.subrange(from as int, i as int),
        decreases to - i,
    {
        out.push(v[i]);
        i += 1;
        assert(out@ =~= start + v@.subrange(from as int, i as int));
    }
}

/// Reads the decimal number, with or without an exponent, that starts at `from`.
pub fn read_decimal(v: &Vec<char>, from: usize) -> (r: Option<Decimal>)
    requires
        from <= v@.len(),
    ensures
        match r {
            Some(d) => {
                &&& is_unsigned_decimal(v@.skip(from as int))
                &&& d.digits@ == all_figures(v@.skip(from as int))
                &&& all_digits(d.digits@)
                &&& is_scale(d.scale as int, scale(v@.skip(from as int)))
            },
            None => !is_unsigned_decimal(v@.skip(from as int)),
        },
{
    if !is_decimal_from(v, from) {
        return None;
    }
    let ghost t = v@.skip(from as int);
    let a = digits_end(v, from);
    let mut end: usize = a;
    if a < v.len() && v[a] == '.' {
        end = digits_end(v, a + 1);
    }
    proof {
        lemma_scan_decides(v@, from as int, a as int, end as int);
        if end < v@.len() {
            assert(v@.skip(end as int)[0] == v@[end as int]);
        }
        lemma_scanned_parts(v@, from as int, a as int, end as int);
    }
    let mut digits: Vec<char> = Vec::new();
    push_range(&mut digits, v, from, a);
    let mut behind: usize = 0;
    if a < end {
        push_range(&mut digits, v, a + 1, end);
        behind = end - a - 1;
    }
    assert(digits@ =~= all_figures(t));
    assert forall|k: int| 0 <= k < digits@.len() implies is_digit(#[trigger] digits@[k]) by {
        if k < a - from {
            assert(digits@[k] == v@[from + k]);
        } else {
            assert(digits@[k] == v@[a + 1 + (k - (a - from))]);
        }
    }
    let mut x: i128 = 0;
    if end < v.len() {
        x = read_exponent(v, end);
        assert(t.skip(mark(t) + 1) =~= v@.skip(end + 1));
    }
    Some(Decimal { digits, scale: x - behind as i128 })
}

/// Writing a number and reading its digits gives it back.
pub proof fn lemma_nat_text(n: nat)
    ensures
        is_digits(nat_text(n)),
        digits_value(nat_text(n)) == n,
    decreases n,
{
    let t = nat_text(n);
    if n < 10 {
        assert(t.drop_last() =~= Seq::<char>::empty());
        assert(digits_value(t.drop_last()) == 0);
    } else {
        lemma_nat_text(n / 10);
        assert(t.drop_last() =~= nat_text(n / 10));
    }
}

/// An integer reads back as it was written, wherever it lies within the bounds.
pub proof fn lemma_int_text_reads_back(i: int, lo: int, hi: int)
    requires
        lo <= i <= hi,
        lo <= 0,
    ensures
        bounded_int(int_text(i), lo, hi) == Some(i),
{
    if i < 0 {
        lemma_nat_text((-i) as nat);
        let t = int_text(i);
        assert(t.drop_first() =~= nat_text((-i) as nat));
        assert(!is_digit(t[0]));
    } else {
        lemma_nat_text(i as nat);
    }
}

/// Digits are read as the number that they write, with or without a plus sign before them.
/// With a minus sign they are read as its opposite where negative numbers are allowed, and
/// as nothing where they are not. A text with anything else in it is no integer.
pub proof fn lemma_signs_are_read(digits: Seq<char>, s: Seq<char>, k: int)
    requires
        is_digits(digits),
    ensures
        forall|negatives: bool| #[trigger]
            int_of_text(digits, negatives) == Some(digits_value(digits)),
        forall|negatives: bool| #[trigger]
            int_of_text(seq!['+'] + digits, negatives) == Some(digits_value(digits)),
        int_of_text(seq!['-'] + digits, true) == Some(-digits_value(digits)),
        int_of_text(seq!['-'] + digits, false) is None,
        forall|negatives: bool|
            0 <= k < s.len() && !is_digit(s[k]) && (k > 0 || s[0] != '+' && s[0] != '-')
                ==> #[trigger] int_of_text(s, negatives) is None,
        int_of_text(Seq::empty(), true) is None,
{
    let plus = seq!['+'] + digits;
    let minus = seq!['-'] + digits;
    assert(plus.drop_first() =~= digits);
    assert(minus.drop_first() =~= digits);
    assert(plus[0] == '+' && !is_digit(plus[0]));
    assert(minus[0] == '-' && !is_digit(minus[0]));
    if 0 < k < s.len() {
        assert(s.drop_first()[k - 1] == s[k]);
    }
}

/// Each digit that is written behind a number makes it ten times as large and adds its
/// value.
pub proof fn lemma_each_digit_counts_ten_times(digits: Seq<char>, d: int)
    requires
        0 <= d <= 9,
    ensures
        digits_value(seq![digit_char(d)]) == d,
        digits_value(digits.push(digit_char(d))) == 10 * digits_value(digits) + d,
{
    assert(digits.push(digit_char(d)).drop_last() =~= digits);
    let one = seq![digit_char(d)];
    assert(one.drop_last() =~= Seq::<char>::empty());
    assert(digits_value(one.drop_last()) == 0);
    assert(one.last() == digit_char(d));
}

} // verus!
