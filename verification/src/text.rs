//! Text helpers: equality and the byte order of strings, with month prefixes
//! of dates.

use vstd::prelude::*;
use vstd::utf8::{decode_utf8, encode_utf8, is_char_boundary};

verus! {

/// Lexicographic order of byte strings.
pub open spec fn lex_le(a: Seq<u8>, b: Seq<u8>) -> bool
    decreases a.len(),
{
    if a.len() == 0 {
        true
    } else if b.len() == 0 {
        false
    } else if a[0] == b[0] {
        lex_le(a.drop_first(), b.drop_first())
    } else {
        a[0] < b[0]
    }
}

/// Strings are ordered by their UTF-8 bytes.
pub open spec fn text_le(a: Seq<char>, b: Seq<char>) -> bool {
    lex_le(encode_utf8(a), encode_utf8(b))
}

/// Strictly before in the order of strings.
pub open spec fn text_lt(a: Seq<char>, b: Seq<char>) -> bool {
    !text_le(b, a)
}

proof fn lemma_lex_total(a: Seq<u8>, b: Seq<u8>)
    ensures
        lex_le(a, b) || lex_le(b, a),
    decreases a.len(),
{
    if a.len() > 0 && b.len() > 0 && a[0] == b[0] {
        lemma_lex_total(a.drop_first(), b.drop_first());
    }
}

proof fn lemma_lex_transitive(a: Seq<u8>, b: Seq<u8>, c: Seq<u8>)
    requires
        lex_le(a, b),
        lex_le(b, c),
    ensures
        lex_le(a, c),
    decreases a.len(),
{
    if a.len() > 0 && b.len() > 0 && c.len() > 0 && a[0] == b[0] && b[0] == c[0] {
        lemma_lex_transitive(a.drop_first(), b.drop_first(), c.drop_first());
    }
}

proof fn lemma_lex_antisymmetric(a: Seq<u8>, b: Seq<u8>)
    requires
        lex_le(a, b),
        lex_le(b, a),
    ensures
        a == b,
    decreases a.len(),
{
    if a.len() > 0 {
        lemma_lex_antisymmetric(a.drop_first(), b.drop_first());
        assert(a =~= seq![a[0]] + a.drop_first());
        assert(b =~= seq![b[0]] + b.drop_first());
    } else {
        assert(b.len() == 0);
        assert(a =~= b);
    }
}

/// The order of strings is total.
pub proof fn lemma_text_total(a: Seq<char>, b: Seq<char>)
    ensures
        text_le(a, b) || text_le(b, a),
{
    lemma_lex_total(encode_utf8(a), encode_utf8(b));
}

/// The order of strings is transitive.
pub proof fn lemma_text_transitive(a: Seq<char>, b: Seq<char>, c: Seq<char>)
    requires
        text_le(a, b),
        text_le(b, c),
    ensures
        text_le(a, c),
{
    lemma_lex_transitive(encode_utf8(a), encode_utf8(b), encode_utf8(c));
}

/// Only equal strings are ordered both ways.
pub proof fn lemma_text_antisymmetric(a: Seq<char>, b: Seq<char>)
    requires
        text_le(a, b),
        text_le(b, a),
    ensures
        a == b,
{
    lemma_lex_antisymmetric(encode_utf8(a), encode_utf8(b));
    lemma_utf8_injective(a, b);
}

/// Different strings have different bytes.
pub proof fn lemma_utf8_injective(a: Seq<char>, b: Seq<char>)
    requires
        encode_utf8(a) == encode_utf8(b),
    ensures
        a == b,
{
    vstd::utf8::encode_utf8_decode_utf8(a);
    vstd::utf8::encode_utf8_decode_utf8(b);
}

/// Whether two strings hold the same characters.
pub fn same(a: &str, b: &str) -> (r: bool)
    ensures
        r == (a@ == b@),
{
    let x = a.as_bytes();
    let y = b.as_bytes();
    if x.len() != y.len() {
        return false;
    }
    let mut i: usize = 0;
    while i < x.len()
        invariant
            x@.len() == y@.len(),
            i <= x@.len(),
            x@ == encode_utf8(a@),
            y@ == encode_utf8(b@),
            forall|k: int| 0 <= k < i ==> x@[k] == y@[k],
        decreases x@.len() - i,
    {
        if x[i] != y[i] {
            return false;
        }
        i += 1;
    }
    proof {
        assert(x@ =~= y@);
        lemma_utf8_injective(a@, b@);
    }
    true
}

/// Whether `a` comes no later than `b` in the order of strings.
pub fn at_most(a: &str, b: &str) -> (r: bool)
    ensures
        r == text_le(a@, b@),
{
    let x = a.as_bytes();
    let y = b.as_bytes();
    let mut i: usize = 0;
    proof {
        assert(x@.skip(0) =~= x@);
        assert(y@.skip(0) =~= y@);
    }
    while i < x.len() && i < y.len()
        invariant
            i <= x@.len(),
            i <= y@.len(),
            x@ == encode_utf8(a@),
            y@ == encode_utf8(b@),
            text_le(a@, b@) == lex_le(x@.skip(i as int), y@.skip(i as int)),
        decreases x@.len() - i,
    {
        if x[i] != y[i] {
            return x[i] < y[i];
        }
        proof {
            assert(x@.skip(i as int).drop_first() =~= x@.skip(i + 1));
            assert(y@.skip(i as int).drop_first() =~= y@.skip(i + 1));
        }
        i += 1;
    }
    i == x.len()
}

/// Whether a date is long enough to have a month prefix ("YYYY-MM").
pub open spec fn has_month(date: Seq<char>) -> bool {
    is_char_boundary(encode_utf8(date), 7)
}

/// The first seven bytes of a date, as text.
pub open spec fn month_of(date: Seq<char>) -> Seq<char> {
    decode_utf8(encode_utf8(date).subrange(0, 7))
}

proof fn lemma_lex_of_prefixes(a: Seq<u8>, b: Seq<u8>, n: int)
    requires
        lex_le(a, b),
        0 <= n <= a.len(),
        n <= b.len(),
    ensures
        lex_le(a.take(n), b.take(n)),
    decreases n,
{
    if n > 0 {
        assert(a.take(n)[0] == a[0] && b.take(n)[0] == b[0]);
        if a[0] == b[0] {
            lemma_lex_of_prefixes(a.drop_first(), b.drop_first(), n - 1);
            assert(a.take(n).drop_first() =~= a.drop_first().take(n - 1));
            assert(b.take(n).drop_first() =~= b.drop_first().take(n - 1));
        }
    }
}

/// The bytes of two texts, one after the other.
proof fn lemma_utf8_of_joined(a: Seq<char>, b: Seq<char>)
    ensures
        encode_utf8(a + b) == encode_utf8(a) + encode_utf8(b),
    decreases a.len(),
{
    if a.len() == 0 {
        assert(a + b =~= b);
        assert(encode_utf8(a) + encode_utf8(b) =~= encode_utf8(b));
    } else {
        assert((a + b).drop_first() =~= a.drop_first() + b);
        lemma_utf8_of_joined(a.drop_first(), b);
        assert(encode_utf8(a + b) =~= encode_utf8(a) + encode_utf8(b));
    }
}

/// The month of a date is its first seven bytes.
proof fn lemma_month_bytes(date: Seq<char>)
    requires
        has_month(date),
    ensures
        encode_utf8(date).len() >= 7,
        encode_utf8(month_of(date)) == encode_utf8(date).take(7),
{
    let bytes = encode_utf8(date);
    vstd::utf8::encode_utf8_valid_utf8(date);
    vstd::utf8::valid_utf8_split(bytes, 7);
    vstd::utf8::decode_utf8_encode_utf8(bytes.subrange(0, 7));
    assert(bytes.subrange(0, 7) =~= bytes.take(7));
}

/// Earlier dates are of earlier months, or of the same one.
pub proof fn lemma_months_follow_dates(a: Seq<char>, b: Seq<char>)
    requires
        has_month(a),
        has_month(b),
        text_le(a, b),
    ensures
        text_le(month_of(a), month_of(b)),
{
    lemma_month_bytes(a);
    lemma_month_bytes(b);
    lemma_lex_of_prefixes(encode_utf8(a), encode_utf8(b), 7);
}

/// What is dated no later than a day of a month is not of a later month.
pub proof fn lemma_month_before_day(a: Seq<char>, date: Seq<char>, day: Seq<char>)
    requires
        has_month(a),
        has_month(date),
        text_le(a, month_of(date) + day),
    ensures
        text_le(month_of(a), month_of(date)),
{
    let month = month_of(date);
    lemma_month_bytes(a);
    lemma_month_bytes(date);
    lemma_utf8_of_joined(month, day);
    let end = encode_utf8(month + day);
    assert(end.take(7) =~= encode_utf8(month));
    lemma_lex_of_prefixes(encode_utf8(a), end, 7);
}

/// The month prefix of a date.
pub fn month_prefix(date: &str) -> (r: String)
    requires
        has_month(date@),
    ensures
        r@ == month_of(date@),
{
    let (head, _tail) = date.split_at(7);
    proof {
        vstd::utf8::encode_utf8_decode_utf8(head@);
    }
    head.to_owned()
}

proof fn lemma_lex_behind_a_start(start: Seq<u8>, a: Seq<u8>, b: Seq<u8>)
    ensures
        lex_le(start + a, start + b) == lex_le(a, b),
    decreases start.len(),
{
    if start.len() == 0 {
        assert(start + a =~= a && start + b =~= b);
    } else {
        assert((start + a).drop_first() =~= start.drop_first() + a);
        assert((start + b).drop_first() =~= start.drop_first() + b);
        lemma_lex_behind_a_start(start.drop_first(), a, b);
    }
}

/// A text stands before those that begin with it. Of two texts that begin alike, the first
/// letter in which they differ says which stands before the other, whatever follows: the
/// digits, letters and signs of ASCII in their order.
pub proof fn lemma_first_difference_decides(
    start: Seq<char>,
    x: char,
    y: char,
    a: Seq<char>,
    b: Seq<char>,
)
    ensures
        text_le(start, start + a),
        a.len() > 0 ==> text_lt(start, start + a),
        x < y && y as u32 <= 0x7f ==> text_lt(start + seq![x] + a, start + seq![y] + b),
{
    let bytes = encode_utf8(start);
    lemma_utf8_of_joined(start, a);
    assert(bytes + Seq::<u8>::empty() =~= bytes);
    lemma_lex_behind_a_start(bytes, Seq::<u8>::empty(), encode_utf8(a));
    lemma_lex_behind_a_start(bytes, encode_utf8(a), Seq::<u8>::empty());
    if a.len() > 0 {
        vstd::utf8::encode_utf8_first_scalar(a);
    }
    if x < y && y as u32 <= 0x7f {
        lemma_one_byte(x, a);
        lemma_one_byte(y, b);
        assert(start + seq![x] + a =~= start + (seq![x] + a));
        assert(start + seq![y] + b =~= start + (seq![y] + b));
        lemma_utf8_of_joined(start, seq![x] + a);
        lemma_utf8_of_joined(start, seq![y] + b);
        lemma_lex_behind_a_start(bytes, encode_utf8(seq![y] + b), encode_utf8(seq![x] + a));
    }
}

proof fn lemma_one_byte(c: char, s: Seq<char>)
    requires
        c as u32 <= 0x7f,
    ensures
        encode_utf8(seq![c] + s).len() > 0,
        encode_utf8(seq![c] + s)[0] == c as u8,
{
    let n = c as u32;
    assert((seq![c] + s)[0] == c);
    assert((n & 0x7f) == n) by (bit_vector)
        requires
            n < 0x80u32,
    ;
}

} // verus!
