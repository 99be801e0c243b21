//! The order model: a validated, immutable record of a single order, and its
//! construction from a whitespace-separated text record.

use vstd::prelude::*;

verus! {

/// A trade must have a direction (ie buy or sell); this enum presents the two options.
#[derive(PartialEq, Eq, Structural, Clone, Copy, Debug)]
pub enum OrderType {
    BUY,
    SELL,
}

/// A strictly positive limit price, held as a count of fixed-point ticks.
///
/// One tick is 1/10000 of the quoted unit, so the text record `50.25` becomes
/// 502500 ticks. Holding the price as an integer gives the book a native total
/// order; prices that are not finite positive decimals are rejected at the
/// parsing boundary and never reach the book.
#[derive(PartialEq, Eq, Structural, Clone, Copy, Debug)]
pub struct Price {
    pub ticks: u64,
}

/// Number of ticks in one quoted unit of price.
pub const TICKS_PER_UNIT: u64 = 10000;

/// The basic structure of an order, containing fields an order book would require.
#[derive(PartialEq, Debug)]
pub struct SingleOrder {
    pub order_time: i32,
    pub participant_code: String,
    pub security_name: String,
    pub price: Price,
    pub size: i32,
    pub direction: OrderType,
}

/// What a well-formed order promises: strictly positive time, price and size,
/// and non-empty identifiers. Construction through parsing establishes this,
/// and the book assumes it of every order it accepts.
pub open spec fn order_wf(o: SingleOrder) -> bool {
    &&& o.order_time >= 1
    &&& o.size >= 1
    &&& o.price.ticks >= 1
    &&& o.participant_code@.len() > 0
    &&& o.security_name@.len() > 0
}

/// The six fields of a text record, in their fixed record order.
#[derive(PartialEq, Eq, Structural, Clone, Copy, Debug)]
pub enum Field {
    OrderTime,
    ParticipantCode,
    SecurityName,
    Price,
    Size,
    Direction,
}

/// A typed parse error; the malformed record is rejected, never partially
/// admitted into the book.
#[derive(PartialEq, Debug)]
pub enum ParseError {
    /// Fewer than six fields were present; names the first missing field in
    /// record order.
    FieldMissing(Field),
    /// A numeric field could not be parsed as its numeric type; carries the
    /// field and the raw text of the offending token.
    MalformedNumber(Field, String),
    /// The price token parses but does not denote a finite, strictly positive
    /// tradable value.
    NonFiniteValue,
    /// The sixth field is neither `BUY` nor `SELL`; carries the raw text.
    InvalidDirection(String),
}

/// The declared name of a field, as reports use it.
pub open spec fn field_name_spec(f: Field) -> Seq<char> {
    match f {
        Field::OrderTime => "Order time"@,
        Field::ParticipantCode => "Participant code"@,
        Field::SecurityName => "Security name"@,
        Field::Price => "Price"@,
        Field::Size => "Size"@,
        Field::Direction => "Order type"@,
    }
}

/// The declared name of a field.
pub fn field_name(f: Field) -> (r: String)
    ensures
        r@ == field_name_spec(f),
{
    match f {
        Field::OrderTime => String::from_str("Order time"),
        Field::ParticipantCode => String::from_str("Participant code"),
        Field::SecurityName => String::from_str("Security name"),
        Field::Price => String::from_str("Price"),
        Field::Size => String::from_str("Size"),
        Field::Direction => String::from_str("Order type"),
    }
}

impl ParseError {
    /// The report this error reads as.
    pub open spec fn message_spec(&self) -> Seq<char> {
        match self {
            ParseError::FieldMissing(f) => field_name_spec(*f) + " is missing"@,
            ParseError::MalformedNumber(f, raw) => field_name_spec(*f) + " could not be read from "@
                + raw@,
            ParseError::NonFiniteValue => "Price must be a finite tradable value"@,
            ParseError::InvalidDirection(raw) => raw@ + " is not an order type; must be BUY OR SELL"@,
        }
    }

    /// Renders the error as one line of text.
    pub fn message(&self) -> (r: String)
        ensures
            r@ == self.message_spec(),
    {
        match self {
            ParseError::FieldMissing(f) => field_name(*f).concat(" is missing"),
            ParseError::MalformedNumber(f, raw) => field_name(*f).concat(
                " could not be read from ",
            ).concat(raw.as_str()),
            ParseError::NonFiniteValue => String::from_str("Price must be a finite tradable value"),
            ParseError::InvalidDirection(raw) => raw.clone().concat(
                " is not an order type; must be BUY OR SELL",
            ),
        }
    }
}

// ---------------------------------------------------------------------------
// Splitting a record into whitespace-separated tokens.
// ---------------------------------------------------------------------------

/// The separators a text record may use between fields.
pub open spec fn is_ws(c: char) -> bool {
    c == ' ' || c == '\t' || c == '\n' || c == '\r'
}

fn is_ws_exec(c: char) -> (r: bool)
    ensures
        r == is_ws(c),
{
    c == ' ' || c == '\t' || c == '\n' || c == '\r'
}

/// The first index at or after `i` that holds whitespace (or the end of `s`):
/// the end of the token that starts at `i`.
pub open spec fn token_end(s: Seq<char>, i: int) -> int
    decreases s.len() - i,
{
    if i < 0 || i >= s.len() || is_ws(s[i]) {
        i
    } else {
        token_end(s, i + 1)
    }
}

proof fn lemma_token_end_bounds(s: Seq<char>, i: int)
    requires
        0 <= i <= s.len(),
    ensures
        i <= token_end(s, i) <= s.len(),
        i < s.len() && !is_ws(s[i]) ==> token_end(s, i) >= i + 1,
    decreases s.len() - i,
{
    if i < s.len() && !is_ws(s[i]) {
        lemma_token_end_bounds(s, i + 1);
    }
}

/// The maximal non-whitespace runs of `s` at or after position `i`, in order.
pub open spec fn split_ws_from(s: Seq<char>, i: int) -> Seq<Seq<char>>
    decreases s.len() - i when 0 <= i via split_ws_from_decreases
{
    if i >= s.len() {
        Seq::empty()
    } else if is_ws(s[i]) {
        split_ws_from(s, i + 1)
    } else {
        seq![s.subrange(i, token_end(s, i))] + split_ws_from(s, token_end(s, i))
    }
}

#[via_fn]
proof fn split_ws_from_decreases(s: Seq<char>, i: int) {
    if i < s.len() && !is_ws(s[i]) {
        lemma_token_end_bounds(s, i);
    }
}

/// The whitespace-separated tokens of a whole record.
pub open spec fn tokens_of(s: Seq<char>) -> Seq<Seq<char>> {
    split_ws_from(s, 0)
}

/// Every token a split yields is non-empty: tokens are maximal runs of
/// non-whitespace characters.
pub proof fn lemma_tokens_nonempty(s: Seq<char>, i: int)
    requires
        0 <= i,
    ensures
        forall|k: int|
            0 <= k < split_ws_from(s, i).len() ==> #[trigger] split_ws_from(s, i)[k].len() > 0,
    decreases s.len() - i,
{
    if i < s.len() {
        if is_ws(s[i]) {
            lemma_tokens_nonempty(s, i + 1);
            assert(split_ws_from(s, i) == split_ws_from(s, i + 1));
            assert forall|k: int| 0 <= k < split_ws_from(s, i).len() implies #[trigger] split_ws_from(
                s,
                i,
            )[k].len() > 0 by {
                assert(split_ws_from(s, i)[k] == split_ws_from(s, i + 1)[k]);
            }
        } else {
            lemma_token_end_bounds(s, i);
            lemma_tokens_nonempty(s, token_end(s, i));
            let rest = split_ws_from(s, token_end(s, i));
            assert(split_ws_from(s, i) == seq![s.subrange(i, token_end(s, i))] + rest);
            assert forall|k: int| 0 <= k < split_ws_from(s, i).len() implies #[trigger] split_ws_from(
                s,
                i,
            )[k].len() > 0 by {
                if k > 0 {
                    assert(0 <= k - 1 < rest.len());
                    assert(split_ws_from(s, i)[k] == rest[k - 1]);
                }
            }
        }
    }
}

fn token_end_exec(s: &str, i: usize) -> (j: usize)
    requires
        i <= s@.len(),
    ensures
        j as int == token_end(s@, i as int),
        i <= j <= s@.len(),
{
    let len = s.unicode_len();
    let mut j = i;
    while j < len && !is_ws_exec(s.get_char(j))
        invariant
            i <= j <= len,
            len == s@.len(),
            token_end(s@, i as int) == token_end(s@, j as int),
        decreases len - j,
    {
        j = j + 1;
    }
    j
}

/// Appends to `out` the tokens of `s` that start at or after `i`.
fn push_tokens_from(s: &str, i: usize, out: &mut Vec<String>)
    requires
        i <= s@.len(),
    ensures
        final(out).deep_view() == old(out).deep_view() + split_ws_from(s@, i as int),
    decreases s@.len() - i,
{
    let len = s.unicode_len();
    if i >= len {
        assert(out.deep_view() =~~= old(out).deep_view() + split_ws_from(s@, i as int));
        return ;
    }
    let c = s.get_char(i);
    if is_ws_exec(c) {
        push_tokens_from(s, i + 1, out);
    } else {
        let j = token_end_exec(s, i);
        proof {
            lemma_token_end_bounds(s@, i as int);
        }
        let tok = s.substring_char(i, j);
        out.push(tok.to_owned());
        push_tokens_from(s, j, out);
        assert(out.deep_view() =~~= old(out).deep_view() + split_ws_from(s@, i as int));
    }
}

/// Splits a record into its whitespace-separated fields.
fn tokenize(s: &str) -> (toks: Vec<String>)
    ensures
        toks.deep_view() == tokens_of(s@),
{
    let mut toks: Vec<String> = Vec::new();
    push_tokens_from(s, 0, &mut toks);
    assert(toks.deep_view() =~~= tokens_of(s@));
    toks
}

// ---------------------------------------------------------------------------
// Decimal digits and the numeric fields.
// ---------------------------------------------------------------------------

/// Whether `c` is a decimal digit `0`..`9`.
pub open spec fn is_digit(c: char) -> bool {
    48 <= c as int <= 57
}

/// The numeric value of a decimal digit.
pub open spec fn digit_val(c: char) -> int {
    c as int - 48
}

/// Whether every character of `s` is a decimal digit.
pub open spec fn all_digits(s: Seq<char>) -> bool {
    forall|k: int| 0 <= k < s.len() ==> is_digit(#[trigger] s[k])
}

/// The value of `s` read as a big-endian run of decimal digits.
pub open spec fn digits_val(s: Seq<char>) -> int
    decreases s.len(),
{
    if s.len() == 0 {
        0
    } else {
        digits_val(s.drop_last()) * 10 + digit_val(s.last())
    }
}

proof fn lemma_digits_val_nonneg(s: Seq<char>)
    requires
        all_digits(s),
    ensures
        digits_val(s) >= 0,
    decreases s.len(),
{
    if s.len() > 0 {
        assert(all_digits(s.drop_last()));
        lemma_digits_val_nonneg(s.drop_last());
    }
}

/// A prefix of a digit run never exceeds the whole run in value.
proof fn lemma_digits_prefix_le(s: Seq<char>, i: int)
    requires
        all_digits(s),
        0 <= i <= s.len(),
    ensures
        digits_val(s.take(i)) <= digits_val(s),
    decreases s.len() - i,
{
    if i < s.len() {
        assert(s.take(i + 1).drop_last() =~= s.take(i));
        assert(s.take(i + 1).last() == s[i]);
        assert(all_digits(s.take(i)));
        lemma_digits_val_nonneg(s.take(i));
        lemma_digits_prefix_le(s, i + 1);
    } else {
        assert(s.take(i) =~= s);
    }
}

/// A short run of digits is bounded by all-nines of its length.
proof fn lemma_digits_val_upper(s: Seq<char>)
    requires
        all_digits(s),
    ensures
        s.len() == 0 ==> digits_val(s) <= 0,
        s.len() == 1 ==> digits_val(s) <= 9,
        s.len() == 2 ==> digits_val(s) <= 99,
        s.len() == 3 ==> digits_val(s) <= 999,
        s.len() == 4 ==> digits_val(s) <= 9999,
    decreases s.len(),
{
    if 0 < s.len() <= 4 {
        assert(all_digits(s.drop_last()));
        lemma_digits_val_upper(s.drop_last());
    }
}

/// What the integer fields (order time and size) accept: one or more decimal
/// digits whose value is strictly positive and fits an `i32`.
pub open spec fn int_token_valid(s: Seq<char>) -> bool {
    &&& s.len() >= 1
    &&& all_digits(s)
    &&& 1 <= digits_val(s) <= i32::MAX
}

/// Parses a strictly positive `i32` from a run of decimal digits; rejects a
/// token with any other character, an empty or zero value, and overflow.
fn parse_positive_i32(tok: &str) -> (r: Option<i32>)
    ensures
        match r {
            Some(v) => int_token_valid(tok@) && v as int == digits_val(tok@),
            None => !int_token_valid(tok@),
        },
{
    let len = tok.unicode_len();
    if len == 0 {
        return None;
    }
    let mut acc: u64 = 0;
    let mut k: usize = 0;
    while k < len
        invariant
            0 <= k <= len,
            len == tok@.len(),
            all_digits(tok@.take(k as int)),
            acc as int == digits_val(tok@.take(k as int)),
            acc <= i32::MAX as u64,
        decreases len - k,
    {
        let c = tok.get_char(k);
        let v = c as u32;
        if v < 48 || v > 57 {
            assert(!is_digit(tok@[k as int]));
            return None;
        }
        let d = (v - 48) as u64;
        let next = acc * 10 + d;
        proof {
            assert(tok@.take(k + 1).drop_last() =~= tok@.take(k as int));
            assert(tok@.take(k + 1).last() == tok@[k as int]);
        }
        if next > i32::MAX as u64 {
            proof {
                if all_digits(tok@) {
                    lemma_digits_prefix_le(tok@, k + 1);
                }
            }
            return None;
        }
        acc = next;
        k = k + 1;
    }
    proof {
        assert(tok@.take(len as int) =~= tok@);
    }
    if acc == 0 {
        return None;
    }
    Some(acc as i32)
}

// ---------------------------------------------------------------------------
// The price field: a positive decimal with up to four fraction digits.
// ---------------------------------------------------------------------------

/// The index of the first `.` in `s`, or `s.len()` when there is none.
pub open spec fn dot_pos(s: Seq<char>) -> int
    decreases s.len(),
{
    if s.len() == 0 {
        0
    } else if s[0] == '.' {
        0
    } else {
        1 + dot_pos(s.drop_first())
    }
}

proof fn lemma_dot_pos_bounds(s: Seq<char>)
    ensures
        0 <= dot_pos(s) <= s.len(),
        forall|k: int| 0 <= k < dot_pos(s) ==> s[k] != '.',
        dot_pos(s) < s.len() ==> s[dot_pos(s)] == '.',
    decreases s.len(),
{
    if s.len() > 0 && s[0] != '.' {
        lemma_dot_pos_bounds(s.drop_first());
        assert forall|k: int| 0 <= k < dot_pos(s) implies s[k] != '.' by {
            if k > 0 {
                assert(s.drop_first()[k - 1] == s[k]);
            }
        }
        if dot_pos(s) < s.len() {
            assert(s.drop_first()[dot_pos(s) - 1] == s[dot_pos(s)]);
        }
    }
}

/// `k` is where the first dot sits (or the length, if no dot) exactly when no
/// dot comes before it.
proof fn lemma_dot_pos_is(s: Seq<char>, k: int)
    requires
        0 <= k <= s.len(),
        forall|j: int| 0 <= j < k ==> s[j] != '.',
        k == s.len() || s[k] == '.',
    ensures
        dot_pos(s) == k,
    decreases k,
{
    if k > 0 {
        assert(s[0] != '.');
        assert forall|j: int| 0 <= j < k - 1 implies s.drop_first()[j] != '.' by {
            assert(s.drop_first()[j] == s[j + 1]);
        }
        if k < s.len() {
            assert(s.drop_first()[k - 1] == s[k]);
        }
        lemma_dot_pos_is(s.drop_first(), k - 1);
    }
}

/// The tick weight of a fraction of `n` digits: what one must multiply the
/// fraction's value by so that four fraction digits weigh one tick each.
pub open spec fn frac_scale(n: int) -> int {
    if n == 1 {
        1000
    } else if n == 2 {
        100
    } else if n == 3 {
        10
    } else {
        1
    }
}

/// The decimal grammar of a price token: one or more integer digits, then
/// optionally a dot followed by one to four fraction digits.
pub open spec fn price_grammar_ok(s: Seq<char>) -> bool {
    let d = dot_pos(s);
    &&& d >= 1
    &&& all_digits(s.take(d))
    &&& (d == s.len() || (1 <= s.len() - d - 1 <= 4 && all_digits(s.skip(d + 1))))
}

/// The value in ticks of a price token that meets the grammar.
pub open spec fn price_ticks_of(s: Seq<char>) -> int {
    let d = dot_pos(s);
    if d == s.len() {
        digits_val(s) * (TICKS_PER_UNIT as int)
    } else {
        digits_val(s.take(d)) * (TICKS_PER_UNIT as int) + digits_val(s.skip(d + 1)) * frac_scale(
            s.len() - d - 1,
        )
    }
}

/// The ASCII lower-case image of a character's code point.
pub open spec fn lower_int(c: char) -> int {
    if 65 <= c as int <= 90 {
        c as int + 32
    } else {
        c as int
    }
}

/// Whether `s` spells `w` up to ASCII case, where `w` is already lower-case.
pub open spec fn matches_word_ci(s: Seq<char>, w: Seq<char>) -> bool {
    s.len() == w.len() && forall|k: int| 0 <= k < s.len() ==> lower_int(#[trigger] s[k]) == w[k] as int
}

/// The unsigned spellings, in any letter case, of a value that is not a
/// finite number.
pub open spec fn nonfinite_spelled(s: Seq<char>) -> bool {
    matches_word_ci(s, "inf"@) || matches_word_ci(s, "infinity"@) || matches_word_ci(s, "nan"@)
}

/// The price token parses but names no finite tradable value: a non-finite
/// spelling, or a decimal too large for the tick range.
pub open spec fn price_token_nonfinite(s: Seq<char>) -> bool {
    nonfinite_spelled(s) || (price_grammar_ok(s) && price_ticks_of(s) > u64::MAX)
}

/// The price token denotes a representable, strictly positive price.
pub open spec fn price_token_good(s: Seq<char>) -> bool {
    &&& !nonfinite_spelled(s)
    &&& price_grammar_ok(s)
    &&& 1 <= price_ticks_of(s) <= u64::MAX
}

/// The price token fits neither of the other two cases: it breaks the decimal
/// grammar, or its value is zero.
pub open spec fn price_token_malformed(s: Seq<char>) -> bool {
    &&& !nonfinite_spelled(s)
    &&& (!price_grammar_ok(s) || price_ticks_of(s) == 0)
}

fn matches_word_ci_exec(s: &str, w: &str) -> (r: bool)
    ensures
        r == matches_word_ci(s@, w@),
{
    let sl = s.unicode_len();
    let wl = w.unicode_len();
    if sl != wl {
        return false;
    }
    let mut k: usize = 0;
    while k < sl
        invariant
            0 <= k <= sl,
            sl == s@.len(),
            sl == w@.len(),
            forall|j: int| 0 <= j < k ==> lower_int(#[trigger] s@[j]) == w@[j] as int,
        decreases sl - k,
    {
        let cv = s.get_char(k) as u32;
        let lv = if 65 <= cv && cv <= 90 {
            cv + 32
        } else {
            cv
        };
        let wv = w.get_char(k) as u32;
        if lv != wv {
            assert(lower_int(s@[k as int]) != w@[k as int] as int);
            return false;
        }
        k = k + 1;
    }
    true
}

/// Whether every character of `s` in `[from, to)` is a decimal digit.
fn scan_digits(tok: &str, from: usize, to: usize) -> (r: bool)
    requires
        from <= to <= tok@.len(),
    ensures
        r == all_digits(tok@.subrange(from as int, to as int)),
{
    let mut k = from;
    while k < to
        invariant
            from <= k <= to <= tok@.len(),
            forall|j: int| from <= j < k ==> is_digit(#[trigger] tok@[j]),
        decreases to - k,
    {
        let v = tok.get_char(k) as u32;
        if v < 48 || v > 57 {
            assert(tok@.subrange(from as int, to as int)[k - from] == tok@[k as int]);
            return false;
        }
        k = k + 1;
    }
    assert forall|j: int| 0 <= j < to - from implies is_digit(
        #[trigger] tok@.subrange(from as int, to as int)[j],
    ) by {
        assert(tok@.subrange(from as int, to as int)[j] == tok@[from + j]);
    }
    true
}

/// The value of the digits of `tok` in `[from, to)`, or `None` when it
/// exceeds `cap`.
fn digits_value_capped(tok: &str, from: usize, to: usize, cap: u64) -> (r: Option<u64>)
    requires
        from <= to <= tok@.len(),
        all_digits(tok@.subrange(from as int, to as int)),
    ensures
        match r {
            Some(v) => v as int == digits_val(tok@.subrange(from as int, to as int)) && v <= cap,
            None => digits_val(tok@.subrange(from as int, to as int)) > cap,
        },
{
    let ghost sub = tok@.subrange(from as int, to as int);
    let mut acc: u64 = 0;
    let mut k = from;
    while k < to
        invariant
            from <= k <= to <= tok@.len(),
            sub == tok@.subrange(from as int, to as int),
            all_digits(sub),
            acc as int == digits_val(sub.take(k - from)),
            acc <= cap,
        decreases to - k,
    {
        let v = tok.get_char(k) as u32;
        proof {
            assert(sub[k - from] == tok@[k as int]);
            assert(is_digit(sub[k - from]));
        }
        let d = (v - 48) as u64;
        let wide: u128 = (acc as u128) * 10 + (d as u128);
        proof {
            assert(sub.take(k - from + 1).drop_last() =~= sub.take(k - from));
            assert(sub.take(k - from + 1).last() == sub[k - from]);
        }
        if wide > cap as u128 {
            proof {
                lemma_digits_prefix_le(sub, k - from + 1);
            }
            return None;
        }
        acc = wide as u64;
        k = k + 1;
    }
    proof {
        assert(sub.take(to - from) =~= sub);
    }
    Some(acc)
}

/// Parses a price token into ticks.
///
/// The three spec predicates `price_token_good`, `price_token_nonfinite` and
/// `price_token_malformed` partition all tokens, and each maps to one arm of
/// the result.
fn parse_price(tok: &str) -> (r: Result<Price, ParseError>)
    ensures
        match r {
            Ok(p) => price_token_good(tok@) && p.ticks as int == price_ticks_of(tok@),
            Err(e) => match e {
                ParseError::NonFiniteValue => price_token_nonfinite(tok@),
                ParseError::MalformedNumber(f, raw) => price_token_malformed(tok@) && f
                    == Field::Price && raw@ == tok@,
                _ => false,
            },
        },
{
    if matches_word_ci_exec(tok, "inf") || matches_word_ci_exec(tok, "infinity")
        || matches_word_ci_exec(tok, "nan") {
        return Err(ParseError::NonFiniteValue);
    }
    let len = tok.unicode_len();
    // Find the first dot.
    let mut d: usize = 0;
    while d < len && tok.get_char(d) != '.'
        invariant
            0 <= d <= len,
            len == tok@.len(),
            forall|j: int| 0 <= j < d ==> tok@[j] != '.',
        decreases len - d,
    {
        d = d + 1;
    }
    proof {
        lemma_dot_pos_is(tok@, d as int);
    }
    if d == 0 {
        return Err(ParseError::MalformedNumber(Field::Price, tok.to_owned()));
    }
    if !scan_digits(tok, 0, d) {
        assert(tok@.subrange(0, d as int) =~= tok@.take(d as int));
        return Err(ParseError::MalformedNumber(Field::Price, tok.to_owned()));
    }
    assert(tok@.subrange(0, d as int) =~= tok@.take(d as int));
    let frac_len: usize = if d < len {
        len - d - 1
    } else {
        0
    };
    if d < len {
        if frac_len < 1 || frac_len > 4 {
            return Err(ParseError::MalformedNumber(Field::Price, tok.to_owned()));
        }
        if !scan_digits(tok, d + 1, len) {
            assert(tok@.subrange(d + 1, len as int) =~= tok@.skip(d + 1));
            return Err(ParseError::MalformedNumber(Field::Price, tok.to_owned()));
        }
        assert(tok@.subrange(d + 1, len as int) =~= tok@.skip(d + 1));
    }
    assert(price_grammar_ok(tok@));
    // The integer part, capped so that even the whole-unit contribution fits.
    proof {
        lemma_digits_val_nonneg(tok@.take(d as int));
        if (d as int) < tok@.len() {
            lemma_digits_val_nonneg(tok@.skip(d + 1));
            lemma_digits_val_upper(tok@.skip(d + 1));
            let fs = frac_scale(tok@.len() - d - 1);
            let fv = digits_val(tok@.skip(d + 1));
            assert(fs == 1000 || fs == 100 || fs == 10 || fs == 1);
            assert(fv * fs >= 0) by {
                if fs == 1000 {
                    assert(fv * 1000 >= 0);
                } else if fs == 100 {
                    assert(fv * 100 >= 0);
                } else if fs == 10 {
                    assert(fv * 10 >= 0);
                } else {
                    assert(fv * 1 >= 0);
                }
            }
        }
    }
    let intval = match digits_value_capped(tok, 0, d, u64::MAX / TICKS_PER_UNIT) {
        Some(v) => v,
        None => {
            proof {
                let iv = digits_val(tok@.take(d as int));
                assert(iv > u64::MAX as int / 10000);
                assert(iv * 10000 > (u64::MAX as int / 10000) * 10000);
                if d as int == tok@.len() {
                    assert(tok@.take(d as int) =~= tok@);
                }
            }
            return Err(ParseError::NonFiniteValue);
        },
    };
    let fracval: u64 = if d < len {
        match digits_value_capped(tok, d + 1, len, u64::MAX) {
            Some(v) => v,
            None => {
                // Unreachable: at most four digits stay under the cap.
                return Err(ParseError::NonFiniteValue);
            },
        }
    } else {
        0
    };
    let scale: u64 = if frac_len == 1 {
        1000
    } else if frac_len == 2 {
        100
    } else if frac_len == 3 {
        10
    } else {
        1
    };
    proof {
        if (d as int) < tok@.len() {
            assert(scale as int == frac_scale(tok@.len() - d - 1));
            assert(fracval <= 9999);
            assert(fracval as int * scale as int <= 9999000) by {
                if scale == 1000 {
                    assert(fracval as int * 1000 <= 9999000);
                } else if scale == 100 {
                    assert(fracval as int * 100 <= 999900);
                } else if scale == 10 {
                    assert(fracval as int * 10 <= 99990);
                } else {
                    assert(fracval as int * 1 <= 9999);
                }
            }
            assert(fracval as int * scale as int >= 0) by {
                if scale == 1000 {
                    assert(fracval as int * 1000 >= 0);
                } else if scale == 100 {
                    assert(fracval as int * 100 >= 0);
                } else if scale == 10 {
                    assert(fracval as int * 10 >= 0);
                } else {
                    assert(fracval as int * 1 >= 0);
                }
            }
        } else {
            assert(tok@.take(d as int) =~= tok@);
            assert(fracval == 0);
        }
        assert(intval as int * 10000 <= (u64::MAX as int / 10000) * 10000);
        assert(intval as int * 10000 >= 0);
    }
    let wide: u128 = (intval as u128) * (TICKS_PER_UNIT as u128) + (fracval as u128) * (
    scale as u128);
    proof {
        assert(wide as int == price_ticks_of(tok@));
    }
    if wide == 0 {
        return Err(ParseError::MalformedNumber(Field::Price, tok.to_owned()));
    }
    if wide > u64::MAX as u128 {
        return Err(ParseError::NonFiniteValue);
    }
    Ok(Price { ticks: wide as u64 })
}

// ---------------------------------------------------------------------------
// Parsing a whole record.
// ---------------------------------------------------------------------------

/// The mathematical content of an order: every field as a plain value.
pub ghost struct OrderModel {
    pub order_time: int,
    pub participant_code: Seq<char>,
    pub security_name: Seq<char>,
    pub price_ticks: int,
    pub size: int,
    pub direction: OrderType,
}

impl View for SingleOrder {
    type V = OrderModel;

    open spec fn view(&self) -> OrderModel {
        OrderModel {
            order_time: self.order_time as int,
            participant_code: self.participant_code@,
            security_name: self.security_name@,
            price_ticks: self.price.ticks as int,
            size: self.size as int,
            direction: self.direction,
        }
    }
}

/// What parsing a record yields, stated over plain values.
pub ghost enum ParseOutcome {
    Parsed(OrderModel),
    FieldMissing(Field),
    MalformedNumber(Field, Seq<char>),
    NonFiniteValue,
    InvalidDirection(Seq<char>),
}

/// The outcome of parsing a record: a total function of the text alone.
///
/// Fields are consumed in record order; a missing field is reported before a
/// later field is looked at, and a malformed field is reported before a later
/// missing one. Tokens beyond the sixth are ignored.
pub open spec fn parse_spec(s: Seq<char>) -> ParseOutcome {
    let toks = tokens_of(s);
    if toks.len() <= 0 {
        ParseOutcome::FieldMissing(Field::OrderTime)
    } else if !int_token_valid(toks[0]) {
        ParseOutcome::MalformedNumber(Field::OrderTime, toks[0])
    } else if toks.len() <= 1 {
        ParseOutcome::FieldMissing(Field::ParticipantCode)
    } else if toks.len() <= 2 {
        ParseOutcome::FieldMissing(Field::SecurityName)
    } else if toks.len() <= 3 {
        ParseOutcome::FieldMissing(Field::Price)
    } else if price_token_nonfinite(toks[3]) {
        ParseOutcome::NonFiniteValue
    } else if !price_token_good(toks[3]) {
        ParseOutcome::MalformedNumber(Field::Price, toks[3])
    } else if toks.len() <= 4 {
        ParseOutcome::FieldMissing(Field::Size)
    } else if !int_token_valid(toks[4]) {
        ParseOutcome::MalformedNumber(Field::Size, toks[4])
    } else if toks.len() <= 5 {
        ParseOutcome::FieldMissing(Field::Direction)
    } else if toks[5] != "BUY"@ && toks[5] != "SELL"@ {
        ParseOutcome::InvalidDirection(toks[5])
    } else {
        ParseOutcome::Parsed(
            OrderModel {
                order_time: digits_val(toks[0]),
                participant_code: toks[1],
                security_name: toks[2],
                price_ticks: price_ticks_of(toks[3]),
                size: digits_val(toks[4]),
                direction: if toks[5] == "BUY"@ {
                    OrderType::BUY
                } else {
                    OrderType::SELL
                },
            },
        )
    }
}

/// Whether an executable parse result carries exactly a given outcome.
pub open spec fn result_matches(r: Result<SingleOrder, ParseError>, o: ParseOutcome) -> bool {
    match o {
        ParseOutcome::Parsed(m) => r matches Ok(ord) && ord@ == m,
        ParseOutcome::FieldMissing(f) => r == Err::<SingleOrder, ParseError>(
            ParseError::FieldMissing(f),
        ),
        ParseOutcome::MalformedNumber(f, raw) => r matches Err(ParseError::MalformedNumber(f2, r2))
            && f2 == f && r2@ == raw,
        ParseOutcome::NonFiniteValue => r == Err::<SingleOrder, ParseError>(
            ParseError::NonFiniteValue,
        ),
        ParseOutcome::InvalidDirection(raw) => r matches Err(ParseError::InvalidDirection(r2))
            && r2@ == raw,
    }
}

/// Fetches the token of the field at `idx`, or reports that field missing.
pub fn iter_name_error<'a>(tokens: &'a Vec<String>, idx: usize, field: Field) -> (r: Result<
    &'a String,
    ParseError,
>)
    ensures
        match r {
            Ok(tok) => idx < tokens@.len() && *tok == tokens@[idx as int],
            Err(e) => idx >= tokens@.len() && e == ParseError::FieldMissing(field),
        },
{
    if idx < tokens.len() {
        Ok(&tokens[idx])
    } else {
        Err(ParseError::FieldMissing(field))
    }
}

/// Creates a `SingleOrder` from a `String` representation of an order. This
/// requires order fields to be separated by whitespace, in the fixed record
/// order: order time, participant code, security name, price, size, direction.
///
/// The outcome, success or each typed error, is exactly `parse_spec` of the
/// text; a successful parse always yields a well-formed order.
pub fn order_from_string(order_str: String) -> (r: Result<SingleOrder, ParseError>)
    ensures
        result_matches(r, parse_spec(order_str@)),
        r matches Ok(ord) ==> order_wf(ord),
{
    let tokens = tokenize(order_str.as_str());
    proof {
        lemma_tokens_nonempty(order_str@, 0);
        assert(forall|k: int|
            0 <= k < tokens@.len() ==> #[trigger] tokens@[k]@ == tokens.deep_view()[k]);
    }
    let time_tok = match iter_name_error(&tokens, 0, Field::OrderTime) {
        Ok(t) => t,
        Err(e) => {
            return Err(e);
        },
    };
    let order_time = match parse_positive_i32(time_tok.as_str()) {
        Some(v) => v,
        None => {
            return Err(ParseError::MalformedNumber(Field::OrderTime, time_tok.clone()));
        },
    };
    let part_code = match iter_name_error(&tokens, 1, Field::ParticipantCode) {
        Ok(t) => t.clone(),
        Err(e) => {
            return Err(e);
        },
    };
    let sec_name = match iter_name_error(&tokens, 2, Field::SecurityName) {
        Ok(t) => t.clone(),
        Err(e) => {
            return Err(e);
        },
    };
    let price_tok = match iter_name_error(&tokens, 3, Field::Price) {
        Ok(t) => t,
        Err(e) => {
            return Err(e);
        },
    };
    let price = match parse_price(price_tok.as_str()) {
        Ok(p) => p,
        Err(e) => {
            return Err(e);
        },
    };
    let size_tok = match iter_name_error(&tokens, 4, Field::Size) {
        Ok(t) => t,
        Err(e) => {
            return Err(e);
        },
    };
    let size = match parse_positive_i32(size_tok.as_str()) {
        Some(v) => v,
        None => {
            return Err(ParseError::MalformedNumber(Field::Size, size_tok.clone()));
        },
    };
    let direction_tok = match iter_name_error(&tokens, 5, Field::Direction) {
        Ok(t) => t,
        Err(e) => {
            return Err(e);
        },
    };
    let buy_word: String = "BUY".to_owned();
    let sell_word: String = "SELL".to_owned();
    let direction = if direction_tok.eq(&buy_word) {
        OrderType::BUY
    } else if direction_tok.eq(&sell_word) {
        OrderType::SELL
    } else {
        return Err(ParseError::InvalidDirection(direction_tok.clone()));
    };
    Ok(
        SingleOrder {
            order_time,
            participant_code: part_code,
            security_name: sec_name,
            price,
            size,
            direction,
        },
    )
}

// ---------------------------------------------------------------------------
// Laws of parsing.
// ---------------------------------------------------------------------------

/// Whether two parse errors carry the same information.
pub open spec fn parse_error_equiv(e1: ParseError, e2: ParseError) -> bool {
    match (e1, e2) {
        (ParseError::FieldMissing(f1), ParseError::FieldMissing(f2)) => f1 == f2,
        (ParseError::MalformedNumber(f1, s1), ParseError::MalformedNumber(f2, s2)) => f1 == f2
            && s1@ == s2@,
        (ParseError::NonFiniteValue, ParseError::NonFiniteValue) => true,
        (ParseError::InvalidDirection(s1), ParseError::InvalidDirection(s2)) => s1@ == s2@,
        _ => false,
    }
}

/// Parsing is a total, deterministic function of the text: any two results of
/// parsing the same record agree — equal orders on success, the same error
/// otherwise.
pub proof fn lemma_parse_deterministic(
    s: Seq<char>,
    r1: Result<SingleOrder, ParseError>,
    r2: Result<SingleOrder, ParseError>,
)
    requires
        result_matches(r1, parse_spec(s)),
        result_matches(r2, parse_spec(s)),
    ensures
        r1 is Ok <==> r2 is Ok,
        r1 matches Ok(o1) ==> (r2 matches Ok(o2) && o1@ == o2@),
        r1 matches Err(e1) ==> (r2 matches Err(e2) && parse_error_equiv(e1, e2)),
{
}

/// The field that a record of `k` fields lacks first, in record order.
pub open spec fn field_at(k: int) -> Field {
    if k == 0 {
        Field::OrderTime
    } else if k == 1 {
        Field::ParticipantCode
    } else if k == 2 {
        Field::SecurityName
    } else if k == 3 {
        Field::Price
    } else if k == 4 {
        Field::Size
    } else {
        Field::Direction
    }
}

/// A record with fewer than six fields, whose present numeric fields are all
/// sound, fails with `FieldMissing` naming exactly the first absent field.
pub proof fn lemma_missing_field_named(s: Seq<char>)
    requires
        tokens_of(s).len() < 6,
        tokens_of(s).len() >= 1 ==> int_token_valid(tokens_of(s)[0]),
        tokens_of(s).len() >= 4 ==> price_token_good(tokens_of(s)[3]),
        tokens_of(s).len() >= 5 ==> int_token_valid(tokens_of(s)[4]),
    ensures
        parse_spec(s) == ParseOutcome::FieldMissing(field_at(tokens_of(s).len() as int)),
{
}

} // verus!
