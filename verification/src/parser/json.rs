//! The JSON value grammar, composed from the combinator engine: a recursive
//! value grammar over null, booleans, strings (with escape decoding),
//! numbers, arrays and objects.

use vstd::prelude::*;

use crate::parser::errors::ParserError;
use crate::parser::impls::{
    any, lemma_deep_view_push, lemma_mismatch_bounds, lemma_run_len_bounds, lemma_spec_many_rest,
    none_of, sequence, spec_many, spec_sequence, spec_take_while, str_eq, take_while, ws, NoneOf,
    OneOf, TakeWhile, Whitespace,
};
use crate::parser::traits::parse_if;
use crate::parser::traits::{
    outcome_matches, rebased, step_or, step_within, Input, Or, ParseResult, Parser, Predicate,
    Step,
};

verus! {

broadcast use {
    vstd::seq::axiom_seq_index_decreases,
    vstd::seq::axiom_seq_subrange_decreases,
    vstd::std_specs::vec::axiom_vec_decreases_to_view,
};

/// A decoded JSON number, kept as its exact parts; combining them into one
/// IEEE double is left to the caller.
///
/// The inherited combining rule, kept deliberately, is
/// `(sign * (integral + fraction)) ^ exponent`: the entire signed mantissa is
/// raised to the power of the exponent, and an absent exponent reads as `1`
/// (so a number without one keeps its mantissa value).
#[derive(Debug, PartialEq)]
pub struct JsonNumber {
    /// `-1` for a leading minus, `1` otherwise.
    pub sign: i64,
    /// The integral part; digit runs beyond `u64` saturate to `u64::MAX`.
    pub integral: u64,
    /// The fractional digit run, as written; empty when absent.
    pub decimal: String,
    /// The signed exponent; `1` when absent, saturating at the `i32` range.
    pub exponent: i32,
}

/// Mathematical image of a [`JsonNumber`].
pub struct NumberModel {
    pub sign: int,
    pub integral: int,
    pub decimal: Seq<char>,
    pub exponent: int,
}

impl DeepView for JsonNumber {
    type V = NumberModel;

    open spec fn deep_view(&self) -> NumberModel {
        NumberModel {
            sign: self.sign as int,
            integral: self.integral as int,
            decimal: self.decimal@,
            exponent: self.exponent as int,
        }
    }
}

/// A decoded JSON value: an immutable tree built bottom-up during a parse.
///
/// An object is kept as its key–value pairs with duplicate keys already
/// resolved last-write-wins, so each key occurs at most once; the insertion
/// order of the pairs is not semantically significant.
#[derive(Debug, PartialEq)]
pub enum JsonValue {
    Array(Vec<JsonValue>),
    Boolean(bool),
    String(String),
    Number(JsonNumber),
    Object(Vec<(String, JsonValue)>),
    Null,
}

/// Mathematical image of a [`JsonValue`]: an object reads as a mapping from
/// key to value.
pub enum JsonModel {
    Array(Seq<JsonModel>),
    Boolean(bool),
    String(Seq<char>),
    Number(NumberModel),
    Object(Map<Seq<char>, JsonModel>),
    Null,
}

/// The mapping an association list denotes: later entries win over earlier
/// ones with the same key.
pub open spec fn list_to_map(s: Seq<(Seq<char>, JsonModel)>) -> Map<Seq<char>, JsonModel>
    decreases s.len(),
{
    if s.len() == 0 {
        Map::empty()
    } else {
        list_to_map(s.drop_last()).insert(s.last().0, s.last().1)
    }
}

impl DeepView for JsonValue {
    type V = JsonModel;

    open spec fn deep_view(&self) -> JsonModel
        decreases self,
    {
        match self {
            JsonValue::Array(items) => JsonModel::Array(json_models_of(items@)),
            JsonValue::Boolean(b) => JsonModel::Boolean(*b),
            JsonValue::String(s) => JsonModel::String(s@),
            JsonValue::Number(n) => JsonModel::Number(n.deep_view()),
            JsonValue::Object(pairs) => JsonModel::Object(list_to_map(pair_models_of(pairs@))),
            JsonValue::Null => JsonModel::Null,
        }
    }
}

/// The images of a sequence of values, elementwise.
pub open spec fn json_models_of(s: Seq<JsonValue>) -> Seq<JsonModel>
    decreases s,
{
    if s.len() == 0 {
        Seq::empty()
    } else {
        seq![s[0].deep_view()] + json_models_of(s.subrange(1, s.len() as int))
    }
}

/// The images of a sequence of key–value pairs, elementwise.
pub open spec fn pair_models_of(s: Seq<(String, JsonValue)>) -> Seq<(Seq<char>, JsonModel)>
    decreases s,
{
    if s.len() == 0 {
        Seq::empty()
    } else {
        seq![(s[0].0@, s[0].1.deep_view())] + pair_models_of(s.subrange(1, s.len() as int))
    }
}

/// `json_models_of` is the elementwise image.
pub proof fn lemma_json_models_of(s: Seq<JsonValue>)
    ensures
        json_models_of(s).len() == s.len(),
        forall|i: int| 0 <= i < s.len() ==> json_models_of(s)[i] == s[i].deep_view(),
    decreases s.len(),
{
    if s.len() > 0 {
        lemma_json_models_of(s.subrange(1, s.len() as int));
        assert(json_models_of(s) == seq![s[0].deep_view()] + json_models_of(
            s.subrange(1, s.len() as int),
        ));
        assert forall|i: int| 0 <= i < s.len() implies json_models_of(s)[i] == s[
            i
        ].deep_view() by {
            if i > 0 {
                assert(json_models_of(s.subrange(1, s.len() as int))[i - 1] == s.subrange(
                    1,
                    s.len() as int,
                )[i - 1].deep_view());
            }
        }
    }
}

/// `pair_models_of` is the elementwise image.
pub proof fn lemma_pair_models_of(s: Seq<(String, JsonValue)>)
    ensures
        pair_models_of(s).len() == s.len(),
        forall|i: int|
            0 <= i < s.len() ==> pair_models_of(s)[i] == (s[i].0@, s[i].1.deep_view()),
    decreases s.len(),
{
    if s.len() > 0 {
        lemma_pair_models_of(s.subrange(1, s.len() as int));
        assert(pair_models_of(s) == seq![(s[0].0@, s[0].1.deep_view())] + pair_models_of(
            s.subrange(1, s.len() as int),
        ));
        assert forall|i: int| 0 <= i < s.len() implies pair_models_of(s)[i] == (
            s[i].0@,
            s[i].1.deep_view(),
        ) by {
            if i > 0 {
                assert(pair_models_of(s.subrange(1, s.len() as int))[i - 1] == (
                    s.subrange(1, s.len() as int)[i - 1].0@,
                    s.subrange(1, s.len() as int)[i - 1].1.deep_view(),
                ));
            }
        }
    }
}

} // verus!

// ---------------------------------------------------------------------------
// Leaf productions.
// ---------------------------------------------------------------------------
verus! {

/// The decimal-digit predicate used by [`digits`].
pub struct Digit;

impl Predicate for Digit {
    open spec fn spec_test(&self, c: char) -> bool {
        48 <= c as u32 <= 57
    }

    fn test(&self, c: char) -> (r: bool) {
        let u = c as u32;
        48 <= u && u <= 57
    }
}

/// Denotation of [`digits`]: a nonempty run of decimal digits.
pub open spec fn spec_digits(input: Seq<char>) -> Step<Seq<char>> {
    spec_take_while(Digit, input)
}

/// Matches a nonempty run of decimal digits.
pub fn digits<'a>(input: &'a str) -> (r: ParseResult<&'a str, &'a str>)
    ensures
        outcome_matches(r, spec_digits(input@)),
        step_within(spec_digits(input@), input@.len() as int),
{
    take_while(Digit).parse(input)
}

/// The remainder after skipping leading whitespace: the whitespace skip
/// always succeeds, consuming zero or more units.
pub open spec fn spec_ws_rest(input: Seq<char>) -> Seq<char> {
    match spec_take_while(Whitespace, input) {
        Step::Matched { rest, .. } => rest,
        Step::Failed(_) => input,
    }
}

/// Skipping whitespace never lengthens the input.
pub proof fn lemma_ws_rest(input: Seq<char>)
    ensures
        spec_ws_rest(input).len() <= input.len(),
{
    lemma_run_len_bounds(Whitespace, input);
}

/// Denotation of [`null`]: the literal `null`, read as the null value.
pub open spec fn spec_null(input: Seq<char>) -> Step<JsonModel> {
    match spec_sequence("null"@, input) {
        Step::Matched { rest, value: _ } => Step::Matched { rest, value: JsonModel::Null },
        Step::Failed(em) => Step::Failed(em),
    }
}

/// Matches the literal `null`.
pub fn null<'a>(input: &'a str) -> (r: ParseResult<&'a str, JsonValue>)
    ensures
        outcome_matches(r, spec_null(input@)),
        step_within(spec_null(input@), input@.len() as int),
{
    match sequence("null").parse(input) {
        Ok((rem, _)) => Ok((rem, JsonValue::Null)),
        Err(e) => Err(e),
    }
}

/// Denotation of [`boolean`]: the literal `true` or the literal `false`,
/// read as the corresponding boolean value.
pub open spec fn spec_boolean(input: Seq<char>) -> Step<JsonModel> {
    match step_or(spec_sequence("true"@, input), spec_sequence("false"@, input)) {
        Step::Matched { rest, value } => Step::Matched {
            rest,
            value: JsonModel::Boolean(value == "true"@),
        },
        Step::Failed(em) => Step::Failed(em),
    }
}

/// Matches the literal `true` or `false`.
pub fn boolean<'a>(input: &'a str) -> (r: ParseResult<&'a str, JsonValue>)
    ensures
        outcome_matches(r, spec_boolean(input@)),
        step_within(spec_boolean(input@), input@.len() as int),
{
    match sequence("true").or(sequence("false")).parse(input) {
        Ok((rem, v)) => Ok((rem, JsonValue::Boolean(str_eq(v, "true")))),
        Err(e) => Err(e),
    }
}

} // verus!

// ---------------------------------------------------------------------------
// Strings and escape decoding.
// ---------------------------------------------------------------------------
verus! {

/// One escape alternative: the two-character sequence `lit`, decoded to
/// `out`.
pub open spec fn spec_escape_alt(lit: Seq<char>, out: Seq<char>, input: Seq<char>) -> Step<
    Seq<char>,
> {
    match spec_sequence(lit, input) {
        Step::Matched { rest, value: _ } => Step::Matched { rest, value: out },
        Step::Failed(em) => Step::Failed(em),
    }
}

/// Denotation of [`EscapedParser`]: the escape table, tried in order.
pub open spec fn spec_escaped(input: Seq<char>) -> Step<Seq<char>> {
    step_or(
        spec_escape_alt("\\\\"@, "\\"@, input),
        step_or(
            spec_escape_alt("\\\""@, "\""@, input),
            step_or(
                spec_escape_alt("\\n"@, "\n"@, input),
                step_or(
                    spec_escape_alt("\\t"@, "\t"@, input),
                    step_or(
                        spec_escape_alt("\\r"@, "\r"@, input),
                        step_or(
                            spec_escape_alt("\\/"@, "/"@, input),
                            step_or(
                                spec_escape_alt("\\f"@, "\u{000C}"@, input),
                                spec_escape_alt("\\b"@, "\u{0008}"@, input),
                            ),
                        ),
                    ),
                ),
            ),
        ),
    )
}

/// Decodes one escape sequence: `\\`, `\"`, `\n`, `\t`, `\r`, `\/`, `\f` or
/// `\b`, yielding the character it stands for.
pub fn escaped<'a>(input: &'a str) -> (r: ParseResult<&'a str, &'a str>)
    ensures
        outcome_matches(r, spec_escaped(input@)),
        step_within(spec_escaped(input@), input@.len() as int),
{
    match sequence("\\\\").parse(input) {
        Ok((rem, _)) => {
            return Ok((rem, "\\"));
        },
        Err(_) => {},
    }
    match sequence("\\\"").parse(input) {
        Ok((rem, _)) => {
            return Ok((rem, "\""));
        },
        Err(_) => {},
    }
    match sequence("\\n").parse(input) {
        Ok((rem, _)) => {
            return Ok((rem, "\n"));
        },
        Err(_) => {},
    }
    match sequence("\\t").parse(input) {
        Ok((rem, _)) => {
            return Ok((rem, "\t"));
        },
        Err(_) => {},
    }
    match sequence("\\r").parse(input) {
        Ok((rem, _)) => {
            return Ok((rem, "\r"));
        },
        Err(_) => {},
    }
    match sequence("\\/").parse(input) {
        Ok((rem, _)) => {
            return Ok((rem, "/"));
        },
        Err(_) => {},
    }
    match sequence("\\f").parse(input) {
        Ok((rem, _)) => {
            return Ok((rem, "\u{000C}"));
        },
        Err(_) => {},
    }
    match sequence("\\b").parse(input) {
        Ok((rem, _)) => Ok((rem, "\u{0008}")),
        Err(e) => Err(e),
    }
}

/// The escape table as a parser value, so that it can stand inside the
/// string grammar's repetition.
pub struct EscapedParser;

impl<'a> Parser<&'a str> for EscapedParser {
    type Output = &'a str;

    open spec fn spec_parse(&self, input: Seq<char>) -> Step<Seq<char>> {
        spec_escaped(input)
    }

    fn parse(&self, input: &'a str) -> (r: ParseResult<&'a str, &'a str>) {
        escaped(input)
    }
}

/// The repeated piece of a string body: a run of plain characters (anything
/// but `"` or `\`), or one decoded escape.
pub open spec fn string_piece_parser() -> Or<TakeWhile<NoneOf<'static>>, EscapedParser> {
    Or { first: TakeWhile { predicate: NoneOf { chars: "\"\\" } }, second: EscapedParser }
}

/// Denotation of [`string`]: a quote, a repetition of string pieces
/// collected into one text, and a closing quote.
pub open spec fn spec_string(input: Seq<char>) -> Step<Seq<char>> {
    match spec_sequence("\""@, input) {
        Step::Failed(em) => Step::Failed(em),
        Step::Matched { rest: r1, value: _ } => {
            let (r2, pieces) = spec_many(string_piece_parser(), r1);
            match spec_sequence("\""@, r2) {
                Step::Failed(em) => Step::Failed(rebased(em, input.len() - r2.len())),
                Step::Matched { rest: r3, value: _ } => Step::Matched {
                    rest: r3,
                    value: pieces.flatten(),
                },
            }
        },
    }
}

/// A matched string consumes at least its quotes.
pub proof fn lemma_spec_string_rest(input: Seq<char>)
    ensures
        spec_string(input) matches Step::Matched { rest, .. } ==> rest.len() < input.len(),
{
    reveal_strlit("\"");
    lemma_mismatch_bounds("\""@, input);
    match spec_sequence("\""@, input) {
        Step::Matched { rest: r1, value: _ } => {
            lemma_spec_many_rest(string_piece_parser(), r1);
        },
        Step::Failed(_) => {},
    }
}

/// Matches a string literal, decoding its escapes into owned text.
pub fn string<'a>(input: &'a str) -> (r: ParseResult<&'a str, String>)
    ensures
        outcome_matches(r, spec_string(input@)),
        step_within(spec_string(input@), input@.len() as int),
{
    let ilen = input.unicode_len();
    match sequence("\"").parse(input) {
        Err(e) => Err(e),
        Ok((r1, _)) => {
            let piece = none_of("\"\\").or(EscapedParser);
            match piece.many().parse(r1) {
                Err(e) => {
                    // The repetition never fails.
                    proof {
                        assert(false);
                    }
                    Err(e)
                },
                Ok((r2, pieces)) => {
                    let ghost dv = pieces.deep_view();
                    let n = pieces.len();
                    let mut out = String::new();
                    let mut j: usize = 0;
                    proof {
                        assert(dv.skip(0) =~= dv);
                        assert(out@ + dv.flatten() =~= dv.flatten());
                    }
                    while j < n
                        invariant
                            j <= n,
                            n == pieces.len(),
                            dv == pieces.deep_view(),
                            dv.flatten() == out@ + dv.skip(j as int).flatten(),
                        decreases n - j,
                    {
                        let piece_j = pieces[j];
                        proof {
                            assert(dv[j as int] == piece_j@);
                            assert(dv.skip(j as int).drop_first() =~= dv.skip(j as int + 1));
                            assert(dv.skip(j as int).first() == dv[j as int]);
                        }
                        out.append(piece_j);
                        j = j + 1;
                    }
                    proof {
                        assert(dv.skip(n as int) =~= Seq::<Seq<char>>::empty());
                        assert(out@ + dv.skip(n as int).flatten() =~= out@);
                    }
                    let r2len = r2.unicode_len();
                    match sequence("\"").parse(r2) {
                        Err(e) => Err(ParserError::from_error(e, ilen - r2len)),
                        Ok((r3, _)) => Ok((r3, out)),
                    }
                },
            }
        },
    }
}

/// Skips leading whitespace, which always succeeds.
pub fn skip_ws<'a>(input: &'a str) -> (r: &'a str)
    ensures
        r@ == spec_ws_rest(input@),
        r@.len() <= input@.len(),
{
    proof {
        lemma_ws_rest(input@);
    }
    match ws().parse(input) {
        Ok((rem, _)) => rem,
        Err(_) => {
            // The optional run never fails.
            proof {
                assert(false);
            }
            input
        },
    }
}

} // verus!

// ---------------------------------------------------------------------------
// Numeric literal decoding.
// ---------------------------------------------------------------------------
verus! {

/// The value of one digit character; a non-digit counts as zero.
pub open spec fn digit_val(c: char) -> int {
    if 48 <= c as u32 <= 57 {
        c as u32 - 48
    } else {
        0
    }
}

/// The number a digit run denotes, most significant digit first.
pub open spec fn digits_value(s: Seq<char>) -> int
    decreases s.len(),
{
    if s.len() == 0 {
        0
    } else {
        digits_value(s.drop_last()) * 10 + digit_val(s.last())
    }
}

/// A digit run never denotes a negative number.
pub proof fn lemma_digits_value_nonneg(s: Seq<char>)
    ensures
        digits_value(s) >= 0,
    decreases s.len(),
{
    if s.len() > 0 {
        lemma_digits_value_nonneg(s.drop_last());
    }
}

/// The digit run's value, saturated to the `u64` range.
pub open spec fn sat_u64(x: int) -> int {
    if x > u64::MAX {
        u64::MAX as int
    } else {
        x
    }
}

/// Reads a digit run as an unsigned integer, saturating at `u64::MAX`;
/// non-digit characters count as zero digits.
pub fn digits_to_u64(s: &str) -> (r: u64)
    ensures
        r as int == sat_u64(digits_value(s@)),
{
    let len = s.unicode_len();
    let mut acc: u64 = 0;
    let mut j: usize = 0;
    proof {
        assert(s@.take(0) =~= Seq::<char>::empty());
    }
    while j < len
        invariant
            j <= len,
            len == s@.len(),
            acc as int == sat_u64(digits_value(s@.take(j as int))),
        decreases len - j,
    {
        let c = s.get_char(j);
        let u = c as u32;
        let d: u64 = if 48 <= u && u <= 57 {
            (u - 48) as u64
        } else {
            0
        };
        proof {
            assert(s@.take(j as int + 1).drop_last() =~= s@.take(j as int));
            assert(s@.take(j as int + 1).last() == s@[j as int]);
            lemma_digits_value_nonneg(s@.take(j as int));
        }
        if acc <= (u64::MAX - d) / 10 {
            acc = acc * 10 + d;
        } else {
            acc = u64::MAX;
        }
        j = j + 1;
    }
    proof {
        assert(s@.take(len as int) =~= s@);
    }
    acc
}

/// Denotation of the integral part: the literal `0`, or a nonempty digit
/// run, read as an unsigned integer saturating at `u64::MAX`.
pub open spec fn spec_integral(input: Seq<char>) -> Step<int> {
    match step_or(spec_sequence("0"@, input), spec_digits(input)) {
        Step::Matched { rest, value } => Step::Matched {
            rest,
            value: sat_u64(digits_value(value)),
        },
        Step::Failed(em) => Step::Failed(em),
    }
}

/// The integral part of a number.
fn integral_part<'a>(input: &'a str) -> (r: ParseResult<&'a str, u64>)
    ensures
        (spec_integral(input@) matches Step::Matched { rest, value } ==> r matches Ok((rem, v))
            && rem@ == rest && v as int == value),
        (spec_integral(input@) matches Step::Failed(em) ==> r matches Err(e) && e.deep_view()
            == em),
        step_within(spec_integral(input@), input@.len() as int),
{
    match sequence("0").or(take_while(Digit)).parse(input) {
        Err(e) => Err(e),
        Ok((rem, ds)) => Ok((rem, digits_to_u64(ds))),
    }
}

/// Denotation of the fractional part: a dot followed by a digit run, kept as
/// the run itself; an absent dot reads as the empty run; a dot without
/// digits is a real failure.
pub open spec fn spec_decimal(input: Seq<char>) -> Step<Seq<char>> {
    match spec_sequence("."@, input) {
        Step::Failed(_) => Step::Matched { rest: input, value: Seq::empty() },
        Step::Matched { rest: r1, value: _ } => match spec_digits(r1) {
            Step::Failed(em) => Step::Failed(rebased(em, input.len() - r1.len())),
            Step::Matched { rest: r2, value } => Step::Matched { rest: r2, value },
        },
    }
}

/// The fractional part of a number, as its digit run.
fn decimal_part<'a>(input: &'a str) -> (r: ParseResult<&'a str, String>)
    ensures
        outcome_matches(r, spec_decimal(input@)),
        step_within(spec_decimal(input@), input@.len() as int),
{
    match parse_if(sequence("."), take_while(Digit)).parse(input) {
        Err(e) => Err(e),
        Ok((rem, Some(ds))) => Ok((rem, ds.to_owned())),
        Ok((rem, None)) => Ok((rem, String::new())),
    }
}

/// Denotation of the exponent part: `e` or `E` (a run of them, as the set
/// matcher works by runs), an optional sign, and a digit run; the whole part
/// is optional and reads as `1` when absent or incomplete, per the inherited
/// combining rule. The magnitude saturates at `i32::MAX`.
pub open spec fn spec_exponent(input: Seq<char>) -> (Seq<char>, int) {
    match spec_take_while(OneOf { chars: "eE" }, input) {
        Step::Failed(_) => (input, 1),
        Step::Matched { rest: r1, value: _ } => {
            let (r2, esign): (Seq<char>, int) = match spec_sequence("-"@, r1) {
                Step::Matched { rest, value: _ } => (rest, -1),
                Step::Failed(_) => match spec_sequence("+"@, r1) {
                    Step::Matched { rest, value: _ } => (rest, 1),
                    Step::Failed(_) => (r1, 1),
                },
            };
            match spec_take_while(Digit, r2) {
                Step::Failed(_) => (input, 1),
                Step::Matched { rest: r3, value } => {
                    let m = sat_u64(digits_value(value));
                    let m32: int = if m > i32::MAX {
                        i32::MAX as int
                    } else {
                        m
                    };
                    (r3, esign * m32)
                },
            }
        },
    }
}

/// The exponent part of a number; never fails.
fn exponent<'a>(input: &'a str) -> (r: (&'a str, i32))
    ensures
        r.0@ == spec_exponent(input@).0,
        r.1 as int == spec_exponent(input@).1,
        r.0@.len() <= input@.len(),
{
    match any("eE").parse(input) {
        Err(_) => (input, 1),
        Ok((r1, _)) => {
            let (r2, esign): (&'a str, i32) = match sequence("-").parse(r1) {
                Ok((rr, _)) => (rr, -1i32),
                Err(_) => match sequence("+").parse(r1) {
                    Ok((rr, _)) => (rr, 1i32),
                    Err(_) => (r1, 1i32),
                },
            };
            match take_while(Digit).parse(r2) {
                Err(_) => (input, 1),
                Ok((r3, ds)) => {
                    let mag = digits_to_u64(ds);
                    let m32: i32 = if mag > i32::MAX as u64 {
                        i32::MAX
                    } else {
                        mag as i32
                    };
                    proof {
                        assert(esign == 1i32 || esign == -1i32);
                        assert(0 <= m32 <= i32::MAX);
                    }
                    (r3, esign * m32)
                },
            }
        },
    }
}

/// Denotation of [`json_number`]: an optional minus sign, an integral part,
/// an optional fractional part and an optional exponent, kept as the number's
/// exact parts.
pub open spec fn spec_json_number(input: Seq<char>) -> Step<JsonModel> {
    let (r1, sign): (Seq<char>, int) = match spec_sequence("-"@, input) {
        Step::Matched { rest, value: _ } => (rest, -1),
        Step::Failed(_) => (input, 1),
    };
    match spec_integral(r1) {
        Step::Failed(em) => Step::Failed(rebased(em, input.len() - r1.len())),
        Step::Matched { rest: r2, value: integral } => match spec_decimal(r2) {
            Step::Failed(em) => Step::Failed(rebased(em, input.len() - r2.len())),
            Step::Matched { rest: r3, value: dec } => {
                let (r4, ex) = spec_exponent(r3);
                Step::Matched {
                    rest: r4,
                    value: JsonModel::Number(
                        NumberModel { sign, integral, decimal: dec, exponent: ex },
                    ),
                }
            },
        },
    }
}

/// Matches a number literal, keeping its decoded parts.
pub fn json_number<'a>(input: &'a str) -> (r: ParseResult<&'a str, JsonValue>)
    ensures
        outcome_matches(r, spec_json_number(input@)),
        step_within(spec_json_number(input@), input@.len() as int),
{
    let ilen = input.unicode_len();
    let (r1, sign): (&'a str, i64) = match sequence("-").parse(input) {
        Ok((rr, _)) => (rr, -1i64),
        Err(_) => (input, 1i64),
    };
    let r1len = r1.unicode_len();
    match integral_part(r1) {
        Err(e) => Err(ParserError::from_error(e, ilen - r1len)),
        Ok((r2, integral)) => {
            let r2len = r2.unicode_len();
            match decimal_part(r2) {
                Err(e) => Err(ParserError::from_error(e, ilen - r2len)),
                Ok((r3, dec)) => {
                    let (r4, ex) = exponent(r3);
                    Ok(
                        (
                            r4,
                            JsonValue::Number(
                                JsonNumber { sign, integral, decimal: dec, exponent: ex },
                            ),
                        ),
                    )
                },
            }
        },
    }
}

} // verus!

// ---------------------------------------------------------------------------
// The recursive value grammar. The denotations of value, array, object and
// pair are mutually recursive; they shrink the input at every nesting step,
// so they terminate without any depth bound.
// ---------------------------------------------------------------------------
verus! {

/// The string production, read as a JSON value.
pub open spec fn spec_string_value(input: Seq<char>) -> Step<JsonModel> {
    match spec_string(input) {
        Step::Matched { rest, value } => Step::Matched {
            rest,
            value: JsonModel::String(value),
        },
        Step::Failed(em) => Step::Failed(em),
    }
}

/// Denotation of [`json_value`]: skip leading whitespace, then ordered
/// choice over null, boolean, array, object, string and number; a failure of
/// the last alternative is re-based past the skipped whitespace.
pub open spec fn spec_json_value(input: Seq<char>) -> Step<JsonModel>
    decreases input.len(), 2int,
{
    let r = spec_ws_rest(input);
    proof {
        lemma_ws_rest(input);
    }
    let step = step_or(
        spec_null(r),
        step_or(
            spec_boolean(r),
            step_or(
                spec_array(r),
                step_or(spec_object(r), step_or(spec_string_value(r), spec_json_number(r))),
            ),
        ),
    );
    match step {
        Step::Matched { rest, value } => Step::Matched { rest, value },
        Step::Failed(em) => Step::Failed(rebased(em, input.len() - r.len())),
    }
}

/// Denotation of [`array`]: `[`, a comma-separated, whitespace-tolerant list
/// of values, and `]`.
pub open spec fn spec_array(input: Seq<char>) -> Step<JsonModel>
    decreases input.len(), 1int,
{
    match spec_sequence("["@, input) {
        Step::Failed(em) => Step::Failed(em),
        Step::Matched { rest: r1, value: _ } => {
            proof {
                reveal_strlit("[");
                lemma_mismatch_bounds("["@, input);
                lemma_ws_rest(r1);
            }
            let r1b = spec_ws_rest(r1);
            let (r2, vals) = spec_elements(r1b);
            let r2b = spec_ws_rest(r2);
            match spec_sequence("]"@, r2b) {
                Step::Failed(em) => Step::Failed(rebased(em, input.len() - r2b.len())),
                Step::Matched { rest: r3, value: _ } => Step::Matched {
                    rest: r3,
                    value: JsonModel::Array(vals),
                },
            }
        },
    }
}

/// The comma-separated repetition of values inside an array: a failing
/// element ends it, a failing comma ends it after the element, and a round
/// that consumes nothing ends it as well.
pub open spec fn spec_elements(input: Seq<char>) -> (Seq<char>, Seq<JsonModel>)
    decreases input.len(), 3int,
{
    match spec_json_value(input) {
        Step::Failed(_) => (input, Seq::empty()),
        Step::Matched { rest, value } => match spec_sequence(","@, rest) {
            Step::Failed(_) => (rest, seq![value]),
            Step::Matched { rest: rest2, value: _ } => {
                if rest2.len() < input.len() {
                    let (r3, tail) = spec_elements(rest2);
                    (r3, seq![value] + tail)
                } else {
                    (rest2, seq![value])
                }
            },
        },
    }
}

/// Denotation of [`json_object`]: `{`, comma-separated key–value pairs, and
/// `}` after optional whitespace; the pairs collect into a mapping,
/// last-write-wins on duplicate keys.
pub open spec fn spec_object(input: Seq<char>) -> Step<JsonModel>
    decreases input.len(), 1int,
{
    match spec_sequence("{"@, input) {
        Step::Failed(em) => Step::Failed(em),
        Step::Matched { rest: r1, value: _ } => {
            proof {
                reveal_strlit("{");
                lemma_mismatch_bounds("{"@, input);
            }
            let (r2, pairs) = spec_pairs(r1);
            let r2b = spec_ws_rest(r2);
            match spec_sequence("}"@, r2b) {
                Step::Failed(em) => Step::Failed(rebased(em, input.len() - r2b.len())),
                Step::Matched { rest: r3, value: _ } => Step::Matched {
                    rest: r3,
                    value: JsonModel::Object(list_to_map(pairs)),
                },
            }
        },
    }
}

/// The comma-separated repetition of pairs inside an object, ended like the
/// array elements' repetition.
pub open spec fn spec_pairs(input: Seq<char>) -> (Seq<char>, Seq<(Seq<char>, JsonModel)>)
    decreases input.len(), 3int,
{
    match spec_json_pair(input) {
        Step::Failed(_) => (input, Seq::empty()),
        Step::Matched { rest, value } => match spec_sequence(","@, rest) {
            Step::Failed(_) => (rest, seq![value]),
            Step::Matched { rest: rest2, value: _ } => {
                if rest2.len() < input.len() {
                    let (r3, tail) = spec_pairs(rest2);
                    (r3, seq![value] + tail)
                } else {
                    (rest2, seq![value])
                }
            },
        },
    }
}

/// Denotation of [`json_pair`]: a whitespace-tolerant `key : value` pair,
/// with trailing whitespace consumed.
pub open spec fn spec_json_pair(input: Seq<char>) -> Step<(Seq<char>, JsonModel)>
    decreases input.len(), 2int,
{
    let r0 = spec_ws_rest(input);
    match spec_string(r0) {
        Step::Failed(em) => Step::Failed(rebased(em, input.len() - r0.len())),
        Step::Matched { rest: r1, value: key } => {
            let r1b = spec_ws_rest(r1);
            match spec_sequence(":"@, r1b) {
                Step::Failed(em) => Step::Failed(rebased(em, input.len() - r1b.len())),
                Step::Matched { rest: r2, value: _ } => {
                    proof {
                        lemma_ws_rest(input);
                        lemma_spec_string_rest(r0);
                        lemma_ws_rest(r1);
                        reveal_strlit(":");
                        lemma_mismatch_bounds(":"@, r1b);
                        lemma_ws_rest(r2);
                    }
                    let r2b = spec_ws_rest(r2);
                    match spec_json_value(r2b) {
                        Step::Failed(em) => Step::Failed(rebased(em, input.len() - r2b.len())),
                        Step::Matched { rest: r3, value: v } => {
                            let r3b = spec_ws_rest(r3);
                            Step::Matched { rest: r3b, value: (key, v) }
                        },
                    }
                },
            }
        },
    }
}

} // verus!

// ---------------------------------------------------------------------------
// Last-write-wins collection of object pairs.
// ---------------------------------------------------------------------------
verus! {

/// Whether an association list holds each key at most once.
pub open spec fn unique_keys(s: Seq<(Seq<char>, JsonModel)>) -> bool {
    forall|i: int, j: int| 0 <= i < j < s.len() ==> s[i].0 != s[j].0
}

/// Overwriting the entry that holds `k` acts on the mapping as inserting
/// `k`.
pub proof fn lemma_list_to_map_update(
    s: Seq<(Seq<char>, JsonModel)>,
    i: int,
    k: Seq<char>,
    v: JsonModel,
)
    requires
        0 <= i < s.len(),
        s[i].0 == k,
        unique_keys(s),
    ensures
        list_to_map(s.update(i, (k, v))) == list_to_map(s).insert(k, v),
    decreases s.len(),
{
    let t = s.update(i, (k, v));
    if i == s.len() - 1 {
        assert(t.drop_last() =~= s.drop_last());
        assert(t.last() == (k, v));
        assert(list_to_map(s).insert(k, v) =~= list_to_map(s.drop_last()).insert(k, v));
    } else {
        assert(t.drop_last() =~= s.drop_last().update(i, (k, v)));
        assert(s.drop_last()[i].0 == k);
        lemma_list_to_map_update(s.drop_last(), i, k, v);
        assert(t.last() == s.last());
        assert(s[i].0 != s[s.len() - 1].0);
        assert(list_to_map(s.drop_last()).insert(k, v).insert(s.last().0, s.last().1)
            =~= list_to_map(s.drop_last()).insert(s.last().0, s.last().1).insert(k, v));
    }
}

/// Appending an entry acts on the mapping as inserting its key.
pub proof fn lemma_list_to_map_push(s: Seq<(Seq<char>, JsonModel)>, k: Seq<char>, v: JsonModel)
    ensures
        list_to_map(s.push((k, v))) == list_to_map(s).insert(k, v),
{
    assert(s.push((k, v)).drop_last() =~= s);
    assert(s.push((k, v)).last() == (k, v));
}

/// Inserts a key–value pair into an association list with unique keys,
/// overwriting the key's entry if one exists: last write wins.
fn insert_pair(pairs: &mut Vec<(String, JsonValue)>, k: String, v: JsonValue)
    requires
        unique_keys(pair_models_of(old(pairs)@)),
    ensures
        unique_keys(pair_models_of(final(pairs)@)),
        list_to_map(pair_models_of(final(pairs)@)) == list_to_map(
            pair_models_of(old(pairs)@),
        ).insert(k@, v.deep_view()),
{
    let ghost s0 = pair_models_of(pairs@);
    proof {
        lemma_pair_models_of(pairs@);
    }
    let n = pairs.len();
    let mut j: usize = 0;
    while j < n
        invariant
            j <= n,
            n == pairs.len(),
            s0 == pair_models_of(pairs@),
            s0 == pair_models_of(old(pairs)@),
            unique_keys(s0),
            s0.len() == n,
            forall|i: int| 0 <= i < s0.len() ==> s0[i] == (pairs@[i].0@, pairs@[i].1.deep_view()),
            forall|i: int| 0 <= i < j ==> s0[i].0 != k@,
        decreases n - j,
    {
        if str_eq(pairs[j].0.as_str(), k.as_str()) {
            let ghost old_view = pairs@;
            pairs.remove(j);
            pairs.insert(j, (k, v));
            proof {
                assert(pairs@ =~= old_view.update(j as int, (k, v)));
                lemma_pair_models_of(pairs@);
                assert(pair_models_of(pairs@) =~~= s0.update(j as int, (k@, v.deep_view())));
                lemma_list_to_map_update(s0, j as int, k@, v.deep_view());
                assert(list_to_map(pair_models_of(pairs@)) == list_to_map(s0).insert(
                    k@,
                    v.deep_view(),
                ));
                assert forall|a: int, b: int|
                    0 <= a < b < pair_models_of(pairs@).len() implies pair_models_of(pairs@)[a].0
                    != pair_models_of(pairs@)[b].0 by {
                    assert(s0[a].0 == if a == j as int {
                        k@
                    } else {
                        s0[a].0
                    });
                }
            }
            return ;
        }
        j = j + 1;
    }
    let ghost old_view = pairs@;
    pairs.push((k, v));
    proof {
        assert(pairs@ =~= old_view.push((k, v)));
        lemma_pair_models_of(pairs@);
        assert(pair_models_of(pairs@) =~= s0.push((k@, v.deep_view())));
        lemma_list_to_map_push(s0, k@, v.deep_view());
    }
}

} // verus!

// ---------------------------------------------------------------------------
// The executable value grammar. The recursive edge is the named function
// `json_value`, called directly where a production nests; every nesting step
// consumes at least one unit, which is what the termination measures record.
// ---------------------------------------------------------------------------
verus! {

/// Parses one JSON value: leading whitespace, then the first of null,
/// boolean, array, object, string or number that matches.
pub fn json_value<'a>(input: &'a str) -> (r: ParseResult<&'a str, JsonValue>)
    ensures
        outcome_matches(r, spec_json_value(input@)),
        step_within(spec_json_value(input@), input@.len() as int),
    decreases input@.len(), 2int,
{
    let ilen = input.unicode_len();
    let rem0 = skip_ws(input);
    let rlen = rem0.unicode_len();
    match null(rem0) {
        Ok(p) => {
            return Ok(p);
        },
        Err(_) => {},
    }
    match boolean(rem0) {
        Ok(p) => {
            return Ok(p);
        },
        Err(_) => {},
    }
    match array(rem0) {
        Ok(p) => {
            return Ok(p);
        },
        Err(_) => {},
    }
    match json_object(rem0) {
        Ok(p) => {
            return Ok(p);
        },
        Err(_) => {},
    }
    match string(rem0) {
        Ok((rem, s)) => {
            return Ok((rem, JsonValue::String(s)));
        },
        Err(_) => {},
    }
    match json_number(rem0) {
        Ok(p) => Ok(p),
        Err(e) => Err(ParserError::from_error(e, ilen - rlen)),
    }
}

/// Parses an array: `[`, comma-separated values, `]`, whitespace-tolerant.
pub fn array<'a>(input: &'a str) -> (r: ParseResult<&'a str, JsonValue>)
    ensures
        outcome_matches(r, spec_array(input@)),
        step_within(spec_array(input@), input@.len() as int),
    decreases input@.len(), 1int,
{
    let ilen = input.unicode_len();
    match sequence("[").parse(input) {
        Err(e) => Err(e),
        Ok((r1, _)) => {
            proof {
                reveal_strlit("[");
                lemma_mismatch_bounds("["@, input@);
            }
            let r1b = skip_ws(r1);
            let ghost base = r1b@;
            let mut items: Vec<JsonValue> = Vec::new();
            let mut cur = r1b;
            proof {
                assert(items.deep_view() =~= Seq::<JsonModel>::empty());
                assert(items.deep_view() + spec_elements(base).1 =~= spec_elements(base).1);
            }
            loop
                invariant_except_break
                    cur@.len() <= base.len(),
                    base.len() < ilen,
                    ilen == input@.len(),
                    spec_elements(base).0 == spec_elements(cur@).0,
                    spec_elements(base).1 == items.deep_view() + spec_elements(cur@).1,
                ensures
                    cur@.len() <= base.len(),
                    spec_elements(base).0 == cur@,
                    spec_elements(base).1 == items.deep_view(),
                decreases cur@.len(),
            {
                let round = cur.unicode_len();
                match json_value(cur) {
                    Err(_) => {
                        proof {
                            assert(items.deep_view() + spec_elements(cur@).1
                                =~= items.deep_view());
                        }
                        break;
                    },
                    Ok((next, v)) => {
                        let ghost old_items = items;
                        items.push(v);
                        proof {
                            lemma_deep_view_push(old_items, items, v);
                        }
                        match sequence(",").parse(next) {
                            Err(_) => {
                                cur = next;
                                proof {
                                    assert(old_items.deep_view() + seq![v.deep_view()]
                                        =~= items.deep_view());
                                }
                                break;
                            },
                            Ok((next2, _)) => {
                                if next2.unicode_len() >= round {
                                    cur = next2;
                                    proof {
                                        assert(old_items.deep_view() + seq![v.deep_view()]
                                            =~= items.deep_view());
                                    }
                                    break;
                                }
                                proof {
                                    assert(old_items.deep_view() + (seq![v.deep_view()]
                                        + spec_elements(next2@).1) =~= items.deep_view()
                                        + spec_elements(next2@).1);
                                }
                                cur = next2;
                            },
                        }
                    },
                }
            }
            let r2b = skip_ws(cur);
            let r2blen = r2b.unicode_len();
            match sequence("]").parse(r2b) {
                Err(e) => Err(ParserError::from_error(e, ilen - r2blen)),
                Ok((r3, _)) => {
                    proof {
                        lemma_json_models_of(items@);
                        assert(json_models_of(items@) =~= items.deep_view());
                    }
                    Ok((r3, JsonValue::Array(items)))
                },
            }
        },
    }
}

/// Parses an object: `{`, comma-separated `key : value` pairs, `}`, with
/// duplicate keys resolved last-write-wins while the pairs are collected.
pub fn json_object<'a>(input: &'a str) -> (r: ParseResult<&'a str, JsonValue>)
    ensures
        outcome_matches(r, spec_object(input@)),
        step_within(spec_object(input@), input@.len() as int),
    decreases input@.len(), 1int,
{
    let ilen = input.unicode_len();
    match sequence("{").parse(input) {
        Err(e) => Err(e),
        Ok((r1, _)) => {
            proof {
                reveal_strlit("{");
                lemma_mismatch_bounds("{"@, input@);
            }
            let ghost base = r1@;
            let mut acc: Vec<(String, JsonValue)> = Vec::new();
            let ghost mut done = Seq::<(Seq<char>, JsonModel)>::empty();
            let mut cur = r1;
            proof {
                assert(pair_models_of(acc@) =~= Seq::<(Seq<char>, JsonModel)>::empty());
                assert(done + spec_pairs(base).1 =~= spec_pairs(base).1);
            }
            loop
                invariant_except_break
                    cur@.len() <= base.len(),
                    base.len() < ilen,
                    ilen == input@.len(),
                    spec_pairs(base).0 == spec_pairs(cur@).0,
                    spec_pairs(base).1 == done + spec_pairs(cur@).1,
                    unique_keys(pair_models_of(acc@)),
                    list_to_map(pair_models_of(acc@)) == list_to_map(done),
                ensures
                    cur@.len() <= base.len(),
                    spec_pairs(base).0 == cur@,
                    list_to_map(pair_models_of(acc@)) == list_to_map(spec_pairs(base).1),
                decreases cur@.len(),
            {
                let round = cur.unicode_len();
                match json_pair(cur) {
                    Err(_) => {
                        proof {
                            assert(done + spec_pairs(cur@).1 =~= done);
                        }
                        break;
                    },
                    Ok((next, kv)) => {
                        let (k, v) = kv;
                        let ghost kk = k@;
                        let ghost vv = v.deep_view();
                        let ghost old_done = done;
                        insert_pair(&mut acc, k, v);
                        proof {
                            done = done.push((kk, vv));
                            lemma_list_to_map_push(old_done, kk, vv);
                        }
                        match sequence(",").parse(next) {
                            Err(_) => {
                                cur = next;
                                proof {
                                    assert(old_done + seq![(kk, vv)] =~= done);
                                }
                                break;
                            },
                            Ok((next2, _)) => {
                                if next2.unicode_len() >= round {
                                    cur = next2;
                                    proof {
                                        assert(old_done + seq![(kk, vv)] =~= done);
                                    }
                                    break;
                                }
                                proof {
                                    assert(old_done + (seq![(kk, vv)] + spec_pairs(next2@).1)
                                        =~= done + spec_pairs(next2@).1);
                                }
                                cur = next2;
                            },
                        }
                    },
                }
            }
            let r2b = skip_ws(cur);
            let r2blen = r2b.unicode_len();
            match sequence("}").parse(r2b) {
                Err(e) => Err(ParserError::from_error(e, ilen - r2blen)),
                Ok((r3, _)) => Ok((r3, JsonValue::Object(acc))),
            }
        },
    }
}

/// Parses one `key : value` pair, whitespace-tolerant on both sides.
pub fn json_pair<'a>(input: &'a str) -> (r: ParseResult<&'a str, (String, JsonValue)>)
    ensures
        outcome_matches(r, spec_json_pair(input@)),
        step_within(spec_json_pair(input@), input@.len() as int),
    decreases input@.len(), 2int,
{
    let ilen = input.unicode_len();
    let r0 = skip_ws(input);
    let r0len = r0.unicode_len();
    match string(r0) {
        Err(e) => Err(ParserError::from_error(e, ilen - r0len)),
        Ok((r1, key)) => {
            proof {
                lemma_spec_string_rest(r0@);
            }
            let r1b = skip_ws(r1);
            let r1blen = r1b.unicode_len();
            match sequence(":").parse(r1b) {
                Err(e) => Err(ParserError::from_error(e, ilen - r1blen)),
                Ok((r2, _)) => {
                    proof {
                        reveal_strlit(":");
                        lemma_mismatch_bounds(":"@, r1b@);
                    }
                    let r2b = skip_ws(r2);
                    let r2blen = r2b.unicode_len();
                    match json_value(r2b) {
                        Err(e) => Err(ParserError::from_error(e, ilen - r2blen)),
                        Ok((r3, v)) => {
                            let r3b = skip_ws(r3);
                            Ok((r3b, (key, v)))
                        },
                    }
                },
            }
        },
    }
}

} // verus!
