//! The two capability interfaces of the engine — [`Input`] for parseable
//! subjects and [`Parser`] for parsing behaviours — together with the
//! denotation type [`Step`] that every parser's contract is stated over,
//! and the combinator values built by the trait methods and free functions.
//!
//! Every executable parser is tied to a mathematical denotation: the spec
//! function `spec_parse` maps the input's character sequence to a [`Step`],
//! and `parse` must realise exactly that step. Combinators compose
//! denotations, so what a whole grammar returns is pinned down input by
//! input.

use vstd::prelude::*;

use crate::parser::errors::{ErrorModel, ParserError};

verus! {

/// The outcome of a parser: either a success on `(remaining input, value)`
/// or a failure. `V` is the mathematical image of the parser's output type.
pub type ParseResult<I, O> = Result<(I, O), ParserError>;

/// Denotation of one parse: the mathematical outcome a parser yields on a
/// given character sequence.
pub enum Step<V> {
    /// Success: `rest` is the unconsumed remainder, `value` the image of the
    /// produced output.
    Matched { rest: Seq<char>, value: V },
    /// Failure, with offset, source tag and reason.
    Failed(ErrorModel),
}

/// A failure re-based by `k` units: the raising parser started `k` units into
/// the enclosing parser's input.
pub open spec fn rebased(em: ErrorModel, k: int) -> ErrorModel {
    ErrorModel { index: em.index + k, source: em.source, reason: em.reason }
}

/// The two bounds every parser keeps: a success leaves no more input than
/// it was given, and a failure's offset stays within the given input.
pub open spec fn step_within<V>(step: Step<V>, len: int) -> bool {
    match step {
        Step::Matched { rest, .. } => rest.len() <= len,
        Step::Failed(em) => 0 <= em.index <= len,
    }
}

/// Denotation of ordered choice between two denotations of one output type.
pub open spec fn step_or<V>(a: Step<V>, b: Step<V>) -> Step<V> {
    if a is Matched {
        a
    } else {
        b
    }
}

/// Whether the executable outcome `r` realises the denotation `step`.
pub open spec fn outcome_matches<I: Input, O: DeepView>(
    r: ParseResult<I, O>,
    step: Step<O::V>,
) -> bool {
    match step {
        Step::Matched { rest, value } => {
            r matches Ok((rem, v)) && rem.deep_view() == rest && v.deep_view() == value
        },
        Step::Failed(em) => r matches Err(e) && e.deep_view() == em,
    }
}

/// The minimal capability set a parseable subject must offer: report its
/// length, produce prefixes and remainders, split at a position, and render
/// itself as text for diagnostics. All views are read-only: operations
/// produce new values and never invalidate the original.
///
/// The subject is abstracted as its character sequence (`deep_view`); every
/// operation's contract is stated over that sequence.
pub trait Input: Clone + DeepView<V = Seq<char>> + Sized {
    /// Renders the input as owned text, for diagnostics.
    fn to_string_value(&self) -> (r: String)
        ensures
            r@ == self.deep_view(),
    ;

    /// The number of remaining input units.
    fn input_len(&self) -> (r: usize)
        ensures
            r == self.deep_view().len(),
    ;

    /// The remainder after discarding the first `size` units. Asking for more
    /// than is present is a precondition violation, not a recoverable
    /// failure.
    fn drop(&self, size: usize) -> (r: Self)
        requires
            size <= self.deep_view().len(),
        ensures
            r.deep_view() == self.deep_view().skip(size as int),
    ;

    /// The prefix of the first `size` units.
    fn take(&self, size: usize) -> (r: Self)
        requires
            size <= self.deep_view().len(),
        ensures
            r.deep_view() == self.deep_view().take(size as int),
    ;

    /// Prefix and remainder at `size`, in one step.
    fn split_at(&self, size: usize) -> (r: (Self, Self))
        requires
            size <= self.deep_view().len(),
        ensures
            r.0.deep_view() == self.deep_view().take(size as int),
            r.1.deep_view() == self.deep_view().skip(size as int),
    ;
}

/// A transformation applied to a parser's output by [`Parser::map`]: an
/// executable function together with its mathematical meaning, the idiom here
/// for a plain function value satisfying an interface.
pub trait Transform {
    type In: DeepView;

    type Out: DeepView;

    /// What the transformation means on the images of the values.
    spec fn spec_apply(&self, x: <Self::In as DeepView>::V) -> <Self::Out as DeepView>::V;

    /// Applies the transformation; the result's image is exactly
    /// `spec_apply` of the argument's image.
    fn apply(&self, x: Self::In) -> (r: Self::Out)
        ensures
            r.deep_view() == self.spec_apply(x.deep_view()),
    ;
}

/// A character predicate for run matchers such as `take_while`: an
/// executable test together with its mathematical meaning.
pub trait Predicate {
    /// What the predicate means on a character.
    spec fn spec_test(&self, c: char) -> bool;

    /// Tests a character; agrees exactly with `spec_test`.
    fn test(&self, c: char) -> (r: bool)
        ensures
            r == self.spec_test(c),
    ;
}

/// A passive observer handed to [`Parser::peek_in`] and
/// [`Parser::peek_out`]: it may look at a value but promises nothing, and
/// the peeked parser's outcome does not depend on it.
pub trait Inspect<T> {
    /// Looks at the value.
    fn inspect(&self, x: &T);
}

/// Combinatory parser capability: one operation, `parse`, which either
/// returns the unconsumed remainder with a typed output or a typed failure.
///
/// Each implementor fixes its denotation `spec_parse`; `parse` must realise
/// it exactly. Two further guarantees hold of every parser: a success never
/// leaves more input than it was given, and a failure's offset never points
/// past the given input.
pub trait Parser<I: Input>: Sized {
    type Output: DeepView;

    /// The denotation: what this parser yields on any character sequence.
    spec fn spec_parse(&self, input: Seq<char>) -> Step<<Self::Output as DeepView>::V>;

    /// Runs the parser on `input`, realising `spec_parse` on the input's
    /// character sequence.
    fn parse(&self, input: I) -> (r: ParseResult<I, Self::Output>)
        ensures
            outcome_matches(r, self.spec_parse(input.deep_view())),
            (self.spec_parse(input.deep_view()) matches Step::Matched { rest, .. } ==> rest.len()
                <= input.deep_view().len()),
            (self.spec_parse(input.deep_view()) matches Step::Failed(em) ==> 0 <= em.index
                <= input.deep_view().len()),
    ;

    /// Chains two parsers, returning their outputs as a pair.
    fn and<G>(self, parser: G) -> (r: And<Self, G>)
        ensures
            r == (And { first: self, second: parser }),
    {
        And { first: self, second: parser }
    }

    /// Ordered choice: tries `self` first, and `parser` — on the same input —
    /// only if `self` fails.
    fn or<G>(self, parser: G) -> (r: Or<Self, G>)
        ensures
            r == (Or { first: self, second: parser }),
    {
        Or { first: self, second: parser }
    }

    /// Transforms the parser's output through `f`, leaving the remainder
    /// untouched and passing failures through.
    fn map<F>(self, f: F) -> (r: Mapped<F, Self>)
        ensures
            r == (Mapped { f, parser: self }),
    {
        Mapped { f, parser: self }
    }

    /// Lets an observer look at the input before parsing.
    fn peek_in<F>(self, f: F) -> (r: Peek<F, Self>)
        ensures
            r == (Peek { f, parser: self }),
    {
        Peek { f, parser: self }
    }

    /// Lets an observer look at the outcome after parsing.
    fn peek_out<F>(self, f: F) -> (r: PeekOut<F, Self>)
        ensures
            r == (PeekOut { f, parser: self }),
    {
        PeekOut { f, parser: self }
    }

    /// Zero-or-more repetition of this parser; never fails.
    fn many(self) -> (r: Many<Self>)
        ensures
            r == (Many { parser: self }),
    {
        Many { parser: self }
    }
}

/// Conditional parse: runs `cond`; on its success discards its output and
/// runs `parser` (whose failure then propagates); on its failure yields
/// "absent" with the input untouched.
pub fn parse_if<I, O, C, P>(cond: C, parser: P) -> (r: ParseIf<C, P>) where
    I: Input,
    C: Parser<I>,
    P: Parser<I, Output = O>,

    ensures
        r == (ParseIf { cond, parser }),
{
    ParseIf { cond, parser }
}

/// Separated repetition: elements of `parser` separated by `separator`.
/// Never fails; the collected list may be empty.
pub fn sep_by<I, O, P, S>(parser: P, separator: S) -> (r: Sep<P, S>) where
    I: Input,
    P: Parser<I, Output = O>,
    S: Parser<I>,

    ensures
        r == (Sep { parser, separator }),
{
    Sep { parser, separator }
}

/// Delimiter wrapping: runs `left`, `parser`, `right` in sequence and keeps
/// only `parser`'s output; fails where the first of the three fails.
pub fn wrapped<I, O, L, P, R>(left: L, parser: P, right: R) -> (r: Wrapped<L, P, R>) where
    L: Parser<I>,
    P: Parser<I, Output = O>,
    R: Parser<I>,
    I: Input,

    ensures
        r == (Wrapped { left, parser, right }),
{
    Wrapped { left, parser, right }
}

/// Optional parse: success is wrapped in "present"; failure is fully
/// swallowed, yielding "absent" with the original input unconsumed.
pub fn opt<I, O, F>(f: F) -> (r: Opt<F>) where I: Input, F: Parser<I, Output = O>
    ensures
        r == (Opt { parser: f }),
{
    Opt { parser: f }
}

/// Constant substitution: runs `f`, discards its output and yields `v`.
pub fn value<V: Copy, I, O, F>(v: V, f: F) -> (r: Value<V, F>) where
    I: Input,
    F: Parser<I, Output = O>,

    ensures
        r == (Value { v, parser: f }),
{
    Value { v, parser: f }
}

/// Discard-prefix: runs `discard`, throws its output away, then runs
/// `parser` on the remainder.
pub fn discard<I, O, D, P>(discarded: D, parser: P) -> (r: Discard<D, P>) where
    P: Parser<I, Output = O>,
    D: Parser<I>,
    I: Input,

    ensures
        r == (Discard { discard: discarded, parser }),
{
    Discard { discard: discarded, parser }
}

/// Lookahead-skip: scans forward one unit at a time until `until` first
/// succeeds, returning that success; fails once the end of input is reached
/// with no match.
pub fn drop_until<P, I>(until: P) -> (r: DropUntil<P>) where P: Parser<I>, I: Input
    ensures
        r == (DropUntil { until }),
{
    DropUntil { until }
}

/// Zero-or-more repetition. See [`Parser::many`].
pub struct Many<P> {
    pub parser: P,
}

/// Separated repetition. See [`sep_by`].
pub struct Sep<P, S> {
    pub parser: P,
    pub separator: S,
}

/// Sequencing. See [`Parser::and`].
pub struct And<F, S> {
    pub first: F,
    pub second: S,
}

/// Ordered choice. See [`Parser::or`].
pub struct Or<F, S> {
    pub first: F,
    pub second: S,
}

/// Output transformation. See [`Parser::map`].
pub struct Mapped<F, P> {
    pub f: F,
    pub parser: P,
}

/// Lookahead-skip. See [`drop_until`].
pub struct DropUntil<U> {
    pub until: U,
}

/// Discard-prefix. See [`discard`].
pub struct Discard<D, P> {
    pub discard: D,
    pub parser: P,
}

/// Input observation. See [`Parser::peek_in`].
pub struct Peek<F, P> {
    pub f: F,
    pub parser: P,
}

/// Outcome observation. See [`Parser::peek_out`].
pub struct PeekOut<F, P> {
    pub f: F,
    pub parser: P,
}

/// Delimiter wrapping. See [`wrapped`].
pub struct Wrapped<L, P, R> {
    pub left: L,
    pub parser: P,
    pub right: R,
}

/// Optional parse. See [`opt`].
pub struct Opt<P> {
    pub parser: P,
}

/// Constant substitution. See [`value`].
pub struct Value<V, P> {
    pub v: V,
    pub parser: P,
}

/// Conditional parse. See [`parse_if`].
pub struct ParseIf<C, P> {
    pub cond: C,
    pub parser: P,
}

} // verus!
