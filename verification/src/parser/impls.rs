//! The concrete parsers: the text-span instance of [`Input`], the primitive
//! matchers (`sequence`, `take_while` and its derived helpers), and the
//! `Parser` implementations of the combinator values, each proved against
//! its denotation.

use vstd::prelude::*;
use vstd::string::StrSliceExecFns;
use vstd::string::StringExecFns;

use crate::parser::errors::{ErrorModel, ErrorSource, ParserError, SourceModel};
use crate::parser::traits::{
    opt, rebased, And, Discard, DropUntil, Inspect, Input, Many, Mapped, Opt, Or, ParseIf,
    ParseResult, Parser, Peek, PeekOut, Predicate, Sep, Step, Transform, Value, Wrapped,
};

verus! {

// ---------------------------------------------------------------------------
// The read-only text span as an Input.
// ---------------------------------------------------------------------------
impl<'a> Input for &'a str {
    fn to_string_value(&self) -> (r: String) {
        (*self).to_owned()
    }

    fn input_len(&self) -> (r: usize) {
        (*self).unicode_len()
    }

    fn drop(&self, size: usize) -> (r: Self) {
        let len = (*self).unicode_len();
        (*self).substring_char(size, len)
    }

    fn take(&self, size: usize) -> (r: Self) {
        (*self).substring_char(0, size)
    }

    fn split_at(&self, size: usize) -> (r: (Self, Self)) {
        let len = (*self).unicode_len();
        ((*self).substring_char(0, size), (*self).substring_char(size, len))
    }
}

// ---------------------------------------------------------------------------
// The literal-text matcher.
// ---------------------------------------------------------------------------
/// Offset of the first position where `input` stops matching `matcher`:
/// `None` when all of `matcher` is present at the front of `input`, and
/// `Some(j)` when the characters first differ at `j` or `input` ends there.
pub open spec fn spec_mismatch(matcher: Seq<char>, input: Seq<char>) -> Option<int>
    decreases matcher.len(),
{
    if matcher.len() == 0 {
        None
    } else if input.len() == 0 || input[0] != matcher[0] {
        Some(0)
    } else {
        match spec_mismatch(matcher.skip(1), input.skip(1)) {
            None => None,
            Some(j) => Some(1 + j),
        }
    }
}

/// The reason text of a literal mismatch at `j`: a bounded excerpt (at most
/// 10 units) of the actual input at that point.
pub open spec fn spec_sequence_reason(input: Seq<char>, j: int) -> Seq<char> {
    "could not parse sequence '"@ + input.subrange(
        j,
        if input.len() - j > 10 {
            j + 10
        } else {
            input.len() as int
        },
    ) + "'"@
}

/// Denotation of [`sequence`]: fails on empty input; fails at the first
/// mismatching position otherwise; on a full match splits the input at the
/// literal's length, yielding the matched prefix.
pub open spec fn spec_sequence(matcher: Seq<char>, input: Seq<char>) -> Step<Seq<char>> {
    if input.len() == 0 {
        Step::Failed(ErrorModel {
            index: 0,
            source: SourceModel::Sequence(matcher),
            reason: "empty sequence"@,
        })
    } else {
        match spec_mismatch(matcher, input) {
            Some(j) => Step::Failed(ErrorModel {
                index: j,
                source: SourceModel::Sequence(matcher),
                reason: spec_sequence_reason(input, j),
            }),
            None => Step::Matched {
                rest: input.skip(matcher.len() as int),
                value: input.take(matcher.len() as int),
            },
        }
    }
}

/// The mismatch offset stays within both the matcher and the input, and the
/// no-mismatch case means the matcher is a prefix of the input.
pub proof fn lemma_mismatch_bounds(matcher: Seq<char>, input: Seq<char>)
    ensures
        spec_mismatch(matcher, input) matches Some(j) ==> 0 <= j && j < matcher.len() && j
            <= input.len(),
        spec_mismatch(matcher, input) is None ==> matcher.len() <= input.len() && input.take(
            matcher.len() as int,
        ) == matcher,
    decreases matcher.len(),
{
    if matcher.len() == 0 {
        assert(input.take(0) =~= matcher);
    } else if input.len() == 0 || input[0] != matcher[0] {
    } else {
        lemma_mismatch_bounds(matcher.skip(1), input.skip(1));
        if spec_mismatch(matcher.skip(1), input.skip(1)) is None {
            assert(input.take(matcher.len() as int) =~= matcher) by {
                assert forall|k: int| 0 <= k < matcher.len() implies input.take(
                    matcher.len() as int,
                )[k] == matcher[k] by {
                    if k > 0 {
                        assert(input.skip(1).take(matcher.skip(1).len() as int)[k - 1]
                            == matcher.skip(1)[k - 1]);
                    }
                }
            }
        }
    }
}

/// A scan that found the characters equal up to `j` and a difference or the
/// end of input at `j` has found exactly the mismatch offset.
pub proof fn lemma_mismatch_at(matcher: Seq<char>, input: Seq<char>, j: int)
    requires
        0 <= j < matcher.len(),
        j <= input.len(),
        forall|k: int| 0 <= k < j ==> input[k] == matcher[k],
        j == input.len() || input[j] != matcher[j],
    ensures
        spec_mismatch(matcher, input) == Some(j),
    decreases j,
{
    if j == 0 {
    } else {
        assert forall|k: int| 0 <= k < j - 1 implies input.skip(1)[k] == matcher.skip(1)[k] by {
            assert(input[k + 1] == matcher[k + 1]);
        }
        lemma_mismatch_at(matcher.skip(1), input.skip(1), j - 1);
    }
}

/// A scan that found all of the matcher's characters at the front of the
/// input has found a full match.
pub proof fn lemma_mismatch_none(matcher: Seq<char>, input: Seq<char>)
    requires
        matcher.len() <= input.len(),
        forall|k: int| 0 <= k < matcher.len() ==> input[k] == matcher[k],
    ensures
        spec_mismatch(matcher, input) is None,
    decreases matcher.len(),
{
    if matcher.len() == 0 {
    } else {
        assert forall|k: int| 0 <= k < matcher.skip(1).len() implies input.skip(1)[k]
            == matcher.skip(1)[k] by {
            assert(input[k + 1] == matcher[k + 1]);
        }
        lemma_mismatch_none(matcher.skip(1), input.skip(1));
    }
}

/// The literal-text matcher: matches `matcher` at the front of the input.
pub struct Sequence<'a> {
    pub matcher: &'a str,
}

/// Builds the literal-text matcher for `matcher`.
pub fn sequence<'a>(matcher: &'a str) -> (r: Sequence<'a>)
    ensures
        r == (Sequence { matcher }),
{
    Sequence { matcher }
}

impl<'a> Parser<&'a str> for Sequence<'a> {
    type Output = &'a str;

    open spec fn spec_parse(&self, input: Seq<char>) -> Step<Seq<char>> {
        spec_sequence(self.matcher@, input)
    }

    fn parse(&self, input: &'a str) -> (r: ParseResult<&'a str, &'a str>) {
        let ilen = input.unicode_len();
        let mlen = self.matcher.unicode_len();
        if ilen == 0 {
            return Err(
                ParserError::new(
                    0,
                    ErrorSource::Sequence(self.matcher.to_owned()),
                    "empty sequence",
                ),
            );
        }
        let mut j: usize = 0;
        while j < mlen
            invariant
                0 <= j <= mlen,
                j <= ilen,
                ilen == input@.len(),
                mlen == self.matcher@.len(),
                ilen > 0,
                forall|k: int| 0 <= k < j ==> input@[k] == self.matcher@[k],
            decreases mlen - j,
        {
            if j == ilen || input.get_char(j) != self.matcher.get_char(j) {
                proof {
                    lemma_mismatch_at(self.matcher@, input@, j as int);
                }
                let to = if ilen - j > 10 {
                    j + 10
                } else {
                    ilen
                };
                let excerpt = input.substring_char(j, to);
                let mut msg = "could not parse sequence '".to_owned();
                msg.append(excerpt);
                msg.append("'");
                let e = ParserError::new(
                    j,
                    ErrorSource::Sequence(self.matcher.to_owned()),
                    msg.as_str(),
                );
                proof {
                    assert(msg@ =~= spec_sequence_reason(input@, j as int));
                }
                return Err(e);
            }
            j = j + 1;
        }
        proof {
            lemma_mismatch_none(self.matcher@, input@);
        }
        let (parsed, remainder) = Input::split_at(&input, mlen);
        Ok((remainder, parsed))
    }
}

} // verus!

// ---------------------------------------------------------------------------
// Combinators.
// ---------------------------------------------------------------------------
verus! {

/// The whole of a sequence is the prefix of its own length.
pub proof fn lemma_take_all(s: Seq<char>)
    ensures
        s.take(s.len() as int) == s,
{
    assert(s.take(s.len() as int) =~= s);
}

/// Pushing onto a vector appends the element's image to the vector's image.
pub proof fn lemma_deep_view_push<T: DeepView>(v: Vec<T>, w: Vec<T>, x: T)
    requires
        w@ == v@.push(x),
    ensures
        w.deep_view() == v.deep_view() + seq![x.deep_view()],
{
    assert(w.deep_view() =~= v.deep_view() + seq![x.deep_view()]);
}

impl<I, P, D, O> Parser<I> for Discard<D, P> where
    P: Parser<I, Output = O>,
    D: Parser<I>,
    I: Input,
    O: DeepView,
 {
    type Output = O;

    open spec fn spec_parse(&self, input: Seq<char>) -> Step<<O as DeepView>::V> {
        match self.discard.spec_parse(input) {
            Step::Failed(em) => Step::Failed(em),
            Step::Matched { rest, value: _ } => match self.parser.spec_parse(rest) {
                Step::Failed(em) => Step::Failed(rebased(em, input.len() - rest.len())),
                Step::Matched { rest: rest2, value } => Step::Matched { rest: rest2, value },
            },
        }
    }

    fn parse(&self, input: I) -> (r: ParseResult<I, O>) {
        let ilen = input.input_len();
        match self.discard.parse(input) {
            Err(e) => Err(e),
            Ok((rem, _)) => {
                let rlen = rem.input_len();
                match self.parser.parse(rem) {
                    Err(e) => Err(ParserError::from_error(e, ilen - rlen)),
                    Ok((rem2, v)) => Ok((rem2, v)),
                }
            },
        }
    }
}

impl<I, F, P> Parser<I> for Mapped<F, P> where
    F: Transform<In = P::Output>,
    P: Parser<I>,
    I: Input,
 {
    type Output = F::Out;

    open spec fn spec_parse(&self, input: Seq<char>) -> Step<<F::Out as DeepView>::V> {
        match self.parser.spec_parse(input) {
            Step::Matched { rest, value } => Step::Matched {
                rest,
                value: self.f.spec_apply(value),
            },
            Step::Failed(em) => Step::Failed(em),
        }
    }

    fn parse(&self, input: I) -> (r: ParseResult<I, F::Out>) {
        match self.parser.parse(input) {
            Ok((rem, v)) => Ok((rem, self.f.apply(v))),
            Err(e) => Err(e),
        }
    }
}

impl<I, F, S> Parser<I> for And<F, S> where F: Parser<I>, S: Parser<I>, I: Input {
    type Output = (F::Output, S::Output);

    open spec fn spec_parse(&self, input: Seq<char>) -> Step<
        <(F::Output, S::Output) as DeepView>::V,
    > {
        match self.first.spec_parse(input) {
            Step::Failed(em) => Step::Failed(em),
            Step::Matched { rest, value: a } => match self.second.spec_parse(rest) {
                Step::Failed(em) => Step::Failed(rebased(em, input.len() - rest.len())),
                Step::Matched { rest: rest2, value: b } => Step::Matched {
                    rest: rest2,
                    value: (a, b),
                },
            },
        }
    }

    fn parse(&self, input: I) -> (r: ParseResult<I, (F::Output, S::Output)>) {
        let ilen = input.input_len();
        match self.first.parse(input) {
            Err(e) => Err(e),
            Ok((rem, a)) => {
                let rlen = rem.input_len();
                match self.second.parse(rem) {
                    Err(e) => Err(ParserError::from_error(e, ilen - rlen)),
                    Ok((rem2, b)) => Ok((rem2, (a, b))),
                }
            },
        }
    }
}

impl<I, O, F, S> Parser<I> for Or<F, S> where
    F: Parser<I, Output = O>,
    S: Parser<I, Output = O>,
    I: Input,
    O: DeepView,
 {
    type Output = O;

    open spec fn spec_parse(&self, input: Seq<char>) -> Step<<O as DeepView>::V> {
        match self.first.spec_parse(input) {
            Step::Matched { rest, value } => Step::Matched { rest, value },
            Step::Failed(_) => self.second.spec_parse(input),
        }
    }

    fn parse(&self, input: I) -> (r: ParseResult<I, O>) {
        let len = input.input_len();
        let copy = input.take(len);
        proof {
            lemma_take_all(input.deep_view());
        }
        match self.first.parse(copy) {
            Ok((rem, v)) => Ok((rem, v)),
            Err(_) => self.second.parse(input),
        }
    }
}

impl<I, O, L, P, R> Parser<I> for Wrapped<L, P, R> where
    L: Parser<I>,
    P: Parser<I, Output = O>,
    R: Parser<I>,
    I: Input,
    O: DeepView,
 {
    type Output = O;

    open spec fn spec_parse(&self, input: Seq<char>) -> Step<<O as DeepView>::V> {
        match self.left.spec_parse(input) {
            Step::Failed(em) => Step::Failed(em),
            Step::Matched { rest: r1, value: _ } => match self.parser.spec_parse(r1) {
                Step::Failed(em) => Step::Failed(rebased(em, input.len() - r1.len())),
                Step::Matched { rest: r2, value } => match self.right.spec_parse(r2) {
                    Step::Failed(em) => Step::Failed(rebased(em, input.len() - r2.len())),
                    Step::Matched { rest: r3, value: _ } => Step::Matched { rest: r3, value },
                },
            },
        }
    }

    fn parse(&self, input: I) -> (r: ParseResult<I, O>) {
        let ilen = input.input_len();
        match self.left.parse(input) {
            Err(e) => Err(e),
            Ok((rem1, _)) => {
                let len1 = rem1.input_len();
                match self.parser.parse(rem1) {
                    Err(e) => Err(ParserError::from_error(e, ilen - len1)),
                    Ok((rem2, v)) => {
                        let len2 = rem2.input_len();
                        match self.right.parse(rem2) {
                            Err(e) => Err(ParserError::from_error(e, ilen - len2)),
                            Ok((rem3, _)) => Ok((rem3, v)),
                        }
                    },
                }
            },
        }
    }
}

impl<I, P> Parser<I> for Opt<P> where P: Parser<I>, I: Input {
    type Output = Option<P::Output>;

    open spec fn spec_parse(&self, input: Seq<char>) -> Step<
        <Option<P::Output> as DeepView>::V,
    > {
        match self.parser.spec_parse(input) {
            Step::Matched { rest, value } => Step::Matched { rest, value: Some(value) },
            Step::Failed(_) => Step::Matched { rest: input, value: None },
        }
    }

    fn parse(&self, input: I) -> (r: ParseResult<I, Option<P::Output>>) {
        let len = input.input_len();
        let copy = input.take(len);
        proof {
            lemma_take_all(input.deep_view());
        }
        match self.parser.parse(copy) {
            Ok((rem, v)) => Ok((rem, Some(v))),
            Err(_) => Ok((input, None)),
        }
    }
}

impl<V, I, P> Parser<I> for Value<V, P> where V: Copy + DeepView, P: Parser<I>, I: Input {
    type Output = V;

    open spec fn spec_parse(&self, input: Seq<char>) -> Step<<V as DeepView>::V> {
        match self.parser.spec_parse(input) {
            Step::Matched { rest, value: _ } => Step::Matched {
                rest,
                value: self.v.deep_view(),
            },
            Step::Failed(em) => Step::Failed(em),
        }
    }

    fn parse(&self, input: I) -> (r: ParseResult<I, V>) {
        match self.parser.parse(input) {
            Ok((rem, _)) => Ok((rem, self.v)),
            Err(e) => Err(e),
        }
    }
}

impl<I, C, P> Parser<I> for ParseIf<C, P> where C: Parser<I>, P: Parser<I>, I: Input {
    type Output = Option<P::Output>;

    open spec fn spec_parse(&self, input: Seq<char>) -> Step<
        <Option<P::Output> as DeepView>::V,
    > {
        match self.cond.spec_parse(input) {
            Step::Failed(_) => Step::Matched { rest: input, value: None },
            Step::Matched { rest: r1, value: _ } => match self.parser.spec_parse(r1) {
                Step::Failed(em) => Step::Failed(rebased(em, input.len() - r1.len())),
                Step::Matched { rest: r2, value } => Step::Matched { rest: r2, value: Some(value) },
            },
        }
    }

    fn parse(&self, input: I) -> (r: ParseResult<I, Option<P::Output>>) {
        let ilen = input.input_len();
        let copy = input.take(ilen);
        proof {
            lemma_take_all(input.deep_view());
        }
        match self.cond.parse(copy) {
            Err(_) => Ok((input, None)),
            Ok((rem, _)) => {
                let rlen = rem.input_len();
                match self.parser.parse(rem) {
                    Err(e) => Err(ParserError::from_error(e, ilen - rlen)),
                    Ok((rem2, v)) => Ok((rem2, Some(v))),
                }
            },
        }
    }
}

impl<I, F, P> Parser<I> for Peek<F, P> where F: Inspect<I>, P: Parser<I>, I: Input {
    type Output = P::Output;

    open spec fn spec_parse(&self, input: Seq<char>) -> Step<<P::Output as DeepView>::V> {
        self.parser.spec_parse(input)
    }

    fn parse(&self, input: I) -> (r: ParseResult<I, P::Output>) {
        self.f.inspect(&input);
        self.parser.parse(input)
    }
}

impl<I, F, P> Parser<I> for PeekOut<F, P> where
    F: Inspect<ParseResult<I, P::Output>>,
    P: Parser<I>,
    I: Input,
 {
    type Output = P::Output;

    open spec fn spec_parse(&self, input: Seq<char>) -> Step<<P::Output as DeepView>::V> {
        self.parser.spec_parse(input)
    }

    fn parse(&self, input: I) -> (r: ParseResult<I, P::Output>) {
        let out = self.parser.parse(input);
        self.f.inspect(&out);
        out
    }
}

} // verus!

// ---------------------------------------------------------------------------
// Repetition and lookahead.
// ---------------------------------------------------------------------------
verus! {

/// Denotation of [`Many`]: the remainder and the collected outputs after
/// repeatedly running `p`. The repetition stops — without failing — when the
/// input is exhausted, when `p` fails, or when `p` succeeds while consuming
/// nothing (the safeguard against infinite repetition on zero-width
/// matches).
pub open spec fn spec_many<I: Input, P: Parser<I>>(p: P, input: Seq<char>) -> (
    Seq<char>,
    Seq<<P::Output as DeepView>::V>,
)
    decreases input.len(),
{
    if input.len() == 0 {
        (input, Seq::empty())
    } else {
        match p.spec_parse(input) {
            Step::Failed(_) => (input, Seq::empty()),
            Step::Matched { rest, value } => {
                if rest.len() < input.len() {
                    let (r2, tail) = spec_many(p, rest);
                    (r2, seq![value] + tail)
                } else {
                    (input, Seq::empty())
                }
            },
        }
    }
}

impl<I, P> Parser<I> for Many<P> where P: Parser<I>, I: Input {
    type Output = Vec<P::Output>;

    open spec fn spec_parse(&self, input: Seq<char>) -> Step<<Vec<P::Output> as DeepView>::V> {
        Step::Matched {
            rest: spec_many(self.parser, input).0,
            value: spec_many(self.parser, input).1,
        }
    }

    fn parse(&self, input: I) -> (r: ParseResult<I, Vec<P::Output>>) {
        let ghost iv = input.deep_view();
        let mut parsed: Vec<P::Output> = Vec::new();
        let mut ipt = input;
        proof {
            assert(parsed.deep_view() =~= Seq::<<P::Output as DeepView>::V>::empty());
        }
        loop
            invariant_except_break
                ipt.deep_view().len() <= iv.len(),
                spec_many(self.parser, iv).0 == spec_many(self.parser, ipt.deep_view()).0,
                spec_many(self.parser, iv).1 == parsed.deep_view() + spec_many(
                    self.parser,
                    ipt.deep_view(),
                ).1,
            ensures
                ipt.deep_view().len() <= iv.len(),
                spec_many(self.parser, iv).0 == ipt.deep_view(),
                spec_many(self.parser, iv).1 == parsed.deep_view(),
            decreases ipt.deep_view().len(),
        {
            let len = ipt.input_len();
            if len == 0 {
                proof {
                    assert(parsed.deep_view() + spec_many(self.parser, ipt.deep_view()).1
                        =~= parsed.deep_view());
                }
                break;
            }
            let probe = ipt.take(len);
            proof {
                lemma_take_all(ipt.deep_view());
            }
            match self.parser.parse(probe) {
                Ok((next, res)) => {
                    if next.input_len() == len {
                        proof {
                            assert(parsed.deep_view() + spec_many(self.parser, ipt.deep_view()).1
                                =~= parsed.deep_view());
                        }
                        break;
                    }
                    let ghost old_parsed = parsed;
                    parsed.push(res);
                    proof {
                        lemma_deep_view_push(old_parsed, parsed, res);
                        assert(old_parsed.deep_view() + (seq![res.deep_view()] + spec_many(
                            self.parser,
                            next.deep_view(),
                        ).1) =~= parsed.deep_view() + spec_many(self.parser, next.deep_view()).1);
                    }
                    ipt = next;
                },
                Err(_) => {
                    proof {
                        assert(parsed.deep_view() + spec_many(self.parser, ipt.deep_view()).1
                            =~= parsed.deep_view());
                    }
                    break;
                },
            }
        }
        Ok((ipt, parsed))
    }
}

/// Denotation of [`Sep`]: elements of `p` separated by `s`. A failing
/// element ends the repetition before it; a failing separator ends it after
/// the element; a round that consumes nothing ends it as well (the safeguard
/// against infinite repetition on zero-width matches). It never fails.
pub open spec fn spec_sep<I: Input, P: Parser<I>, S: Parser<I>>(p: P, s: S, input: Seq<char>) -> (
    Seq<char>,
    Seq<<P::Output as DeepView>::V>,
)
    decreases input.len(),
{
    match p.spec_parse(input) {
        Step::Failed(_) => (input, Seq::empty()),
        Step::Matched { rest, value } => match s.spec_parse(rest) {
            Step::Failed(_) => (rest, seq![value]),
            Step::Matched { rest: rest2, value: _ } => {
                if rest2.len() < input.len() {
                    let (r3, tail) = spec_sep(p, s, rest2);
                    (r3, seq![value] + tail)
                } else {
                    (rest2, seq![value])
                }
            },
        },
    }
}

impl<I, P, S> Parser<I> for Sep<P, S> where P: Parser<I>, S: Parser<I>, I: Input {
    type Output = Vec<P::Output>;

    open spec fn spec_parse(&self, input: Seq<char>) -> Step<<Vec<P::Output> as DeepView>::V> {
        Step::Matched {
            rest: spec_sep(self.parser, self.separator, input).0,
            value: spec_sep(self.parser, self.separator, input).1,
        }
    }

    fn parse(&self, input: I) -> (r: ParseResult<I, Vec<P::Output>>) {
        let ghost iv = input.deep_view();
        let mut ans: Vec<P::Output> = Vec::new();
        let mut i = input;
        proof {
            assert(ans.deep_view() =~= Seq::<<P::Output as DeepView>::V>::empty());
        }
        loop
            invariant_except_break
                i.deep_view().len() <= iv.len(),
                spec_sep(self.parser, self.separator, iv).0 == spec_sep(
                    self.parser,
                    self.separator,
                    i.deep_view(),
                ).0,
                spec_sep(self.parser, self.separator, iv).1 == ans.deep_view() + spec_sep(
                    self.parser,
                    self.separator,
                    i.deep_view(),
                ).1,
            ensures
                i.deep_view().len() <= iv.len(),
                spec_sep(self.parser, self.separator, iv).0 == i.deep_view(),
                spec_sep(self.parser, self.separator, iv).1 == ans.deep_view(),
            decreases i.deep_view().len(),
        {
            let round = i.input_len();
            let ghost prev = i.deep_view();
            let probe = i.take(round);
            proof {
                lemma_take_all(i.deep_view());
            }
            match self.parser.parse(probe) {
                Err(_) => {
                    proof {
                        assert(ans.deep_view() + spec_sep(self.parser, self.separator, prev).1
                            =~= ans.deep_view());
                    }
                    break;
                },
                Ok((next, res)) => {
                    let ghost old_ans = ans;
                    ans.push(res);
                    proof {
                        lemma_deep_view_push(old_ans, ans, res);
                        assert(old_ans.deep_view() + seq![res.deep_view()] =~= ans.deep_view());
                    }
                    i = next;
                    let len2 = i.input_len();
                    let probe2 = i.take(len2);
                    proof {
                        lemma_take_all(i.deep_view());
                    }
                    match self.separator.parse(probe2) {
                        Err(_) => {
                            break;
                        },
                        Ok((next2, _)) => {
                            if next2.input_len() >= round {
                                i = next2;
                                break;
                            }
                            proof {
                                assert(old_ans.deep_view() + (seq![res.deep_view()] + spec_sep(
                                    self.parser,
                                    self.separator,
                                    next2.deep_view(),
                                ).1) =~= ans.deep_view() + spec_sep(
                                    self.parser,
                                    self.separator,
                                    next2.deep_view(),
                                ).1);
                            }
                            i = next2;
                        },
                    }
                },
            }
        }
        Ok((i, ans))
    }
}

/// Denotation of [`DropUntil`]: the outcome of `u` at the first offset where
/// it succeeds; a failure once the end of input is reached without a match.
pub open spec fn spec_scan<I: Input, U: Parser<I>>(u: U, input: Seq<char>) -> Step<
    <U::Output as DeepView>::V,
>
    decreases input.len(),
{
    if input.len() == 0 {
        Step::Failed(ErrorModel {
            index: 0,
            source: SourceModel::DropUntil,
            reason: "could not find any match for drop until"@,
        })
    } else {
        match u.spec_parse(input) {
            Step::Matched { rest, value } => Step::Matched { rest, value },
            Step::Failed(_) => spec_scan(u, input.skip(1)),
        }
    }
}

impl<I, U> Parser<I> for DropUntil<U> where U: Parser<I>, I: Input {
    type Output = U::Output;

    open spec fn spec_parse(&self, input: Seq<char>) -> Step<<U::Output as DeepView>::V> {
        spec_scan(self.until, input)
    }

    fn parse(&self, input: I) -> (r: ParseResult<I, U::Output>) {
        let ghost iv = input.deep_view();
        let len = input.input_len();
        let mut offset: usize = 0;
        proof {
            assert(iv.skip(0) =~= iv);
        }
        loop
            invariant
                0 <= offset <= len,
                iv == input.deep_view(),
                len == iv.len(),
                spec_scan(self.until, iv) == spec_scan(self.until, iv.skip(offset as int)),
            decreases len - offset,
        {
            if len <= offset {
                return Err(
                    ParserError::new(
                        0,
                        ErrorSource::DropUntil,
                        "could not find any match for drop until",
                    ),
                );
            }
            let sub = input.drop(offset);
            match self.until.parse(sub) {
                Ok((rem, v)) => {
                    return Ok((rem, v));
                },
                Err(_) => {
                    proof {
                        assert(iv.skip(offset as int).skip(1) =~= iv.skip(offset as int + 1));
                    }
                    offset = offset + 1;
                },
            }
        }
    }
}

} // verus!

// ---------------------------------------------------------------------------
// The predicate-run matcher and its derived helpers.
// ---------------------------------------------------------------------------
verus! {

/// The length of the longest prefix of `s` whose characters all satisfy `p`.
pub open spec fn run_len<P: Predicate>(p: P, s: Seq<char>) -> int
    decreases s.len(),
{
    if s.len() == 0 {
        0
    } else if !p.spec_test(s[0]) {
        0
    } else {
        1 + run_len(p, s.skip(1))
    }
}

/// The run stays within the sequence, all of its characters satisfy the
/// predicate, and the character after it (if any) does not.
pub proof fn lemma_run_len_bounds<P: Predicate>(p: P, s: Seq<char>)
    ensures
        0 <= run_len(p, s) <= s.len(),
        forall|k: int| 0 <= k < run_len(p, s) ==> p.spec_test(s[k]),
        run_len(p, s) < s.len() ==> !p.spec_test(s[run_len(p, s)]),
    decreases s.len(),
{
    if s.len() == 0 {
    } else if !p.spec_test(s[0]) {
    } else {
        lemma_run_len_bounds(p, s.skip(1));
        assert forall|k: int| 0 <= k < run_len(p, s) implies p.spec_test(s[k]) by {
            if k > 0 {
                assert(p.spec_test(s.skip(1)[k - 1]));
            }
        }
    }
}

/// A scan that found satisfying characters up to `j` and a failing one or
/// the end of input at `j` has found exactly the run length.
pub proof fn lemma_run_len_at<P: Predicate>(p: P, s: Seq<char>, j: int)
    requires
        0 <= j <= s.len(),
        forall|k: int| 0 <= k < j ==> p.spec_test(s[k]),
        j == s.len() || !p.spec_test(s[j]),
    ensures
        run_len(p, s) == j,
    decreases j,
{
    if j == 0 {
    } else {
        assert forall|k: int| 0 <= k < j - 1 implies p.spec_test(s.skip(1)[k]) by {
            assert(p.spec_test(s[k + 1]));
        }
        lemma_run_len_at(p, s.skip(1), j - 1);
    }
}

/// Denotation of [`take_while`]: fails on empty input; fails at offset 0
/// where the first character already fails the predicate; otherwise splits
/// the input at the end of the satisfying run (the whole input when every
/// character satisfies it).
pub open spec fn spec_take_while<P: Predicate>(p: P, input: Seq<char>) -> Step<Seq<char>> {
    if input.len() == 0 {
        Step::Failed(ErrorModel {
            index: 0,
            source: SourceModel::TakeWhile,
            reason: "empty sequence"@,
        })
    } else {
        let n = run_len(p, input);
        if n == 0 {
            Step::Failed(ErrorModel {
                index: 0,
                source: SourceModel::TakeWhile,
                reason: "could not parse for char "@ + input.take(1),
            })
        } else {
            Step::Matched { rest: input.skip(n), value: input.take(n) }
        }
    }
}

/// The predicate-run matcher: matches the longest nonempty prefix whose
/// characters satisfy the predicate.
pub struct TakeWhile<P> {
    pub predicate: P,
}

/// Builds the predicate-run matcher for `predicate`.
pub fn take_while<P: Predicate>(predicate: P) -> (r: TakeWhile<P>)
    ensures
        r == (TakeWhile { predicate }),
{
    TakeWhile { predicate }
}

impl<'a, P: Predicate> Parser<&'a str> for TakeWhile<P> {
    type Output = &'a str;

    open spec fn spec_parse(&self, input: Seq<char>) -> Step<Seq<char>> {
        spec_take_while(self.predicate, input)
    }

    fn parse(&self, input: &'a str) -> (r: ParseResult<&'a str, &'a str>) {
        let len = input.unicode_len();
        if len == 0 {
            return Err(ParserError::new(0, ErrorSource::TakeWhile, "empty sequence"));
        }
        let mut j: usize = 0;
        while j < len
            invariant_except_break
                j <= len,
                len == input@.len(),
                forall|k: int| 0 <= k < j ==> self.predicate.spec_test(input@[k]),
            ensures
                j <= len,
                len == input@.len(),
                forall|k: int| 0 <= k < j ==> self.predicate.spec_test(input@[k]),
                j == len || !self.predicate.spec_test(input@[j as int]),
            decreases len - j,
        {
            if !self.predicate.test(input.get_char(j)) {
                break;
            }
            j = j + 1;
        }
        proof {
            lemma_run_len_at(self.predicate, input@, j as int);
        }
        if j == 0 {
            let one = input.substring_char(0, 1);
            let mut msg = "could not parse for char ".to_owned();
            msg.append(one);
            let e = ParserError::new(0, ErrorSource::TakeWhile, msg.as_str());
            proof {
                assert(msg@ =~= "could not parse for char "@ + input@.take(1));
            }
            Err(e)
        } else {
            let (parsed, remainder) = Input::split_at(&input, j);
            Ok((remainder, parsed))
        }
    }
}

/// Whether `s` contains the character `c`.
pub fn str_contains_char(s: &str, c: char) -> (r: bool)
    ensures
        r == s@.contains(c),
{
    let len = s.unicode_len();
    let mut j: usize = 0;
    while j < len
        invariant
            j <= len,
            len == s@.len(),
            forall|k: int| 0 <= k < j ==> s@[k] != c,
        decreases len - j,
    {
        if s.get_char(j) == c {
            return true;
        }
        j = j + 1;
    }
    false
}

/// Membership in the complement of a character set. See [`none_of`].
pub struct NoneOf<'a> {
    pub chars: &'a str,
}

impl<'a> Predicate for NoneOf<'a> {
    open spec fn spec_test(&self, c: char) -> bool {
        !self.chars@.contains(c)
    }

    fn test(&self, c: char) -> (r: bool) {
        !str_contains_char(self.chars, c)
    }
}

/// Difference from a single character. See [`not`].
pub struct NotChar {
    pub chr: char,
}

impl Predicate for NotChar {
    open spec fn spec_test(&self, c: char) -> bool {
        c != self.chr
    }

    fn test(&self, c: char) -> (r: bool) {
        c != self.chr
    }
}

/// Membership in a character set. See [`any`].
pub struct OneOf<'a> {
    pub chars: &'a str,
}

impl<'a> Predicate for OneOf<'a> {
    open spec fn spec_test(&self, c: char) -> bool {
        self.chars@.contains(c)
    }

    fn test(&self, c: char) -> (r: bool) {
        str_contains_char(self.chars, c)
    }
}

/// Whether a character has the Unicode White_Space property; fixed by the
/// character alone.
pub uninterp spec fn is_whitespace_char(c: char) -> bool;

/// Relies on char::is_whitespace: true exactly of characters with the
/// Unicode White_Space property, a function of the character alone.
#[verifier::external_body]
fn char_is_whitespace(c: char) -> (r: bool)
    ensures
        r == is_whitespace_char(c),
{
    c.is_whitespace()
}

/// The whitespace predicate used by [`ws`].
pub struct Whitespace;

impl Predicate for Whitespace {
    open spec fn spec_test(&self, c: char) -> bool {
        is_whitespace_char(c)
    }

    fn test(&self, c: char) -> (r: bool) {
        char_is_whitespace(c)
    }
}

/// Matches a run of characters not in `chars`.
pub fn none_of<'a>(chars: &'a str) -> (r: TakeWhile<NoneOf<'a>>)
    ensures
        r == (TakeWhile { predicate: NoneOf { chars } }),
{
    take_while(NoneOf { chars })
}

/// Matches a run of characters different from `chr`.
pub fn not(chr: char) -> (r: TakeWhile<NotChar>)
    ensures
        r == (TakeWhile { predicate: NotChar { chr } }),
{
    take_while(NotChar { chr })
}

/// Matches a run of characters from `chars`.
pub fn any<'a>(chars: &'a str) -> (r: TakeWhile<OneOf<'a>>)
    ensures
        r == (TakeWhile { predicate: OneOf { chars } }),
{
    take_while(OneOf { chars })
}

/// Whitespace skip: optionally matches a run of whitespace, so it always
/// succeeds, consuming zero or more leading whitespace units.
pub fn ws() -> (r: Opt<TakeWhile<Whitespace>>)
    ensures
        r == (Opt { parser: TakeWhile { predicate: Whitespace } }),
{
    opt(take_while(Whitespace))
}

} // verus!

// ---------------------------------------------------------------------------
// Laws of the primitives and combinators. Together with the `parse`
// contract, which ties every executable parser to its denotation, each law
// carries over to the executable behaviour.
// ---------------------------------------------------------------------------
verus! {

/// The collected run of `many` leaves a remainder no longer than the input.
pub proof fn lemma_spec_many_rest<I: Input, P: Parser<I>>(p: P, input: Seq<char>)
    ensures
        spec_many(p, input).0.len() <= input.len(),
    decreases input.len(),
{
    if input.len() == 0 {
    } else {
        match p.spec_parse(input) {
            Step::Failed(_) => {},
            Step::Matched { rest, value: _ } => {
                if rest.len() < input.len() {
                    lemma_spec_many_rest(p, rest);
                }
            },
        }
    }
}

/// For every literal `s` and continuation `r` (with `s + r` nonempty, since
/// matching rejects empty input outright), the literal matcher applied to
/// `s + r` succeeds, returning the remainder `r` and the matched prefix `s`.
pub proof fn lemma_sequence_matches_prefix(s: Seq<char>, r: Seq<char>)
    requires
        s.len() + r.len() > 0,
    ensures
        spec_sequence(s, s + r) == (Step::Matched { rest: r, value: s }),
{
    lemma_mismatch_none(s, s + r);
    assert((s + r).skip(s.len() as int) =~= r);
    assert((s + r).take(s.len() as int) =~= s);
}

/// The literal matcher fails on any input that does not begin with the
/// literal `s`.
pub proof fn lemma_sequence_rejects(s: Seq<char>, input: Seq<char>)
    requires
        !(s.len() <= input.len() && input.take(s.len() as int) == s),
    ensures
        spec_sequence(s, input) is Failed,
{
    if input.len() > 0 {
        lemma_mismatch_bounds(s, input);
    }
}

/// The predicate-run matcher fails on empty input, whatever the predicate.
pub proof fn lemma_take_while_empty_fails<P: Predicate>(p: P, input: Seq<char>)
    requires
        input.len() == 0,
    ensures
        spec_take_while(p, input) is Failed,
{
}

/// The predicate-run matcher fails at offset 0 on any input whose first
/// unit already fails the predicate.
pub proof fn lemma_take_while_first_fails<P: Predicate>(p: P, input: Seq<char>)
    requires
        input.len() > 0,
        !p.spec_test(input[0]),
    ensures
        spec_take_while(p, input) matches Step::Failed(em) && em.index == 0,
{
}

/// `many` never fails: on every input and for every parser its denotation is
/// a success, leaving a remainder no longer than the input. Termination of
/// the executable repetition is part of its verification: each round either
/// consumes at least one unit or ends the loop, so it runs at most
/// `input.len() + 1` rounds.
pub proof fn lemma_many_never_fails<I: Input, P: Parser<I>>(m: Many<P>, input: Seq<char>)
    ensures
        m.spec_parse(input) matches Step::Matched { rest, .. } && rest.len() <= input.len(),
{
    lemma_spec_many_rest(m.parser, input);
}

/// `wrapped(L, P, R)` fails when `R` is missing even though `L` and then `P`
/// both succeeded, and the failure is reported at `R`'s expected location:
/// `R`'s own failure offset shifted by the units `L` and `P` consumed.
pub proof fn lemma_wrapped_missing_right<I, O, L, P, R>(
    w: Wrapped<L, P, R>,
    input: Seq<char>,
    r1: Seq<char>,
    r2: Seq<char>,
    em: ErrorModel,
) where L: Parser<I>, P: Parser<I, Output = O>, R: Parser<I>, I: Input, O: DeepView
    requires
        w.left.spec_parse(input) matches Step::Matched { rest, .. } && rest == r1,
        w.parser.spec_parse(r1) matches Step::Matched { rest, .. } && rest == r2,
        w.right.spec_parse(r2) == Step::<<R::Output as DeepView>::V>::Failed(em),
    ensures
        w.spec_parse(input) == Step::<<O as DeepView>::V>::Failed(
            rebased(em, input.len() - r2.len()),
        ),
{
}

/// Where the first alternative matches, ordered choice yields exactly the
/// first alternative's outcome: the second is not consulted.
pub proof fn lemma_or_commits_to_first<I, O, F, S>(o: Or<F, S>, input: Seq<char>) where
    F: Parser<I, Output = O>,
    S: Parser<I, Output = O>,
    I: Input,
    O: DeepView,

    requires
        o.first.spec_parse(input) is Matched,
    ensures
        o.spec_parse(input) == o.first.spec_parse(input),
{
}

/// Where the first alternative fails, ordered choice behaves exactly as the
/// second alternative alone on the same original input: no partial
/// consumption carries over, and the first failure is discarded entirely.
pub proof fn lemma_or_falls_back<I, O, F, S>(o: Or<F, S>, input: Seq<char>) where
    F: Parser<I, Output = O>,
    S: Parser<I, Output = O>,
    I: Input,
    O: DeepView,

    requires
        o.first.spec_parse(input) is Failed,
    ensures
        o.spec_parse(input) == o.second.spec_parse(input),
{
}

} // verus!

// ---------------------------------------------------------------------------
// Small executable helpers over text.
// ---------------------------------------------------------------------------
verus! {

/// Whether two text spans hold the same characters.
pub fn str_eq(a: &str, b: &str) -> (r: bool)
    ensures
        r == (a@ == b@),
{
    let alen = a.unicode_len();
    let blen = b.unicode_len();
    if alen != blen {
        return false;
    }
    let mut j: usize = 0;
    while j < alen
        invariant
            j <= alen,
            alen == a@.len(),
            alen == b@.len(),
            forall|k: int| 0 <= k < j ==> a@[k] == b@[k],
        decreases alen - j,
    {
        if a.get_char(j) != b.get_char(j) {
            return false;
        }
        j = j + 1;
    }
    proof {
        assert(a@ =~= b@);
    }
    true
}

} // verus!
