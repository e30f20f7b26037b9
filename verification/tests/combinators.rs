use pepser::parser::errors::{ErrorSource, ParserError};
use pepser::parser::impls::{any, none_of, not, sequence, str_eq, take_while, ws};
use pepser::parser::json::Digit;
use pepser::parser::traits::{discard, drop_until, opt, parse_if, sep_by, value, wrapped, Parser};

#[test]
fn sequence_matches_prefix_and_returns_remainder() {
    let p = sequence("abc");
    assert_eq!(p.parse("abcdefg"), Ok(("defg", "abc")));
    assert_eq!(p.parse("abc"), Ok(("", "abc")));
}

#[test]
fn sequence_rejects_inputs_not_starting_with_literal() {
    let p = sequence("abc");
    assert!(p.parse("xbc").is_err());
    assert!(p.parse("").is_err());
    assert!(p.parse("ab").is_err());
}

#[test]
fn sequence_mismatch_reports_offset_and_excerpt() {
    let p = sequence("abc");
    let e = p.parse("abXdef").unwrap_err();
    assert_eq!(e.index, 2);
    assert_eq!(e.source, ErrorSource::Sequence("abc".to_string()));
    assert_eq!(e.reason, "could not parse sequence 'Xdef'");
}

#[test]
fn sequence_excerpt_is_bounded_to_ten_units() {
    let p = sequence("a");
    let e = p.parse("0123456789012345").unwrap_err();
    assert_eq!(e.index, 0);
    assert_eq!(e.reason, "could not parse sequence '0123456789'");
}

#[test]
fn sequence_empty_input_fails() {
    let e = sequence("abc").parse("").unwrap_err();
    assert_eq!(e.index, 0);
    assert_eq!(e.reason, "empty sequence");
}

#[test]
fn take_while_fails_on_empty_input() {
    let e = take_while(Digit).parse("").unwrap_err();
    assert_eq!(e.index, 0);
    assert_eq!(e.source, ErrorSource::TakeWhile);
}

#[test]
fn take_while_fails_at_offset_zero_when_first_unit_fails() {
    let e = take_while(Digit).parse("abc").unwrap_err();
    assert_eq!(e.index, 0);
    assert_eq!(e.source, ErrorSource::TakeWhile);
    assert_eq!(e.reason, "could not parse for char a");
}

#[test]
fn take_while_splits_at_first_failing_unit() {
    assert_eq!(take_while(Digit).parse("123abc"), Ok(("abc", "123")));
    assert_eq!(take_while(Digit).parse("123"), Ok(("", "123")));
}

#[test]
fn many_collects_until_failure_and_never_fails() {
    let p = sequence("123").many();
    assert_eq!(p.parse("123123123123"), Ok(("", vec!["123", "123", "123", "123"])));
    assert_eq!(p.parse("123"), Ok(("", vec!["123"])));
    assert_eq!(p.parse("1231234"), Ok(("4", vec!["123", "123"])));
    assert_eq!(p.parse(""), Ok(("", vec![])));
    assert_eq!(p.parse("abc"), Ok(("abc", vec![])));
}

#[test]
fn and_chains_two_parsers() {
    let p = sequence("abc").and(sequence("def"));
    assert_eq!(p.parse("abcdefg"), Ok(("g", ("abc", "def"))));
    assert_eq!(p.parse("abcdef"), Ok(("", ("abc", "def"))));
    assert!(p.parse("").is_err());
    assert!(p.parse("defabc").is_err());
}

#[test]
fn or_commits_to_first_alternative() {
    let p = sequence("abc").or(sequence("def"));
    assert_eq!(p.parse("abcdef"), Ok(("def", "abc")));
}

#[test]
fn or_behaves_as_second_alternative_on_first_failure() {
    let p = sequence("abc").or(sequence("def"));
    assert_eq!(p.parse("defabc"), Ok(("abc", "def")));
    let through_or = p.parse("123").unwrap_err();
    let second_alone = sequence("def").parse("123").unwrap_err();
    assert_eq!(through_or, second_alone);
    assert!(p.parse("").is_err());
}

#[test]
fn wrapped_keeps_only_the_inner_output() {
    let p = wrapped(sequence("["), take_while(Digit), sequence("]"));
    assert_eq!(p.parse("[12]rest"), Ok(("rest", "12")));
}

#[test]
fn wrapped_reports_missing_right_delimiter_at_its_expected_location() {
    let p = wrapped(sequence("["), take_while(Digit), sequence("]"));
    let e = p.parse("[12").unwrap_err();
    assert_eq!(e.index, 3);
    let e2 = p.parse("[12}x").unwrap_err();
    assert_eq!(e2.index, 3);
}

#[test]
fn opt_swallows_failure_and_keeps_input() {
    let p = opt(sequence("a"));
    assert_eq!(p.parse("ab"), Ok(("b", Some("a"))));
    assert_eq!(p.parse("xb"), Ok(("xb", None)));
}

#[test]
fn value_substitutes_a_constant() {
    let p = value(7i32, sequence("a"));
    assert_eq!(p.parse("ab"), Ok(("b", 7)));
    assert!(p.parse("b").is_err());
}

#[test]
fn parse_if_is_conditional_on_its_guard() {
    let p = parse_if(sequence("."), take_while(Digit));
    assert_eq!(p.parse(".12x"), Ok(("x", Some("12"))));
    assert_eq!(p.parse("x12"), Ok(("x12", None)));
    assert!(p.parse(".x").is_err());
}

#[test]
fn discard_throws_away_the_prefix_output() {
    let p = discard(ws(), sequence("a"));
    assert_eq!(p.parse("   ab"), Ok(("b", "a")));
    assert_eq!(p.parse("\t\n ab"), Ok(("b", "a")));
    assert_eq!(p.parse("ab"), Ok(("b", "a")));
}

#[test]
fn sep_by_collects_separated_elements() {
    let p = sep_by(take_while(Digit), sequence(","));
    assert_eq!(p.parse("1,2,3]"), Ok(("]", vec!["1", "2", "3"])));
    assert_eq!(p.parse("]"), Ok(("]", vec![])));
    assert_eq!(p.parse("7"), Ok(("", vec!["7"])));
}

#[test]
fn drop_until_scans_to_the_first_match() {
    let p = drop_until(sequence("cd"));
    assert_eq!(p.parse("abcdef"), Ok(("ef", "cd")));
}

#[test]
fn drop_until_exhausts_the_input_without_a_match() {
    let p = drop_until(sequence("xy"));
    let e = p.parse("abc").unwrap_err();
    assert_eq!(
        e,
        ParserError::new(0, ErrorSource::DropUntil, "could not find any match for drop until")
    );
}

#[test]
fn none_of_and_any_and_not_match_by_character_sets() {
    assert_eq!(none_of("\"\\").parse("ab\"c"), Ok(("\"c", "ab")));
    assert_eq!(any("eE").parse("eE2"), Ok(("2", "eE")));
    assert_eq!(not(',').parse("ab,c"), Ok((",c", "ab")));
}

#[test]
fn str_eq_compares_by_characters() {
    assert!(str_eq("true", "true"));
    assert!(!str_eq("true", "trud"));
    assert!(!str_eq("true", "tru"));
}

struct Quiet;

impl pepser::parser::traits::Inspect<&str> for Quiet {
    fn inspect(&self, _x: &&str) {}
}

impl pepser::parser::traits::Inspect<pepser::parser::traits::ParseResult<&str, &str>> for Quiet {
    fn inspect(&self, _x: &pepser::parser::traits::ParseResult<&str, &str>) {}
}

#[test]
fn peeking_does_not_change_the_outcome() {
    let p = sequence("ab").peek_in(Quiet);
    assert_eq!(p.parse("abc"), Ok(("c", "ab")));
    let q = sequence("ab").peek_out(Quiet);
    assert_eq!(q.parse("abc"), Ok(("c", "ab")));
    assert!(q.parse("xbc").is_err());
}
