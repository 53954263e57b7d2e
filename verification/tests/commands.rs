use arcmugbot::commands::{
    calc_parser, next_str_into_u32, parse_score, split_into_two, split_tokens, submit_parser,
    ParseError,
};
use arcmugbot::submission::{Rule, Triple};

fn triple(great: u32, good: u32, miss: u32) -> Triple {
    Triple { great, good, miss }
}

fn strings(parts: Vec<&str>) -> Vec<String> {
    parts.into_iter().map(|p| p.to_owned()).collect()
}

#[test]
fn split_tokens_on_ascii_whitespace() {
    assert_eq!(split_tokens("a bb  ccc"), strings(vec!["a", "bb", "ccc"]));
    assert_eq!(split_tokens("  a\tb\nc\r  "), strings(vec!["a", "b", "c"]));
    assert_eq!(split_tokens(""), strings(vec![]));
    assert_eq!(split_tokens("   "), strings(vec![]));
}

#[test]
fn next_str_into_u32_reads_numbers() {
    assert_eq!(next_str_into_u32(Some("0")), Ok(0));
    assert_eq!(next_str_into_u32(Some("500")), Ok(500));
    assert_eq!(next_str_into_u32(Some("+12")), Ok(12));
    assert_eq!(next_str_into_u32(Some("4294967295")), Ok(4294967295));
}

#[test]
fn next_str_into_u32_rejects_bad_input() {
    assert_eq!(next_str_into_u32(None), Err(ParseError::InvalidInput));
    assert_eq!(next_str_into_u32(Some("")), Err(ParseError::IncorrectFormat));
    assert_eq!(next_str_into_u32(Some("abc")), Err(ParseError::IncorrectFormat));
    assert_eq!(next_str_into_u32(Some("-1")), Err(ParseError::IncorrectFormat));
    assert_eq!(next_str_into_u32(Some("4294967296")), Err(ParseError::IncorrectFormat));
    assert_eq!(next_str_into_u32(Some("12 ")), Err(ParseError::IncorrectFormat));
}

#[test]
fn parse_score_reads_triples_in_order() {
    let parts = strings(vec!["10,3,1", "13,2,0"]);
    let parsed = parse_score(&parts, 0).unwrap();
    assert_eq!(Vec::from(parsed), vec![triple(10, 3, 1), triple(13, 2, 0)]);
}

#[test]
fn parse_score_honours_the_start_position() {
    let parts = strings(vec!["500", "30", "1,2,3"]);
    let parsed = parse_score(&parts, 2).unwrap();
    assert_eq!(Vec::from(parsed), vec![triple(1, 2, 3)]);
    assert!(parse_score(&parts, 3).unwrap().is_empty());
}

#[test]
fn parse_score_third_field_takes_the_rest() {
    // the third field of a token is everything after the second comma
    let parts = strings(vec!["1,2,3,4"]);
    assert_eq!(parse_score(&parts, 0), Err(ParseError::IncorrectFormat));
}

#[test]
fn parse_score_rejects_short_and_malformed_triples() {
    assert_eq!(parse_score(&strings(vec!["1,2"]), 0), Err(ParseError::InvalidInput));
    assert_eq!(parse_score(&strings(vec!["12"]), 0), Err(ParseError::InvalidInput));
    assert_eq!(parse_score(&strings(vec!["1,x,3"]), 0), Err(ParseError::IncorrectFormat));
    assert_eq!(parse_score(&strings(vec!["x,2,3"]), 0), Err(ParseError::IncorrectFormat));
}

#[test]
fn calc_parser_keeps_default_rule() {
    let sub = calc_parser("500 30 10,3,1 13,2,0 3,0,0".to_owned()).unwrap();
    assert_eq!(sub.life, 500);
    assert_eq!(sub.heal, 30);
    assert_eq!(sub.rule, Rule { great: 2, good: 3, miss: 5 });
    assert_eq!(
        Vec::from(sub.results),
        vec![triple(10, 3, 1), triple(13, 2, 0), triple(3, 0, 0)]
    );
}

#[test]
fn calc_parser_takes_a_leading_rule_from_four_triples() {
    // with exactly four triples the first becomes the rule
    let sub = calc_parser("500 30 1,1,1 10,3,1 13,2,0 3,0,0".to_owned()).unwrap();
    assert_eq!(sub.rule, Rule { great: 1, good: 1, miss: 1 });
    assert_eq!(
        Vec::from(sub.results),
        vec![triple(10, 3, 1), triple(13, 2, 0), triple(3, 0, 0)]
    );
}

#[test]
fn calc_parser_five_triples_keep_the_default_rule() {
    let sub = calc_parser("500 30 1,1,1 2,2,2 3,3,3 4,4,4 5,5,5".to_owned()).unwrap();
    assert_eq!(sub.rule, Rule { great: 2, good: 3, miss: 5 });
    assert_eq!(sub.results.len(), 5);
}

#[test]
fn calc_parser_rejects_incomplete_commands() {
    assert!(matches!(calc_parser("".to_owned()), Err(ParseError::InvalidInput)));
    assert!(matches!(calc_parser("500".to_owned()), Err(ParseError::InvalidInput)));
    assert!(matches!(calc_parser("abc 30".to_owned()), Err(ParseError::IncorrectFormat)));
    assert!(matches!(calc_parser("500 x".to_owned()), Err(ParseError::IncorrectFormat)));
    assert!(matches!(calc_parser("500 30 1,2".to_owned()), Err(ParseError::InvalidInput)));
}

#[test]
fn submit_parser_reads_level_and_results() {
    let (level, results) = submit_parser("10 10,3,1 13,2,0".to_owned()).unwrap();
    assert_eq!(level, 10);
    assert_eq!(Vec::from(results), vec![triple(10, 3, 1), triple(13, 2, 0)]);
}

#[test]
fn submit_parser_rejects_bad_commands() {
    assert!(matches!(submit_parser("".to_owned()), Err(ParseError::InvalidInput)));
    assert!(matches!(submit_parser("x".to_owned()), Err(ParseError::IncorrectFormat)));
    assert!(matches!(submit_parser("10 1,2".to_owned()), Err(ParseError::InvalidInput)));
}

#[test]
fn split_tokens_keeps_non_ascii_text_whole() {
    assert_eq!(split_tokens("28 地球塔デヴォツィオン"), strings(vec!["28", "地球塔デヴォツィオン"]));
}

#[test]
fn split_into_two_keeps_non_ascii_titles() {
    assert_eq!(
        split_into_two("28 地球塔デヴォツィオン".to_owned()),
        Ok((28, "地球塔デヴォツィオン".to_owned()))
    );
}

#[test]
fn split_into_two_takes_number_then_rest() {
    assert_eq!(split_into_two("28 Some Title".to_owned()), Ok((28, "Some Title".to_owned())));
    assert_eq!(split_into_two("28".to_owned()), Ok((28, "".to_owned())));
    // only the first space splits; later spaces stay in the text
    assert_eq!(split_into_two("7 a b".to_owned()), Ok((7, "a b".to_owned())));
    assert_eq!(split_into_two("x y".to_owned()), Err(ParseError::IncorrectFormat));
}
