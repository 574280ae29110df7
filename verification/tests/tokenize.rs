use reel::runtime::{ParseState, Token as RtToken};
use reel::token::{Pattern, TokenNotMatchedError, TokenPattern, Tokenizer};

fn chars(s: &str) -> Vec<char> {
    s.chars().collect()
}

#[test]
fn literal_pattern_matches_exactly() {
    let p = TokenPattern::new(7, Pattern::Literals(vec![chars("let"), chars("fn")]));
    let tok = p.match_token(&chars("let")).unwrap();
    assert_eq!(tok.get_kind(), 7);
    assert_eq!(tok.get_value(), &chars("let"));
    assert!(p.match_token(&chars("le")).is_none());
    assert!(p.match_token(&chars("lets")).is_none());
    assert!(p.match_token(&chars("fn")).is_some());
}

#[test]
fn regex_pattern_matches_through_real_engine() {
    let re = regex::Regex::new("^[0-9]+$").unwrap();
    let p = TokenPattern::new(3, Pattern::Regex(re));
    let tok = p.match_token(&chars("2026")).unwrap();
    assert_eq!(tok.get_kind(), 3);
    assert_eq!(tok.get_value(), &chars("2026"));
    assert!(p.match_token(&chars("x1")).is_none());
    assert!(p.match_token(&chars("")).is_none());
}

#[test]
fn pattern_is_match_on_literals() {
    let p = Pattern::Literals(vec![chars("+"), chars("-")]);
    assert!(p.is_match(&chars("+")));
    assert!(p.is_match(&chars("-")));
    assert!(!p.is_match(&chars("*")));
}

#[test]
fn tokenizer_takes_longest_prefix_first() {
    // "==" must win over "=" at the same position.
    let patterns = vec![
        TokenPattern::new(0, Pattern::Literals(vec![chars("=")])),
        TokenPattern::new(1, Pattern::Literals(vec![chars("==")])),
    ];
    let mut tz = Tokenizer::new(chars("==="), patterns);
    let t1 = tz.next_token().unwrap().unwrap();
    assert_eq!(t1.get_kind(), 1);
    assert_eq!(t1.get_value(), &chars("=="));
    let t2 = tz.next_token().unwrap().unwrap();
    assert_eq!(t2.get_kind(), 0);
    assert_eq!(t2.get_value(), &chars("="));
    assert!(tz.next_token().is_none());
}

#[test]
fn tokenizer_mixes_regex_and_literals() {
    let patterns = vec![
        TokenPattern::new(0, Pattern::Regex(regex::Regex::new("^[0-9]+$").unwrap())),
        TokenPattern::new(1, Pattern::Literals(vec![chars("+")])),
    ];
    let mut tz = Tokenizer::new(chars("12+345"), patterns);
    let kinds: Vec<u32> = std::iter::from_fn(|| tz.next_token())
        .map(|r| r.unwrap().get_kind())
        .collect();
    assert_eq!(kinds, vec![0, 1, 0]);
}

#[test]
fn tokenizer_reports_unmatched_input() {
    let patterns = vec![TokenPattern::new(0, Pattern::Literals(vec![chars("a")]))];
    let mut tz = Tokenizer::new(chars("ab"), patterns);
    assert!(tz.next_token().unwrap().is_ok());
    let err = tz.next_token().unwrap();
    assert_eq!(err.unwrap_err(), TokenNotMatchedError {});
    // The error is not consumed: the position holds.
    let err2 = tz.next_token().unwrap();
    assert!(err2.is_err());
}

#[test]
fn tokenizer_empty_input_ends_immediately() {
    let mut tz = Tokenizer::new(chars(""), vec![]);
    assert!(tz.next_token().is_none());
}

#[test]
fn parse_state_stacks() {
    let toks = vec![
        RtToken { span: (0, 1), kind: 5u32 },
        RtToken { span: (1, 2), kind: 6u32 },
    ];
    let mut ps = ParseState::new(toks);
    assert_eq!(ps.state(), 0);
    assert_eq!(ps.current_token().unwrap().kind, 5);
    let t0 = ps.next_token().unwrap();
    assert_eq!(t0.kind, 5);
    assert_eq!(t0.span, (0, 1));
    ps.push_state(3);
    assert_eq!(ps.state(), 3);
    ps.push_token(t0);
    ps.push_rule(2);
    assert_eq!(ps.token_stack.len(), 1);
    assert_eq!(ps.rule_stack, vec![2]);
    ps.pop_state();
    assert_eq!(ps.state(), 0);
}

#[test]
fn parse_state_shift_and_reduce() {
    let toks = vec![
        RtToken { span: (0, 1), kind: 1u32 },
        RtToken { span: (1, 2), kind: 2u32 },
    ];
    let mut ps = ParseState::new(toks);
    let t = ps.current_token().unwrap();
    ps.shift(7, t);
    // The shift pushed the token and the state and consumed the input.
    assert_eq!(ps.state(), 7);
    assert_eq!(ps.token_stack.len(), 1);
    assert_eq!(ps.current_token().unwrap().kind, 2);
    ps.reduce(4);
    // The reduction recorded the rule and exposed the previous state.
    assert_eq!(ps.rule_stack, vec![4]);
    assert_eq!(ps.state(), 0);
}
