use lexer_generator::Lexer;
use lexer_generator::ParsingError;
use lexer_generator::RegexRuleSet;
use lexer_generator::RuleCompilationError;
use lexer_generator::RuleSet;
use lexer_generator::Token;

fn rules(pairs: &[(&str, &str)]) -> Vec<(String, String)> {
    pairs.iter().map(|(n, p)| (n.to_string(), p.to_string())).collect()
}

fn lexer(pairs: &[(&str, &str)], ws: &str, src: &str) -> Lexer {
    match Lexer::from_args(rules(pairs), ws.to_string(), src.to_string()) {
        Ok(lx) => lx,
        Err(_) => panic!("rule table failed to compile"),
    }
}

fn expect_token(r: Result<Token, ParsingError>, token_type: &str, value: &str, line: usize) {
    match r {
        Ok(t) => {
            assert_eq!(t.token_type, token_type);
            assert_eq!(t.value, value);
            assert_eq!(t.line, line);
        }
        Err(_) => panic!("expected a token"),
    }
}

fn expect_eof(r: Result<Token, ParsingError>) {
    assert!(matches!(r, Err(ParsingError::EndOfFileError)));
}

#[test]
fn whitespace_only_input_reports_end_of_file() {
    let mut lx = lexer(&[("number", "[0-9]+")], "[ \t\r\n]+", "  \t \n  ");
    assert!(!lx.done());
    expect_eof(lx.next_token());
    assert!(lx.done());
}

#[test]
fn whitespace_only_input_drains_under_alternation_pattern() {
    // every anchored match of this pattern is one character long, so the
    // whole run is consumed only by repeated stripping
    let mut lx = lexer(&[("number", "[0-9]+")], " |\n|\t|\r", "  \n\t ");
    assert!(!lx.done());
    expect_eof(lx.next_token());
    assert!(lx.done());
    assert_eq!(lx.remaining_len(), 0);
}

#[test]
fn whitespace_alternation_short_branch_first_still_drains() {
    let mut lx = lexer(&[("number", "[0-9]+")], " | +", "  ");
    expect_eof(lx.next_token());
    assert!(lx.done());
}

#[test]
fn multiple_whitespace_matches_between_tokens_are_skipped() {
    let mut lx = lexer(&[("number", "[0-9]+"), ("add", "\\+")], "\n| |\r|\t", "12  \n\t 34 + 5");
    expect_token(lx.next_token(), "number", "12", 0);
    expect_token(lx.next_token(), "number", "34", 1);
    expect_token(lx.next_token(), "add", "+", 1);
    expect_token(lx.next_token(), "number", "5", 1);
    expect_eof(lx.next_token());
}

#[test]
fn empty_source_is_done_at_once() {
    let mut lx = lexer(&[("number", "[0-9]+")], " +", "");
    assert!(lx.done());
    expect_eof(lx.next_token());
    expect_eof(lx.next_token());
}

#[test]
fn tokenizes_calculator_expression() {
    let table = [
        ("number", "[0-9]*[0-9]"),
        ("subtract", "-"),
        ("add", "\\+"),
        ("divide", "/"),
        ("multiply", "\\*"),
    ];
    let mut lx = lexer(&table, "\n| |\r|\t", "123 + 456 * 789");
    expect_token(lx.next_token(), "number", "123", 0);
    expect_token(lx.next_token(), "add", "+", 0);
    expect_token(lx.next_token(), "number", "456", 0);
    expect_token(lx.next_token(), "multiply", "*", 0);
    expect_token(lx.next_token(), "number", "789", 0);
    expect_eof(lx.next_token());
}

#[test]
fn longest_match_wins_when_declared_later() {
    let mut lx = lexer(&[("lt", "<"), ("le", "<=")], " +", "<= <");
    expect_token(lx.next_token(), "le", "<=", 0);
    expect_token(lx.next_token(), "lt", "<", 0);
    expect_eof(lx.next_token());
}

#[test]
fn longest_match_wins_when_declared_first() {
    let mut lx = lexer(&[("le", "<="), ("lt", "<")], " +", "<= <");
    expect_token(lx.next_token(), "le", "<=", 0);
    expect_token(lx.next_token(), "lt", "<", 0);
    expect_eof(lx.next_token());
}

#[test]
fn equal_length_tie_goes_to_first_declared() {
    let mut lx = lexer(&[("alpha", "[a-z]+"), ("beta", "[a-z][a-z]*")], " +", "abc");
    expect_token(lx.next_token(), "alpha", "abc", 0);

    let mut lx = lexer(&[("beta", "[a-z][a-z]*"), ("alpha", "[a-z]+")], " +", "abc");
    expect_token(lx.next_token(), "beta", "abc", 0);
}

#[test]
fn peek_is_idempotent() {
    let mut lx = lexer(&[("word", "[a-z]+")], " +", "foo bar");
    let first = lx.peek_next_token();
    let len_after_first = lx.remaining_len();
    for _ in 0..3 {
        match lx.peek_next_token() {
            Some(Ok(t)) => {
                assert_eq!(t.token_type, "word");
                assert_eq!(t.value, "foo");
            }
            _ => panic!("expected a peeked token"),
        }
        assert_eq!(lx.remaining_len(), len_after_first);
    }
    match first {
        Some(Ok(t)) => assert_eq!(t.value, "foo"),
        _ => panic!("expected a peeked token"),
    }
    expect_token(lx.next_token(), "word", "foo", 0);
    expect_token(lx.next_token(), "word", "bar", 0);
    expect_eof(lx.next_token());
}

#[test]
fn consumption_is_monotonic() {
    let mut lx = lexer(&[("word", "[a-z]+")], " +", "ab cd  ");
    let mut before = lx.remaining_len();
    while !lx.done() {
        let _ = lx.next_token();
        let after = lx.remaining_len();
        assert!(after <= before);
        assert!(after < before);
        before = after;
    }
    expect_eof(lx.next_token());
    assert_eq!(lx.remaining_len(), 0);
}

#[test]
fn line_tracking_counts_consumed_newlines() {
    let mut lx = lexer(&[("letter", "[abc]")], "\n+", "a\nb\nc");
    expect_token(lx.next_token(), "letter", "a", 0);
    expect_token(lx.next_token(), "letter", "b", 1);
    expect_token(lx.next_token(), "letter", "c", 2);
    expect_eof(lx.next_token());
}

#[test]
fn token_line_is_line_at_start_of_match() {
    let mut lx = lexer(&[("string", "\"[^\"]*\""), ("word", "[a-z]+")], "[ \n]+", "\"a\nb\" x");
    expect_token(lx.next_token(), "string", "\"a\nb\"", 0);
    expect_token(lx.next_token(), "word", "x", 1);
    expect_eof(lx.next_token());
}

#[test]
fn unrecognized_character_is_consumed_once() {
    let mut lx = lexer(&[("number", "[0-9]+")], " +", "1 # 2");
    expect_token(lx.next_token(), "number", "1", 0);
    match lx.next_token() {
        Err(ParsingError::UnrecognizedPatternError(c)) => assert_eq!(c, "#"),
        _ => panic!("expected the unrecognized character"),
    }
    expect_token(lx.next_token(), "number", "2", 0);
    expect_eof(lx.next_token());
}

#[test]
fn empty_pattern_match_makes_no_token() {
    let mut lx = lexer(&[("maybe", "x*")], " +", "ab");
    match lx.next_token() {
        Err(ParsingError::UnrecognizedPatternError(c)) => assert_eq!(c, "a"),
        _ => panic!("expected the unrecognized character"),
    }
    match lx.next_token() {
        Err(ParsingError::UnrecognizedPatternError(c)) => assert_eq!(c, "b"),
        _ => panic!("expected the unrecognized character"),
    }
    expect_eof(lx.next_token());
}

#[test]
fn token_values_reconstruct_source_without_whitespace() {
    let source = "  12 +\n 7 ";
    let mut lx = lexer(&[("number", "[0-9]+"), ("add", "\\+")], "[ \n]+", source);
    let mut rebuilt = String::new();
    while !lx.done() {
        match lx.next_token() {
            Ok(t) => rebuilt.push_str(&t.value),
            Err(ParsingError::EndOfFileError) => break,
            Err(ParsingError::UnrecognizedPatternError(c)) => rebuilt.push_str(&c),
        }
    }
    let stripped: String = source.chars().filter(|c| *c != ' ' && *c != '\n').collect();
    assert_eq!(rebuilt, stripped);
    assert_eq!(rebuilt, "12+7");
}

#[test]
fn bad_literal_pattern_names_the_rule() {
    let r = Lexer::from_args(
        rules(&[("fine", "[0-9]+"), ("broken", "("), ("later", "[a-z]+")]),
        " +".to_string(),
        "1".to_string(),
    );
    match r {
        Err(RuleCompilationError::Literal(name)) => assert_eq!(name, "broken"),
        _ => panic!("expected the literal pattern error"),
    }
}

#[test]
fn bad_whitespace_pattern_is_reported() {
    let r = Lexer::from_args(
        rules(&[("number", "[0-9]+")]),
        "(".to_string(),
        "1".to_string(),
    );
    assert!(matches!(r, Err(RuleCompilationError::Whitespace)));
}

#[test]
fn token_is_matches_any_listed_type() {
    let mut lx = lexer(&[("number", "[0-9]+")], " +", "42");
    match lx.next_token() {
        Ok(t) => {
            let yes = vec!["word".to_string(), "number".to_string()];
            let no = vec!["word".to_string(), "add".to_string()];
            let none: Vec<String> = vec![];
            assert!(t.is(&yes));
            assert!(!t.is(&no));
            assert!(!t.is(&none));
        }
        Err(_) => panic!("expected a token"),
    }
}

#[test]
fn current_token_reports_the_last_result() {
    let mut lx = lexer(&[("number", "[0-9]+")], " +", "7 #");
    assert!(lx.current_token().is_none());
    let _ = lx.next_token();
    match lx.current_token() {
        Some(Ok(t)) => {
            assert_eq!(t.token_type, "number");
            assert_eq!(t.value, "7");
        }
        _ => panic!("expected the last token"),
    }
    let _ = lx.next_token();
    match lx.current_token() {
        Some(Err(ParsingError::UnrecognizedPatternError(c))) => assert_eq!(c, "#"),
        _ => panic!("expected the last error"),
    }
}

#[test]
fn peek_after_error_sees_next_token() {
    let mut lx = lexer(&[("number", "[0-9]+")], " +", "# 5");
    assert!(matches!(
        lx.next_token(),
        Err(ParsingError::UnrecognizedPatternError(_))
    ));
    match lx.peek_next_token() {
        Some(Ok(t)) => assert_eq!(t.value, "5"),
        _ => panic!("expected the peeked token"),
    }
    expect_token(lx.next_token(), "number", "5", 0);
    expect_eof(lx.next_token());
}

#[test]
fn one_table_serves_many_scanners() {
    let table = match RegexRuleSet::from(RuleSet {
        literals: rules(&[("number", "[0-9]+")]),
        whitespace: " +".to_string(),
    }) {
        Ok(t) => t,
        Err(_) => panic!("rule table failed to compile"),
    };
    let mut a = Lexer::from_table(table.duplicate(), " 1 2".to_string());
    let mut b = Lexer::from_table(table, "34".to_string());
    expect_token(a.next_token(), "number", "1", 0);
    expect_token(b.next_token(), "number", "34", 0);
    expect_token(a.next_token(), "number", "2", 0);
    expect_eof(b.next_token());
    expect_eof(a.next_token());
}

#[test]
fn eof_can_be_peeked_and_drained() {
    let mut lx = lexer(&[("number", "[0-9]+")], " +", "8");
    expect_token(lx.next_token(), "number", "8", 0);
    match lx.peek_next_token() {
        Some(r) => expect_eof(r),
        None => panic!("expected a cached result"),
    }
    assert!(lx.done());
    expect_eof(lx.next_token());
}
