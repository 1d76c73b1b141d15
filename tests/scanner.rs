use quicklime::position::{span_delta, Position};
use quicklime::scanner::{parse_token, scan};
use quicklime::token::Token;
use quicklime::token::TokenType;
use quicklime::token::TokenType::{
    And, BitwiseAnd, BitwiseOr, Bool, Char, Divide, Double, Else, Enum, For, Function, GE, GT,
    Identifier, If, Integer, LCurly, LE, LParen, LSquare, LT, LeftShift, Let, LineComment, Match,
    Minus, Modulus, MultiLineComment, Multiply, Mut, Or, Plus, RCurly, RParen, RSquare, Return,
    RightShift, Type, While, Whitespace, Yield, F64, I64, U64, U8,
};
use quicklime::{Error, ErrorKind, MarkupKind};

fn chars(s: &str) -> Vec<char> {
    s.chars().collect()
}

fn kinds(s: &str) -> Vec<TokenType> {
    scan(chars(s)).unwrap().iter().map(|t| t.kind.clone()).collect()
}

fn position_of(code: &Vec<char>, offset: usize) -> (usize, usize) {
    let p = span_delta(code, 0, offset);
    (p.line, p.col)
}

#[test]
fn parse_token_test() {
    assert_eq!(parse_token(&"42".chars().collect(), 0).unwrap().unwrap(), (Integer(42), 2));

    assert_eq!(
        parse_token(&"asdf".chars().collect(), 0).unwrap().unwrap(),
        (Identifier("asdf".to_string()), 4)
    );
}

#[test]
fn indent() {
    let code = "asdf hello world".chars().collect();
    assert_eq!(
        scan(code).unwrap(),
        [
            Token { start: 0, length: 4, kind: Identifier("asdf".to_string()) },
            Token { start: 5, length: 5, kind: Identifier("hello".to_string()) },
            Token { start: 11, length: 5, kind: Identifier("world".to_string()) },
        ]
    );
}

#[test]
fn keyword() {
    let code = "i64 enum function let return while if".chars().collect();
    assert_eq!(
        scan(code).unwrap().iter().map(|t| t.kind.clone()).collect::<Vec<_>>(),
        [I64, Enum, Function, Let, Return, While, If,]
    )
}

#[test]
fn numbers() {
    let code = "42 0 0.1 3.14".chars().collect();
    assert_eq!(
        scan(code).unwrap().iter().map(|t| t.kind.clone()).collect::<Vec<_>>(),
        [Integer(42), Integer(0), Double("0.1".to_string()), Double("3.14".to_string())]
    );

    let code = "1234 3.14".chars().collect();
    assert_eq!(
        scan(code).unwrap(),
        [
            Token { start: 0, length: 4, kind: Integer(1234) },
            Token { start: 5, length: 4, kind: Double("3.14".to_string()) },
        ]
    );
}

#[test]
fn whitespace() {
    let code = "for\n\nwhile   \t \n for \t for".chars().collect();
    assert_eq!(
        scan(code).unwrap(),
        [
            Token { start: 0, length: 3, kind: For },
            Token { start: 5, length: 5, kind: While },
            Token { start: 17, length: 3, kind: For },
            Token { start: 23, length: 3, kind: For },
        ]
    );
}

#[test]
fn comments() {
    let code =
        "for // line comment\nwhile /* multiline \n comment */\n let /* the end".chars().collect();
    assert_eq!(
        scan(code).unwrap(),
        [
            Token { start: 0, length: 3, kind: For },
            Token { start: 20, length: 5, kind: While },
            Token { start: 53, length: 3, kind: Let },
        ]
    );
}

#[test]
fn comment_positions_follow_newlines() {
    let code = chars("for // line comment\nwhile /* multiline \n comment */\n let /* the end");
    let tokens = scan(code.clone()).unwrap();
    let spans: Vec<((usize, usize), (usize, usize))> = tokens
        .iter()
        .map(|t| (position_of(&code, t.start), position_of(&code, t.start + t.length)))
        .collect();
    assert_eq!(spans, vec![((0, 0), (0, 3)), ((1, 0), (1, 5)), ((3, 1), (3, 4))]);
}

#[test]
fn single_integer_spans_columns() {
    let code = chars("42");
    let tokens = scan(code.clone()).unwrap();
    assert_eq!(tokens, vec![Token { start: 0, length: 2, kind: Integer(42) }]);
    assert_eq!(position_of(&code, 0), (0, 0));
    assert_eq!(position_of(&code, 2), (0, 2));
}

#[test]
fn identifiers_span_columns() {
    let code = chars("asdf hello world");
    let tokens = scan(code.clone()).unwrap();
    let cols: Vec<(usize, usize)> = tokens
        .iter()
        .map(|t| (position_of(&code, t.start).1, position_of(&code, t.start + t.length).1))
        .collect();
    assert_eq!(cols, vec![(0, 4), (5, 10), (11, 16)]);
}

#[test]
fn empty_input_gives_no_tokens() {
    assert_eq!(scan(Vec::new()).unwrap(), Vec::<Token>::new());
    assert!(parse_token(&Vec::new(), 0).is_none());
}

#[test]
fn past_the_end_is_end_of_input() {
    assert!(parse_token(&chars("ab"), 2).is_none());
    assert!(parse_token(&chars("ab"), 7).is_none());
}

#[test]
fn lone_illegal_character() {
    let e = scan(chars("@")).unwrap_err();
    assert_eq!(e.id(), 0);
    assert_eq!(e.index(), 0);
    assert_eq!(e.kind(), ErrorKind::Error);
    assert_eq!(e.message(), "Invalid Token: '@' is an illegal character");
    assert!(e.more_info().is_none());
    assert_eq!(e.markup().len(), 1);
    assert_eq!(e.markup()[0].index(), 0);
    assert_eq!(e.markup()[0].length(), 1);
    assert_eq!(e.markup()[0].kind(), MarkupKind::Error);
    assert_eq!(e.markup()[0].message(), "This character is not used in Quicklime");
    assert_eq!(
        e,
        Error::simple_error(
            "Invalid Token: '@' is an illegal character",
            0,
            0,
            1,
            "This character is not used in Quicklime"
        )
    );
}

#[test]
fn first_diagnostic_ends_the_scan() {
    let e = scan(chars("let x = 1 @ #")).unwrap_err();
    assert_eq!(e.id(), 0);
    assert_eq!(e.index(), 6);
    assert_eq!(e.message(), "Invalid Token: '=' is an illegal character");
}

#[test]
fn integer_overflow_is_reported() {
    let text = "170141183460469231731687303715884105728";
    let e = scan(chars(&format!("x {}", text))).unwrap_err();
    assert_eq!(e.id(), 2);
    assert_eq!(e.index(), 2);
    assert_eq!(e.markup()[0].index(), 2);
    assert_eq!(e.markup()[0].length(), 39);
    assert_eq!(e.message(), format!("Invalid Token: Cannot parse '{}' as an 128 bit integer", text));
    assert_eq!(e.markup()[0].message(), "This number cannot fit in an i128");
}

#[test]
fn largest_integer_is_read() {
    assert_eq!(kinds("170141183460469231731687303715884105727"), vec![Integer(i128::MAX)]);
    assert_eq!(kinds("007"), vec![Integer(7)]);
}

#[test]
fn long_fraction_is_a_double() {
    assert_eq!(
        kinds("170141183460469231731687303715884105728.5 0.25"),
        vec![
            Double("170141183460469231731687303715884105728.5".to_string()),
            Double("0.25".to_string())
        ]
    );
}

#[test]
fn point_without_digit_ends_the_integer() {
    assert_eq!(parse_token(&chars("1."), 0).unwrap().unwrap(), (Integer(1), 1));
    assert_eq!(parse_token(&chars("12.x"), 0).unwrap().unwrap(), (Integer(12), 2));
    let e = scan(chars("1.")).unwrap_err();
    assert_eq!(e.id(), 0);
    assert_eq!(e.index(), 1);
    assert_eq!(e.message(), "Invalid Token: '.' is an illegal character");
}

const F64_LIMIT: &str = "179769313486231580793728971405303415079934132710037826936173778980444968292764750946649017977587207096330286416692887910946555547851940402630657488671505820681908902000708383676273854845817711531764475730270069855571366959622842914819860834936475292719074168444365510704342711559699508093042880177904174497792";
const F64_BELOW_LIMIT: &str = "179769313486231580793728971405303415079934132710037826936173778980444968292764750946649017977587207096330286416692887910946555547851940402630657488671505820681908902000708383676273854845817711531764475730270069855571366959622842914819860834936475292719074168444365510704342711559699508093042880177904174497791";

#[test]
fn f64_bound_is_where_rounding_reaches_infinity() {
    assert!(format!("{}.0", F64_LIMIT).parse::<f64>().unwrap().is_infinite());
    assert!(format!("{}.99", F64_BELOW_LIMIT).parse::<f64>().unwrap().is_finite());
}

#[test]
fn double_below_bound_is_read() {
    let text = format!("{}.99", F64_BELOW_LIMIT);
    assert_eq!(kinds(&text), vec![Double(text.clone())]);
    let padded = format!("000{}.5", F64_BELOW_LIMIT);
    assert_eq!(kinds(&padded), vec![Double(padded.clone())]);
}

#[test]
fn double_overflow_is_reported() {
    let text = format!("{}.0", F64_LIMIT);
    let e = scan(chars(&format!("x {}", text))).unwrap_err();
    assert_eq!(e.id(), 1);
    assert_eq!(e.index(), 2);
    assert_eq!(e.markup()[0].index(), 2);
    assert_eq!(e.markup()[0].length(), 311);
    assert_eq!(
        e.message(),
        format!("Invalid Token: Cannot parse '{}' as a 64 bit floating point", text)
    );
    assert_eq!(e.markup()[0].message(), "This number cannot fit in a f64");

    let nines = format!("{}.0", "9".repeat(310));
    let e = scan(chars(&nines)).unwrap_err();
    assert_eq!((e.id(), e.index(), e.markup()[0].length()), (1, 0, 312));
    let padded = format!("00{}.1", F64_LIMIT);
    assert_eq!(scan(chars(&padded)).unwrap_err().id(), 1);
}

#[test]
fn every_keyword_alone() {
    let table = [
        ("i64", I64),
        ("u64", U64),
        ("u8", U8),
        ("f64", F64),
        ("bool", Bool),
        ("char", Char),
        ("type", Type),
        ("enum", Enum),
        ("let", Let),
        ("mut", Mut),
        ("function", Function),
        ("return", Return),
        ("yield", Yield),
        ("while", While),
        ("for", For),
        ("if", If),
        ("else", Else),
        ("match", Match),
    ];
    for (word, kind) in table {
        assert_eq!(
            scan(chars(word)).unwrap(),
            vec![Token { start: 0, length: word.chars().count(), kind }]
        );
    }
}

#[test]
fn non_keywords_are_identifiers() {
    for word in ["Let", "i64x", "lets", "foo_1", "x", "héllo", "whilE"] {
        assert_eq!(
            scan(chars(word)).unwrap(),
            vec![Token {
                start: 0,
                length: word.chars().count(),
                kind: Identifier(word.to_string())
            }]
        );
    }
}

#[test]
fn operators_prefer_longer_match() {
    assert_eq!(
        kinds("<= << < >= >> > && & || | ( ) [ ] { } + - * / %"),
        vec![
            LE, LeftShift, LT, GE, RightShift, GT, And, BitwiseAnd, Or, BitwiseOr, LParen,
            RParen, LSquare, RSquare, LCurly, RCurly, Plus, Minus, Multiply, Divide, Modulus
        ]
    );
    assert_eq!(kinds("a<=b"), vec![Identifier("a".to_string()), LE, Identifier("b".to_string())]);
    assert_eq!(kinds("<<<"), vec![LeftShift, LT]);
}

#[test]
fn comment_tokens_carry_their_text() {
    let code = chars("// note\nx/* a\nb */y/* open");
    assert_eq!(
        parse_token(&code, 0).unwrap().unwrap(),
        (LineComment(" note".to_string()), 7)
    );
    assert_eq!(
        parse_token(&code, 9).unwrap().unwrap(),
        (MultiLineComment(" a\nb ".to_string()), 9)
    );
    assert_eq!(
        parse_token(&code, 19).unwrap().unwrap(),
        (MultiLineComment(" open".to_string()), 7)
    );
    assert_eq!(kinds("x // to the end"), vec![Identifier("x".to_string())]);
}

#[test]
fn whitespace_token_covers_the_run() {
    let code = chars("a \t\n\u{a0} b");
    assert_eq!(parse_token(&code, 1).unwrap().unwrap(), (Whitespace, 5));
    assert_eq!(kinds("a \t\n\u{a0} b").len(), 2);
}

#[test]
fn consumed_lengths_add_up() {
    for text in ["", "for // c\nwhile /* x */ 3.5 @@ 7", "/* open", "a  b\n\n"] {
        let code = chars(text);
        let mut index = 0;
        let mut total = 0;
        while let Some(res) = parse_token(&code, index) {
            let length = match res {
                Ok((_, n)) => n,
                Err(e) => e.markup()[0].length(),
            };
            assert!(length > 0);
            total += length;
            index += length;
        }
        assert_eq!(total, code.len());
        assert_eq!(index, code.len());
    }
}

#[test]
fn adjacent_tokens_meet_unless_separated() {
    let code = chars("a+b /* c */ (d)// e\nf");
    let tokens = scan(code).unwrap();
    let ends: Vec<(usize, usize)> =
        tokens.windows(2).map(|w| (w[0].start + w[0].length, w[1].start)).collect();
    assert_eq!(ends, vec![(1, 1), (2, 2), (3, 12), (13, 13), (14, 14), (15, 20)]);
}

#[test]
fn scanning_twice_gives_the_same_output() {
    let text = "let x_1 /* c */ 42 3.14 <= y // end";
    assert_eq!(scan(chars(text)).unwrap(), scan(chars(text)).unwrap());
    assert_eq!(scan(chars("a @")).unwrap_err(), scan(chars("a @")).unwrap_err());
}

#[test]
fn position_compose_resets_column_after_newline() {
    let base = Position { line: 2, col: 5 };
    assert_eq!(base.compose(&Position { line: 0, col: 3 }), Position { line: 2, col: 8 });
    assert_eq!(base.compose(&Position { line: 1, col: 4 }), Position { line: 3, col: 4 });
}

#[test]
fn span_delta_counts_lines_and_trailing_columns() {
    let code = chars("ab\ncd\nefg");
    assert_eq!(span_delta(&code, 0, 2), Position { line: 0, col: 2 });
    assert_eq!(span_delta(&code, 1, 5), Position { line: 2, col: 0 });
    assert_eq!(span_delta(&code, 0, 9), Position { line: 2, col: 3 });
    let start = span_delta(&code, 0, 4);
    assert_eq!(start.compose(&span_delta(&code, 4, 5)), span_delta(&code, 0, 9));
}
