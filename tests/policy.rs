use quicklime::scanner::{scan, scan_with};
use quicklime::token::Token;
use quicklime::token::TokenType::{Identifier, Integer, Plus};
use quicklime::ErrorPolicy;

fn chars(s: &str) -> Vec<char> {
    s.chars().collect()
}

#[test]
fn collecting_returns_every_diagnostic_in_order() {
    let errors = scan_with(chars("a @ b # 170141183460469231731687303715884105728 $"), ErrorPolicy::CollectAll)
        .unwrap_err();
    let found: Vec<(usize, usize, usize)> =
        errors.iter().map(|e| (e.id(), e.index(), e.markup()[0].length())).collect();
    assert_eq!(found, vec![(0, 2, 1), (0, 6, 1), (2, 8, 39), (0, 48, 1)]);
}

#[test]
fn fail_fast_returns_the_first_diagnostic() {
    let code = "a @ b # c";
    let errors = scan_with(chars(code), ErrorPolicy::FailFast).unwrap_err();
    assert_eq!(errors.len(), 1);
    assert_eq!(errors[0].index(), 2);
    assert_eq!(errors.into_iter().next().unwrap(), scan(chars(code)).unwrap_err());
}

#[test]
fn both_policies_agree_without_diagnostics() {
    let code = "x + 1 // done";
    let expected = vec![
        Token { start: 0, length: 1, kind: Identifier("x".to_string()) },
        Token { start: 2, length: 1, kind: Plus },
        Token { start: 4, length: 1, kind: Integer(1) },
    ];
    assert_eq!(scan_with(chars(code), ErrorPolicy::FailFast).unwrap(), expected);
    assert_eq!(scan_with(chars(code), ErrorPolicy::CollectAll).unwrap(), expected);
    assert_eq!(scan(chars(code)).unwrap(), expected);
    assert_eq!(scan_with(Vec::new(), ErrorPolicy::CollectAll).unwrap(), Vec::<Token>::new());
}
