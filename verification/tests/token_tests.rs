use rhyzome::token::TokenStore;

#[test]
fn issue_returns_fresh_alphanumeric_token() {
    let mut tokens = TokenStore::new();
    let token = tokens.issue(b"create".to_vec(), 1);
    assert_eq!(token.len(), 8);
    assert!(token.iter().all(|b| b.is_ascii_alphanumeric()));
}

#[test]
fn redeem_consumes_token_on_success() {
    let mut tokens = TokenStore::new();
    let token = tokens.issue(b"create".to_vec(), 1);
    assert!(tokens.redeem(&token, b"create"));
    // single-use: a second redemption of the same token is refused
    assert!(!tokens.redeem(&token, b"create"));
}

#[test]
fn redeem_with_wrong_permission_is_refused_and_keeps_token() {
    let mut tokens = TokenStore::new();
    let token = tokens.issue(b"edit".to_vec(), 1);
    assert!(!tokens.redeem(&token, b"create"));
    // the failed attempt consumed nothing
    assert!(tokens.redeem(&token, b"edit"));
}

#[test]
fn redeem_unknown_token_is_refused() {
    let mut tokens = TokenStore::new();
    tokens.issue(b"create".to_vec(), 1);
    assert!(!tokens.redeem(b"AAAAAAAA", b"create"));
}

#[test]
fn issued_tokens_are_distinct_in_practice() {
    let mut tokens = TokenStore::new();
    let a = tokens.issue(b"create".to_vec(), 1);
    let b = tokens.issue(b"create".to_vec(), 2);
    // both stay redeemable independently unless the draw collided
    if a != b {
        assert!(tokens.redeem(&a, b"create"));
        assert!(tokens.redeem(&b, b"create"));
    }
}
