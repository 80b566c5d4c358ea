//! The shared-token check.

use kurogane::runtime::auth::Unauthenticated;
use kurogane::runtime::TokenInterceptor;

#[test]
fn rejects_a_request_with_no_token() {
    let interceptor = TokenInterceptor::new(b"secret".to_vec());

    let result = interceptor.check(None);

    assert_eq!(
        result.expect_err("missing token must be rejected"),
        Unauthenticated::MissingToken
    );
}

#[test]
fn rejects_a_request_with_the_wrong_token() {
    let interceptor = TokenInterceptor::new(b"secret".to_vec());

    let result = interceptor.check(Some(b"not-the-secret"));

    assert_eq!(
        result.expect_err("wrong token must be rejected"),
        Unauthenticated::InvalidToken
    );
}

#[test]
fn accepts_a_request_with_the_correct_token() {
    let interceptor = TokenInterceptor::new(b"secret".to_vec());

    assert!(interceptor.check(Some(b"secret")).is_ok());
}
