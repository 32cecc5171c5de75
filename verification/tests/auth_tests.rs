use microci::auth::{check_authorized, parse_authorization, report_rejection, InternalServerError, Rejection, Unauthorized};
use microci::permissions::{ActionType, Permission, Permissions, ServiceConfig, Tokens};

fn s(t: &str) -> String {
    t.to_string()
}

#[test]
fn authorization_header_forms() {
    assert_eq!(parse_authorization(None), Ok(None));
    assert_eq!(parse_authorization(Some("Api-Key abc123")), Ok(Some(s("abc123"))));
    // Any white space separates the words, and words after the token are ignored.
    assert_eq!(parse_authorization(Some("  Api-Key\t\u{2003}tok extra")), Ok(Some(s("tok"))));
    assert_eq!(parse_authorization(Some("")), Err(Unauthorized::MethodIsNotSepcified));
    assert_eq!(parse_authorization(Some(" \n ")), Err(Unauthorized::MethodIsNotSepcified));
    assert_eq!(parse_authorization(Some("Api-Key")), Err(Unauthorized::TokenIsNotSpecified));
    assert_eq!(parse_authorization(Some("Api-Key   ")), Err(Unauthorized::TokenIsNotSpecified));
    assert_eq!(
        parse_authorization(Some("Bearer abc")),
        Err(Unauthorized::UnsupportedAuthorizationMethod(s("Bearer")))
    );
    assert_eq!(
        parse_authorization(Some("api-key abc")),
        Err(Unauthorized::UnsupportedAuthorizationMethod(s("api-key")))
    );
}

fn config() -> ServiceConfig {
    let none = Permission { read: false, write: false, execute: false };
    ServiceConfig {
        data_dir: s("/d"),
        repos_path: s("/d/repos"),
        data_path: s("/d/data"),
        internal_path: s("/d/internal"),
        worker_url: None,
        secrets: vec![],
        tokens: Some(Tokens {
            anonymous: Permissions { global: none, projects: vec![] },
            tokens: vec![(
                s("t"),
                Permissions { global: Permission { read: true, write: false, execute: true }, projects: vec![] },
            )],
        }),
    }
}

#[test]
fn authorization_check() {
    let c = config();
    assert_eq!(check_authorized(&c, Some("t"), None, ActionType::Execute), Ok(()));
    assert_eq!(check_authorized(&c, Some("t"), None, ActionType::Write), Err(Unauthorized::TokenIsUnauthorized));
    assert_eq!(check_authorized(&c, None, None, ActionType::Read), Err(Unauthorized::TokenIsUnauthorized));
}

#[test]
fn refusals_are_answered() {
    let (body, code) = report_rejection(&Rejection::Unauthorized(Unauthorized::UnsupportedAuthorizationMethod(s("Basic"))));
    assert_eq!((body.message.as_str(), code), ("Unsupported auth method Basic", 401));
    let (body, code) = report_rejection(&Rejection::Unauthorized(Unauthorized::TokenIsUnauthorized));
    assert_eq!((body.message.as_str(), code), ("Specified token is unauthrized for this action", 401));
    let (body, code) = report_rejection(&Rejection::Unauthorized(Unauthorized::MethodIsNotSepcified));
    assert_eq!((body.message.as_str(), code), ("Auth method is not specified", 401));
    let (body, code) = report_rejection(&Rejection::Unauthorized(Unauthorized::TokenIsNotSpecified));
    assert_eq!((body.message.as_str(), code), ("Auth token is not specified", 401));
    let (body, code) = report_rejection(&Rejection::InternalServerError(InternalServerError::Error(s("boom"))));
    assert_eq!((body.message.as_str(), code), ("boom", 500));
    let (body, code) = report_rejection(&Rejection::NotFound);
    assert_eq!((body.message.as_str(), code), ("Not found", 404));
    let (body, code) = report_rejection(&Rejection::Other);
    assert_eq!((body.message.as_str(), code), ("Unknown error", 500));
}

#[test]
fn unicode_white_space_separates_words() {
    assert_eq!(parse_authorization(Some("Api-Key\u{3000}tok\u{85}rest")), Ok(Some(s("tok"))));
    assert_eq!(parse_authorization(Some("Api-Key tok\u{200B}x")), Ok(Some(s("tok\u{200B}x"))));
}
