use dataset_store::auth::{bearer_token, is_blank, login_name, AuthError, Sessions};

#[test]
fn blank_addresses() {
    assert!(is_blank(""));
    assert!(is_blank("   "));
    assert!(is_blank(" \t\n\u{2003}"));
    assert!(!is_blank(" a "));
    assert!(!is_blank("a@b.c"));
}

#[test]
fn login_name_is_the_part_before_the_first_at() {
    assert_eq!(login_name("ann@example.org"), "ann");
    assert_eq!(login_name("ann@b@c"), "ann");
    assert_eq!(login_name("no-at-sign"), "no-at-sign");
    assert_eq!(login_name("@example.org"), "");
    assert_eq!(login_name("jos\u{e9}@example.org"), "jos\u{e9}");
}

#[test]
fn bearer_token_needs_the_exact_prefix() {
    assert_eq!(bearer_token("Bearer abc"), Some("abc".to_string()));
    assert_eq!(bearer_token("Bearer "), Some(String::new()));
    assert_eq!(bearer_token("Bearer  abc"), Some(" abc".to_string()));
    assert_eq!(bearer_token("bearer abc"), None);
    assert_eq!(bearer_token("Bearer"), None);
    assert_eq!(bearer_token("Basic abc"), None);
    assert_eq!(bearer_token(""), None);
}

#[test]
fn login_opens_a_session_that_authorizes() {
    let mut sessions = Sessions::new();
    let resp = sessions.login("ann@example.org".to_string()).unwrap();
    assert_eq!(resp.user.name, "ann");
    assert_eq!(resp.user.email, "ann@example.org");
    assert_eq!(resp.token.len(), 36);
    assert_eq!(sessions.len(), 1);
    assert!(sessions.has_token(&resp.token));
    let header = format!("Bearer {}", resp.token);
    assert_eq!(sessions.authorize(Some(&header)), Ok(()));
    assert_eq!(sessions.authorize(Some(&resp.token)), Err(AuthError::Unauthorized));
    assert_eq!(sessions.authorize(Some("Bearer nothing")), Err(AuthError::Unauthorized));
    assert_eq!(sessions.authorize(None), Err(AuthError::Unauthorized));
}

#[test]
fn login_with_blank_address_is_turned_away() {
    let mut sessions = Sessions::new();
    assert_eq!(sessions.login("  ".to_string()).err(), Some(AuthError::Unauthorized));
    assert_eq!(sessions.login_as("t".to_string(), String::new()).err(), Some(AuthError::Unauthorized));
    assert_eq!(sessions.len(), 0);
    assert!(!sessions.has_token(&"t".to_string()));
}

#[test]
fn two_logins_get_two_tokens() {
    let mut sessions = Sessions::new();
    let a = sessions.login("a@x".to_string()).unwrap();
    let b = sessions.login("a@x".to_string()).unwrap();
    assert_ne!(a.token, b.token);
    assert_eq!(sessions.len(), 2);
}

#[test]
fn a_token_used_again_passes_to_the_new_user() {
    let mut sessions = Sessions::new();
    sessions.login_as("t1".to_string(), "a@x".to_string()).unwrap();
    sessions.login_as("t2".to_string(), "b@x".to_string()).unwrap();
    let resp = sessions.login_as("t1".to_string(), "c@x".to_string()).unwrap();
    assert_eq!(resp.token, "t1");
    assert_eq!(resp.user.name, "c");
    assert_eq!(sessions.len(), 2);
    assert_eq!(sessions.authorize(Some("Bearer t1")), Ok(()));
    assert_eq!(sessions.authorize(Some("Bearer t2")), Ok(()));
    assert_eq!(sessions.authorize(Some("Bearer t3")), Err(AuthError::Unauthorized));
}

#[test]
fn open_does_not_ask_whether_the_address_is_blank() {
    let mut sessions = Sessions::new();
    let resp = sessions.open("t".to_string(), " ".to_string());
    assert_eq!(resp.token, "t");
    assert_eq!(resp.user.name, " ");
    assert_eq!(resp.user.email, " ");
    assert_eq!(sessions.len(), 1);
    assert_eq!(sessions.authorize(Some("Bearer t")), Ok(()));
}
