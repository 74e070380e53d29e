use taskbroker::authentication::{Authentication, AuthenticationError};

#[test]
fn can_add_user() {
    let mut a = Authentication::with_cost(6);

    a.add_user("u1".to_string(), "pw".to_string()).unwrap();

    assert_eq!(a.verify_user("u1", "pw").unwrap(), true);
    assert_eq!(a.verify_user("u1", "wrong_pw").unwrap(), false);
    assert_eq!(a.verify_user("wrong_user", "pw").unwrap(), false);
}

#[test]
fn can_load_users() {
    let mut a = Authentication::with_cost(6);

    a.add_user("u1".to_string(), "pw".to_string()).unwrap();

    // Persist and reload, as a restart of the host would.
    let bytes = a.encode_users();
    drop(a);

    let a = Authentication::from_encoded(&bytes, 6);

    assert_eq!(a.verify_user("u1", "pw").unwrap(), true);
    assert_eq!(a.verify_user("u1", "wrong_pw").unwrap(), false);
    assert_eq!(a.verify_user("wrong_user", "pw").unwrap(), false);
}

#[test]
fn add_default_user_when_no_user_exists() {
    let mut a = Authentication::with_cost(6);

    assert!(a
        .add_default_user("guest".to_string(), "guest".to_string())
        .unwrap());
    assert!(a.verify_user("guest", "guest").unwrap());
}

#[test]
fn _add_default_user_cant_add_when_other_exists() {
    let mut a = Authentication::with_cost(6);

    a.add_user("u".to_string(), "p".to_string()).unwrap();

    assert!(!a
        .add_default_user("guest".to_string(), "guest".to_string())
        .unwrap());
    assert!(!a.verify_user("guest", "guest").unwrap());
}

#[test]
fn duplicate_user_is_refused() {
    let mut a = Authentication::with_cost(6);
    a.add_user("u".to_string(), "p".to_string()).unwrap();
    assert_eq!(
        a.add_user("u".to_string(), "q".to_string()),
        Err(AuthenticationError::UserAlreadyExists)
    );
    // The original password still stands.
    assert!(a.verify_user("u", "p").unwrap());
    assert!(!a.verify_user("u", "q").unwrap());
}
