use ctf_scoreboard::account::{login, register_user, submit_flag, LoginRejection, RegisterRejection, SubmitRejection};
use ctf_scoreboard::auth::{get_auth_key, password_digest, AUTH_SECRET};
use ctf_scoreboard::challenge::{find_challenge, Challenge, ChallengeCategory};
use ctf_scoreboard::store::DB;

fn challenge(id: u16, points: u32, flag: &str) -> Challenge {
    Challenge {
        id,
        name: format!("c{id}"),
        description: String::new(),
        hint: None,
        points,
        flag: flag.to_string(),
    }
}

fn catalogue() -> Vec<ChallengeCategory> {
    vec![
        ChallengeCategory { name: "web".to_string(), challenges: vec![challenge(1, 100, "flag{a}"), challenge(2, 50, "flag{b}")] },
        ChallengeCategory { name: "pwn".to_string(), challenges: vec![challenge(3, 300, "flag{c}")] },
    ]
}

fn with_alice() -> DB {
    let mut db = DB::new();
    register_user(&mut db, "alice".to_string(), "a@x.org".to_string(), "secret", "secret").unwrap();
    db
}

#[test]
fn digests_are_hex_and_keyed() {
    let d = password_digest("secret");
    assert_eq!(d.len(), 64);
    assert!(d.chars().all(|c| c.is_ascii_hexdigit() && !c.is_ascii_uppercase()));
    assert_ne!(d, "secret");
    assert_ne!(password_digest("secreT"), d);
    assert_eq!(get_auth_key(&d), password_digest(&format!("{AUTH_SECRET}{d}")));
}

#[test]
fn registration_rules() {
    let mut db = with_alice();
    let stored = db.get("alice").unwrap();
    assert_eq!(stored.password, password_digest("secret"));
    assert_eq!(stored.score, 0);
    let reg = |db: &mut DB, u: &str, e: &str, p: &str, c: &str| register_user(db, u.to_string(), e.to_string(), p, c);
    assert_eq!(reg(&mut db, "", "e", "pass", "pass"), Err(RegisterRejection::EmptyField));
    assert_eq!(reg(&mut db, "bob", "", "pass", "pass"), Err(RegisterRejection::EmptyField));
    assert_eq!(reg(&mut db, "alice", "e", "pass", "pass"), Err(RegisterRejection::UsernameTaken));
    assert_eq!(reg(&mut db, "bob", "e", "pass", "pasS"), Err(RegisterRejection::PasswordMismatch));
    assert_eq!(reg(&mut db, "bob", "e", "abc", "abc"), Err(RegisterRejection::PasswordLength));
    let long = "x".repeat(65);
    assert_eq!(reg(&mut db, "bob", "e", &long, &long), Err(RegisterRejection::PasswordLength));
    // two characters of two bytes each make four bytes
    assert_eq!(reg(&mut db, "bob", "e", "éé", "éé"), Ok(()));
    let max = "y".repeat(64);
    assert_eq!(reg(&mut db, "carol", "e", &max, &max), Ok(()));
    assert_eq!(RegisterRejection::PasswordLength.reason(), "Password length should be in the range: 4-64");
}

#[test]
fn login_checks_password() {
    let db = with_alice();
    assert_eq!(login(&db, "bob", "secret").err(), Some(LoginRejection::UserNotFound));
    assert_eq!(login(&db, "alice", "wrong").err(), Some(LoginRejection::WrongPassword));
    let grant = login(&db, "alice", "secret").unwrap();
    assert_eq!(grant.auth_key, get_auth_key(&password_digest("secret")));
    assert!(grant.solves.is_empty());
    assert_eq!(LoginRejection::WrongPassword.reason(), "Wrong password");
}

#[test]
fn flag_submission_flow() {
    let mut db = with_alice();
    let cats = catalogue();
    let key = get_auth_key(&password_digest("secret"));
    assert_eq!(submit_flag(&mut db, &cats, "", &key, 1, "flag{a}"), Err(SubmitRejection::NotLoggedIn));
    assert_eq!(submit_flag(&mut db, &cats, "alice", "", 1, "flag{a}"), Err(SubmitRejection::NotLoggedIn));
    assert_eq!(submit_flag(&mut db, &cats, "bob", &key, 1, "flag{a}"), Err(SubmitRejection::UnknownUser));
    assert_eq!(submit_flag(&mut db, &cats, "alice", "bad", 1, "flag{a}"), Err(SubmitRejection::AuthFailed));
    assert_eq!(submit_flag(&mut db, &cats, "alice", &key, 9, "flag{a}"), Err(SubmitRejection::NoSuchChallenge));
    assert_eq!(submit_flag(&mut db, &cats, "alice", &key, 3, "flag{a}"), Err(SubmitRejection::WrongFlag));
    assert_eq!(db.get("alice").unwrap().score, 0);
    assert_eq!(submit_flag(&mut db, &cats, "alice", &key, 3, "flag{c}"), Ok(()));
    assert_eq!(submit_flag(&mut db, &cats, "alice", &key, 3, "flag{c}"), Err(SubmitRejection::AlreadySolved));
    assert_eq!(submit_flag(&mut db, &cats, "alice", &key, 2, "flag{b}"), Ok(()));
    let alice = db.get("alice").unwrap();
    assert_eq!(alice.score, 350);
    assert_eq!(alice.solves, vec![3, 2]);
    db.refresh_view();
    assert_eq!(db.current_ranking_view().as_str(), "[{\"username\":\"alice\",\"score\":350}]");
    assert_eq!(SubmitRejection::NoSuchChallenge.reason(), "Challenge doesnt exist");
}

#[test]
fn first_challenge_with_id_wins() {
    let mut cats = catalogue();
    cats[1].challenges.push(challenge(2, 999, "other"));
    assert_eq!(find_challenge(&cats, 2), Some((0, 1)));
    assert_eq!(find_challenge(&cats, 3), Some((1, 0)));
    assert_eq!(find_challenge(&cats, 4), None);
}
