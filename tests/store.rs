use std::cmp::Ordering;
use ctf_scoreboard::rank_index::{compare, RankEntry};
use ctf_scoreboard::record::User;
use ctf_scoreboard::store::{db_insert_user, Snapshot, StoreError, DB};
use ctf_scoreboard::view::EMPTY_RANKING;

fn two_users() -> DB {
    let mut db = DB::new();
    db.register("bob".to_string(), "bob@x.org".to_string(), "hb".to_string()).unwrap();
    db.register("alice".to_string(), "alice@x.org".to_string(), "ha".to_string()).unwrap();
    db.refresh_view();
    db
}

#[test]
fn empty_store_shows_placeholder() {
    let db = DB::new();
    assert_eq!(db.current_ranking_view().as_str(), EMPTY_RANKING);
    assert_eq!(
        EMPTY_RANKING,
        "<article><h2 style=\"text-align: center;\">No users yet!</h2></article>"
    );
}

#[test]
fn equal_scores_rank_by_name() {
    let db = two_users();
    assert_eq!(
        db.current_ranking_view().as_str(),
        "[{\"username\":\"alice\",\"score\":0},{\"username\":\"bob\",\"score\":0}]"
    );
}

#[test]
fn score_update_moves_entry() {
    let mut db = two_users();
    db.apply_score_delta("alice", 7, 50).unwrap();
    db.refresh_view();
    assert_eq!(
        db.current_ranking_view().as_str(),
        "[{\"username\":\"alice\",\"score\":50},{\"username\":\"bob\",\"score\":0}]"
    );
    db.apply_score_delta("bob", 3, 60).unwrap();
    db.refresh_view();
    assert_eq!(
        db.current_ranking_view().as_str(),
        "[{\"username\":\"bob\",\"score\":60},{\"username\":\"alice\",\"score\":50}]"
    );
    let bob = db.get("bob").unwrap();
    assert_eq!(bob.score, 60);
    assert_eq!(bob.solves, vec![3]);
}

#[test]
fn view_waits_for_refresh() {
    let mut db = two_users();
    let before = db.current_ranking_view().clone();
    db.apply_score_delta("bob", 1, 5).unwrap();
    assert_eq!(db.current_ranking_view(), &before);
    db.refresh_view();
    assert_ne!(db.current_ranking_view(), &before);
}

#[test]
fn second_solve_is_refused() {
    let mut db = two_users();
    assert_eq!(db.apply_score_delta("alice", 4, 100), Ok(()));
    assert_eq!(db.apply_score_delta("alice", 4, 100), Err(StoreError::AlreadySolved));
    let alice = db.get("alice").unwrap();
    assert_eq!(alice.score, 100);
    assert_eq!(alice.solves, vec![4]);
}

#[test]
fn unknown_and_duplicate_keys() {
    let mut db = two_users();
    assert_eq!(db.apply_score_delta("carol", 1, 1), Err(StoreError::UnknownKey));
    assert_eq!(
        db.register("alice".to_string(), "other@x.org".to_string(), "h".to_string()),
        Err(StoreError::DuplicateKey)
    );
    assert_eq!(db.get("alice").unwrap().email, "alice@x.org");
    assert!(db.get("carol").is_none());
}

#[test]
fn score_overflow_is_refused() {
    let mut db = two_users();
    db.apply_score_delta("alice", 1, u32::MAX).unwrap();
    assert_eq!(db.apply_score_delta("alice", 2, 1), Err(StoreError::ScoreOverflow));
    db.refresh_view();
    assert_eq!(
        db.current_ranking_view().as_str(),
        "[{\"username\":\"alice\",\"score\":4294967295},{\"username\":\"bob\",\"score\":0}]"
    );
}

#[test]
fn names_are_json_escaped() {
    let mut db = DB::new();
    db.register("q\"t\\".to_string(), "e".to_string(), "h".to_string()).unwrap();
    db.refresh_view();
    assert_eq!(
        db.current_ranking_view().as_str(),
        "[{\"username\":\"q\\\"t\\\\\",\"score\":0}]"
    );
}

#[test]
fn snapshot_round_trip() {
    let mut db = two_users();
    db.apply_score_delta("bob", 9, 30).unwrap();
    db.apply_score_delta("bob", 2, 5).unwrap();
    db.refresh_view();
    let snap = db.snapshot();
    let back = DB::restore(&snap).unwrap();
    assert_eq!(back.current_ranking_view(), db.current_ranking_view());
    for name in ["alice", "bob"] {
        let a = db.get(name).unwrap();
        let b = back.get(name).unwrap();
        assert_eq!(a.score, b.score);
        assert_eq!(a.solves, b.solves);
        assert_eq!(a.email, b.email);
        assert_eq!(a.password, b.password);
    }
    let again = back.snapshot();
    assert_eq!(again.ranking.len(), 2);
    assert_eq!(again.ranking[0].username, "bob");
    assert_eq!(again.ranking[1].username, "alice");
}

fn user(name: &str, score: u32) -> User {
    let mut u = User::new(name.to_string(), "e".to_string(), "p".to_string());
    u.score = score;
    u
}

#[test]
fn restore_refuses_inconsistent_snapshots() {
    let dup = Snapshot {
        records: vec![user("a", 0), user("a", 0)],
        ranking: vec![RankEntry::new("a".to_string(), 0)],
    };
    assert_eq!(DB::restore(&dup).err(), Some(StoreError::CorruptSnapshot));
    let wrong_score = Snapshot {
        records: vec![user("a", 5)],
        ranking: vec![RankEntry::new("a".to_string(), 0)],
    };
    assert_eq!(DB::restore(&wrong_score).err(), Some(StoreError::CorruptSnapshot));
    let missing = Snapshot { records: vec![user("a", 0)], ranking: vec![] };
    assert_eq!(DB::restore(&missing).err(), Some(StoreError::CorruptSnapshot));
    let unordered = Snapshot {
        records: vec![user("a", 1), user("b", 2)],
        ranking: vec![RankEntry::new("a".to_string(), 1), RankEntry::new("b".to_string(), 2)],
    };
    let db = DB::restore(&unordered).unwrap();
    assert_eq!(
        db.current_ranking_view().as_str(),
        "[{\"username\":\"b\",\"score\":2},{\"username\":\"a\",\"score\":1}]"
    );
}

#[test]
fn updates_on_distinct_keys_commute() {
    let mut one = two_users();
    one.apply_score_delta("alice", 1, 10).unwrap();
    one.apply_score_delta("bob", 2, 20).unwrap();
    one.refresh_view();
    let mut two = two_users();
    two.apply_score_delta("bob", 2, 20).unwrap();
    two.apply_score_delta("alice", 1, 10).unwrap();
    two.refresh_view();
    assert_eq!(one.current_ranking_view(), two.current_ranking_view());
    assert_eq!(one.get("alice").unwrap().score, two.get("alice").unwrap().score);
    assert_eq!(one.get("bob").unwrap().solves, two.get("bob").unwrap().solves);
}

#[test]
fn insert_user_replaces_rank_entry() {
    let mut db = two_users();
    db_insert_user(&mut db, user("bob", 9));
    db_insert_user(&mut db, user("bob", 4));
    db.refresh_view();
    let snap = db.snapshot();
    assert_eq!(snap.ranking.len(), 2);
    assert_eq!(
        db.current_ranking_view().as_str(),
        "[{\"username\":\"bob\",\"score\":4},{\"username\":\"alice\",\"score\":0}]"
    );
}

#[test]
fn comparator_orders_score_then_name() {
    let a0 = RankEntry::new("alice".to_string(), 0);
    let b0 = RankEntry::new("bob".to_string(), 0);
    let b5 = RankEntry::new("bob".to_string(), 5);
    assert_eq!(compare(&a0, &b0), Ordering::Less);
    assert_eq!(compare(&b0, &a0), Ordering::Greater);
    assert_eq!(compare(&b5, &a0), Ordering::Less);
    assert_eq!(compare(&a0, &a0.copy()), Ordering::Equal);
    let ab = RankEntry::new("ab".to_string(), 0);
    let a = RankEntry::new("a".to_string(), 0);
    assert_eq!(compare(&a, &ab), Ordering::Less);
    let upper = RankEntry::new("Zed".to_string(), 0);
    assert_eq!(compare(&upper, &a), Ordering::Less);
}

#[test]
fn error_reasons_are_fixed() {
    assert_eq!(StoreError::DuplicateKey.reason(), "Username already registered");
    assert_eq!(StoreError::AlreadySolved.reason(), "You have already solved this challenge");
    assert_eq!(StoreError::UnknownKey.reason(), "User does not exist");
}
