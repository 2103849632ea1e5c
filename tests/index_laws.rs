use link_aggregator::model::{ActionableEvent, CollectedLink, RecordId};
use link_aggregator::storage::{LinkStorage, MemStorage, RecordPath, RepoId, Source, Target};

const C: &str = "app.test.collection";

fn rid(did: &str, rkey: &str) -> RecordId {
    RecordId { did: did.into(), collection: C.into(), rkey: rkey.into() }
}

fn link(path: &str, target: &str) -> CollectedLink {
    CollectedLink { path: path.into(), target: target.into() }
}

fn count(s: &MemStorage, target: &str, path: &str) -> u64 {
    s.get_count(target, C, path).unwrap()
}

#[test]
fn count_matches_stored_links() {
    let mut s = MemStorage::new();
    s.add_links(&rid("did:a", "1"), &[link(".x", "t.com"), link(".y", "t.com")]);
    s.add_links(&rid("did:b", "1"), &[link(".x", "t.com")]);
    s.add_links(&rid("did:a", "2"), &[link(".x", "u.com")]);
    assert_eq!(count(&s, "t.com", ".x"), 2);
    assert_eq!(count(&s, "t.com", ".y"), 1);
    assert_eq!(count(&s, "u.com", ".x"), 1);
    assert_eq!(count(&s, "u.com", ".y"), 0);
    assert_eq!(s.get_count("t.com", "other.collection", ".x").unwrap(), 0);
}

#[test]
fn add_then_remove_restores_counts() {
    let mut s = MemStorage::new();
    s.add_links(&rid("did:a", "1"), &[link(".x", "t.com")]);
    let before = (count(&s, "t.com", ".x"), count(&s, "v.com", ".z"));
    let r = rid("did:b", "9");
    s.add_links(&r, &[link(".x", "t.com"), link(".z", "v.com"), link(".x", "t.com")]);
    assert_eq!(count(&s, "t.com", ".x"), 3);
    assert_eq!(count(&s, "v.com", ".z"), 1);
    s.remove_links(&r);
    assert_eq!((count(&s, "t.com", ".x"), count(&s, "v.com", ".z")), before);
}

#[test]
fn update_after_add_equals_add() {
    let r = rid("did:a", "1");
    let l1 = [link(".x", "t.com"), link(".y", "u.com")];
    let l2 = [link(".y", "u.com"), link(".x", "w.com")];
    let mut s = MemStorage::new();
    s.add_links(&rid("did:b", "1"), &[link(".x", "t.com")]);
    let mut direct = MemStorage::new();
    direct.add_links(&rid("did:b", "1"), &[link(".x", "t.com")]);
    s.add_links(&r, &l1);
    s.update_links(&r, &l2);
    direct.add_links(&r, &l2);
    for (t, p) in [("t.com", ".x"), ("u.com", ".y"), ("w.com", ".x"), ("t.com", ".y")] {
        assert_eq!(count(&s, t, p), count(&direct, t, p));
    }
    assert_eq!(count(&s, "t.com", ".x"), 1);
    assert_eq!(count(&s, "w.com", ".x"), 1);
}

#[test]
fn update_to_no_links_clears_record() {
    let mut s = MemStorage::new();
    let r = rid("did:a", "1");
    s.add_links(&r, &[link(".x", "t.com")]);
    s.update_links(&r, &[]);
    assert_eq!(count(&s, "t.com", ".x"), 0);
}

#[test]
fn delete_account_leaves_no_trace() {
    let mut s = MemStorage::new();
    s.add_links(&rid("did:a", "1"), &[link(".x", "t.com"), link(".x", "t.com")]);
    s.add_links(&rid("did:a", "2"), &[link(".y", "u.com")]);
    s.add_links(&rid("did:b", "1"), &[link(".x", "t.com")]);
    s.delete_account(&"did:a".to_string());
    assert_eq!(count(&s, "t.com", ".x"), 1);
    assert_eq!(count(&s, "u.com", ".y"), 0);
    // its records are gone: deleting one of them changes nothing
    s.remove_links(&rid("did:a", "1"));
    assert_eq!(count(&s, "t.com", ".x"), 1);
    // the account comes back only by linking again
    s.add_links(&rid("did:a", "3"), &[link(".y", "u.com")]);
    assert_eq!(count(&s, "u.com", ".y"), 1);
}

#[test]
fn duplicate_links_count_each() {
    let mut s = MemStorage::new();
    let r = rid("did:a", "1");
    s.add_links(&r, &[link(".x", "t.com"), link(".x", "t.com"), link(".x", "t.com")]);
    assert_eq!(count(&s, "t.com", ".x"), 3);
    s.remove_links(&r);
    assert_eq!(count(&s, "t.com", ".x"), 0);
}

#[test]
fn adding_to_known_record_appends() {
    let mut s = MemStorage::new();
    let r = rid("did:a", "1");
    s.add_links(&r, &[link(".x", "t.com")]);
    s.add_links(&r, &[link(".x", "t.com")]);
    assert_eq!(count(&s, "t.com", ".x"), 2);
    s.remove_links(&r);
    assert_eq!(count(&s, "t.com", ".x"), 0);
}

#[test]
fn remove_keeps_other_accounts_entries() {
    let mut s = MemStorage::new();
    s.add_links(&rid("did:a", "1"), &[link(".x", "t.com")]);
    s.add_links(&rid("did:b", "1"), &[link(".x", "t.com")]);
    s.add_links(&rid("did:a", "2"), &[link(".x", "t.com")]);
    s.remove_links(&rid("did:a", "2"));
    assert_eq!(count(&s, "t.com", ".x"), 2);
    s.delete_account(&"did:b".to_string());
    assert_eq!(count(&s, "t.com", ".x"), 1);
    s.remove_links(&rid("did:a", "1"));
    assert_eq!(count(&s, "t.com", ".x"), 0);
}

#[test]
fn account_events_do_not_change_counts() {
    let mut s = MemStorage::new();
    s.push(&ActionableEvent::DeactivateAccount("did:nobody".into()));
    s.push(&ActionableEvent::ActivateAccount("did:nobody".into()));
    s.add_links(&rid("did:a", "1"), &[link(".x", "t.com")]);
    s.set_account(&"did:a".to_string(), false);
    assert_eq!(count(&s, "t.com", ".x"), 1);
    s.set_account(&"did:a".to_string(), true);
    assert_eq!(count(&s, "t.com", ".x"), 1);
}

#[test]
fn empty_create_changes_nothing() {
    let mut s = MemStorage::new();
    s.add_links(&rid("did:a", "1"), &[]);
    s.remove_links(&rid("did:a", "1"));
    assert_eq!(count(&s, "", ""), 0);
}

#[test]
fn key_constructors_copy_their_text() {
    assert_eq!(Target::new("t.com").0, "t.com");
    let src = Source::new(C, ".x");
    assert_eq!(src.collection, C);
    assert_eq!(src.path, ".x");
    let repo = RepoId::from_record_id(&rid("did:a", "k"));
    assert_eq!(repo.collection, C);
    assert_eq!(repo.rkey, "k");
    assert_eq!(RecordPath::new(".a.b").0, ".a.b");
    assert_eq!(rid("did:a", "k").did(), "did:a");
}

#[test]
fn count_and_get_count_agree() {
    let mut s = MemStorage::new();
    s.add_links(&rid("did:a", "1"), &[link(".x", "t.com")]);
    assert_eq!(s.count("t.com", C, ".x"), s.get_count("t.com", C, ".x"));
    assert_eq!(s.count("t.com", C, ".x").unwrap(), 1);
}

#[test]
fn summary_samples_middle_distinct_target() {
    let mut s = MemStorage::new();
    s.add_links(&rid("did:a", "1"), &[link(".x", "a.com"), link(".y", "a.com"), link(".z", "a.com")]);
    s.add_links(&rid("did:b", "1"), &[link(".w", "b.com")]);
    let sum = s.summary();
    assert_eq!(sum.accounts, 2);
    assert_eq!(sum.targets, 2);
    assert_eq!(sum.target_paths, 4);
    assert_eq!(sum.linking_accounts, 2);
    assert_eq!(sum.sample, Some(("b.com".to_string(), C.to_string(), ".w".to_string())));
    assert_eq!(MemStorage::new().summary().sample, None);
}

#[test]
fn trait_push_dispatches_events() {
    let mut s = MemStorage::new();
    let create = ActionableEvent::CreateLinks { record_id: rid("did:a", "1"), links: vec![link(".x", "t.com")] };
    LinkStorage::push(&mut s, &create);
    assert_eq!(LinkStorage::get_count(&s, "t.com", C, ".x").unwrap(), 1);
    let update = ActionableEvent::UpdateLinks { record_id: rid("did:a", "1"), new_links: vec![link(".x", "u.com")] };
    LinkStorage::push(&mut s, &update);
    assert_eq!(LinkStorage::get_count(&s, "t.com", C, ".x").unwrap(), 0);
    assert_eq!(LinkStorage::get_count(&s, "u.com", C, ".x").unwrap(), 1);
    LinkStorage::push(&mut s, &ActionableEvent::DeleteAccount("did:a".into()));
    assert_eq!(LinkStorage::get_count(&s, "u.com", C, ".x").unwrap(), 0);
}
