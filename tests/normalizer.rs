use link_aggregator::consumer::get_actionable;
use link_aggregator::json::JsonValue;
use link_aggregator::links::{collect_links, is_link};
use link_aggregator::model::{ActionableEvent, CollectedLink, RecordId};

fn s(text: &str) -> JsonValue {
    JsonValue::String(text.into())
}

fn obj(members: Vec<(&str, JsonValue)>) -> JsonValue {
    JsonValue::Object(members.into_iter().map(|(k, v)| (k.to_string(), v)).collect())
}

fn commit(op: &str, record: Option<JsonValue>) -> JsonValue {
    let mut c = vec![("operation", s(op)), ("collection", s("app.c")), ("rkey", s("k"))];
    if let Some(r) = record {
        c.push(("record", r));
    }
    obj(vec![("did", s("did:plc:x")), ("kind", s("commit")), ("commit", obj(c))])
}

fn account(active: bool, status: Option<&str>) -> JsonValue {
    let mut a = vec![("did", s("did:plc:x")), ("active", JsonValue::Boolean(active))];
    if let Some(st) = status {
        a.push(("status", s(st)));
    }
    obj(vec![("kind", s("account")), ("account", obj(a))])
}

fn rid() -> RecordId {
    RecordId { did: "did:plc:x".into(), collection: "app.c".into(), rkey: "k".into() }
}

#[test]
fn create_without_links_is_ignored() {
    let e = commit("create", Some(obj(vec![("text", s("hello"))])));
    assert_eq!(get_actionable(&e), None);
}

#[test]
fn update_without_links_clears() {
    let e = commit("update", Some(obj(vec![("text", s("hello"))])));
    assert_eq!(
        get_actionable(&e),
        Some(ActionableEvent::UpdateLinks { record_id: rid(), new_links: vec![] })
    );
}

#[test]
fn inactive_without_status_is_ignored() {
    assert_eq!(get_actionable(&account(false, None)), None);
}

#[test]
fn normalization_is_repeatable() {
    let e = commit("create", Some(obj(vec![("u", s("https://a.example/x"))])));
    let first = get_actionable(&e);
    assert_eq!(first, get_actionable(&e));
    assert_eq!(
        first,
        Some(ActionableEvent::CreateLinks {
            record_id: rid(),
            links: vec![CollectedLink { path: ".u".into(), target: "https://a.example/x".into() }],
        })
    );
}

#[test]
fn other_shapes_are_ignored() {
    assert_eq!(get_actionable(&s("commit")), None);
    assert_eq!(get_actionable(&obj(vec![("kind", s("identity"))])), None);
    assert_eq!(get_actionable(&commit("rename", Some(obj(vec![])))), None);
    assert_eq!(get_actionable(&commit("create", None)), None);
    assert_eq!(get_actionable(&commit("update", None)), None);
    assert_eq!(get_actionable(&account(true, Some("deleted"))), None);
    assert_eq!(get_actionable(&account(false, Some("suspended"))), None);
    let no_did = obj(vec![("kind", s("commit")), ("commit", obj(vec![("operation", s("delete"))]))]);
    assert_eq!(get_actionable(&no_did), None);
}

#[test]
fn delete_needs_no_record() {
    assert_eq!(get_actionable(&commit("delete", None)), Some(ActionableEvent::DeleteRecord(rid())));
}

#[test]
fn account_statuses() {
    assert_eq!(
        get_actionable(&account(true, None)),
        Some(ActionableEvent::ActivateAccount("did:plc:x".into()))
    );
    assert_eq!(
        get_actionable(&account(false, Some("deactivated"))),
        Some(ActionableEvent::DeactivateAccount("did:plc:x".into()))
    );
    assert_eq!(
        get_actionable(&account(false, Some("deleted"))),
        Some(ActionableEvent::DeleteAccount("did:plc:x".into()))
    );
}

#[test]
fn link_shapes() {
    assert!(is_link("at://did:plc:x/app.bsky.feed.post/1"));
    assert!(is_link("did:plc:abc"));
    assert!(is_link("https://example.com/a?b=c"));
    assert!(!is_link("2025-01-09T18:48:10.412Z"));
    assert!(!is_link("bafyreihazf62qvmusup55ojhkzwbmzee6rxtsug3e6eg33mnjrgthxvozu"));
    assert!(!is_link("see: https://example.com"));
    assert!(!is_link("x:"));
    assert!(!is_link(":x"));
    assert!(!is_link(""));
}

#[test]
fn collected_paths_and_duplicates() {
    let record = obj(vec![
        ("xyz", JsonValue::Array(vec![
            obj(vec![("uri", s("at://a"))]),
            obj(vec![("uri", s("at://a"))]),
            JsonValue::Number("3".into()),
        ])),
        ("subject", obj(vec![("uri", s("at://b")), ("cid", s("bafy"))])),
        ("tags", JsonValue::Array(vec![s("did:plc:z"), JsonValue::Null])),
    ]);
    let got = collect_links(&record);
    let want = vec![
        CollectedLink { path: ".xyz[].uri".into(), target: "at://a".into() },
        CollectedLink { path: ".xyz[].uri".into(), target: "at://a".into() },
        CollectedLink { path: ".subject.uri".into(), target: "at://b".into() },
        CollectedLink { path: ".tags[]".into(), target: "did:plc:z".into() },
    ];
    assert_eq!(got, want);
    assert_eq!(collect_links(&s("at://top")), vec![CollectedLink { path: "".into(), target: "at://top".into() }]);
}
