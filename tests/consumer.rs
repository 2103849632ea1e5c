use link_aggregator::consumer::get_actionable;
use link_aggregator::json::JsonValue;
use link_aggregator::model::{ActionableEvent, CollectedLink, RecordId};

/// Decodes JSON text into the library's value type.
fn parse(text: &str) -> JsonValue {
    let value: tinyjson::JsonValue = text.parse().unwrap();
    convert(&value)
}

fn convert(v: &tinyjson::JsonValue) -> JsonValue {
    match v {
        tinyjson::JsonValue::Null => JsonValue::Null,
        tinyjson::JsonValue::Boolean(b) => JsonValue::Boolean(*b),
        tinyjson::JsonValue::Number(n) => JsonValue::Number(n.to_string()),
        tinyjson::JsonValue::String(s) => JsonValue::String(s.clone()),
        tinyjson::JsonValue::Array(items) => JsonValue::Array(items.iter().map(convert).collect()),
        tinyjson::JsonValue::Object(members) => JsonValue::Object(
            members.iter().map(|(k, v)| (k.clone(), convert(v))).collect(),
        ),
    }
}

#[test]
fn test_create_like() {
    let rec = r#"{
        "did":"did:plc:icprmty6ticzracr5urz4uum",
        "time_us":1736448492661668,
        "kind":"commit",
        "commit":{"rev":"3lfddpt5qa62c","operation":"create","collection":"app.bsky.feed.like","rkey":"3lfddpt5djw2c","record":{
            "$type":"app.bsky.feed.like",
            "createdAt":"2025-01-09T18:48:10.412Z",
            "subject":{"cid":"bafyreihazf62qvmusup55ojhkzwbmzee6rxtsug3e6eg33mnjrgthxvozu","uri":"at://did:plc:lphckw3dz4mnh3ogmfpdgt6z/app.bsky.feed.post/3lfdau5f7wk23"}
        },
        "cid":"bafyreidgcs2id7nsbp6co42ind2wcig3riwcvypwan6xdywyfqklovhdjq"}
    }"#;
    let rec = parse(rec);
    let action = get_actionable(&rec);
    assert_eq!(
        action,
        Some(ActionableEvent::CreateLinks {
            record_id: RecordId {
                did: "did:plc:icprmty6ticzracr5urz4uum".into(),
                collection: "app.bsky.feed.like".into(),
                rkey: "3lfddpt5djw2c".into(),
            },
            links: vec![CollectedLink {
                path: ".subject.uri".into(),
                target:
                    "at://did:plc:lphckw3dz4mnh3ogmfpdgt6z/app.bsky.feed.post/3lfdau5f7wk23"
                        .into()
            },],
        })
    )
}

#[test]
fn test_update_profile() {
    let rec = r#"{
        "did":"did:plc:tcmiubbjtkwhmnwmrvr2eqnx",
        "time_us":1736453696817289,"kind":"commit",
        "commit":{
            "rev":"3lfdikw7q772c",
            "operation":"update",
            "collection":"app.bsky.actor.profile",
            "rkey":"self",
            "record":{
                "$type":"app.bsky.actor.profile",
                "avatar":{"$type":"blob","ref":{"$link":"bafkreidcg5jzz3hpdtlc7um7w5masiugdqicc5fltuajqped7fx66hje54"},"mimeType":"image/jpeg","size":295764},
                "banner":{"$type":"blob","ref":{"$link":"bafkreiahaswf2yex2zfn3ynpekhw6mfj7254ra7ly27zjk73czghnz2wni"},"mimeType":"image/jpeg","size":856461},
                "createdAt":"2024-08-30T21:33:06.945Z",
                "description":"Professor, QUB | Belfast via Derry \\n\\nViews personal | Reposts are not an endorsement\\n\\nhttps://go.qub.ac.uk/charvey",
                "displayName":"Colin Harvey",
                "pinnedPost":{"cid":"bafyreifyrepqer22xsqqnqulpcxzpu7wcgeuzk6p5c23zxzctaiwmlro7y","uri":"at://did:plc:tcmiubbjtkwhmnwmrvr2eqnx/app.bsky.feed.post/3lf66ri63u22t"}
            },
            "cid":"bafyreiem4j5p7duz67negvqarq3s5h7o45fvytevhrzkkn2p6eqdkcf74m"
        }
    }"#;
    let rec = parse(rec);
    let action = get_actionable(&rec);
    assert_eq!(
        action,
        Some(ActionableEvent::UpdateLinks {
            record_id: RecordId {
                did: "did:plc:tcmiubbjtkwhmnwmrvr2eqnx".into(),
                collection: "app.bsky.actor.profile".into(),
                rkey: "self".into(),
            },
            new_links: vec![CollectedLink {
                path: ".pinnedPost.uri".into(),
                target:
                    "at://did:plc:tcmiubbjtkwhmnwmrvr2eqnx/app.bsky.feed.post/3lf66ri63u22t"
                        .into()
            },],
        })
    )
}

#[test]
fn test_delete_like() {
    let rec = r#"{
        "did":"did:plc:3pa2ss4l2sqzhy6wud4btqsj",
        "time_us":1736448492690783,
        "kind":"commit",
        "commit":{"rev":"3lfddpt7vnx24","operation":"delete","collection":"app.bsky.feed.like","rkey":"3lbiu72lczk2w"}
    }"#;
    let rec = parse(rec);
    let action = get_actionable(&rec);
    assert_eq!(
        action,
        Some(ActionableEvent::DeleteRecord(RecordId {
            did: "did:plc:3pa2ss4l2sqzhy6wud4btqsj".into(),
            collection: "app.bsky.feed.like".into(),
            rkey: "3lbiu72lczk2w".into(),
        }))
    )
}

#[test]
fn test_delete_account() {
    let rec = r#"{
        "did":"did:plc:zsgqovouzm2gyksjkqrdodsw",
        "time_us":1736451739215876,
        "kind":"account",
        "account":{"active":false,"did":"did:plc:zsgqovouzm2gyksjkqrdodsw","seq":3040934738,"status":"deleted","time":"2025-01-09T19:42:18.972Z"}
    }"#;
    let rec = parse(rec);
    let action = get_actionable(&rec);
    assert_eq!(
        action,
        Some(ActionableEvent::DeleteAccount(
            "did:plc:zsgqovouzm2gyksjkqrdodsw".into()
        ))
    )
}

#[test]
fn test_deactivate_account() {
    let rec = r#"{
        "did":"did:plc:l4jb3hkq7lrblferbywxkiol","time_us":1736451745611273,"kind":"account","account":{"active":false,"did":"did:plc:l4jb3hkq7lrblferbywxkiol","seq":3040939563,"status":"deactivated","time":"2025-01-09T19:42:22.035Z"}
    }"#;
    let rec = parse(rec);
    let action = get_actionable(&rec);
    assert_eq!(
        action,
        Some(ActionableEvent::DeactivateAccount(
            "did:plc:l4jb3hkq7lrblferbywxkiol".into()
        ))
    )
}

#[test]
fn test_activate_account() {
    let rec = r#"{
        "did":"did:plc:nct6zfb2j4emoj4yjomxwml2","time_us":1736451747292706,"kind":"account","account":{"active":true,"did":"did:plc:nct6zfb2j4emoj4yjomxwml2","seq":3040940775,"time":"2025-01-09T19:42:26.924Z"}
    }"#;
    let rec = parse(rec);
    let action = get_actionable(&rec);
    assert_eq!(
        action,
        Some(ActionableEvent::ActivateAccount(
            "did:plc:nct6zfb2j4emoj4yjomxwml2".into()
        ))
    )
}
