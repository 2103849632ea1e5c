use link_aggregator::model::{ActionableEvent, CollectedLink, RecordId};
use link_aggregator::storage::MemStorage;

#[test]
fn test_mem_empty() {
    let storage = MemStorage::new();
    assert_eq!(storage.get_count("", "", "").unwrap(), 0);
    assert_eq!(storage.get_count("a", "b", "c").unwrap(), 0);
    assert_eq!(
        storage
            .get_count(
                "at://did:plc:b3rzzkblqsxhr3dgcueymkqe/app.bsky.feed.post/3lf6yc4drhk2f",
                "app.test.collection",
                ".reply.parent.uri"
            )
            .unwrap(),
        0
    );
}

#[test]
fn test_mem_links() {
    let mut storage = MemStorage::new();
    storage
        .push(&ActionableEvent::CreateLinks {
            record_id: RecordId {
                did: "did:plc:asdf".into(),
                collection: "app.test.collection".into(),
                rkey: "fdsa".into(),
            },
            links: vec![CollectedLink {
                target: "e.com".into(),
                path: ".abc.uri".into(),
            }],
        });
    assert_eq!(
        storage
            .get_count("e.com", "app.test.collection", ".abc.uri")
            .unwrap(),
        1
    );
    assert_eq!(
        storage
            .get_count("bad.com", "app.test.collection", ".abc.uri")
            .unwrap(),
        0
    );
    assert_eq!(
        storage
            .get_count("e.com", "app.test.collection", ".def.uri")
            .unwrap(),
        0
    );

    // delete under the wrong collection
    storage
        .push(&ActionableEvent::DeleteRecord(RecordId {
            did: "did:plc:asdf".into(),
            collection: "app.test.wrongcollection".into(),
            rkey: "fdsa".into(),
        }));
    assert_eq!(
        storage
            .get_count("e.com", "app.test.collection", ".abc.uri")
            .unwrap(),
        1
    );

    // delete under the wrong rkey
    storage
        .push(&ActionableEvent::DeleteRecord(RecordId {
            did: "did:plc:asdf".into(),
            collection: "app.test.collection".into(),
            rkey: "wrongkey".into(),
        }));
    assert_eq!(
        storage
            .get_count("e.com", "app.test.collection", ".abc.uri")
            .unwrap(),
        1
    );

    // finally actually delete it
    storage
        .push(&ActionableEvent::DeleteRecord(RecordId {
            did: "did:plc:asdf".into(),
            collection: "app.test.collection".into(),
            rkey: "fdsa".into(),
        }));
    assert_eq!(
        storage
            .get_count("e.com", "app.test.collection", ".abc.uri")
            .unwrap(),
        0
    );

    // put it back
    storage
        .push(&ActionableEvent::CreateLinks {
            record_id: RecordId {
                did: "did:plc:asdf".into(),
                collection: "app.test.collection".into(),
                rkey: "fdsa".into(),
            },
            links: vec![CollectedLink {
                target: "e.com".into(),
                path: ".abc.uri".into(),
            }],
        });
    assert_eq!(
        storage
            .get_count("e.com", "app.test.collection", ".abc.uri")
            .unwrap(),
        1
    );

    // add another link from this user
    storage
        .push(&ActionableEvent::CreateLinks {
            record_id: RecordId {
                did: "did:plc:asdf".into(),
                collection: "app.test.collection".into(),
                rkey: "fdsa2".into(),
            },
            links: vec![CollectedLink {
                target: "e.com".into(),
                path: ".abc.uri".into(),
            }],
        });
    assert_eq!(
        storage
            .get_count("e.com", "app.test.collection", ".abc.uri")
            .unwrap(),
        2
    );

    // add a link from someone else
    storage
        .push(&ActionableEvent::CreateLinks {
            record_id: RecordId {
                did: "did:plc:asdfasdf".into(),
                collection: "app.test.collection".into(),
                rkey: "fdsa".into(),
            },
            links: vec![CollectedLink {
                target: "e.com".into(),
                path: ".abc.uri".into(),
            }],
        });
    assert_eq!(
        storage
            .get_count("e.com", "app.test.collection", ".abc.uri")
            .unwrap(),
        3
    );

    // aaaand delete the first one again
    storage
        .push(&ActionableEvent::DeleteRecord(RecordId {
            did: "did:plc:asdf".into(),
            collection: "app.test.collection".into(),
            rkey: "fdsa".into(),
        }));
    assert_eq!(
        storage
            .get_count("e.com", "app.test.collection", ".abc.uri")
            .unwrap(),
        2
    );
}

#[test]
fn test_mem_two_user_links_delete_one() {
    let mut storage = MemStorage::new();

    // create the first link
    storage
        .push(&ActionableEvent::CreateLinks {
            record_id: RecordId {
                did: "did:plc:asdf".into(),
                collection: "app.test.collection".into(),
                rkey: "A".into(),
            },
            links: vec![CollectedLink {
                target: "e.com".into(),
                path: ".abc.uri".into(),
            }],
        });
    assert_eq!(
        storage
            .get_count("e.com", "app.test.collection", ".abc.uri")
            .unwrap(),
        1
    );

    // create the second link (same user, different rkey)
    storage
        .push(&ActionableEvent::CreateLinks {
            record_id: RecordId {
                did: "did:plc:asdf".into(),
                collection: "app.test.collection".into(),
                rkey: "B".into(),
            },
            links: vec![CollectedLink {
                target: "e.com".into(),
                path: ".abc.uri".into(),
            }],
        });
    assert_eq!(
        storage
            .get_count("e.com", "app.test.collection", ".abc.uri")
            .unwrap(),
        2
    );

    // aaaand delete the first link
    storage
        .push(&ActionableEvent::DeleteRecord(RecordId {
            did: "did:plc:asdf".into(),
            collection: "app.test.collection".into(),
            rkey: "A".into(),
        }));

    assert_eq!(
        storage
            .get_count("e.com", "app.test.collection", ".abc.uri")
            .unwrap(),
        1
    );
}

#[test]
fn test_mem_accounts() {
    let mut storage = MemStorage::new();

    // create two links
    storage
        .push(&ActionableEvent::CreateLinks {
            record_id: RecordId {
                did: "did:plc:asdf".into(),
                collection: "app.test.collection".into(),
                rkey: "A".into(),
            },
            links: vec![CollectedLink {
                target: "a.com".into(),
                path: ".abc.uri".into(),
            }],
        });
    storage
        .push(&ActionableEvent::CreateLinks {
            record_id: RecordId {
                did: "did:plc:asdf".into(),
                collection: "app.test.collection".into(),
                rkey: "B".into(),
            },
            links: vec![CollectedLink {
                target: "b.com".into(),
                path: ".abc.uri".into(),
            }],
        });
    assert_eq!(
        storage
            .get_count("a.com", "app.test.collection", ".abc.uri")
            .unwrap(),
        1
    );
    assert_eq!(
        storage
            .get_count("b.com", "app.test.collection", ".abc.uri")
            .unwrap(),
        1
    );

    // and a third from a different account
    storage
        .push(&ActionableEvent::CreateLinks {
            record_id: RecordId {
                did: "did:plc:fdsa".into(),
                collection: "app.test.collection".into(),
                rkey: "A".into(),
            },
            links: vec![CollectedLink {
                target: "a.com".into(),
                path: ".abc.uri".into(),
            }],
        });
    assert_eq!(
        storage
            .get_count("a.com", "app.test.collection", ".abc.uri")
            .unwrap(),
        2
    );

    // delete the first account
    storage
        .push(&ActionableEvent::DeleteAccount("did:plc:asdf".into()));
    assert_eq!(
        storage
            .get_count("a.com", "app.test.collection", ".abc.uri")
            .unwrap(),
        1
    );
    assert_eq!(
        storage
            .get_count("b.com", "app.test.collection", ".abc.uri")
            .unwrap(),
        0
    );
}

#[test]
fn test_multi_link() {
    let mut storage = MemStorage::new();
    storage
        .push(&ActionableEvent::CreateLinks {
            record_id: RecordId {
                did: "did:plc:asdf".into(),
                collection: "app.test.collection".into(),
                rkey: "fdsa".into(),
            },
            links: vec![
                CollectedLink {
                    target: "e.com".into(),
                    path: ".abc.uri".into(),
                },
                CollectedLink {
                    target: "f.com".into(),
                    path: ".xyz[].uri".into(),
                },
                CollectedLink {
                    target: "g.com".into(),
                    path: ".xyz[].uri".into(),
                },
            ],
        });
    assert_eq!(
        storage
            .get_count("e.com", "app.test.collection", ".abc.uri")
            .unwrap(),
        1
    );
    assert_eq!(
        storage
            .get_count("f.com", "app.test.collection", ".xyz[].uri")
            .unwrap(),
        1
    );
    assert_eq!(
        storage
            .get_count("g.com", "app.test.collection", ".xyz[].uri")
            .unwrap(),
        1
    );

    storage
        .push(&ActionableEvent::DeleteRecord(RecordId {
            did: "did:plc:asdf".into(),
            collection: "app.test.collection".into(),
            rkey: "fdsa".into(),
        }));
    assert_eq!(
        storage
            .get_count("e.com", "app.test.collection", ".abc.uri")
            .unwrap(),
        0
    );
    assert_eq!(
        storage
            .get_count("f.com", "app.test.collection", ".xyz[].uri")
            .unwrap(),
        0
    );
    assert_eq!(
        storage
            .get_count("g.com", "app.test.collection", ".xyz[].uri")
            .unwrap(),
        0
    );
}

#[test]
fn test_update_link() {
    let mut storage = MemStorage::new();

    // create the links
    storage
        .push(&ActionableEvent::CreateLinks {
            record_id: RecordId {
                did: "did:plc:asdf".into(),
                collection: "app.test.collection".into(),
                rkey: "fdsa".into(),
            },
            links: vec![
                CollectedLink {
                    target: "e.com".into(),
                    path: ".abc.uri".into(),
                },
                CollectedLink {
                    target: "f.com".into(),
                    path: ".xyz[].uri".into(),
                },
                CollectedLink {
                    target: "g.com".into(),
                    path: ".xyz[].uri".into(),
                },
            ],
        });
    assert_eq!(
        storage
            .get_count("e.com", "app.test.collection", ".abc.uri")
            .unwrap(),
        1
    );
    assert_eq!(
        storage
            .get_count("f.com", "app.test.collection", ".xyz[].uri")
            .unwrap(),
        1
    );
    assert_eq!(
        storage
            .get_count("g.com", "app.test.collection", ".xyz[].uri")
            .unwrap(),
        1
    );

    // update them
    storage
        .push(&ActionableEvent::UpdateLinks {
            record_id: RecordId {
                did: "did:plc:asdf".into(),
                collection: "app.test.collection".into(),
                rkey: "fdsa".into(),
            },
            new_links: vec![
                CollectedLink {
                    target: "h.com".into(),
                    path: ".abc.uri".into(),
                },
                CollectedLink {
                    target: "f.com".into(),
                    path: ".xyz[].uri".into(),
                },
                CollectedLink {
                    target: "i.com".into(),
                    path: ".xyz[].uri".into(),
                },
            ],
        });
    assert_eq!(
        storage
            .get_count("e.com", "app.test.collection", ".abc.uri")
            .unwrap(),
        0
    );
    assert_eq!(
        storage
            .get_count("h.com", "app.test.collection", ".abc.uri")
            .unwrap(),
        1
    );
    assert_eq!(
        storage
            .get_count("f.com", "app.test.collection", ".xyz[].uri")
            .unwrap(),
        1
    );
    assert_eq!(
        storage
            .get_count("g.com", "app.test.collection", ".xyz[].uri")
            .unwrap(),
        0
    );
    assert_eq!(
        storage
            .get_count("i.com", "app.test.collection", ".xyz[].uri")
            .unwrap(),
        1
    );
}
