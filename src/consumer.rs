use vstd::prelude::*;
use vstd::string::StringExecFns;

use crate::json::{bool_member, get, member, obj_member, str_member, JsonValue};
use crate::links::{collect_links, links_in};
use crate::model::{ActionableEvent, EventModel, RecordId};

verus! {

/// The event that a `"commit"` object with members `root` asks for.
pub open spec fn commit_event(root: Seq<(String, JsonValue)>) -> Option<EventModel> {
    match (str_member(root, "did"@), obj_member(root, "commit"@)) {
        (Some(did), Some(commit)) => match (
            str_member(commit, "collection"@),
            str_member(commit, "rkey"@),
            str_member(commit, "operation"@),
        ) {
            (Some(collection), Some(rkey), Some(op)) => {
                let record = (did, collection, rkey);
                if op == "create"@ {
                    match member(commit, "record"@) {
                        Some(rec) => {
                            let links = links_in(rec, Seq::empty());
                            if links.len() == 0 {
                                None
                            } else {
                                Some(EventModel::CreateLinks { record, links })
                            }
                        },
                        None => None,
                    }
                } else if op == "update"@ {
                    match member(commit, "record"@) {
                        Some(rec) => Some(
                            EventModel::UpdateLinks { record, links: links_in(rec, Seq::empty()) },
                        ),
                        None => None,
                    }
                } else if op == "delete"@ {
                    Some(EventModel::DeleteRecord(record))
                } else {
                    None
                }
            },
            _ => None,
        },
        _ => None,
    }
}

/// The event that an `"account"` object with members `root` asks for.
pub open spec fn account_event(root: Seq<(String, JsonValue)>) -> Option<EventModel> {
    match obj_member(root, "account"@) {
        Some(account) => match (str_member(account, "did"@), bool_member(account, "active"@)) {
            (Some(did), Some(active)) => {
                let status = member(account, "status"@);
                if active {
                    if status is None {
                        Some(EventModel::ActivateAccount(did))
                    } else {
                        None
                    }
                } else {
                    match status {
                        Some(JsonValue::String(s)) => if s@ == "deactivated"@ {
                            Some(EventModel::DeactivateAccount(did))
                        } else if s@ == "deleted"@ {
                            Some(EventModel::DeleteAccount(did))
                        } else {
                            None
                        },
                        _ => None,
                    }
                }
            },
            _ => None,
        },
        None => None,
    }
}

/// The event that a raw upstream value asks for, if any.
pub open spec fn normalize(event: JsonValue) -> Option<EventModel> {
    match event {
        JsonValue::Object(root) => if str_member(root@, "kind"@) == Some("commit"@) {
            commit_event(root@)
        } else if str_member(root@, "kind"@) == Some("account"@) {
            account_event(root@)
        } else {
            None
        },
        _ => None,
    }
}

/// The members of `event` when it is an object whose `kind` is `kind`.
pub open spec fn event_root(event: JsonValue, kind: Seq<char>) -> Option<Seq<(String, JsonValue)>> {
    match event {
        JsonValue::Object(root) => if str_member(root@, "kind"@) == Some(kind) {
            Some(root@)
        } else {
            None
        },
        _ => None,
    }
}

/// A commit that creates a record in which no link is found asks for nothing.
pub proof fn lemma_create_without_links(
    event: JsonValue,
    root: Seq<(String, JsonValue)>,
    commit: Seq<(String, JsonValue)>,
    record: JsonValue,
)
    requires
        event_root(event, "commit"@) == Some(root),
        obj_member(root, "commit"@) == Some(commit),
        str_member(commit, "operation"@) == Some("create"@),
        member(commit, "record"@) == Some(record),
        links_in(record, Seq::empty()).len() == 0,
    ensures
        normalize(event) is None,
{
}

/// A well-formed commit that updates a record in which no link is found asks for the
/// record's links to be replaced by none.
pub proof fn lemma_update_without_links(
    event: JsonValue,
    root: Seq<(String, JsonValue)>,
    commit: Seq<(String, JsonValue)>,
    record: JsonValue,
    did: Seq<char>,
    collection: Seq<char>,
    rkey: Seq<char>,
)
    requires
        event_root(event, "commit"@) == Some(root),
        str_member(root, "did"@) == Some(did),
        obj_member(root, "commit"@) == Some(commit),
        str_member(commit, "collection"@) == Some(collection),
        str_member(commit, "rkey"@) == Some(rkey),
        str_member(commit, "operation"@) == Some("update"@),
        member(commit, "record"@) == Some(record),
        links_in(record, Seq::empty()).len() == 0,
    ensures
        normalize(event) == Some(
            EventModel::UpdateLinks { record: (did, collection, rkey), links: Seq::empty() },
        ),
{
    reveal_strlit("update");
    reveal_strlit("create");
    assert("update"@[0] != "create"@[0]);
    assert(links_in(record, Seq::empty()) =~= Seq::empty());
}

/// An inactive account without a status asks for nothing.
pub proof fn lemma_inactive_without_status(
    event: JsonValue,
    root: Seq<(String, JsonValue)>,
    account: Seq<(String, JsonValue)>,
)
    requires
        event_root(event, "account"@) == Some(root),
        obj_member(root, "account"@) == Some(account),
        bool_member(account, "active"@) == Some(false),
        member(account, "status"@) is None,
    ensures
        normalize(event) is None,
{
    reveal_strlit("account");
    reveal_strlit("commit");
    assert("account"@[0] != "commit"@[0]);
}

fn get_str<'a>(members: &'a Vec<(String, JsonValue)>, key: &str) -> (r: Option<&'a String>)
    ensures
        match r {
            Some(s) => str_member(members@, key@) == Some(s@),
            None => str_member(members@, key@) is None,
        },
{
    match get(members, &String::from_str(key)) {
        Some(JsonValue::String(s)) => Some(s),
        _ => None,
    }
}

fn get_obj<'a>(members: &'a Vec<(String, JsonValue)>, key: &str) -> (r: Option<
    &'a Vec<(String, JsonValue)>,
>)
    ensures
        match r {
            Some(o) => obj_member(members@, key@) == Some(o@),
            None => obj_member(members@, key@) is None,
        },
{
    match get(members, &String::from_str(key)) {
        Some(JsonValue::Object(o)) => Some(o),
        _ => None,
    }
}

fn get_bool(members: &Vec<(String, JsonValue)>, key: &str) -> (r: Option<bool>)
    ensures
        r == bool_member(members@, key@),
{
    match get(members, &String::from_str(key)) {
        Some(JsonValue::Boolean(b)) => Some(*b),
        _ => None,
    }
}

fn is_text(s: &String, lit: &str) -> (r: bool)
    ensures
        r == (s@ == lit@),
{
    *s == String::from_str(lit)
}

fn commit_actionable(root: &Vec<(String, JsonValue)>) -> (r: Option<ActionableEvent>)
    ensures
        match r {
            Some(e) => commit_event(root@) == Some(e.model()),
            None => commit_event(root@) is None,
        },
{
    let did = get_str(root, "did")?;
    let commit = get_obj(root, "commit")?;
    let collection = get_str(commit, "collection")?;
    let rkey = get_str(commit, "rkey")?;
    let op = get_str(commit, "operation")?;
    let record_id = RecordId { did: did.clone(), collection: collection.clone(), rkey: rkey.clone() };
    if is_text(op, "create") {
        let links = collect_links(get(commit, &String::from_str("record"))?);
        if links.len() == 0 {
            None
        } else {
            Some(ActionableEvent::CreateLinks { record_id, links })
        }
    } else if is_text(op, "update") {
        let new_links = collect_links(get(commit, &String::from_str("record"))?);
        Some(ActionableEvent::UpdateLinks { record_id, new_links })
    } else if is_text(op, "delete") {
        Some(ActionableEvent::DeleteRecord(record_id))
    } else {
        None
    }
}

fn account_actionable(root: &Vec<(String, JsonValue)>) -> (r: Option<ActionableEvent>)
    ensures
        match r {
            Some(e) => account_event(root@) == Some(e.model()),
            None => account_event(root@) is None,
        },
{
    let account = get_obj(root, "account")?;
    let did = get_str(account, "did")?.clone();
    let active = get_bool(account, "active")?;
    match get(account, &String::from_str("status")) {
        None => if active {
            Some(ActionableEvent::ActivateAccount(did))
        } else {
            None
        },
        Some(JsonValue::String(status)) => if active {
            None
        } else if is_text(status, "deactivated") {
            Some(ActionableEvent::DeactivateAccount(did))
        } else if is_text(status, "deleted") {
            Some(ActionableEvent::DeleteAccount(did))
        } else {
            None
        },
        Some(_) => None,
    }
}

/// Turns a raw upstream value into the event it asks the index for, or `None` where it
/// asks for nothing or is not of a recognized shape.
pub fn get_actionable(event: &JsonValue) -> (r: Option<ActionableEvent>)
    ensures
        match r {
            Some(e) => normalize(*event) == Some(e.model()),
            None => normalize(*event) is None,
        },
{
    match event {
        JsonValue::Object(root) => {
            match get_str(root, "kind") {
                Some(kind) => if is_text(kind, "commit") {
                    commit_actionable(root)
                } else if is_text(kind, "account") {
                    account_actionable(root)
                } else {
                    None
                },
                None => None,
            }
        },
        _ => None,
    }
}

} // verus!
