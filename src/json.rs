use vstd::prelude::*;

use crate::lookup::{first_where, lemma_first_where, lemma_first_where_is};

verus! {

/// A decoded JSON value. Object members keep the order in which they were given;
/// a number is held as decimal text, since the index never reads one.
#[derive(Debug)]
pub enum JsonValue {
    Null,
    Boolean(bool),
    Number(String),
    String(String),
    Array(Vec<JsonValue>),
    Object(Vec<(String, JsonValue)>),
}

pub open spec fn member_pred(members: Seq<(String, JsonValue)>, key: Seq<char>) -> spec_fn(
    int,
) -> bool {
    |j: int| members[j].0@ == key
}

/// The value of the first member named `key`, if any.
pub open spec fn member(members: Seq<(String, JsonValue)>, key: Seq<char>) -> Option<JsonValue> {
    let i = first_where(members.len(), member_pred(members, key));
    if i >= 0 {
        Some(members[i].1)
    } else {
        None
    }
}

/// The text of member `key`, if it is a string.
pub open spec fn str_member(members: Seq<(String, JsonValue)>, key: Seq<char>) -> Option<
    Seq<char>,
> {
    match member(members, key) {
        Some(JsonValue::String(s)) => Some(s@),
        _ => None,
    }
}

/// The members of member `key`, if it is an object.
pub open spec fn obj_member(members: Seq<(String, JsonValue)>, key: Seq<char>) -> Option<
    Seq<(String, JsonValue)>,
> {
    match member(members, key) {
        Some(JsonValue::Object(m)) => Some(m@),
        _ => None,
    }
}

/// The value of member `key`, if it is a boolean.
pub open spec fn bool_member(members: Seq<(String, JsonValue)>, key: Seq<char>) -> Option<bool> {
    match member(members, key) {
        Some(JsonValue::Boolean(b)) => Some(b),
        _ => None,
    }
}

/// The first member of `members` named `key`.
pub fn get<'a>(members: &'a Vec<(String, JsonValue)>, key: &String) -> (r: Option<&'a JsonValue>)
    ensures
        match r {
            Some(v) => member(members@, key@) == Some(*v),
            None => member(members@, key@) is None,
        },
{
    let ghost pred = member_pred(members@, key@);
    let mut i: usize = 0;
    while i < members.len()
        invariant
            i <= members@.len(),
            pred == member_pred(members@, key@),
            forall|j: int| 0 <= j < i ==> !#[trigger] pred(j),
        decreases members@.len() - i,
    {
        if members[i].0 == *key {
            proof {
                lemma_first_where_is(members@.len(), pred, i as int);
            }
            return Some(&members[i].1);
        }
        i += 1;
    }
    proof {
        lemma_first_where(members@.len(), pred);
    }
    None
}

} // verus!
