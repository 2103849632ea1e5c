use vstd::prelude::*;
use vstd::string::StringExecFns;
use vstd::utf8::encode_utf8;

use crate::json::JsonValue;
use crate::lookup::{first_where, lemma_first_where, lemma_first_where_is};
use crate::model::{links_model, CollectedLink};
use crate::tally::LinkModel;

verus! {

pub open spec fn is_alpha(c: u8) -> bool {
    (65 <= c <= 90) || (97 <= c <= 122)
}

pub open spec fn is_scheme_byte(c: u8) -> bool {
    is_alpha(c) || (48 <= c <= 57) || c == 43 || c == 45 || c == 46
}

pub open spec fn is_space(c: u8) -> bool {
    c == 32 || c == 9 || c == 10 || c == 12 || c == 13
}

pub open spec fn colon_pred(b: Seq<u8>) -> spec_fn(int) -> bool {
    |j: int| b[j] == 58
}

/// The UTF-8 text `b` has the shape of an absolute URI: a scheme (a letter, then letters,
/// digits, `+`, `-` or `.`), a colon, something after it, and no white space anywhere.
/// This covers `at://` URIs, web URLs and DIDs.
pub open spec fn link_shaped(b: Seq<u8>) -> bool {
    let k = first_where(b.len(), colon_pred(b));
    &&& 1 <= k && k + 1 < b.len()
    &&& is_alpha(b[0])
    &&& forall|j: int| 1 <= j < k ==> is_scheme_byte(#[trigger] b[j])
    &&& forall|j: int| 0 <= j < b.len() ==> !is_space(#[trigger] b[j])
}

/// Whether `s` is link-shaped.
pub fn is_link(s: &str) -> (r: bool)
    ensures
        r == link_shaped(encode_utf8(s@)),
{
    let b = s.as_bytes();
    let ghost bs = b@;
    let mut k: usize = 0;
    while k < b.len() && b[k] != 58
        invariant
            k <= b@.len(),
            bs == b@,
            forall|j: int| 0 <= j < k ==> !#[trigger] colon_pred(bs)(j),
        decreases b@.len() - k,
    {
        k += 1;
    }
    proof {
        if k < b@.len() {
            lemma_first_where_is(bs.len(), colon_pred(bs), k as int);
        } else {
            lemma_first_where(bs.len(), colon_pred(bs));
        }
    }
    if k == 0 || k >= b.len() || k + 1 >= b.len() {
        return false;
    }
    let c0 = b[0];
    if !((65 <= c0 && c0 <= 90) || (97 <= c0 && c0 <= 122)) {
        return false;
    }
    let mut j: usize = 1;
    while j < k
        invariant
            1 <= j <= k < b@.len(),
            k + 1 < b@.len(),
            b@ == encode_utf8(s@),
            is_alpha(b@[0]),
            first_where(b@.len(), colon_pred(b@)) == k,
            forall|i: int| 1 <= i < j ==> is_scheme_byte(#[trigger] b@[i]),
        decreases k - j,
    {
        let c = b[j];
        if !((65 <= c && c <= 90) || (97 <= c && c <= 122) || (48 <= c && c <= 57) || c == 43 || c
            == 45 || c == 46) {
            return false;
        }
        j += 1;
    }
    let mut j: usize = 0;
    while j < b.len()
        invariant
            j <= b@.len(),
            b@ == encode_utf8(s@),
            forall|i: int| 0 <= i < j ==> !is_space(#[trigger] b@[i]),
        decreases b@.len() - j,
    {
        let c = b[j];
        if c == 32 || c == 9 || c == 10 || c == 12 || c == 13 {
            proof {
                assert(is_space(b@[j as int]));
            }
            return false;
        }
        j += 1;
    }
    true
}

/// The links found in `v`, which sits at `path`, in document order: each link-shaped
/// string with its path. An object member `k` extends the path by `.k`, an array
/// element by `[]`.
pub open spec fn links_in(v: JsonValue, path: Seq<char>) -> Seq<LinkModel>
    decreases v, 0nat,
{
    match v {
        JsonValue::String(s) => if link_shaped(encode_utf8(s@)) {
            seq![(path, s@)]
        } else {
            Seq::empty()
        },
        JsonValue::Array(items) => items_links(items, items@.len(), path + "[]"@),
        JsonValue::Object(members) => members_links(members, members@.len(), path),
        _ => Seq::empty(),
    }
}

/// The links of the first `n` elements of `items`, each at `path`.
pub open spec fn items_links(items: Vec<JsonValue>, n: nat, path: Seq<char>) -> Seq<LinkModel>
    decreases items, n,
{
    if n == 0 || n > items@.len() {
        Seq::empty()
    } else {
        items_links(items, (n - 1) as nat, path) + links_in(items@[n - 1], path)
    }
}

/// The links of the first `n` members of `members`, each under its own name.
pub open spec fn members_links(members: Vec<(String, JsonValue)>, n: nat, path: Seq<char>) -> Seq<
    LinkModel,
>
    decreases members, n,
{
    if n == 0 || n > members@.len() {
        Seq::empty()
    } else {
        members_links(members, (n - 1) as nat, path) + links_in(
            members@[n - 1].1,
            path + "."@ + members@[n - 1].0@,
        )
    }
}


/// Appends the links found in `v`, which sits at `path`, to `out`.
fn collect_into(v: &JsonValue, path: &String, out: &mut Vec<CollectedLink>)
    ensures
        links_model(final(out)@) == links_model(old(out)@) + links_in(*v, path@),
    decreases v,
{
    match v {
        JsonValue::String(s) => {
            if is_link(s.as_str()) {
                let ghost before = out@;
                out.push(CollectedLink { path: path.clone(), target: s.clone() });
                proof {
                    assert(links_model(out@) =~= links_model(before) + seq![(path@, s@)]);
                }
            } else {
                proof {
                    assert(links_model(out@) =~= links_model(out@) + Seq::<LinkModel>::empty());
                }
            }
        },
        JsonValue::Array(items) => {
            let mut p = path.clone();
            p.append("[]");
            let mut i: usize = 0;
            proof {
                assert(links_model(out@) =~= links_model(old(out)@) + items_links(*items, 0, p@));
            }
            while i < items.len()
                invariant
                    i <= items@.len(),
                    p@ == path@ + "[]"@,
                    *v == JsonValue::Array(*items),
                    links_model(out@) == links_model(old(out)@) + items_links(*items, i as nat, p@),
                decreases items@.len() - i,
            {
                let ghost before = out@;
                proof {
                    assert(decreases_to!(*v => (*v)->Array_0));
                    assert(decreases_to!(*items => items@));
                    assert(decreases_to!(items@ => items@[i as int]));
                }
                collect_into(&items[i], &p, out);
                proof {
                    assert(items_links(*items, (i + 1) as nat, p@) == items_links(*items, i as nat, p@)
                        + links_in(items@[i as int], p@));
                    assert(links_model(out@) =~= links_model(old(out)@) + items_links(
                        *items,
                        (i + 1) as nat,
                        p@,
                    ));
                }
                i += 1;
            }
        },
        JsonValue::Object(members) => {
            let mut i: usize = 0;
            proof {
                assert(links_model(out@) =~= links_model(old(out)@) + members_links(*members, 0, path@));
            }
            while i < members.len()
                invariant
                    i <= members@.len(),
                    *v == JsonValue::Object(*members),
                    links_model(out@) == links_model(old(out)@) + members_links(*members, i as nat, path@),
                decreases members@.len() - i,
            {
                let mut p = path.clone();
                p.append(".");
                p.append(members[i].0.as_str());
                proof {
                    assert(decreases_to!(*v => (*v)->Object_0));
                    assert(decreases_to!(*members => members@));
                    assert(decreases_to!(members@ => members@[i as int]));
                    assert(decreases_to!(members@[i as int] => members@[i as int].1));
                }
                collect_into(&members[i].1, &p, out);
                proof {
                    assert(members_links(*members, (i + 1) as nat, path@) == members_links(*members, i as nat, path@)
                        + links_in(members@[i as int].1, path@ + "."@ + members@[i as int].0@));
                    assert(links_model(out@) =~= links_model(old(out)@) + members_links(
                        *members,
                        (i + 1) as nat,
                        path@,
                    ));
                }
                i += 1;
            }
        },
        _ => {
            proof {
                assert(links_model(out@) =~= links_model(out@) + Seq::<LinkModel>::empty());
            }
        },
    }
}

/// Every link in `record`, in document order, with duplicates kept; paths start from
/// the record's root, so a member `uri` of a member `subject` is at `.subject.uri`.
pub fn collect_links(record: &JsonValue) -> (r: Vec<CollectedLink>)
    ensures
        links_model(r@) == links_in(*record, Seq::empty()),
{
    let mut out: Vec<CollectedLink> = Vec::new();
    let root = String::new();
    collect_into(record, &root, &mut out);
    proof {
        assert(links_model(out@) =~= links_in(*record, Seq::empty()));
    }
    out
}

} // verus!
