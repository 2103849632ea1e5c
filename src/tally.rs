use vstd::prelude::*;

use crate::lookup::{
    first_where, lemma_first_where, lemma_first_where_agree, lemma_first_where_is,
    lemma_first_where_push,
};

verus! {

/// A link as the index sees it: `(path, target)`.
pub type LinkModel = (Seq<char>, Seq<char>);

/// One `(target, collection, path)` slot of the reverse index and the accounts listed in it.
pub struct SlotModel {
    pub target: Seq<char>,
    pub collection: Seq<char>,
    pub path: Seq<char>,
    pub dids: Seq<Seq<char>>,
}

/// One record of the forward index and the links it holds, in order.
pub struct RecordModel {
    pub did: Seq<char>,
    pub collection: Seq<char>,
    pub rkey: Seq<char>,
    pub links: Seq<LinkModel>,
}

/// `x` is the account `d` names; `None` names every account.
pub open spec fn did_matches(x: Seq<char>, d: Option<Seq<char>>) -> bool {
    match d {
        Some(y) => x == y,
        None => true,
    }
}

/// How many entries of `dids` are the account `d` (all of them for `None`).
pub open spec fn count_did(dids: Seq<Seq<char>>, d: Option<Seq<char>>) -> nat
    decreases dids.len(),
{
    if dids.len() == 0 {
        0
    } else {
        count_did(dids.drop_last(), d) + if did_matches(dids.last(), d) {
            1nat
        } else {
            0nat
        }
    }
}

/// How many links of `links` are `(p, t)`.
pub open spec fn count_link(links: Seq<LinkModel>, p: Seq<char>, t: Seq<char>) -> nat
    decreases links.len(),
{
    if links.len() == 0 {
        0
    } else {
        count_link(links.drop_last(), p, t) + if links.last() == (p, t) {
            1nat
        } else {
            0nat
        }
    }
}

/// How many `(p, t)` links record `r` holds towards slot `(t, c, p)` on behalf of `d`.
pub open spec fn contribution(
    r: RecordModel,
    d: Option<Seq<char>>,
    t: Seq<char>,
    c: Seq<char>,
    p: Seq<char>,
) -> nat {
    if did_matches(r.did, d) && r.collection == c {
        count_link(r.links, p, t)
    } else {
        0
    }
}

/// The number of `(did, repo_id, (p, t))` tuples in `recs` with `did` named by `d`,
/// `repo_id.collection == c`, `p` and `t`.
pub open spec fn tally(
    recs: Seq<RecordModel>,
    d: Option<Seq<char>>,
    t: Seq<char>,
    c: Seq<char>,
    p: Seq<char>,
) -> nat
    decreases recs.len(),
{
    if recs.len() == 0 {
        0
    } else {
        tally(recs.drop_last(), d, t, c, p) + contribution(recs.last(), d, t, c, p)
    }
}

pub open spec fn slot_pred(slots: Seq<SlotModel>, t: Seq<char>, c: Seq<char>, p: Seq<char>) -> spec_fn(int) -> bool {
    |j: int| slots[j].target == t && slots[j].collection == c && slots[j].path == p
}

pub open spec fn slot_index(slots: Seq<SlotModel>, t: Seq<char>, c: Seq<char>, p: Seq<char>) -> int {
    first_where(slots.len(), slot_pred(slots, t, c, p))
}

/// The accounts listed under `(t, c, p)`; empty where there is no such slot.
pub open spec fn slot_dids(slots: Seq<SlotModel>, t: Seq<char>, c: Seq<char>, p: Seq<char>) -> Seq<
    Seq<char>,
> {
    let i = slot_index(slots, t, c, p);
    if i >= 0 {
        slots[i].dids
    } else {
        Seq::empty()
    }
}

pub open spec fn record_index(
    recs: Seq<RecordModel>,
    did: Seq<char>,
    c: Seq<char>,
    rkey: Seq<char>,
) -> int {
    first_where(recs.len(), record_pred(recs, did, c, rkey))
}

pub open spec fn record_pred(
    recs: Seq<RecordModel>,
    did: Seq<char>,
    c: Seq<char>,
    rkey: Seq<char>,
) -> spec_fn(int) -> bool {
    |j: int| recs[j].did == did && recs[j].collection == c && recs[j].rkey == rkey
}

/// The links stored for record `(did, c, rkey)`, if it is known.
pub open spec fn record_links(
    recs: Seq<RecordModel>,
    did: Seq<char>,
    c: Seq<char>,
    rkey: Seq<char>,
) -> Option<Seq<LinkModel>> {
    let i = record_index(recs, did, c, rkey);
    if i >= 0 {
        Some(recs[i].links)
    } else {
        None
    }
}

pub open spec fn account_index(accts: Seq<(Seq<char>, bool)>, did: Seq<char>) -> int {
    first_where(accts.len(), account_pred(accts, did))
}

pub open spec fn account_pred(accts: Seq<(Seq<char>, bool)>, did: Seq<char>) -> spec_fn(int) -> bool {
    |j: int| accts[j].0 == did
}

/// The active flag of account `did`, if it is known.
pub open spec fn account_flag(accts: Seq<(Seq<char>, bool)>, did: Seq<char>) -> Option<bool> {
    let i = account_index(accts, did);
    if i >= 0 {
        Some(accts[i].1)
    } else {
        None
    }
}

/// The forward index after appending `links` to record `(did, c, rkey)`.
pub open spec fn add_records(
    recs: Seq<RecordModel>,
    did: Seq<char>,
    c: Seq<char>,
    rkey: Seq<char>,
    links: Seq<LinkModel>,
) -> Seq<RecordModel> {
    if links.len() == 0 {
        recs
    } else {
        let i = record_index(recs, did, c, rkey);
        if i >= 0 {
            recs.update(i, RecordModel { links: recs[i].links + links, ..recs[i] })
        } else {
            recs.push(RecordModel { did, collection: c, rkey, links })
        }
    }
}

/// The forward index without record `(did, c, rkey)`.
pub open spec fn remove_record(
    recs: Seq<RecordModel>,
    did: Seq<char>,
    c: Seq<char>,
    rkey: Seq<char>,
) -> Seq<RecordModel> {
    let i = record_index(recs, did, c, rkey);
    if i >= 0 {
        recs.remove(i)
    } else {
        recs
    }
}

/// `dids` without any entry equal to `x`.
pub open spec fn without_did(dids: Seq<Seq<char>>, x: Seq<char>) -> Seq<Seq<char>>
    decreases dids.len(),
{
    if dids.len() == 0 {
        dids
    } else if dids.last() == x {
        without_did(dids.drop_last(), x)
    } else {
        without_did(dids.drop_last(), x).push(dids.last())
    }
}

/// `recs` without the records of account `x`.
pub open spec fn records_without(recs: Seq<RecordModel>, x: Seq<char>) -> Seq<RecordModel>
    decreases recs.len(),
{
    if recs.len() == 0 {
        recs
    } else if recs.last().did == x {
        records_without(recs.drop_last(), x)
    } else {
        records_without(recs.drop_last(), x).push(recs.last())
    }
}

/// `accts` without the entries of account `x`.
pub open spec fn accounts_without(accts: Seq<(Seq<char>, bool)>, x: Seq<char>) -> Seq<
    (Seq<char>, bool),
>
    decreases accts.len(),
{
    if accts.len() == 0 {
        accts
    } else if accts.last().0 == x {
        accounts_without(accts.drop_last(), x)
    } else {
        accounts_without(accts.drop_last(), x).push(accts.last())
    }
}


pub proof fn lemma_count_did_push(s: Seq<Seq<char>>, x: Seq<char>, d: Option<Seq<char>>)
    ensures
        count_did(s.push(x), d) == count_did(s, d) + if did_matches(x, d) {
            1nat
        } else {
            0nat
        },
{
    assert(s.push(x).drop_last() =~= s);
}

pub proof fn lemma_count_did_remove(s: Seq<Seq<char>>, i: int, d: Option<Seq<char>>)
    requires
        0 <= i < s.len(),
    ensures
        count_did(s.remove(i), d) + (if did_matches(s[i], d) {
            1nat
        } else {
            0nat
        }) == count_did(s, d),
    decreases s.len(),
{
    if i == s.len() - 1 {
        assert(s.remove(i) =~= s.drop_last());
    } else {
        assert(s.remove(i).drop_last() =~= s.drop_last().remove(i));
        lemma_count_did_remove(s.drop_last(), i, d);
    }
}

/// An account that is counted in `s` occurs in it.
pub proof fn lemma_count_did_occurs(s: Seq<Seq<char>>, x: Seq<char>)
    requires
        count_did(s, Some(x)) > 0,
    ensures
        exists|j: int| 0 <= j < s.len() && s[j] == x,
    decreases s.len(),
{
    if s.last() != x {
        lemma_count_did_occurs(s.drop_last(), x);
        let j = choose|j: int| 0 <= j < s.drop_last().len() && s.drop_last()[j] == x;
        assert(s[j] == x);
    }
}

pub proof fn lemma_count_did_le_len(s: Seq<Seq<char>>, d: Option<Seq<char>>)
    ensures
        count_did(s, None) == s.len(),
        count_did(s, d) <= s.len(),
    decreases s.len(),
{
    if s.len() > 0 {
        lemma_count_did_le_len(s.drop_last(), d);
    }
}

pub proof fn lemma_count_link_push(links: Seq<LinkModel>, l: LinkModel, p: Seq<char>, t: Seq<char>)
    ensures
        count_link(links.push(l), p, t) == count_link(links, p, t) + if l == (p, t) {
            1nat
        } else {
            0nat
        },
{
    assert(links.push(l).drop_last() =~= links);
}

pub proof fn lemma_count_link_concat(
    a: Seq<LinkModel>,
    b: Seq<LinkModel>,
    p: Seq<char>,
    t: Seq<char>,
)
    ensures
        count_link(a + b, p, t) == count_link(a, p, t) + count_link(b, p, t),
    decreases b.len(),
{
    if b.len() == 0 {
        assert(a + b =~= a);
    } else {
        assert((a + b).drop_last() =~= a + b.drop_last());
        lemma_count_link_concat(a, b.drop_last(), p, t);
    }
}

pub proof fn lemma_tally_push(
    recs: Seq<RecordModel>,
    r: RecordModel,
    d: Option<Seq<char>>,
    t: Seq<char>,
    c: Seq<char>,
    p: Seq<char>,
)
    ensures
        tally(recs.push(r), d, t, c, p) == tally(recs, d, t, c, p) + contribution(r, d, t, c, p),
{
    assert(recs.push(r).drop_last() =~= recs);
}

pub proof fn lemma_tally_update(
    recs: Seq<RecordModel>,
    i: int,
    r: RecordModel,
    d: Option<Seq<char>>,
    t: Seq<char>,
    c: Seq<char>,
    p: Seq<char>,
)
    requires
        0 <= i < recs.len(),
    ensures
        tally(recs.update(i, r), d, t, c, p) + contribution(recs[i], d, t, c, p) == tally(
            recs,
            d,
            t,
            c,
            p,
        ) + contribution(r, d, t, c, p),
    decreases recs.len(),
{
    if i == recs.len() - 1 {
        assert(recs.update(i, r).drop_last() =~= recs.drop_last());
    } else {
        assert(recs.update(i, r).drop_last() =~= recs.drop_last().update(i, r));
        lemma_tally_update(recs.drop_last(), i, r, d, t, c, p);
    }
}

pub proof fn lemma_tally_remove(
    recs: Seq<RecordModel>,
    i: int,
    d: Option<Seq<char>>,
    t: Seq<char>,
    c: Seq<char>,
    p: Seq<char>,
)
    requires
        0 <= i < recs.len(),
    ensures
        tally(recs.remove(i), d, t, c, p) + contribution(recs[i], d, t, c, p) == tally(
            recs,
            d,
            t,
            c,
            p,
        ),
    decreases recs.len(),
{
    if i == recs.len() - 1 {
        assert(recs.remove(i) =~= recs.drop_last());
    } else {
        assert(recs.remove(i).drop_last() =~= recs.drop_last().remove(i));
        lemma_tally_remove(recs.drop_last(), i, d, t, c, p);
    }
}

pub proof fn lemma_without_did(s: Seq<Seq<char>>, x: Seq<char>, d: Option<Seq<char>>)
    ensures
        count_did(without_did(s, x), d) + (if did_matches(x, d) {
            count_did(s, Some(x))
        } else {
            0
        }) == count_did(s, d),
        forall|j: int| 0 <= j < without_did(s, x).len() ==> without_did(s, x)[j] != x,
    decreases s.len(),
{
    if s.len() > 0 {
        lemma_without_did(s.drop_last(), x, d);
        let w = without_did(s.drop_last(), x);
        if s.last() != x {
            lemma_count_did_push(w, s.last(), d);
            assert(w.push(s.last()).drop_last() =~= w);
        }
    }
}

pub proof fn lemma_records_without(
    recs: Seq<RecordModel>,
    x: Seq<char>,
    d: Option<Seq<char>>,
    t: Seq<char>,
    c: Seq<char>,
    p: Seq<char>,
)
    ensures
        tally(records_without(recs, x), d, t, c, p) + (if did_matches(x, d) {
            tally(recs, Some(x), t, c, p)
        } else {
            0
        }) == tally(recs, d, t, c, p),
        forall|j: int|
            0 <= j < records_without(recs, x).len() ==> records_without(recs, x)[j].did != x,
        forall|j: int|
            0 <= j < records_without(recs, x).len() ==> exists|k: int|
                0 <= k < recs.len() && recs[k] == #[trigger] records_without(recs, x)[j],
    decreases recs.len(),
{
    if recs.len() > 0 {
        let rest = recs.drop_last();
        lemma_records_without(rest, x, d, t, c, p);
        let w = records_without(rest, x);
        if recs.last().did != x {
            lemma_tally_push(w, recs.last(), d, t, c, p);
            assert forall|j: int|
                0 <= j < w.push(recs.last()).len() implies exists|k: int|
                0 <= k < recs.len() && recs[k] == #[trigger] w.push(recs.last())[j] by {
                if j == w.len() {
                    assert(recs[recs.len() - 1] == w.push(recs.last())[j]);
                } else {
                    let k = choose|k: int| 0 <= k < rest.len() && rest[k] == w[j];
                    assert(recs[k] == w.push(recs.last())[j]);
                }
            }
        } else {
            assert forall|j: int| 0 <= j < w.len() implies exists|k: int|
                0 <= k < recs.len() && recs[k] == #[trigger] w[j] by {
                let k = choose|k: int| 0 <= k < rest.len() && rest[k] == w[j];
                assert(recs[k] == w[j]);
            }
        }
    }
}

/// Every entry of an account other than `x` survives in `accounts_without(accts, x)`.
pub proof fn lemma_accounts_without(accts: Seq<(Seq<char>, bool)>, x: Seq<char>, j: int)
    requires
        0 <= j < accts.len(),
        accts[j].0 != x,
    ensures
        exists|k: int|
            0 <= k < accounts_without(accts, x).len() && accounts_without(accts, x)[k] == accts[j],
    decreases accts.len(),
{
    let rest = accts.drop_last();
    let w = accounts_without(rest, x);
    assert(accts.last() == accts[accts.len() - 1]);
    if j == accts.len() - 1 {
        assert(accounts_without(accts, x) == w.push(accts.last()));
        assert(accounts_without(accts, x)[w.len() as int] == accts[j]);
    } else {
        lemma_accounts_without(rest, x, j);
        let k = choose|k: int| 0 <= k < w.len() && w[k] == rest[j];
        if accts.last().0 != x {
            assert(accounts_without(accts, x) == w.push(accts.last()));
            assert(accounts_without(accts, x)[k] == accts[j]);
        } else {
            assert(accounts_without(accts, x) == w);
        }
    }
}

pub proof fn lemma_accounts_without_none(accts: Seq<(Seq<char>, bool)>, x: Seq<char>)
    ensures
        forall|j: int|
            0 <= j < accounts_without(accts, x).len() ==> accounts_without(accts, x)[j].0 != x,
    decreases accts.len(),
{
    if accts.len() > 0 {
        let w = accounts_without(accts.drop_last(), x);
        lemma_accounts_without_none(accts.drop_last(), x);
        if accts.last().0 != x {
            assert(accounts_without(accts, x) == w.push(accts.last()));
        } else {
            assert(accounts_without(accts, x) == w);
        }
    }
}


/// Replacing a slot by one with the same key changes only what is listed under that key.
pub proof fn lemma_slot_update(slots: Seq<SlotModel>, i: int, s2: SlotModel)
    requires
        0 <= i < slots.len(),
        slots[i].target == s2.target,
        slots[i].collection == s2.collection,
        slots[i].path == s2.path,
        slot_index(slots, s2.target, s2.collection, s2.path) == i,
    ensures
        forall|t: Seq<char>, c: Seq<char>, p: Seq<char>|
            #[trigger] slot_dids(slots.update(i, s2), t, c, p) == if t == s2.target && c
                == s2.collection && p == s2.path {
                s2.dids
            } else {
                slot_dids(slots, t, c, p)
            },
{
    let n = slots.update(i, s2);
    assert forall|t: Seq<char>, c: Seq<char>, p: Seq<char>|
        #[trigger] slot_dids(n, t, c, p) == if t == s2.target && c == s2.collection && p
            == s2.path {
            s2.dids
        } else {
            slot_dids(slots, t, c, p)
        } by {
        let p1 = slot_pred(slots, t, c, p);
        let p2 = slot_pred(n, t, c, p);
        lemma_first_where_agree(slots.len(), p1, p2);
        lemma_first_where(slots.len(), p1);
        let r = first_where(slots.len(), p1);
        if r >= 0 {
            assert(n[r] == slots[r] || r == i);
        }
    }
}

/// Appending a slot under a new key lists its accounts under that key alone.
pub proof fn lemma_slot_push(slots: Seq<SlotModel>, s2: SlotModel)
    requires
        slot_index(slots, s2.target, s2.collection, s2.path) == -1,
    ensures
        forall|t: Seq<char>, c: Seq<char>, p: Seq<char>|
            #[trigger] slot_dids(slots.push(s2), t, c, p) == if t == s2.target && c
                == s2.collection && p == s2.path {
                s2.dids
            } else {
                slot_dids(slots, t, c, p)
            },
{
    let n = slots.push(s2);
    assert forall|t: Seq<char>, c: Seq<char>, p: Seq<char>|
        #[trigger] slot_dids(n, t, c, p) == if t == s2.target && c == s2.collection && p
            == s2.path {
            s2.dids
        } else {
            slot_dids(slots, t, c, p)
        } by {
        let p1 = slot_pred(slots, t, c, p);
        let p2 = slot_pred(n, t, c, p);
        lemma_first_where_agree(slots.len(), p1, p2);
        lemma_first_where(slots.len(), p1);
        lemma_first_where_push(slots.len(), p2);
        assert(n.len() == (slots.len() + 1) as nat);
        assert(n[slots.len() as int] == s2);
        assert(slot_index(n, t, c, p) == first_where(n.len(), p2));
        assert(slot_index(slots, t, c, p) == first_where(slots.len(), p1));
        if t == s2.target && c == s2.collection && p == s2.path {
            assert(p2(slots.len() as int));
            assert(first_where(slots.len(), p1) == -1);
            assert(slot_index(n, t, c, p) == slots.len());
            assert(slot_dids(n, t, c, p) == s2.dids);
        } else {
            assert(!p2(slots.len() as int));
            let r = first_where(slots.len(), p1);
            if r >= 0 {
                assert(n[r] == slots[r]);
            }
            assert(slot_index(n, t, c, p) == r);
            assert(slot_dids(n, t, c, p) == slot_dids(slots, t, c, p));
        }
    }
}

/// Replacing a record by one with the same key keeps every record's index.
pub proof fn lemma_record_update(recs: Seq<RecordModel>, i: int, r2: RecordModel)
    requires
        0 <= i < recs.len(),
        recs[i].did == r2.did,
        recs[i].collection == r2.collection,
        recs[i].rkey == r2.rkey,
    ensures
        forall|did: Seq<char>, c: Seq<char>, k: Seq<char>|
            #[trigger] record_index(recs.update(i, r2), did, c, k) == record_index(
                recs,
                did,
                c,
                k,
            ),
{
    let n = recs.update(i, r2);
    assert forall|did: Seq<char>, c: Seq<char>, k: Seq<char>|
        #[trigger] record_index(n, did, c, k) == record_index(recs, did, c, k) by {
        let p1 = record_pred(recs, did, c, k);
        let p2 = record_pred(n, did, c, k);
        lemma_first_where_agree(recs.len(), p1, p2);
    }
}

/// A record appended under a new key is found at the end.
pub proof fn lemma_record_push(recs: Seq<RecordModel>, r2: RecordModel)
    requires
        record_index(recs, r2.did, r2.collection, r2.rkey) == -1,
    ensures
        record_index(recs.push(r2), r2.did, r2.collection, r2.rkey) == recs.len(),
{
    let n = recs.push(r2);
    let p1 = record_pred(recs, r2.did, r2.collection, r2.rkey);
    let p2 = record_pred(n, r2.did, r2.collection, r2.rkey);
    lemma_first_where(recs.len(), p1);
    lemma_first_where_agree(recs.len(), p1, p2);
    assert forall|j: int| 0 <= j < recs.len() implies !#[trigger] p2(j) by {
        assert(!p1(j));
        assert(n[j] == recs[j]);
    }
    lemma_first_where_is(n.len(), p2, recs.len() as int);
}

/// Adding links in two steps is adding them at once.
pub proof fn lemma_add_records_step(
    recs: Seq<RecordModel>,
    did: Seq<char>,
    c: Seq<char>,
    rkey: Seq<char>,
    a: Seq<LinkModel>,
    l: LinkModel,
)
    ensures
        add_records(add_records(recs, did, c, rkey, a), did, c, rkey, seq![l]) == add_records(
            recs,
            did,
            c,
            rkey,
            a.push(l),
        ),
{
    let i = record_index(recs, did, c, rkey);
    lemma_first_where(recs.len(), record_pred(recs, did, c, rkey));
    if a.len() == 0 {
        assert(a.push(l) =~= seq![l]);
    } else if i >= 0 {
        let r2 = RecordModel { links: recs[i].links + a, ..recs[i] };
        lemma_record_update(recs, i, r2);
        assert(record_index(recs.update(i, r2), did, c, rkey) == i);
        assert(recs[i].links + a + seq![l] =~= recs[i].links + a.push(l));
        assert(recs.update(i, r2).update(i, RecordModel { links: r2.links + seq![l], ..r2 })
            =~= recs.update(i, RecordModel { links: recs[i].links + a.push(l), ..recs[i] }));
    } else {
        let r2 = RecordModel { did, collection: c, rkey, links: a };
        lemma_record_push(recs, r2);
        assert(a + seq![l] =~= a.push(l));
        assert(recs.push(r2).update(recs.len() as int, RecordModel { links: a + seq![l], ..r2 })
            =~= recs.push(RecordModel { did, collection: c, rkey, links: a.push(l) }));
    }
}

pub proof fn lemma_count_link_single(l: LinkModel, p: Seq<char>, t: Seq<char>)
    ensures
        count_link(seq![l], p, t) == if l == (p, t) {
            1nat
        } else {
            0nat
        },
{
    assert(seq![l].drop_last() =~= Seq::<LinkModel>::empty());
    assert(count_link(Seq::<LinkModel>::empty(), p, t) == 0);
}


/// Appending an account entry leaves every known account's entry where it was.
pub proof fn lemma_account_push(accts: Seq<(Seq<char>, bool)>, x: (Seq<char>, bool))
    ensures
        forall|y: Seq<char>|
            #[trigger] account_index(accts.push(x), y) == if account_index(accts, y) >= 0 {
                account_index(accts, y)
            } else if x.0 == y {
                accts.len() as int
            } else {
                -1
            },
{
    let n = accts.push(x);
    assert forall|y: Seq<char>|
        #[trigger] account_index(n, y) == if account_index(accts, y) >= 0 {
            account_index(accts, y)
        } else if x.0 == y {
            accts.len() as int
        } else {
            -1
        } by {
        let p1 = account_pred(accts, y);
        let p2 = account_pred(n, y);
        lemma_first_where_agree(accts.len(), p1, p2);
        lemma_first_where_push(accts.len(), p2);
        assert(n.len() == (accts.len() + 1) as nat);
        assert(n[accts.len() as int] == x);
    }
}


/// No value occurs twice in `s`.
pub open spec fn no_dups<K>(s: Seq<K>) -> bool {
    forall|i: int, j: int| 0 <= i < j < s.len() ==> s[i] != s[j]
}

/// The key of each slot: `(target, collection, path)`.
pub open spec fn slot_keys(slots: Seq<SlotModel>) -> Seq<(Seq<char>, Seq<char>, Seq<char>)> {
    slots.map_values(|s: SlotModel| (s.target, s.collection, s.path))
}

/// The key of each record: `(did, collection, rkey)`.
pub open spec fn record_keys(recs: Seq<RecordModel>) -> Seq<(Seq<char>, Seq<char>, Seq<char>)> {
    recs.map_values(|r: RecordModel| (r.did, r.collection, r.rkey))
}

/// The account of each entry.
pub open spec fn account_keys(accts: Seq<(Seq<char>, bool)>) -> Seq<Seq<char>> {
    accts.map_values(|a: (Seq<char>, bool)| a.0)
}

pub proof fn lemma_no_dups_push<K>(s: Seq<K>, x: K)
    requires
        no_dups(s),
        forall|i: int| 0 <= i < s.len() ==> s[i] != x,
    ensures
        no_dups(s.push(x)),
{
    assert forall|i: int, j: int| 0 <= i < j < s.push(x).len() implies s.push(x)[i] != s.push(
        x,
    )[j] by {
        if j == s.len() {
            assert(s.push(x)[i] == s[i]);
        } else {
            assert(s.push(x)[i] == s[i] && s.push(x)[j] == s[j]);
        }
    }
}

pub proof fn lemma_no_dups_remove<K>(s: Seq<K>, k: int)
    requires
        no_dups(s),
        0 <= k < s.len(),
    ensures
        no_dups(s.remove(k)),
        forall|i: int| 0 <= i < s.remove(k).len() ==> s.remove(k)[i] != s[k],
{
    let r = s.remove(k);
    assert forall|i: int, j: int| 0 <= i < j < r.len() implies r[i] != r[j] by {
        let a = if i < k { i } else { i + 1 };
        let b = if j < k { j } else { j + 1 };
        assert(r[i] == s[a] && r[j] == s[b]);
    }
    assert forall|i: int| 0 <= i < r.len() implies r[i] != s[k] by {
        let a = if i < k { i } else { i + 1 };
        assert(r[i] == s[a]);
    }
}

pub proof fn lemma_records_without_keys(recs: Seq<RecordModel>, x: Seq<char>)
    requires
        no_dups(record_keys(recs)),
    ensures
        no_dups(record_keys(records_without(recs, x))),
    decreases recs.len(),
{
    if recs.len() > 0 {
        let rest = recs.drop_last();
        assert(record_keys(rest) =~= record_keys(recs).drop_last());
        lemma_records_without_keys(rest, x);
        let w = records_without(rest, x);
        if recs.last().did != x {
            lemma_records_without(rest, x, None, Seq::empty(), Seq::empty(), Seq::empty());
            let l = recs.last();
            assert forall|i: int| 0 <= i < record_keys(w).len() implies record_keys(w)[i] != (
                l.did,
                l.collection,
                l.rkey,
            ) by {
                let k = choose|k: int| 0 <= k < rest.len() && rest[k] == #[trigger] w[i];
                assert(record_keys(recs)[k] == record_keys(w)[i]);
                assert(record_keys(recs)[recs.len() - 1] == (l.did, l.collection, l.rkey));
            }
            lemma_no_dups_push(record_keys(w), (l.did, l.collection, l.rkey));
            assert(record_keys(w.push(l)) =~= record_keys(w).push((l.did, l.collection, l.rkey)));
        }
    }
}

/// Every entry of `accounts_without(accts, x)` is an entry of `accts`.
pub proof fn lemma_accounts_without_from(accts: Seq<(Seq<char>, bool)>, x: Seq<char>)
    ensures
        forall|j: int|
            0 <= j < accounts_without(accts, x).len() ==> exists|k: int|
                0 <= k < accts.len() && accts[k] == #[trigger] accounts_without(accts, x)[j],
    decreases accts.len(),
{
    if accts.len() > 0 {
        let rest = accts.drop_last();
        lemma_accounts_without_from(rest, x);
        let w = accounts_without(rest, x);
        if accts.last().0 != x {
            assert(accounts_without(accts, x) == w.push(accts.last()));
            assert forall|j: int| 0 <= j < w.push(accts.last()).len() implies exists|k: int|
                0 <= k < accts.len() && accts[k] == #[trigger] w.push(accts.last())[j] by {
                if j == w.len() {
                    assert(accts[accts.len() - 1] == w.push(accts.last())[j]);
                } else {
                    let k = choose|k: int| 0 <= k < rest.len() && rest[k] == w[j];
                    assert(accts[k] == w.push(accts.last())[j]);
                }
            }
        } else {
            assert(accounts_without(accts, x) == w);
            assert forall|j: int| 0 <= j < w.len() implies exists|k: int|
                0 <= k < accts.len() && accts[k] == #[trigger] w[j] by {
                let k = choose|k: int| 0 <= k < rest.len() && rest[k] == w[j];
                assert(accts[k] == w[j]);
            }
        }
    }
}

pub proof fn lemma_accounts_without_keys(accts: Seq<(Seq<char>, bool)>, x: Seq<char>)
    requires
        no_dups(account_keys(accts)),
    ensures
        no_dups(account_keys(accounts_without(accts, x))),
    decreases accts.len(),
{
    if accts.len() > 0 {
        let rest = accts.drop_last();
        assert(account_keys(rest) =~= account_keys(accts).drop_last());
        lemma_accounts_without_keys(rest, x);
        let w = accounts_without(rest, x);
        if accts.last().0 != x {
            lemma_accounts_without_from(rest, x);
            let l = accts.last();
            assert forall|i: int| 0 <= i < account_keys(w).len() implies account_keys(w)[i]
                != l.0 by {
                let k = choose|k: int| 0 <= k < rest.len() && rest[k] == #[trigger] w[i];
                assert(account_keys(accts)[k] == account_keys(w)[i]);
                assert(account_keys(accts)[accts.len() - 1] == l.0);
            }
            lemma_no_dups_push(account_keys(w), l.0);
            assert(accounts_without(accts, x) == w.push(l));
            assert(account_keys(w.push(l)) =~= account_keys(w).push(l.0));
        } else {
            assert(accounts_without(accts, x) == w);
        }
    }
}

} // verus!
