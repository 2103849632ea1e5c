use vstd::prelude::*;
use vstd::string::StringExecFns;

use crate::lookup::{lemma_first_where, lemma_first_where_agree, lemma_first_where_is};
use crate::model::{links_model, ActionableEvent, CollectedLink, Did, RecordId};
use crate::tally::{
    account_keys, lemma_accounts_without_keys, lemma_no_dups_push, lemma_no_dups_remove,
    lemma_records_without_keys, no_dups, record_keys, slot_keys,
    account_flag, account_index, account_pred, add_records, contribution, count_did, count_link,
    did_matches, lemma_count_did_le_len, lemma_count_did_occurs, lemma_count_did_remove,
    lemma_tally_remove, remove_record, records_without, accounts_without, without_did,
    lemma_without_did, lemma_records_without, lemma_accounts_without, lemma_accounts_without_none, lemma_account_push, lemma_add_records_step, lemma_count_did_push,
    lemma_count_link_concat, lemma_count_link_push, lemma_count_link_single, lemma_record_push, lemma_record_update,
    lemma_slot_push, lemma_slot_update, lemma_tally_push, lemma_tally_update, record_index,
    record_links, record_pred, slot_dids, slot_index, slot_pred, tally, LinkModel, RecordModel,
    SlotModel,
};

verus! {

/// The value a link points at.
#[derive(Debug, Clone, PartialEq, Eq)]
pub struct Target(pub String);

impl Target {
    pub fn new(t: &str) -> (r: Self)
        ensures
            r.0@ == t@,
    {
        Target(String::from_str(t))
    }
}

/// A kind of link slot: a collection and a path within its records.
#[derive(Debug, Clone, PartialEq, Eq)]
pub struct Source {
    pub collection: String,
    pub path: String,
}

impl Source {
    pub fn new(collection: &str, path: &str) -> (r: Self)
        ensures
            r.collection@ == collection@,
            r.path@ == path@,
    {
        Source { collection: String::from_str(collection), path: String::from_str(path) }
    }
}

/// A record within one account's repository.
#[derive(Debug, Clone, PartialEq, Eq)]
pub struct RepoId {
    pub collection: String,
    pub rkey: String,
}

impl RepoId {
    pub fn from_record_id(record_id: &RecordId) -> (r: Self)
        ensures
            r.collection@ == record_id.collection@,
            r.rkey@ == record_id.rkey@,
    {
        RepoId { collection: record_id.collection.clone(), rkey: record_id.rkey.clone() }
    }
}

/// Where a link sits within a record.
#[derive(Debug, Clone, PartialEq, Eq)]
pub struct RecordPath(pub String);

impl RecordPath {
    pub fn new(rp: &str) -> (r: Self)
        ensures
            r.0@ == rp@,
    {
        RecordPath(String::from_str(rp))
    }
}

/// The accounts that link to one target from one source, one entry per link.
struct TargetSlot {
    target: Target,
    source: Source,
    dids: Vec<Did>,
}

/// The links of one record, in the order they were added.
struct RecordLinks {
    did: Did,
    repo_id: RepoId,
    links: Vec<(RecordPath, Target)>,
}

pub open spec fn dids_model(v: Seq<Did>) -> Seq<Seq<char>> {
    v.map_values(|d: Did| d@)
}

pub open spec fn pairs_model(v: Seq<(RecordPath, Target)>) -> Seq<LinkModel> {
    v.map_values(|l: (RecordPath, Target)| (l.0.0@, l.1.0@))
}

/// Slot `s` without any entry of account `x`.
pub open spec fn purged_slot(s: SlotModel, x: Seq<char>) -> SlotModel {
    SlotModel { target: s.target, collection: s.collection, path: s.path, dids: without_did(s.dids, x) }
}

impl TargetSlot {
    spec fn model(&self) -> SlotModel {
        SlotModel {
            target: self.target.0@,
            collection: self.source.collection@,
            path: self.source.path@,
            dids: dids_model(self.dids@),
        }
    }
}

impl RecordLinks {
    spec fn model(&self) -> RecordModel {
        RecordModel {
            did: self.did@,
            collection: self.repo_id.collection@,
            rkey: self.repo_id.rkey@,
            links: pairs_model(self.links@),
        }
    }
}

/// The in-memory link index: known accounts, the reverse index from targets to the
/// accounts linking to them, and the forward index from accounts to their records' links.
/// Each mapping is a vector of entries keyed as in the index, searched from the front.
pub struct MemStorage {
    dids: Vec<(Did, bool)>,
    targets: Vec<TargetSlot>,
    links: Vec<RecordLinks>,
}

impl MemStorage {
    /// The reverse index: one slot per `(target, collection, path)`.
    pub closed spec fn slots(&self) -> Seq<SlotModel> {
        self.targets@.map_values(|s: TargetSlot| s.model())
    }

    /// The forward index: one entry per record.
    pub closed spec fn records(&self) -> Seq<RecordModel> {
        self.links@.map_values(|r: RecordLinks| r.model())
    }

    /// Known accounts and their active flags.
    pub closed spec fn accounts(&self) -> Seq<(Seq<char>, bool)> {
        self.dids@.map_values(|a: (Did, bool)| (a.0@, a.1))
    }

    /// How many links of collection `c` at path `p` point at `t`.
    pub open spec fn count_of(&self, t: Seq<char>, c: Seq<char>, p: Seq<char>) -> nat {
        slot_dids(self.slots(), t, c, p).len()
    }

    /// The active flag of account `did`, if the index knows it.
    pub open spec fn account(&self, did: Seq<char>) -> Option<bool> {
        account_flag(self.accounts(), did)
    }

    /// The links stored for record `(did, c, rkey)`, if any.
    pub open spec fn record(&self, did: Seq<char>, c: Seq<char>, rkey: Seq<char>) -> Option<
        Seq<LinkModel>,
    > {
        record_links(self.records(), did, c, rkey)
    }

    /// The number of stored links of collection `c`, path `p` and target `t`, over all records.
    pub open spec fn stored_links(&self, t: Seq<char>, c: Seq<char>, p: Seq<char>) -> nat {
        tally(self.records(), None, t, c, p)
    }

    /// Whether account `did` appears anywhere in the index.
    pub open spec fn mentions(&self, did: Seq<char>) -> bool {
        (exists|i: int| 0 <= i < self.accounts().len() && #[trigger] self.accounts()[i].0 == did)
            || (exists|i: int|
            0 <= i < self.records().len() && #[trigger] self.records()[i].did == did) || (exists|
            i: int,
            j: int,
        |
            0 <= i < self.slots().len() && 0 <= j < self.slots()[i].dids.len()
                && #[trigger] self.slots()[i].dids[j] == did)
    }

    /// The two indexes agree link for link, per account; every account with records is
    /// known; and no slot, record or account key occurs twice.
    pub closed spec fn wf(&self) -> bool {
        &&& forall|d: Option<Seq<char>>, t: Seq<char>, c: Seq<char>, p: Seq<char>|
            #![trigger count_did(slot_dids(self.slots(), t, c, p), d)]
            #![trigger tally(self.records(), d, t, c, p)]
            count_did(slot_dids(self.slots(), t, c, p), d) == tally(self.records(), d, t, c, p)
        &&& forall|i: int|
            0 <= i < self.records().len() ==> account_index(
                self.accounts(),
                #[trigger] self.records()[i].did,
            ) >= 0
        &&& no_dups(slot_keys(self.slots()))
        &&& no_dups(record_keys(self.records()))
        &&& no_dups(account_keys(self.accounts()))
    }

    /// An empty index.
    pub fn new() -> (r: Self)
        ensures
            r.wf(),
            r.slots().len() == 0,
            r.records().len() == 0,
            r.accounts().len() == 0,
    {
        let r = MemStorage { dids: Vec::new(), targets: Vec::new(), links: Vec::new() };
        proof {
            assert(r.slots() =~= Seq::<SlotModel>::empty());
            assert(r.records() =~= Seq::<RecordModel>::empty());
        }
        r
    }

    fn find_slot(&self, target: &Target, source: &Source) -> (r: Option<usize>)
        ensures
            match r {
                Some(i) => i < self.targets@.len() && i == slot_index(
                    self.slots(),
                    target.0@,
                    source.collection@,
                    source.path@,
                ),
                None => slot_index(self.slots(), target.0@, source.collection@, source.path@)
                    == -1,
            },
    {
        let ghost pred = slot_pred(self.slots(), target.0@, source.collection@, source.path@);
        let mut i: usize = 0;
        while i < self.targets.len()
            invariant
                i <= self.targets@.len(),
                pred == slot_pred(self.slots(), target.0@, source.collection@, source.path@),
                forall|j: int| 0 <= j < i ==> !#[trigger] pred(j),
            decreases self.targets@.len() - i,
        {
            let s = &self.targets[i];
            if s.target.0 == target.0 && s.source.collection == source.collection && s.source.path
                == source.path {
                proof {
                    lemma_first_where_is(self.slots().len(), pred, i as int);
                }
                return Some(i);
            }
            i += 1;
        }
        proof {
            lemma_first_where(self.slots().len(), pred);
        }
        None
    }

    fn find_record(&self, did: &Did, repo_id: &RepoId) -> (r: Option<usize>)
        ensures
            match r {
                Some(i) => i < self.links@.len() && i == record_index(
                    self.records(),
                    did@,
                    repo_id.collection@,
                    repo_id.rkey@,
                ),
                None => record_index(self.records(), did@, repo_id.collection@, repo_id.rkey@)
                    == -1,
            },
    {
        let ghost pred = record_pred(self.records(), did@, repo_id.collection@, repo_id.rkey@);
        let mut i: usize = 0;
        while i < self.links.len()
            invariant
                i <= self.links@.len(),
                pred == record_pred(self.records(), did@, repo_id.collection@, repo_id.rkey@),
                forall|j: int| 0 <= j < i ==> !#[trigger] pred(j),
            decreases self.links@.len() - i,
        {
            let r = &self.links[i];
            if r.did == *did && r.repo_id.collection == repo_id.collection && r.repo_id.rkey
                == repo_id.rkey {
                proof {
                    lemma_first_where_is(self.records().len(), pred, i as int);
                }
                return Some(i);
            }
            i += 1;
        }
        proof {
            lemma_first_where(self.records().len(), pred);
        }
        None
    }

    fn find_account(&self, did: &Did) -> (r: Option<usize>)
        ensures
            match r {
                Some(i) => i < self.dids@.len() && i == account_index(self.accounts(), did@),
                None => account_index(self.accounts(), did@) == -1,
            },
    {
        let ghost pred = account_pred(self.accounts(), did@);
        let mut i: usize = 0;
        while i < self.dids.len()
            invariant
                i <= self.dids@.len(),
                pred == account_pred(self.accounts(), did@),
                forall|j: int| 0 <= j < i ==> !#[trigger] pred(j),
            decreases self.dids@.len() - i,
        {
            if self.dids[i].0 == *did {
                proof {
                    lemma_first_where_is(self.accounts().len(), pred, i as int);
                }
                return Some(i);
            }
            i += 1;
        }
        proof {
            lemma_first_where(self.accounts().len(), pred);
        }
        None
    }

    /// Records one link of `record_id`: the account becomes known (as active) if it
    /// was not, the account is listed once more under the link's slot, and the link is
    /// appended to the record.
    fn add_link(&mut self, record_id: &RecordId, link: &CollectedLink)
        requires
            old(self).wf(),
        ensures
            final(self).wf(),
            final(self).records() == add_records(
                old(self).records(),
                record_id.did@,
                record_id.collection@,
                record_id.rkey@,
                seq![link.model()],
            ),
            final(self).accounts() == if account_index(old(self).accounts(), record_id.did@)
                >= 0 {
                old(self).accounts()
            } else {
                old(self).accounts().push((record_id.did@, true))
            },
            forall|t: Seq<char>, c: Seq<char>, p: Seq<char>|
                #[trigger] slot_dids(final(self).slots(), t, c, p) == if t == link.target@ && c
                    == record_id.collection@ && p == link.path@ {
                    slot_dids(old(self).slots(), t, c, p).push(record_id.did@)
                } else {
                    slot_dids(old(self).slots(), t, c, p)
                },
    {
        let ghost old_slots = self.slots();
        let ghost old_recs = self.records();
        let ghost old_accts = self.accounts();
        let did = record_id.did();
        match self.find_account(&did) {
            Some(_) => {},
            None => {
                self.dids.push((did.clone(), true));
                proof {
                    assert(self.accounts() =~= old_accts.push((did@, true)));
                    lemma_first_where(old_accts.len(), account_pred(old_accts, did@));
                    assert forall|i: int| 0 <= i < account_keys(old_accts).len() implies account_keys(
                        old_accts,
                    )[i] != did@ by {
                        assert(!account_pred(old_accts, did@)(i));
                    }
                    lemma_no_dups_push(account_keys(old_accts), did@);
                    assert(account_keys(self.accounts()) =~= account_keys(old_accts).push(did@));
                }
            },
        }
        proof {
            lemma_account_push(old_accts, (did@, true));
        }
        let ghost mid_accts = self.accounts();

        let target = Target::new(link.target.as_str());
        let source = Source::new(record_id.collection.as_str(), link.path.as_str());
        match self.find_slot(&target, &source) {
            Some(i) => {
                let ghost old_slot = self.targets@[i as int];
                proof {
                    assert(self.slots() == old_slots);
                    lemma_first_where(
                        old_slots.len(),
                        slot_pred(old_slots, target.0@, source.collection@, source.path@),
                    );
                }
                self.targets[i].dids.push(did.clone());
                proof {
                    let s2 = self.targets@[i as int].model();
                    assert(s2.dids =~= old_slot.model().dids.push(did@));
                    assert(self.slots() =~= old_slots.update(i as int, s2));
                    lemma_slot_update(old_slots, i as int, s2);
                    assert(slot_keys(self.slots()) =~= slot_keys(old_slots));
                }
            },
            None => {
                let mut dids = Vec::new();
                dids.push(did.clone());
                self.targets.push(TargetSlot { target, source, dids });
                proof {
                    let s2 = self.targets@.last().model();
                    assert(s2.dids =~= Seq::<Seq<char>>::empty().push(did@));
                    assert(self.slots() =~= old_slots.push(s2));
                    lemma_slot_push(old_slots, s2);
                    let k0 = (s2.target, s2.collection, s2.path);
                    lemma_first_where(old_slots.len(), slot_pred(old_slots, k0.0, k0.1, k0.2));
                    assert forall|i: int| 0 <= i < slot_keys(old_slots).len() implies slot_keys(
                        old_slots,
                    )[i] != k0 by {
                        assert(!slot_pred(old_slots, k0.0, k0.1, k0.2)(i));
                    }
                    lemma_no_dups_push(slot_keys(old_slots), k0);
                    assert(slot_keys(self.slots()) =~= slot_keys(old_slots).push(k0));
                }
            },
        }

        let repo_id = RepoId::from_record_id(record_id);
        let pair = (RecordPath::new(link.path.as_str()), Target::new(link.target.as_str()));
        let ghost l = link.model();
        let ghost r_new: RecordModel;
        let ghost r_old: RecordModel;
        let ghost ri: int;
        match self.find_record(&did, &repo_id) {
            Some(i) => {
                let ghost old_rec = self.links@[i as int];
                self.links[i].links.push(pair);
                proof {
                    let r2 = self.links@[i as int].model();
                    assert(r2.links =~= old_rec.model().links + seq![l]);
                    assert(self.links@[i as int].did == old_rec.did);
                    assert(self.links@[i as int].repo_id == old_rec.repo_id);
                    lemma_first_where(
                        old_recs.len(),
                        record_pred(old_recs, did@, repo_id.collection@, repo_id.rkey@),
                    );
                    assert(old_recs[i as int] == old_rec.model());
                    assert(self.records() =~= old_recs.update(i as int, r2));
                    lemma_record_update(old_recs, i as int, r2);
                    assert(record_keys(self.records()) =~= record_keys(old_recs));
                    r_new = r2;
                    r_old = old_rec.model();
                    ri = i as int;
                }
            },
            None => {
                let mut v = Vec::with_capacity(1);
                v.push(pair);
                self.links.push(RecordLinks { did: did, repo_id, links: v });
                proof {
                    let r2 = self.links@.last().model();
                    assert(r2.links =~= seq![l]);
                    assert(self.records() =~= old_recs.push(r2));
                    let k0 = (r2.did, r2.collection, r2.rkey);
                    lemma_first_where(old_recs.len(), record_pred(old_recs, k0.0, k0.1, k0.2));
                    assert forall|i: int| 0 <= i < record_keys(old_recs).len() implies record_keys(
                        old_recs,
                    )[i] != k0 by {
                        assert(!record_pred(old_recs, k0.0, k0.1, k0.2)(i));
                    }
                    lemma_no_dups_push(record_keys(old_recs), k0);
                    assert(record_keys(self.records()) =~= record_keys(old_recs).push(k0));
                    r_new = r2;
                    ri = -1;
                }
            },
        }
        proof {
            assert(self.accounts() == mid_accts);
            assert forall|d: Option<Seq<char>>, t: Seq<char>, c: Seq<char>, p: Seq<char>|
                count_did(slot_dids(self.slots(), t, c, p), d) == tally(
                    self.records(),
                    d,
                    t,
                    c,
                    p,
                ) by {
                let hit = t == link.target@ && c == record_id.collection@ && p == link.path@;
                assert(count_did(slot_dids(old_slots, t, c, p), d) == tally(old_recs, d, t, c, p));
                assert(slot_dids(self.slots(), t, c, p) == if hit {
                    slot_dids(old_slots, t, c, p).push(did@)
                } else {
                    slot_dids(old_slots, t, c, p)
                });
                lemma_count_did_push(slot_dids(old_slots, t, c, p), did@, d);
                lemma_count_link_single(l, p, t);
                if ri >= 0 {
                    lemma_tally_update(old_recs, ri, r_new, d, t, c, p);
                    lemma_count_link_concat(r_old.links, seq![l], p, t);
                } else {
                    lemma_tally_push(old_recs, r_new, d, t, c, p);
                }
                assert(hit == (c == record_id.collection@ && l == (p, t)));
                assert(tally(self.records(), d, t, c, p) == tally(old_recs, d, t, c, p) + if did_matches(did@, d) && hit {
                    1nat
                } else {
                    0nat
                });
            }
            assert forall|i: int| 0 <= i < self.records().len() implies account_index(
                self.accounts(),
                #[trigger] self.records()[i].did,
            ) >= 0 by {
                if i < old_recs.len() {
                    assert(self.records()[i].did == old_recs[i].did);
                }
            }
        }
    }

    /// Records each link of `links` for `record_id`, in order: duplicates are kept,
    /// each adding one to its slot's count.
    pub fn add_links(&mut self, record_id: &RecordId, links: &[CollectedLink])
        requires
            old(self).wf(),
        ensures
            final(self).wf(),
            links_added(*old(self), *final(self), *record_id, links@),
    {
        let ghost old_recs = self.records();
        let ghost old_accts = self.accounts();
        let ghost key = record_id.key();
        let mut i: usize = 0;
        proof {
            assert(links_model(links@.subrange(0, 0)) =~= Seq::<LinkModel>::empty());
            assert forall|t: Seq<char>, c: Seq<char>, p: Seq<char>|
                #[trigger] slot_dids(self.slots(), t, c, p) == if c == key.1 {
                    slot_dids(old(self).slots(), t, c, p) + repeated(
                        key.0,
                        count_link(links_model(links@.subrange(0, 0)), p, t),
                    )
                } else {
                    slot_dids(old(self).slots(), t, c, p)
                } by {
                assert(slot_dids(self.slots(), t, c, p) + repeated(key.0, 0) =~= slot_dids(
                    self.slots(),
                    t,
                    c,
                    p,
                ));
            }
        }
        while i < links.len()
            invariant
                i <= links@.len(),
                self.wf(),
                key == record_id.key(),
                self.records() == add_records(
                    old_recs,
                    key.0,
                    key.1,
                    key.2,
                    links_model(links@.subrange(0, i as int)),
                ),
                self.accounts() == if i > 0 && account_index(old_accts, key.0) < 0 {
                    old_accts.push((key.0, true))
                } else {
                    old_accts
                },
                forall|t: Seq<char>, c: Seq<char>, p: Seq<char>|
                    #[trigger] self.count_of(t, c, p) == old(self).count_of(t, c, p) + if c
                        == key.1 {
                        count_link(links_model(links@.subrange(0, i as int)), p, t)
                    } else {
                        0
                    },
                forall|t: Seq<char>, c: Seq<char>, p: Seq<char>|
                    #[trigger] slot_dids(self.slots(), t, c, p) == if c == key.1 {
                        slot_dids(old(self).slots(), t, c, p) + repeated(
                            key.0,
                            count_link(links_model(links@.subrange(0, i as int)), p, t),
                        )
                    } else {
                        slot_dids(old(self).slots(), t, c, p)
                    },
            decreases links@.len() - i,
        {
            let ghost before = *self;
            let ghost a = links_model(links@.subrange(0, i as int));
            let ghost l = links@[i as int].model();
            self.add_link(record_id, &links[i]);
            proof {
                assert(links_model(links@.subrange(0, i + 1)) =~= a.push(l));
                lemma_add_records_step(old_recs, key.0, key.1, key.2, a, l);
                lemma_account_push(old_accts, (key.0, true));
                assert forall|t: Seq<char>, c: Seq<char>, p: Seq<char>|
                    #[trigger] slot_dids(self.slots(), t, c, p) == if c == key.1 {
                        slot_dids(old(self).slots(), t, c, p) + repeated(
                            key.0,
                            count_link(a.push(l), p, t),
                        )
                    } else {
                        slot_dids(old(self).slots(), t, c, p)
                    } by {
                    lemma_count_link_push(a, l, p, t);
                    let n = count_link(a, p, t);
                    assert((slot_dids(old(self).slots(), t, c, p) + repeated(key.0, n)).push(key.0)
                        =~= slot_dids(old(self).slots(), t, c, p) + repeated(key.0, n + 1));
                    assert(slot_dids(before.slots(), t, c, p) == if c == key.1 {
                        slot_dids(old(self).slots(), t, c, p) + repeated(key.0, n)
                    } else {
                        slot_dids(old(self).slots(), t, c, p)
                    });
                }
                assert forall|t: Seq<char>, c: Seq<char>, p: Seq<char>|
                    #[trigger] self.count_of(t, c, p) == old(self).count_of(t, c, p) + if c
                        == key.1 {
                        count_link(a.push(l), p, t)
                    } else {
                        0
                    } by {
                    assert(before.count_of(t, c, p) == old(self).count_of(t, c, p) + if c
                        == key.1 {
                        count_link(a, p, t)
                    } else {
                        0
                    });
                    lemma_count_link_push(a, l, p, t);
                }
            }
            i += 1;
        }
        proof {
            assert(links@.subrange(0, links@.len() as int) =~= links@);
        }
    }

    /// The number of links of `collection` at `path` that point at `target`; 0 where
    /// the index has none. Fails only where that number does not fit in a `u64`.
    pub fn count(&self, target: &str, collection: &str, path: &str) -> (r: Result<
        u64,
        CountOverflow,
    >)
        requires
            self.wf(),
        ensures
            match r {
                Ok(n) => n == self.count_of(target@, collection@, path@) && n == self.stored_links(
                    target@,
                    collection@,
                    path@,
                ),
                Err(_) => self.stored_links(target@, collection@, path@) > u64::MAX,
            },
    {
        proof {
            lemma_count_is_stored_links(*self, target@, collection@, path@);
        }
        let t = Target::new(target);
        let s = Source::new(collection, path);
        match self.find_slot(&t, &s) {
            None => Ok(0),
            Some(i) => {
                let n = self.targets[i].dids.len();
                proof {
                    assert(self.slots()[i as int] == self.targets@[i as int].model());
                }
                if n as u128 > u64::MAX as u128 {
                    Err(CountOverflow)
                } else {
                    Ok(n as u64)
                }
            },
        }
    }

    /// Sets the active flag of a known account; an unknown account is left unknown.
    pub fn set_account(&mut self, did: &Did, active: bool)
        requires
            old(self).wf(),
        ensures
            final(self).wf(),
            account_set(*old(self), *final(self), did@, active),
    {
        let ghost old_accts = self.accounts();
        match self.find_account(did) {
            None => {},
            Some(i) => {
                proof {
                    lemma_first_where(old_accts.len(), account_pred(old_accts, did@));
                }
                self.dids[i].1 = active;
                proof {
                    assert(self.accounts() =~= old_accts.update(i as int, (did@, active)));
                    assert(account_keys(self.accounts()) =~= account_keys(old_accts));
                    assert(self.slots() == old(self).slots());
                    assert(self.records() == old(self).records());
                    assert forall|y: Seq<char>|
                        #[trigger] account_index(self.accounts(), y) == account_index(
                            old_accts,
                            y,
                        ) by {
                        lemma_first_where_agree(
                            old_accts.len(),
                            account_pred(old_accts, y),
                            account_pred(self.accounts(), y),
                        );
                    }
                    assert forall|y: Seq<char>|
                        #[trigger] self.account(y) == if y == did@ && account_flag(
                            old_accts,
                            y,
                        ).is_some() {
                            Some(active)
                        } else {
                            account_flag(old_accts, y)
                        } by {
                        lemma_first_where(old_accts.len(), account_pred(old_accts, y));
                    }
                    assert forall|j: int| 0 <= j < self.records().len() implies account_index(
                        self.accounts(),
                        #[trigger] self.records()[j].did,
                    ) >= 0 by {
                        assert(account_index(old_accts, self.records()[j].did) >= 0);
                    }
                }
            },
        }
    }

    /// Forgets record `record_id`: the record is dropped and, for each of its links, the
    /// last entry of the account in that link's slot is removed. An unknown record is
    /// ignored. Accounts and slots that become empty stay.
    pub fn remove_links(&mut self, record_id: &RecordId)
        requires
            old(self).wf(),
        ensures
            final(self).wf(),
            links_removed(*old(self), *final(self), *record_id),
    {
        let ghost old_recs = self.records();
        let repo_id = RepoId::from_record_id(record_id);
        match self.find_record(&record_id.did, &repo_id) {
            None => {},
            Some(ri) => {
                proof {
                    lemma_first_where(
                        old_recs.len(),
                        record_pred(old_recs, record_id.did@, repo_id.collection@, repo_id.rkey@),
                    );
                }
                let entry = self.links.remove(ri);
                let ghost em = entry.model();
                let ghost recs = old_recs.remove(ri as int);
                proof {
                    assert(self.records() =~= recs);
                    assert(em == old_recs[ri as int]);
                    assert(record_keys(recs) =~= record_keys(old_recs).remove(ri as int));
                    lemma_no_dups_remove(record_keys(old_recs), ri as int);
                    assert forall|d: Option<Seq<char>>, t: Seq<char>, c: Seq<char>, p: Seq<char>|
                        count_did(slot_dids(self.slots(), t, c, p), d) == tally(
                            recs,
                            d,
                            t,
                            c,
                            p,
                        ) + contribution(em, d, t, c, p) by {
                        lemma_tally_remove(old_recs, ri as int, d, t, c, p);
                    }
                    assert(pairs_model(entry.links@.subrange(0, entry.links@.len() as int))
                        =~= em.links);
                }
                let mut j: usize = entry.links.len();
                let ghost start = self.slots();
                proof {
                    assert(pairs_model(entry.links@.subrange(entry.links@.len() as int, entry.links@.len() as int)) =~= Seq::<LinkModel>::empty());
                    assert(start == old(self).slots());
                }
                while j > 0
                    invariant
                        j <= entry.links@.len(),
                        start == old(self).slots(),
                        slot_keys(self.slots()) == slot_keys(start),
                        no_dups(record_keys(recs)),
                        forall|t: Seq<char>, c: Seq<char>, p: Seq<char>|
                            #[trigger] slot_dids(self.slots(), t, c, p) == if c
                                == record_id.collection@ {
                                remove_last_n(
                                    slot_dids(start, t, c, p),
                                    record_id.did@,
                                    count_link(
                                        pairs_model(
                                            entry.links@.subrange(j as int, entry.links@.len() as int),
                                        ),
                                        p,
                                        t,
                                    ),
                                )
                            } else {
                                slot_dids(start, t, c, p)
                            },
                        em == entry.model(),
                        em.did == record_id.did@,
                        em.collection == record_id.collection@,
                        self.records() == recs,
                        self.accounts() == old(self).accounts(),
                        forall|i: int|
                            0 <= i < recs.len() ==> account_index(
                                old(self).accounts(),
                                #[trigger] recs[i].did,
                            ) >= 0,
                        forall|d: Option<Seq<char>>, t: Seq<char>, c: Seq<char>, p: Seq<char>|
                            #[trigger] count_did(slot_dids(self.slots(), t, c, p), d) == tally(
                                recs,
                                d,
                                t,
                                c,
                                p,
                            ) + contribution(
                                RecordModel {
                                    links: pairs_model(entry.links@.subrange(0, j as int)),
                                    ..em
                                },
                                d,
                                t,
                                c,
                                p,
                            ),
                    decreases j,
                {
                    let ghost before = self.slots();
                    let ghost pre = pairs_model(entry.links@.subrange(0, j - 1));
                    j -= 1;
                    let pair = &entry.links[j];
                    let ghost l = (pair.0.0@, pair.1.0@);
                    let ghost kt = pair.1.0@;
                    let ghost kp = pair.0.0@;
                    let ghost kc = record_id.collection@;
                    proof {
                        assert(pairs_model(entry.links@.subrange(0, j + 1)) =~= pre.push(l));
                        lemma_count_link_push(pre, l, kp, kt);
                        assert(count_did(slot_dids(before, kt, kc, kp), Some(em.did)) > 0);
                        lemma_first_where(before.len(), slot_pred(before, kt, kc, kp));
                    }
                    let source = Source::new(record_id.collection.as_str(), pair.0.0.as_str());
                    match self.find_slot(&pair.1, &source) {
                        None => {
                            proof {
                                assert(slot_dids(before, kt, kc, kp) == Seq::<Seq<char>>::empty());
                                assert(false);
                            }
                        },
                        Some(si) => {
                            let ghost old_slot = self.targets@[si as int];
                            proof {
                                assert(before[si as int] == old_slot.model());
                            }
                            let pos = rposition(&self.targets[si].dids, &record_id.did);
                            self.targets[si].dids.remove(pos);
                            proof {
                                lemma_remove_last(old_slot.model().dids, record_id.did@, pos as int);
                                let suf = pairs_model(
                                    entry.links@.subrange(j as int, entry.links@.len() as int),
                                );
                                let suf1 = pairs_model(
                                    entry.links@.subrange(j + 1, entry.links@.len() as int),
                                );
                                assert(suf =~= seq![l] + suf1);
                                let s2 = self.targets@[si as int].model();
                                assert(s2.dids =~= old_slot.model().dids.remove(pos as int));
                                assert(self.slots() =~= before.update(si as int, s2));
                                assert(slot_keys(self.slots()) =~= slot_keys(before));
                                lemma_slot_update(before, si as int, s2);
                                assert forall|
                                    d: Option<Seq<char>>,
                                    t: Seq<char>,
                                    c: Seq<char>,
                                    p: Seq<char>,
                                |
                                    #[trigger] count_did(slot_dids(self.slots(), t, c, p), d)
                                        == tally(recs, d, t, c, p) + contribution(
                                        RecordModel { links: pre, ..em },
                                        d,
                                        t,
                                        c,
                                        p,
                                    ) by {
                                    lemma_count_link_push(pre, l, p, t);
                                    lemma_count_link_concat(seq![l], suf1, p, t);
                                    lemma_count_link_single(l, p, t);
                                    if t == kt && c == kc && p == kp {
                                        lemma_count_did_remove(
                                            old_slot.model().dids,
                                            pos as int,
                                            d,
                                        );
                                    }
                                }
                                assert forall|t: Seq<char>, c: Seq<char>, p: Seq<char>|
                                    #[trigger] slot_dids(self.slots(), t, c, p) == if c
                                        == record_id.collection@ {
                                        remove_last_n(
                                            slot_dids(start, t, c, p),
                                            record_id.did@,
                                            count_link(suf, p, t),
                                        )
                                    } else {
                                        slot_dids(start, t, c, p)
                                    } by {
                                    lemma_count_link_concat(seq![l], suf1, p, t);
                                    lemma_count_link_single(l, p, t);
                                    let n = count_link(suf1, p, t);
                                    if t == kt && c == kc && p == kp {
                                        assert(remove_last_n(slot_dids(start, t, c, p), record_id.did@, n + 1)
                                            == remove_last(remove_last_n(slot_dids(start, t, c, p), record_id.did@, n), record_id.did@));
                                    }
                                }
                            }
                        },
                    }
                }
                proof {
                    let key = (record_id.did@, record_id.collection@, record_id.rkey@);
                    assert(record_keys(old_recs)[ri as int] == key);
                    assert forall|j: int| 0 <= j < recs.len() implies !#[trigger] record_pred(
                        recs,
                        key.0,
                        key.1,
                        key.2,
                    )(j) by {
                        assert(record_keys(recs)[j] != record_keys(old_recs)[ri as int]);
                    }
                    lemma_first_where(recs.len(), record_pred(recs, key.0, key.1, key.2));
                    assert(entry.links@.subrange(0, entry.links@.len() as int) =~= entry.links@);
                    assert(pairs_model(entry.links@.subrange(0, 0)) =~= Seq::<LinkModel>::empty());
                    assert forall|d: Option<Seq<char>>, t: Seq<char>, c: Seq<char>, p: Seq<char>|
                        count_did(slot_dids(self.slots(), t, c, p), d) == tally(
                            self.records(),
                            d,
                            t,
                            c,
                            p,
                        ) by {
                        assert(count_link(Seq::<LinkModel>::empty(), p, t) == 0);
                    }
                }
            },
        }
        proof {
            assert forall|t: Seq<char>, c: Seq<char>, p: Seq<char>|
                #[trigger] slot_dids(self.slots(), t, c, p) == if c == record_id.collection@ {
                    remove_last_n(
                        slot_dids(old(self).slots(), t, c, p),
                        record_id.did@,
                        stored_for(*old(self), *record_id, p, t),
                    )
                } else {
                    slot_dids(old(self).slots(), t, c, p)
                } by {
                let i = record_index(old_recs, record_id.did@, record_id.collection@, record_id.rkey@);
                if i >= 0 {
                    assert(old_recs[i] == old(self).links@[i].model());
                }
            }
            assert forall|t: Seq<char>, c: Seq<char>, p: Seq<char>|
                #[trigger] self.count_of(t, c, p) + (if c == record_id.collection@ {
                    match old(self).record(record_id.did@, record_id.collection@, record_id.rkey@) {
                        Some(ls) => count_link(ls, p, t),
                        None => 0,
                    }
                } else {
                    0
                }) == old(self).count_of(t, c, p) by {
                lemma_count_did_le_len(slot_dids(self.slots(), t, c, p), None);
                lemma_count_did_le_len(slot_dids(old(self).slots(), t, c, p), None);
                let i = record_index(old_recs, record_id.did@, record_id.collection@, record_id.rkey@);
                if i >= 0 {
                    lemma_tally_remove(old_recs, i, None, t, c, p);
                }
            }
        }
    }

    /// Replaces the links of `record_id` by `new_links`: a removal then an addition,
    /// with no state in between visible to a caller.
    pub fn update_links(&mut self, record_id: &RecordId, new_links: &[CollectedLink])
        requires
            old(self).wf(),
        ensures
            final(self).wf(),
            links_updated(*old(self), *final(self), *record_id, new_links@),
    {
        self.remove_links(record_id);
        let ghost mid = *self;
        self.add_links(record_id, new_links);
        proof {
            assert forall|t: Seq<char>, c: Seq<char>, p: Seq<char>|
                #[trigger] self.count_of(t, c, p) + (if c == record_id.collection@ {
                    stored_for(*old(self), *record_id, p, t)
                } else {
                    0
                }) == old(self).count_of(t, c, p) + if c == record_id.collection@ {
                    count_link(links_model(new_links@), p, t)
                } else {
                    0
                } by {
                assert(mid.count_of(t, c, p) + (if c == record_id.collection@ {
                    stored_for(*old(self), *record_id, p, t)
                } else {
                    0
                }) == old(self).count_of(t, c, p));
            }
        }
    }

    /// Applies one event to the index.
    pub fn push(&mut self, event: &ActionableEvent)
        requires
            old(self).wf(),
        ensures
            final(self).wf(),
            match *event {
                ActionableEvent::CreateLinks { record_id, links } => links_added(
                    *old(self),
                    *final(self),
                    record_id,
                    links@,
                ),
                ActionableEvent::UpdateLinks { record_id, new_links } => links_updated(
                    *old(self),
                    *final(self),
                    record_id,
                    new_links@,
                ),
                ActionableEvent::DeleteRecord(record_id) => links_removed(
                    *old(self),
                    *final(self),
                    record_id,
                ),
                ActionableEvent::ActivateAccount(did) => account_set(
                    *old(self),
                    *final(self),
                    did@,
                    true,
                ),
                ActionableEvent::DeactivateAccount(did) => account_set(
                    *old(self),
                    *final(self),
                    did@,
                    false,
                ),
                ActionableEvent::DeleteAccount(did) => account_deleted(
                    *old(self),
                    *final(self),
                    did@,
                ),
            },
    {
        match event {
            ActionableEvent::CreateLinks { record_id, links } => self.add_links(
                record_id,
                links.as_slice(),
            ),
            ActionableEvent::UpdateLinks { record_id, new_links } => self.update_links(
                record_id,
                new_links.as_slice(),
            ),
            ActionableEvent::DeleteRecord(record_id) => self.remove_links(record_id),
            ActionableEvent::ActivateAccount(did) => self.set_account(did, true),
            ActionableEvent::DeactivateAccount(did) => self.set_account(did, false),
            ActionableEvent::DeleteAccount(did) => self.delete_account(did),
        }
    }

    /// The count query as served to readers: see `count`.
    pub fn get_count(&self, target: &str, collection: &str, path: &str) -> (r: Result<
        u64,
        CountOverflow,
    >)
        requires
            self.wf(),
        ensures
            match r {
                Ok(n) => n == self.count_of(target@, collection@, path@) && n == self.stored_links(
                    target@,
                    collection@,
                    path@,
                ),
                Err(_) => self.stored_links(target@, collection@, path@) > u64::MAX,
            },
    {
        self.count(target, collection, path)
    }

    /// Whether some slot before `i` has the target of slot `i`.
    fn target_seen_before(&self, i: usize) -> (r: bool)
        requires
            i < self.targets@.len(),
        ensures
            r == slot_targets(self.slots()).subrange(0, i as int).contains(
                slot_targets(self.slots())[i as int],
            ),
    {
        let ghost ts = slot_targets(self.slots());
        let mut j: usize = 0;
        while j < i
            invariant
                j <= i < self.targets@.len(),
                ts == slot_targets(self.slots()),
                forall|k: int| 0 <= k < j ==> ts[k] != ts[i as int],
            decreases i - j,
        {
            if self.targets[j].target.0 == self.targets[i].target.0 {
                proof {
                    assert(ts.subrange(0, i as int)[j as int] == ts[i as int]);
                }
                return true;
            }
            j += 1;
        }
        proof {
            assert forall|k: int| 0 <= k < i implies ts.subrange(0, i as int)[k] != ts[i as int] by {
                assert(ts.subrange(0, i as int)[k] == ts[k]);
            }
        }
        false
    }

    /// Whether some record before `i` has the author of record `i`.
    fn author_seen_before(&self, i: usize) -> (r: bool)
        requires
            i < self.links@.len(),
        ensures
            r == record_authors(self.records()).subrange(0, i as int).contains(
                record_authors(self.records())[i as int],
            ),
    {
        let ghost ds = record_authors(self.records());
        let mut j: usize = 0;
        while j < i
            invariant
                j <= i < self.links@.len(),
                ds == record_authors(self.records()),
                forall|k: int| 0 <= k < j ==> ds[k] != ds[i as int],
            decreases i - j,
        {
            if self.links[j].did == self.links[i].did {
                proof {
                    assert(ds.subrange(0, i as int)[j as int] == ds[i as int]);
                }
                return true;
            }
            j += 1;
        }
        proof {
            assert forall|k: int| 0 <= k < i implies ds.subrange(0, i as int)[k] != ds[i as int] by {
                assert(ds.subrange(0, i as int)[k] == ds[k]);
            }
        }
        false
    }

    /// The first slot of the `k`-th distinct target, counting targets in the order in
    /// which they first appear.
    fn first_slot_of_distinct(&self, k: usize) -> (r: usize)
        requires
            k < distinct_count(slot_targets(self.slots())),
        ensures
            r < self.targets@.len(),
            !slot_targets(self.slots()).subrange(0, r as int).contains(
                slot_targets(self.slots())[r as int],
            ),
            distinct_values(slot_targets(self.slots()))[k as int] == slot_targets(
                self.slots(),
            )[r as int],
    {
        let ghost ts = slot_targets(self.slots());
        let mut seen: usize = 0;
        let mut i: usize = 0;
        proof {
            assert(ts.subrange(0, 0) =~= Seq::<Seq<char>>::empty());
        }
        while i < self.targets.len()
            invariant
                i <= self.targets@.len(),
                ts == slot_targets(self.slots()),
                k < distinct_count(ts),
                seen <= k,
                seen == distinct_values(ts.subrange(0, i as int)).len(),
            decreases self.targets@.len() - i,
        {
            let before = self.target_seen_before(i);
            proof {
                assert(ts.subrange(0, i + 1).drop_last() =~= ts.subrange(0, i as int));
                assert(ts.subrange(0, i + 1).last() == ts[i as int]);
            }
            if !before {
                if seen == k {
                    proof {
                        lemma_distinct_prefix(ts, i + 1, ts.len() as int);
                        assert(ts.subrange(0, ts.len() as int) =~= ts);
                    }
                    return i;
                }
                seen += 1;
            }
            i += 1;
        }
        proof {
            assert(ts.subrange(0, ts.len() as int) =~= ts);
        }
        0
    }

    /// Sizes of the index and a sample slot, for operator logs: the number of known
    /// accounts, of distinct targets, of `(target, collection, path)` slots, of
    /// distinct accounts with records, and, for the middle one of the distinct targets
    /// in the order they first appear, the key of its first slot.
    pub fn summary(&self) -> (r: Summary)
        ensures
            r.accounts == self.accounts().len(),
            r.targets == distinct_count(slot_targets(self.slots())),
            r.target_paths == self.slots().len(),
            r.linking_accounts == distinct_count(record_authors(self.records())),
            match r.sample {
                Some((t, c, p)) => {
                    let ts = slot_targets(self.slots());
                    &&& t@ == distinct_values(ts)[(distinct_count(ts) / 2) as int]
                    &&& exists|i: int|
                        0 <= i < self.slots().len() && self.slots()[i].target == t@
                            && self.slots()[i].collection == c@ && self.slots()[i].path == p@
                            && forall|j: int| 0 <= j < i ==> #[trigger] ts[j] != t@
                },
                None => self.slots().len() == 0,
            },
    {
        let mut targets: usize = 0;
        let mut i: usize = 0;
        proof {
            assert(slot_targets(self.slots()).subrange(0, 0) =~= Seq::<Seq<char>>::empty());
        }
        while i < self.targets.len()
            invariant
                i <= self.targets@.len(),
                targets <= i,
                targets == distinct_count(slot_targets(self.slots()).subrange(0, i as int)),
            decreases self.targets@.len() - i,
        {
            let seen = self.target_seen_before(i);
            proof {
                let ts = slot_targets(self.slots());
                assert(ts.subrange(0, i + 1).drop_last() =~= ts.subrange(0, i as int));
                assert(ts.subrange(0, i + 1).last() == ts[i as int]);
            }
            if !seen {
                targets += 1;
            }
            i += 1;
        }
        let mut linking: usize = 0;
        let mut i: usize = 0;
        proof {
            assert(slot_targets(self.slots()).subrange(0, self.slots().len() as int) =~= slot_targets(
                self.slots(),
            ));
            assert(record_authors(self.records()).subrange(0, 0) =~= Seq::<Seq<char>>::empty());
        }
        while i < self.links.len()
            invariant
                i <= self.links@.len(),
                linking <= i,
                linking == distinct_count(record_authors(self.records()).subrange(0, i as int)),
            decreases self.links@.len() - i,
        {
            let seen = self.author_seen_before(i);
            proof {
                let ds = record_authors(self.records());
                assert(ds.subrange(0, i + 1).drop_last() =~= ds.subrange(0, i as int));
                assert(ds.subrange(0, i + 1).last() == ds[i as int]);
            }
            if !seen {
                linking += 1;
            }
            i += 1;
        }
        proof {
            assert(record_authors(self.records()).subrange(0, self.records().len() as int)
                =~= record_authors(self.records()));
        }
        let n = self.targets.len();
        let sample = if targets == 0 {
            proof {
                if n > 0 {
                    let ts = slot_targets(self.slots());
                    lemma_distinct_prefix(ts, 1, n as int);
                    assert(ts.subrange(0, 1).drop_last() =~= Seq::<Seq<char>>::empty());
                    assert(ts.subrange(0, n as int) =~= ts);
                }
            }
            None
        } else {
            let i = self.first_slot_of_distinct(targets / 2);
            let m = &self.targets[i];
            proof {
                let ts = slot_targets(self.slots());
                assert forall|j: int| 0 <= j < i implies #[trigger] ts[j] != ts[i as int] by {
                    assert(ts.subrange(0, i as int)[j] == ts[j]);
                }
            }
            Some((m.target.0.clone(), m.source.collection.clone(), m.source.path.clone()))
        };
        Summary {
            accounts: self.dids.len(),
            targets,
            target_paths: n,
            linking_accounts: linking,
            sample,
        }
    }

    /// Removes every entry of `did` from every slot of the reverse index.
    fn purge_slots(&mut self, did: &Did)
        ensures
            final(self).records() == old(self).records(),
            final(self).accounts() == old(self).accounts(),
            final(self).slots().len() == old(self).slots().len(),
            forall|k: int|
                0 <= k < final(self).slots().len() ==> #[trigger] final(self).slots()[k]
                    == purged_slot(old(self).slots()[k], did@),
    {
        let ghost old_slots = self.slots();
        let mut i: usize = 0;
        while i < self.targets.len()
            invariant
                i <= self.targets@.len(),
                self.targets@.len() == old_slots.len(),
                self.records() == old(self).records(),
                self.accounts() == old(self).accounts(),
                forall|k: int|
                    0 <= k < self.targets@.len() ==> #[trigger] self.slots()[k] == if k < i {
                        purged_slot(old_slots[k], did@)
                    } else {
                        old_slots[k]
                    },
            decreases self.targets@.len() - i,
        {
            let ghost before = self.slots();
            let ghost old_t = self.targets@[i as int];
            let kept = without(&self.targets[i].dids, did);
            let ghost kept_view = kept@;
            self.targets[i].dids = kept;
            proof {
                assert(before[i as int] == old_t.model());
                let n = self.targets@[i as int];
                assert(n.target == old_t.target);
                assert(n.source == old_t.source);
                assert(n.dids@ == kept_view);
                assert(self.slots()[i as int] == n.model());
                assert(n.model() == purged_slot(old_slots[i as int], did@));
                assert forall|k: int| 0 <= k < self.targets@.len() implies #[trigger] self.slots()[k]
                    == if k < i + 1 {
                    purged_slot(old_slots[k], did@)
                } else {
                    old_slots[k]
                } by {
                    if k != i {
                        assert(self.slots()[k] == before[k]);
                    }
                }
            }
            i += 1;
        }
    }

    /// Removes the records of `did` from the forward index.
    fn purge_records(&mut self, did: &Did)
        ensures
            final(self).records() == records_without(old(self).records(), did@),
            final(self).accounts() == old(self).accounts(),
            final(self).slots() == old(self).slots(),
    {
        let ghost old_recs = self.records();
        let ghost x = did@;
        let mut i: usize = 0;
        let ghost mut scanned: int = 0;
        proof {
            assert(old_recs.subrange(0, 0) =~= Seq::<RecordModel>::empty());
            assert(self.records() =~= records_without(old_recs.subrange(0, 0), x)
                + old_recs.subrange(0, old_recs.len() as int));
        }
        while i < self.links.len()
            invariant
                0 <= scanned <= old_recs.len(),
                x == did@,
                self.slots() == old(self).slots(),
                self.accounts() == old(self).accounts(),
                self.records() == records_without(old_recs.subrange(0, scanned), x)
                    + old_recs.subrange(scanned, old_recs.len() as int),
                i == records_without(old_recs.subrange(0, scanned), x).len(),
            decreases self.links@.len() - i,
        {
            let ghost before = self.records();
            let ghost w = records_without(old_recs.subrange(0, scanned), x);
            let ghost e = old_recs[scanned];
            proof {
                assert(old_recs.subrange(0, scanned + 1).drop_last() =~= old_recs.subrange(
                    0,
                    scanned,
                ));
                assert(old_recs.subrange(0, scanned + 1).last() == e);
                assert(before[i as int] == e);
                assert(before[i as int] == self.links@[i as int].model());
            }
            let hit = self.links[i].did == *did;
            proof {
                assert(hit == (e.did == x));
            }
            if hit {
                self.links.remove(i);
                proof {
                    assert(self.records() =~= before.remove(i as int));
                    assert(records_without(old_recs.subrange(0, scanned + 1), x) == w);
                    assert(self.records() =~= w + old_recs.subrange(
                        scanned + 1,
                        old_recs.len() as int,
                    ));
                }
            } else {
                i += 1;
                proof {
                    assert(e.did != x);
                    assert(records_without(old_recs.subrange(0, scanned + 1), x) == w.push(e));
                    assert(self.records() =~= w.push(e) + old_recs.subrange(
                        scanned + 1,
                        old_recs.len() as int,
                    ));
                }
            }
            proof {
                scanned = scanned + 1;
            }
        }
        proof {
            assert(old_recs.subrange(0, scanned) =~= old_recs);
            assert(self.records() =~= records_without(old_recs, x));
        }
    }

    /// Removes the entries of `did` from the known accounts.
    fn purge_accounts(&mut self, did: &Did)
        ensures
            final(self).accounts() == accounts_without(old(self).accounts(), did@),
            final(self).records() == old(self).records(),
            final(self).slots() == old(self).slots(),
    {
        let ghost old_accts = self.accounts();
        let ghost x = did@;
        let mut i: usize = 0;
        let ghost mut scanned: int = 0;
        proof {
            assert(old_accts.subrange(0, 0) =~= Seq::<(Seq<char>, bool)>::empty());
            assert(self.accounts() =~= accounts_without(old_accts.subrange(0, 0), x)
                + old_accts.subrange(0, old_accts.len() as int));
        }
        while i < self.dids.len()
            invariant
                0 <= scanned <= old_accts.len(),
                x == did@,
                self.slots() == old(self).slots(),
                self.records() == old(self).records(),
                self.accounts() == accounts_without(old_accts.subrange(0, scanned), x)
                    + old_accts.subrange(scanned, old_accts.len() as int),
                i == accounts_without(old_accts.subrange(0, scanned), x).len(),
            decreases self.dids@.len() - i,
        {
            let ghost before = self.accounts();
            let ghost w = accounts_without(old_accts.subrange(0, scanned), x);
            let ghost e = old_accts[scanned];
            proof {
                assert(old_accts.subrange(0, scanned + 1).drop_last() =~= old_accts.subrange(
                    0,
                    scanned,
                ));
                assert(old_accts.subrange(0, scanned + 1).last() == e);
                assert(before[i as int] == e);
                assert(before[i as int] == (self.dids@[i as int].0@, self.dids@[i as int].1));
            }
            let hit = self.dids[i].0 == *did;
            proof {
                assert(hit == (e.0 == x));
            }
            if hit {
                self.dids.remove(i);
                proof {
                    assert(self.accounts() =~= before.remove(i as int));
                    assert(accounts_without(old_accts.subrange(0, scanned + 1), x) == w);
                    assert(self.accounts() =~= w + old_accts.subrange(
                        scanned + 1,
                        old_accts.len() as int,
                    ));
                }
            } else {
                i += 1;
                proof {
                    assert(accounts_without(old_accts.subrange(0, scanned + 1), x) == w.push(e));
                    assert(self.accounts() =~= w.push(e) + old_accts.subrange(
                        scanned + 1,
                        old_accts.len() as int,
                    ));
                }
            }
            proof {
                scanned = scanned + 1;
            }
        }
        proof {
            assert(old_accts.subrange(0, scanned) =~= old_accts);
            assert(self.accounts() =~= accounts_without(old_accts, x));
        }
    }

    /// Purges account `did`: every entry of it in the reverse index, every record it
    /// authored, and the account itself. Only slots that its records name can list the
    /// account, so filtering every slot removes exactly the entries its links made.
    pub fn delete_account(&mut self, did: &Did)
        requires
            old(self).wf(),
        ensures
            final(self).wf(),
            account_deleted(*old(self), *final(self), did@),
    {
        let ghost old_slots = self.slots();
        let ghost old_recs = self.records();
        let ghost old_accts = self.accounts();
        let ghost x = did@;
        self.purge_slots(did);
        self.purge_records(did);
        self.purge_accounts(did);
        proof {
            let new_slots = self.slots();
            assert forall|t: Seq<char>, c: Seq<char>, p: Seq<char>|
                #[trigger] slot_dids(new_slots, t, c, p) == without_did(
                    slot_dids(old_slots, t, c, p),
                    x,
                ) by {
                assert forall|j: int| 0 <= j < old_slots.len() implies #[trigger] slot_pred(
                    old_slots,
                    t,
                    c,
                    p,
                )(j) == slot_pred(new_slots, t, c, p)(j) by {
                    assert(new_slots[j] == purged_slot(old_slots[j], x));
                }
                lemma_first_where_agree(
                    old_slots.len(),
                    slot_pred(old_slots, t, c, p),
                    slot_pred(new_slots, t, c, p),
                );
                lemma_first_where(old_slots.len(), slot_pred(old_slots, t, c, p));
                let r = slot_index(old_slots, t, c, p);
                if r >= 0 {
                    assert(new_slots[r] == purged_slot(old_slots[r], x));
                }
            }
            assert forall|d: Option<Seq<char>>, t: Seq<char>, c: Seq<char>, p: Seq<char>|
                count_did(slot_dids(self.slots(), t, c, p), d) == tally(
                    self.records(),
                    d,
                    t,
                    c,
                    p,
                ) by {
                lemma_without_did(slot_dids(old_slots, t, c, p), x, d);
                lemma_records_without(old_recs, x, d, t, c, p);
                assert(count_did(slot_dids(old_slots, t, c, p), Some(x)) == tally(
                    old_recs,
                    Some(x),
                    t,
                    c,
                    p,
                ));
            }
            lemma_records_without(old_recs, x, None, Seq::empty(), Seq::empty(), Seq::empty());
            lemma_accounts_without_none(old_accts, x);
            lemma_records_without_keys(old_recs, x);
            lemma_accounts_without_keys(old_accts, x);
            assert(slot_keys(self.slots()) =~= slot_keys(old_slots));
            assert forall|j: int| 0 <= j < self.records().len() implies account_index(
                self.accounts(),
                #[trigger] self.records()[j].did,
            ) >= 0 by {
                let y = self.records()[j].did;
                let k = choose|k: int| 0 <= k < old_recs.len() && old_recs[k] == self.records()[j];
                assert(account_index(old_accts, old_recs[k].did) >= 0);
                lemma_first_where(old_accts.len(), account_pred(old_accts, y));
                let a = account_index(old_accts, y);
                lemma_accounts_without(old_accts, x, a);
                let kk = choose|kk: int|
                    0 <= kk < self.accounts().len() && self.accounts()[kk] == old_accts[a];
                assert(account_pred(self.accounts(), y)(kk));
                lemma_first_where(self.accounts().len(), account_pred(self.accounts(), y));
            }
            assert forall|t: Seq<char>, c: Seq<char>, p: Seq<char>|
                #[trigger] self.count_of(t, c, p) + tally(old_recs, Some(x), t, c, p)
                    == old(self).count_of(t, c, p) by {
                lemma_count_did_le_len(slot_dids(self.slots(), t, c, p), None);
                lemma_count_did_le_len(slot_dids(old_slots, t, c, p), None);
                lemma_without_did(slot_dids(old_slots, t, c, p), x, None);
                assert(count_did(slot_dids(old_slots, t, c, p), Some(x)) == tally(
                    old_recs,
                    Some(x),
                    t,
                    c,
                    p,
                ));
            }
            assert forall|i: int, j: int|
                0 <= i < self.slots().len() && 0 <= j < self.slots()[i].dids.len() implies #[trigger] self.slots()[i].dids[j] != x by {
                assert(self.slots()[i] == purged_slot(old_slots[i], x));
                lemma_without_did(old_slots[i].dids, x, None);
            }
        }
    }
}

/// `dids` without the entries that are `did`, in order.
fn without(dids: &Vec<Did>, did: &Did) -> (r: Vec<Did>)
    ensures
        dids_model(r@) == without_did(dids_model(dids@), did@),
{
    let mut out: Vec<Did> = Vec::new();
    let mut i: usize = 0;
    proof {
        assert(dids_model(dids@.subrange(0, 0)) =~= Seq::<Seq<char>>::empty());
        assert(dids_model(out@) =~= Seq::<Seq<char>>::empty());
    }
    while i < dids.len()
        invariant
            i <= dids@.len(),
            dids_model(out@) == without_did(dids_model(dids@.subrange(0, i as int)), did@),
        decreases dids@.len() - i,
    {
        let ghost before = out@;
        proof {
            assert(dids_model(dids@.subrange(0, i + 1)).drop_last() =~= dids_model(
                dids@.subrange(0, i as int),
            ));
        }
        if dids[i] != *did {
            out.push(dids[i].clone());
            proof {
                assert(dids_model(out@) =~= dids_model(before).push(dids@[i as int]@));
            }
        }
        i += 1;
    }
    proof {
        assert(dids@.subrange(0, dids@.len() as int) =~= dids@);
    }
    out
}

/// The position of the last entry of `dids` that is `did`.
fn rposition(dids: &Vec<Did>, did: &Did) -> (r: usize)
    requires
        count_did(dids_model(dids@), Some(did@)) > 0,
    ensures
        r < dids@.len(),
        dids@[r as int]@ == did@,
        forall|k: int| r < k < dids@.len() ==> dids@[k]@ != did@,
{
    proof {
        lemma_count_did_occurs(dids_model(dids@), did@);
    }
    let mut j: usize = dids.len();
    while j > 0
        invariant
            j <= dids@.len(),
            forall|k: int| j <= k < dids@.len() ==> dids@[k]@ != did@,
            exists|k: int| 0 <= k < dids@.len() && #[trigger] dids_model(dids@)[k] == did@,
        decreases j,
    {
        j -= 1;
        if dids[j] == *did {
            return j;
        }
    }
    proof {
        let k = choose|k: int| 0 <= k < dids@.len() && #[trigger] dids_model(dids@)[k] == did@;
        assert(dids@[k]@ == did@);
    }
    0
}

/// What `add_links(record_id, links)` makes of `pre`: the links are appended to the
/// record, the account is known (active if it was new), and each slot gets the account
/// appended once per link of `links` to it.
pub open spec fn links_added(
    pre: MemStorage,
    post: MemStorage,
    record_id: RecordId,
    links: Seq<CollectedLink>,
) -> bool {
    &&& post.records() == add_records(
        pre.records(),
        record_id.did@,
        record_id.collection@,
        record_id.rkey@,
        links_model(links),
    )
    &&& post.accounts() == if links.len() > 0 && account_index(pre.accounts(), record_id.did@) < 0 {
        pre.accounts().push((record_id.did@, true))
    } else {
        pre.accounts()
    }
    &&& forall|t: Seq<char>, c: Seq<char>, p: Seq<char>|
        #[trigger] post.count_of(t, c, p) == pre.count_of(t, c, p) + if c
            == record_id.collection@ {
            count_link(links_model(links), p, t)
        } else {
            0
        }
    &&& forall|t: Seq<char>, c: Seq<char>, p: Seq<char>|
        #[trigger] slot_dids(post.slots(), t, c, p) == if c == record_id.collection@ {
            slot_dids(pre.slots(), t, c, p) + repeated(
                record_id.did@,
                count_link(links_model(links), p, t),
            )
        } else {
            slot_dids(pre.slots(), t, c, p)
        }
}

/// `n` copies of `x`.
pub open spec fn repeated(x: Seq<char>, n: nat) -> Seq<Seq<char>> {
    Seq::new(n, |i: int| x)
}

/// The number of `(p, t)` links that `pre` stores for record `record_id`.
pub open spec fn stored_for(pre: MemStorage, record_id: RecordId, p: Seq<char>, t: Seq<char>) -> nat {
    match pre.record(record_id.did@, record_id.collection@, record_id.rkey@) {
        Some(ls) => count_link(ls, p, t),
        None => 0,
    }
}

/// What `remove_links(record_id)` makes of `pre`: the record is gone, the accounts stay,
/// and each slot loses the account's last entry once per link of the record to it;
/// slots that become empty stay.
pub open spec fn links_removed(pre: MemStorage, post: MemStorage, record_id: RecordId) -> bool {
    &&& post.records() == remove_record(
        pre.records(),
        record_id.did@,
        record_id.collection@,
        record_id.rkey@,
    )
    &&& post.accounts() == pre.accounts()
    &&& post.record(record_id.did@, record_id.collection@, record_id.rkey@) is None
    &&& forall|t: Seq<char>, c: Seq<char>, p: Seq<char>|
        #[trigger] post.count_of(t, c, p) + (if c == record_id.collection@ {
            stored_for(pre, record_id, p, t)
        } else {
            0
        }) == pre.count_of(t, c, p)
    &&& forall|t: Seq<char>, c: Seq<char>, p: Seq<char>|
        #[trigger] slot_dids(post.slots(), t, c, p) == if c == record_id.collection@ {
            remove_last_n(slot_dids(pre.slots(), t, c, p), record_id.did@, stored_for(pre, record_id, p, t))
        } else {
            slot_dids(pre.slots(), t, c, p)
        }
}

/// `s` without its last entry equal to `x`, if it has one.
pub open spec fn remove_last(s: Seq<Seq<char>>, x: Seq<char>) -> Seq<Seq<char>>
    decreases s.len(),
{
    if s.len() == 0 {
        s
    } else if s.last() == x {
        s.drop_last()
    } else {
        remove_last(s.drop_last(), x).push(s.last())
    }
}

/// `s` after removing its last entry equal to `x`, `n` times over.
pub open spec fn remove_last_n(s: Seq<Seq<char>>, x: Seq<char>, n: nat) -> Seq<Seq<char>>
    decreases n,
{
    if n == 0 {
        s
    } else {
        remove_last(remove_last_n(s, x, (n - 1) as nat), x)
    }
}

/// Removing the last occurrence of `x`, found at `pos`, is `remove_last`.
proof fn lemma_remove_last(s: Seq<Seq<char>>, x: Seq<char>, pos: int)
    requires
        0 <= pos < s.len(),
        s[pos] == x,
        forall|k: int| pos < k < s.len() ==> s[k] != x,
    ensures
        s.remove(pos) == remove_last(s, x),
    decreases s.len(),
{
    if pos == s.len() - 1 {
        assert(s.remove(pos) =~= s.drop_last());
    } else {
        lemma_remove_last(s.drop_last(), x, pos);
        assert(s.remove(pos) =~= s.drop_last().remove(pos).push(s.last()));
    }
}

/// What `update_links(record_id, links)` makes of `pre`: the record's links are
/// replaced by `links`.
pub open spec fn links_updated(
    pre: MemStorage,
    post: MemStorage,
    record_id: RecordId,
    links: Seq<CollectedLink>,
) -> bool {
    &&& post.records() == add_records(
        remove_record(pre.records(), record_id.did@, record_id.collection@, record_id.rkey@),
        record_id.did@,
        record_id.collection@,
        record_id.rkey@,
        links_model(links),
    )
    &&& post.accounts() == if links.len() > 0 && account_index(pre.accounts(), record_id.did@) < 0 {
        pre.accounts().push((record_id.did@, true))
    } else {
        pre.accounts()
    }
    &&& forall|t: Seq<char>, c: Seq<char>, p: Seq<char>|
        #[trigger] post.count_of(t, c, p) + (if c == record_id.collection@ {
            stored_for(pre, record_id, p, t)
        } else {
            0
        }) == pre.count_of(t, c, p) + if c == record_id.collection@ {
            count_link(links_model(links), p, t)
        } else {
            0
        }
    &&& forall|t: Seq<char>, c: Seq<char>, p: Seq<char>|
        #[trigger] slot_dids(post.slots(), t, c, p) == if c == record_id.collection@ {
            remove_last_n(slot_dids(pre.slots(), t, c, p), record_id.did@, stored_for(pre, record_id, p, t))
                + repeated(record_id.did@, count_link(links_model(links), p, t))
        } else {
            slot_dids(pre.slots(), t, c, p)
        }
}

/// What `set_account(did, active)` makes of `pre`: a known account takes the flag,
/// nothing else changes.
pub open spec fn account_set(pre: MemStorage, post: MemStorage, did: Seq<char>, active: bool) -> bool {
    &&& post.slots() == pre.slots()
    &&& post.records() == pre.records()
    &&& forall|y: Seq<char>|
        #[trigger] post.account(y) == if y == did && pre.account(y).is_some() {
            Some(active)
        } else {
            pre.account(y)
        }
}

/// What `delete_account(did)` makes of `pre`: no trace of the account is left, its
/// records are gone, and each slot keeps its other entries in order; no slot is dropped.
pub open spec fn account_deleted(pre: MemStorage, post: MemStorage, did: Seq<char>) -> bool {
    &&& !post.mentions(did)
    &&& post.records() == records_without(pre.records(), did)
    &&& post.accounts() == accounts_without(pre.accounts(), did)
    &&& forall|t: Seq<char>, c: Seq<char>, p: Seq<char>|
        #[trigger] post.count_of(t, c, p) + tally(pre.records(), Some(did), t, c, p)
            == pre.count_of(t, c, p)
    &&& post.slots().len() == pre.slots().len()
    &&& forall|t: Seq<char>, c: Seq<char>, p: Seq<char>|
        #[trigger] slot_dids(post.slots(), t, c, p) == without_did(slot_dids(pre.slots(), t, c, p), did)
}

/// Every count equals the number of `(did, repo_id, (path, target))` tuples of the
/// forward index with that target, collection and path.
pub proof fn lemma_count_is_stored_links(s: MemStorage, t: Seq<char>, c: Seq<char>, p: Seq<char>)
    requires
        s.wf(),
    ensures
        s.count_of(t, c, p) == s.stored_links(t, c, p),
{
    lemma_count_did_le_len(slot_dids(s.slots(), t, c, p), None);
}

/// The links that `add_links` stores for a record the index did not know.
proof fn lemma_added_record(
    s0: MemStorage,
    s1: MemStorage,
    record_id: RecordId,
    links: Seq<CollectedLink>,
    p: Seq<char>,
    t: Seq<char>,
)
    requires
        s0.record(record_id.did@, record_id.collection@, record_id.rkey@) is None,
        links_added(s0, s1, record_id, links),
    ensures
        stored_for(s1, record_id, p, t) == count_link(links_model(links), p, t),
        remove_record(s1.records(), record_id.did@, record_id.collection@, record_id.rkey@)
            == s0.records(),
{
    let lm = links_model(links);
    if links.len() == 0 {
        assert(lm.len() == 0);
        assert(count_link(lm, p, t) == 0);
    } else {
        let r = RecordModel {
            did: record_id.did@,
            collection: record_id.collection@,
            rkey: record_id.rkey@,
            links: lm,
        };
        lemma_record_push(s0.records(), r);
        assert(s0.records().push(r).remove(s0.records().len() as int) =~= s0.records());
    }
}

/// Adding links to a record the index does not hold, then removing that record, brings
/// every count back to its value before the addition.
pub proof fn lemma_add_then_remove(
    s0: MemStorage,
    s1: MemStorage,
    s2: MemStorage,
    record_id: RecordId,
    links: Seq<CollectedLink>,
    t: Seq<char>,
    c: Seq<char>,
    p: Seq<char>,
)
    requires
        s0.wf(),
        s0.record(record_id.did@, record_id.collection@, record_id.rkey@) is None,
        links_added(s0, s1, record_id, links),
        links_removed(s1, s2, record_id),
    ensures
        s2.count_of(t, c, p) == s0.count_of(t, c, p),
{
    lemma_added_record(s0, s1, record_id, links, p, t);
    assert(s1.count_of(t, c, p) == s0.count_of(t, c, p) + if c == record_id.collection@ {
        count_link(links_model(links), p, t)
    } else {
        0
    });
    assert(s2.count_of(t, c, p) + (if c == record_id.collection@ {
        stored_for(s1, record_id, p, t)
    } else {
        0
    }) == s1.count_of(t, c, p));
}

/// A record that holds the link `(p, t)` `n` times adds `n` to the count of `(t, c, p)`
/// when it is added, and nothing once it is removed again.
pub proof fn lemma_duplicates_counted(
    s0: MemStorage,
    s1: MemStorage,
    s2: MemStorage,
    record_id: RecordId,
    links: Seq<CollectedLink>,
    t: Seq<char>,
    p: Seq<char>,
)
    requires
        s0.wf(),
        s0.record(record_id.did@, record_id.collection@, record_id.rkey@) is None,
        links_added(s0, s1, record_id, links),
        links_removed(s1, s2, record_id),
    ensures
        s1.count_of(t, record_id.collection@, p) == s0.count_of(t, record_id.collection@, p)
            + count_link(links_model(links), p, t),
        s2.count_of(t, record_id.collection@, p) == s0.count_of(t, record_id.collection@, p),
{
    assert(s1.count_of(t, record_id.collection@, p) == s0.count_of(t, record_id.collection@, p)
        + count_link(links_model(links), p, t));
    lemma_add_then_remove(s0, s1, s2, record_id, links, t, record_id.collection@, p);
}

/// Adding `l1` to a record the index does not hold and then updating it to `l2` leaves
/// the same counts and the same forward index as adding `l2` alone.
pub proof fn lemma_update_after_add(
    s0: MemStorage,
    s1: MemStorage,
    s2: MemStorage,
    s3: MemStorage,
    record_id: RecordId,
    l1: Seq<CollectedLink>,
    l2: Seq<CollectedLink>,
    t: Seq<char>,
    c: Seq<char>,
    p: Seq<char>,
)
    requires
        s0.wf(),
        s0.record(record_id.did@, record_id.collection@, record_id.rkey@) is None,
        links_added(s0, s1, record_id, l1),
        links_updated(s1, s2, record_id, l2),
        links_added(s0, s3, record_id, l2),
    ensures
        s2.count_of(t, c, p) == s3.count_of(t, c, p),
        s2.records() == s3.records(),
{
    lemma_added_record(s0, s1, record_id, l1, p, t);
    assert(s1.count_of(t, c, p) == s0.count_of(t, c, p) + if c == record_id.collection@ {
        count_link(links_model(l1), p, t)
    } else {
        0
    });
    assert(s3.count_of(t, c, p) == s0.count_of(t, c, p) + if c == record_id.collection@ {
        count_link(links_model(l2), p, t)
    } else {
        0
    });
    assert(s2.count_of(t, c, p) + (if c == record_id.collection@ {
        stored_for(s1, record_id, p, t)
    } else {
        0
    }) == s1.count_of(t, c, p) + if c == record_id.collection@ {
        count_link(links_model(l2), p, t)
    } else {
        0
    });
}

/// The distinct values of `s`, in the order in which each is first seen.
pub open spec fn distinct_values(s: Seq<Seq<char>>) -> Seq<Seq<char>>
    decreases s.len(),
{
    if s.len() == 0 {
        s
    } else if s.drop_last().contains(s.last()) {
        distinct_values(s.drop_last())
    } else {
        distinct_values(s.drop_last()).push(s.last())
    }
}

/// The number of distinct values in `s`.
pub open spec fn distinct_count(s: Seq<Seq<char>>) -> nat {
    distinct_values(s).len()
}

/// The distinct values of a prefix of `s` begin the distinct values of a longer prefix.
proof fn lemma_distinct_prefix(s: Seq<Seq<char>>, a: int, b: int)
    requires
        0 <= a <= b <= s.len(),
    ensures
        distinct_values(s.subrange(0, a)).len() <= distinct_values(s.subrange(0, b)).len(),
        forall|k: int|
            0 <= k < distinct_values(s.subrange(0, a)).len() ==> #[trigger] distinct_values(
                s.subrange(0, b),
            )[k] == distinct_values(s.subrange(0, a))[k],
    decreases b - a,
{
    if a < b {
        lemma_distinct_prefix(s, a, b - 1);
        assert(s.subrange(0, b).drop_last() =~= s.subrange(0, b - 1));
    }
}

/// The target of each slot, in order.
pub open spec fn slot_targets(slots: Seq<SlotModel>) -> Seq<Seq<char>> {
    slots.map_values(|s: SlotModel| s.target)
}

/// The author of each record, in order.
pub open spec fn record_authors(recs: Seq<RecordModel>) -> Seq<Seq<char>> {
    recs.map_values(|r: RecordModel| r.did)
}

/// Sizes of the index; see `MemStorage::summary`.
#[derive(Debug, Clone, PartialEq, Eq)]
pub struct Summary {
    pub accounts: usize,
    pub targets: usize,
    pub target_paths: usize,
    pub linking_accounts: usize,
    pub sample: Option<(String, String, String)>,
}

/// A store of the link index: the operations that indexing and queries need.
pub trait StorageBackend: Sized {
    /// The store's internal invariant.
    spec fn valid(&self) -> bool;

    /// How many links of collection `c` at path `p` point at `t`.
    spec fn link_count(&self, t: Seq<char>, c: Seq<char>, p: Seq<char>) -> nat;

    /// How many `(p, t)` links record `(did, c, rkey)` holds.
    spec fn record_links_to(
        &self,
        did: Seq<char>,
        c: Seq<char>,
        rkey: Seq<char>,
        p: Seq<char>,
        t: Seq<char>,
    ) -> nat;

    /// How many links of collection `c` at path `p` to `t` account `did` has made.
    spec fn account_links_to(&self, did: Seq<char>, t: Seq<char>, c: Seq<char>, p: Seq<char>) -> nat;

    fn add_links(&mut self, record_id: &RecordId, links: &[CollectedLink])
        requires
            old(self).valid(),
        ensures
            final(self).valid(),
            forall|t: Seq<char>, c: Seq<char>, p: Seq<char>|
                #[trigger] final(self).link_count(t, c, p) == old(self).link_count(t, c, p) + if c
                    == record_id.collection@ {
                    count_link(links_model(links@), p, t)
                } else {
                    0
                },
    ;

    fn remove_links(&mut self, record_id: &RecordId)
        requires
            old(self).valid(),
        ensures
            final(self).valid(),
            forall|t: Seq<char>, c: Seq<char>, p: Seq<char>|
                #[trigger] final(self).link_count(t, c, p) + (if c == record_id.collection@ {
                    old(self).record_links_to(record_id.did@, c, record_id.rkey@, p, t)
                } else {
                    0
                }) == old(self).link_count(t, c, p),
    ;

    /// Replaces the links of a record: a removal, then an addition.
    fn update_links(&mut self, record_id: &RecordId, new_links: &[CollectedLink])
        requires
            old(self).valid(),
        ensures
            final(self).valid(),
            forall|t: Seq<char>, c: Seq<char>, p: Seq<char>|
                #[trigger] final(self).link_count(t, c, p) + (if c == record_id.collection@ {
                    old(self).record_links_to(record_id.did@, c, record_id.rkey@, p, t)
                } else {
                    0
                }) == old(self).link_count(t, c, p) + if c == record_id.collection@ {
                    count_link(links_model(new_links@), p, t)
                } else {
                    0
                },
    {
        self.remove_links(record_id);
        let ghost mid = *self;
        self.add_links(record_id, new_links);
        proof {
            assert forall|t: Seq<char>, c: Seq<char>, p: Seq<char>|
                #[trigger] self.link_count(t, c, p) + (if c == record_id.collection@ {
                    old(self).record_links_to(record_id.did@, c, record_id.rkey@, p, t)
                } else {
                    0
                }) == old(self).link_count(t, c, p) + if c == record_id.collection@ {
                    count_link(links_model(new_links@), p, t)
                } else {
                    0
                } by {
                assert(mid.link_count(t, c, p) + (if c == record_id.collection@ {
                    old(self).record_links_to(record_id.did@, c, record_id.rkey@, p, t)
                } else {
                    0
                }) == old(self).link_count(t, c, p));
            }
        }
    }

    fn set_account(&mut self, did: &Did, active: bool)
        requires
            old(self).valid(),
        ensures
            final(self).valid(),
            forall|t: Seq<char>, c: Seq<char>, p: Seq<char>|
                #[trigger] final(self).link_count(t, c, p) == old(self).link_count(t, c, p),
    ;

    fn delete_account(&mut self, did: &Did)
        requires
            old(self).valid(),
        ensures
            final(self).valid(),
            forall|t: Seq<char>, c: Seq<char>, p: Seq<char>|
                #[trigger] final(self).link_count(t, c, p) + old(self).account_links_to(
                    did@,
                    t,
                    c,
                    p,
                ) == old(self).link_count(t, c, p),
    ;

    fn count(&self, target: &str, collection: &str, path: &str) -> (r: Result<u64, CountOverflow>)
        requires
            self.valid(),
        ensures
            match r {
                Ok(n) => n == self.link_count(target@, collection@, path@),
                Err(_) => self.link_count(target@, collection@, path@) > u64::MAX,
            },
    ;
}

/// How many links of collection `c` at path `p` to `t` applying `event` to `s` takes away.
pub open spec fn links_dropped<S: StorageBackend>(
    s: S,
    event: ActionableEvent,
    t: Seq<char>,
    c: Seq<char>,
    p: Seq<char>,
) -> nat {
    match event {
        ActionableEvent::UpdateLinks { record_id, .. } | ActionableEvent::DeleteRecord(
            record_id,
        ) => if c == record_id.collection@ {
            s.record_links_to(record_id.did@, c, record_id.rkey@, p, t)
        } else {
            0
        },
        ActionableEvent::DeleteAccount(did) => s.account_links_to(did@, t, c, p),
        _ => 0,
    }
}

/// How many links of collection `c` at path `p` to `t` applying `event` adds.
pub open spec fn links_gained(event: ActionableEvent, t: Seq<char>, c: Seq<char>, p: Seq<char>) -> nat {
    match event {
        ActionableEvent::CreateLinks { record_id, links } => if c == record_id.collection@ {
            count_link(links_model(links@), p, t)
        } else {
            0
        },
        ActionableEvent::UpdateLinks { record_id, new_links } => if c == record_id.collection@ {
            count_link(links_model(new_links@), p, t)
        } else {
            0
        },
        _ => 0,
    }
}

/// What the indexing side and the query side ask of a store.
pub trait LinkStorage: StorageBackend {
    /// Applies one event to the store.
    fn push(&mut self, event: &ActionableEvent)
        requires
            old(self).valid(),
        ensures
            final(self).valid(),
            forall|t: Seq<char>, c: Seq<char>, p: Seq<char>|
                #[trigger] final(self).link_count(t, c, p) + links_dropped(*old(self), *event, t, c, p)
                    == old(self).link_count(t, c, p) + links_gained(*event, t, c, p),
    {
        match event {
            ActionableEvent::CreateLinks { record_id, links } => self.add_links(
                record_id,
                links.as_slice(),
            ),
            ActionableEvent::UpdateLinks { record_id, new_links } => self.update_links(
                record_id,
                new_links.as_slice(),
            ),
            ActionableEvent::DeleteRecord(record_id) => self.remove_links(record_id),
            ActionableEvent::ActivateAccount(did) => self.set_account(did, true),
            ActionableEvent::DeactivateAccount(did) => self.set_account(did, false),
            ActionableEvent::DeleteAccount(did) => self.delete_account(did),
        }
    }

    fn get_count(&self, target: &str, collection: &str, path: &str) -> (r: Result<
        u64,
        CountOverflow,
    >)
        requires
            self.valid(),
        ensures
            match r {
                Ok(n) => n == self.link_count(target@, collection@, path@),
                Err(_) => self.link_count(target@, collection@, path@) > u64::MAX,
            },
    {
        self.count(target, collection, path)
    }
}

impl StorageBackend for MemStorage {
    open spec fn valid(&self) -> bool {
        self.wf()
    }

    open spec fn link_count(&self, t: Seq<char>, c: Seq<char>, p: Seq<char>) -> nat {
        self.count_of(t, c, p)
    }

    open spec fn record_links_to(
        &self,
        did: Seq<char>,
        c: Seq<char>,
        rkey: Seq<char>,
        p: Seq<char>,
        t: Seq<char>,
    ) -> nat {
        match self.record(did, c, rkey) {
            Some(ls) => count_link(ls, p, t),
            None => 0,
        }
    }

    open spec fn account_links_to(&self, did: Seq<char>, t: Seq<char>, c: Seq<char>, p: Seq<char>) -> nat {
        tally(self.records(), Some(did), t, c, p)
    }

    fn add_links(&mut self, record_id: &RecordId, links: &[CollectedLink]) {
        MemStorage::add_links(self, record_id, links)
    }

    fn remove_links(&mut self, record_id: &RecordId) {
        MemStorage::remove_links(self, record_id)
    }

    fn update_links(&mut self, record_id: &RecordId, new_links: &[CollectedLink]) {
        MemStorage::update_links(self, record_id, new_links)
    }

    fn set_account(&mut self, did: &Did, active: bool) {
        MemStorage::set_account(self, did, active)
    }

    fn delete_account(&mut self, did: &Did) {
        MemStorage::delete_account(self, did)
    }

    fn count(&self, target: &str, collection: &str, path: &str) -> (r: Result<u64, CountOverflow>) {
        proof {
            lemma_count_is_stored_links(*self, target@, collection@, path@);
        }
        MemStorage::count(self, target, collection, path)
    }
}

impl LinkStorage for MemStorage {

}

/// Updating a record to no links leaves exactly what removing it leaves.
pub proof fn lemma_empty_update_is_removal(
    s0: MemStorage,
    s1: MemStorage,
    s2: MemStorage,
    record_id: RecordId,
    links: Seq<CollectedLink>,
)
    requires
        s0.wf(),
        links.len() == 0,
        links_updated(s0, s1, record_id, links),
        links_removed(s0, s2, record_id),
    ensures
        s1.records() == s2.records(),
        s1.accounts() == s2.accounts(),
        forall|t: Seq<char>, c: Seq<char>, p: Seq<char>|
            #[trigger] slot_dids(s1.slots(), t, c, p) == slot_dids(s2.slots(), t, c, p),
{
    assert(links_model(links).len() == 0);
    assert forall|t: Seq<char>, c: Seq<char>, p: Seq<char>|
        #[trigger] slot_dids(s1.slots(), t, c, p) == slot_dids(s2.slots(), t, c, p) by {
        assert(count_link(links_model(links), p, t) == 0);
        let r = remove_last_n(
            slot_dids(s0.slots(), t, c, p),
            record_id.did@,
            stored_for(s0, record_id, p, t),
        );
        assert(r + repeated(record_id.did@, 0) =~= r);
    }
}

/// Deleting an account the index does not mention changes nothing.
pub proof fn lemma_delete_absent_account(s0: MemStorage, s1: MemStorage, did: Seq<char>)
    requires
        s0.wf(),
        !s0.mentions(did),
        account_deleted(s0, s1, did),
    ensures
        s1.records() == s0.records(),
        s1.accounts() == s0.accounts(),
        forall|t: Seq<char>, c: Seq<char>, p: Seq<char>|
            #[trigger] slot_dids(s1.slots(), t, c, p) == slot_dids(s0.slots(), t, c, p),
{
    lemma_records_without_absent(s0.records(), did);
    lemma_accounts_without_absent(s0.accounts(), did);
    assert forall|t: Seq<char>, c: Seq<char>, p: Seq<char>|
        #[trigger] slot_dids(s1.slots(), t, c, p) == slot_dids(s0.slots(), t, c, p) by {
        let i = slot_index(s0.slots(), t, c, p);
        lemma_first_where(s0.slots().len(), slot_pred(s0.slots(), t, c, p));
        if i >= 0 {
            assert forall|j: int| 0 <= j < s0.slots()[i].dids.len() implies s0.slots()[i].dids[j]
                != did by {
                assert(!(0 <= i < s0.slots().len() && 0 <= j < s0.slots()[i].dids.len()
                    && s0.slots()[i].dids[j] == did));
            }
        }
        lemma_without_absent(slot_dids(s0.slots(), t, c, p), did);
    }
}

proof fn lemma_without_absent(s: Seq<Seq<char>>, x: Seq<char>)
    requires
        forall|j: int| 0 <= j < s.len() ==> s[j] != x,
    ensures
        without_did(s, x) == s,
    decreases s.len(),
{
    if s.len() > 0 {
        lemma_without_absent(s.drop_last(), x);
        assert(s.drop_last().push(s.last()) =~= s);
    }
}

proof fn lemma_records_without_absent(recs: Seq<RecordModel>, x: Seq<char>)
    requires
        forall|j: int| 0 <= j < recs.len() ==> #[trigger] recs[j].did != x,
    ensures
        records_without(recs, x) == recs,
    decreases recs.len(),
{
    if recs.len() > 0 {
        assert(recs.last() == recs[recs.len() - 1]);
        lemma_records_without_absent(recs.drop_last(), x);
        assert(recs.drop_last().push(recs.last()) =~= recs);
    }
}

proof fn lemma_accounts_without_absent(accts: Seq<(Seq<char>, bool)>, x: Seq<char>)
    requires
        forall|j: int| 0 <= j < accts.len() ==> #[trigger] accts[j].0 != x,
    ensures
        accounts_without(accts, x) == accts,
    decreases accts.len(),
{
    if accts.len() > 0 {
        assert(accts.last() == accts[accts.len() - 1]);
        lemma_accounts_without_absent(accts.drop_last(), x);
        assert(accts.drop_last().push(accts.last()) =~= accts);
    }
}

/// The count does not fit in a `u64`.
#[derive(Debug, Clone, Copy, PartialEq, Eq)]
pub struct CountOverflow;

} // verus!
