use vstd::prelude::*;

verus! {

/// An account identifier, compared by exact equality.
pub type Did = String;

/// Identifies one record: the authoring account, the record's collection and its key.
#[derive(Debug, Clone, PartialEq, Eq)]
pub struct RecordId {
    pub did: Did,
    pub collection: String,
    pub rkey: String,
}

impl RecordId {
    pub open spec fn key(&self) -> (Seq<char>, Seq<char>, Seq<char>) {
        (self.did@, self.collection@, self.rkey@)
    }

    /// A copy of the authoring account's identifier.
    pub fn did(&self) -> (r: Did)
        ensures
            r@ == self.did@,
    {
        self.did.clone()
    }
}

/// One link found in a record: where it sits and what it points at.
#[derive(Debug, Clone, PartialEq, Eq)]
pub struct CollectedLink {
    pub path: String,
    pub target: String,
}

impl CollectedLink {
    /// The link as a `(path, target)` pair of character sequences.
    pub open spec fn model(&self) -> (Seq<char>, Seq<char>) {
        (self.path@, self.target@)
    }
}

/// The links of a list, as `(path, target)` pairs.
pub open spec fn links_model(links: Seq<CollectedLink>) -> Seq<(Seq<char>, Seq<char>)> {
    links.map_values(|l: CollectedLink| l.model())
}

/// What the index is asked to do in response to one upstream event.
#[derive(Debug, Clone, PartialEq, Eq)]
pub enum ActionableEvent {
    CreateLinks { record_id: RecordId, links: Vec<CollectedLink> },
    UpdateLinks { record_id: RecordId, new_links: Vec<CollectedLink> },
    DeleteRecord(RecordId),
    ActivateAccount(Did),
    DeactivateAccount(Did),
    DeleteAccount(Did),
}


/// An event as the index sees it; records are `(did, collection, rkey)`.
pub enum EventModel {
    CreateLinks { record: (Seq<char>, Seq<char>, Seq<char>), links: Seq<(Seq<char>, Seq<char>)> },
    UpdateLinks { record: (Seq<char>, Seq<char>, Seq<char>), links: Seq<(Seq<char>, Seq<char>)> },
    DeleteRecord((Seq<char>, Seq<char>, Seq<char>)),
    ActivateAccount(Seq<char>),
    DeactivateAccount(Seq<char>),
    DeleteAccount(Seq<char>),
}

impl ActionableEvent {
    pub open spec fn model(&self) -> EventModel {
        match self {
            ActionableEvent::CreateLinks { record_id, links } => EventModel::CreateLinks {
                record: record_id.key(),
                links: links_model(links@),
            },
            ActionableEvent::UpdateLinks { record_id, new_links } => EventModel::UpdateLinks {
                record: record_id.key(),
                links: links_model(new_links@),
            },
            ActionableEvent::DeleteRecord(record_id) => EventModel::DeleteRecord(record_id.key()),
            ActionableEvent::ActivateAccount(did) => EventModel::ActivateAccount(did@),
            ActionableEvent::DeactivateAccount(did) => EventModel::DeactivateAccount(did@),
            ActionableEvent::DeleteAccount(did) => EventModel::DeleteAccount(did@),
        }
    }
}

} // verus!
