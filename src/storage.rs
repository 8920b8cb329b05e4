use std::collections::BTreeMap;
use vstd::prelude::*;

use crate::chunking::{chunk, join_all, pieces_of, views_of};
use crate::codec::{encode, ron_encoding, text_map, StoreError};
use crate::loader::{load, loaded, PAGE_LIMIT};

verus! {

/// Longest body, in characters, that the channel takes for one record.
pub const MAX_RECORD_LEN: usize = 2000;

/// One request to the channel provider.
#[derive(Debug)]
pub enum Action {
    /// Delete the record with this identity.
    Delete(u64),
    /// Append a record with this body.
    Append(String),
}

/// `a` deletes the record `id`.
pub open spec fn is_delete(a: Action, id: u64) -> bool {
    match a {
        Action::Delete(d) => d == id,
        Action::Append(_) => false,
    }
}

/// `a` appends a record holding `body`.
pub open spec fn is_append(a: Action, body: Seq<char>) -> bool {
    match a {
        Action::Delete(_) => false,
        Action::Append(s) => s@ == body,
    }
}

/// The requests that replace the records `fetched` by records holding `bodies`:
/// every fetched record is deleted, in order, then every body is appended, in order.
pub open spec fn is_plan(acts: Seq<Action>, fetched: Seq<u64>, bodies: Seq<Seq<char>>) -> bool {
    &&& acts.len() == fetched.len() + bodies.len()
    &&& forall|i: int| 0 <= i < fetched.len() ==> is_delete(#[trigger] acts[i], fetched[i])
    &&& forall|j: int| 0 <= j < bodies.len() ==> is_append(
        #[trigger] acts[fetched.len() + j],
        bodies[j],
    )
}

/// Builds the requests that replace the fetched records by records holding `text`,
/// cut into pieces of at most `MAX_RECORD_LEN` characters.
pub fn plan_write(fetched: &Vec<u64>, text: &str) -> (r: Vec<Action>)
    ensures
        is_plan(r@, fetched@, pieces_of(text@, MAX_RECORD_LEN as nat)),
{
    let mut acts: Vec<Action> = Vec::new();
    let mut i: usize = 0;
    while i < fetched.len()
        invariant
            i <= fetched@.len(),
            acts@.len() == i,
            forall|k: int| 0 <= k < i ==> is_delete(#[trigger] acts@[k], fetched@[k]),
        decreases fetched@.len() - i,
    {
        acts.push(Action::Delete(fetched[i]));
        i = i + 1;
    }
    let pieces = chunk(text, MAX_RECORD_LEN);
    let f = fetched.len();
    let mut j: usize = 0;
    while j < pieces.len()
        invariant
            f == fetched@.len(),
            j <= pieces@.len(),
            views_of(pieces@) == pieces_of(text@, MAX_RECORD_LEN as nat),
            acts@.len() == f + j,
            forall|k: int| 0 <= k < f ==> is_delete(#[trigger] acts@[k], fetched@[k]),
            forall|k: int| 0 <= k < j ==> is_append(#[trigger] acts@[f + k], pieces@[k]@),
        decreases pieces@.len() - j,
    {
        acts.push(Action::Append(pieces[j].clone()));
        proof {
            assert(acts@[f + j as int] == Action::Append(pieces@[j as int]));
        }
        j = j + 1;
    }
    proof {
        assert forall|k: int| 0 <= k < pieces_of(text@, MAX_RECORD_LEN as nat).len() implies
            is_append(#[trigger] acts@[f + k], pieces_of(text@, MAX_RECORD_LEN as nat)[k]) by {
            assert(views_of(pieces@)[k] == pieces@[k]@);
        }
    }
    acts
}

/// What a successful persist of `data` hands to the channel: the requests that
/// replace the fetched records by the pieces of the map's encoded text.
pub open spec fn persist_plan(data: Map<u64, String>, fetched: Seq<u64>, acts: Seq<Action>) -> bool {
    match ron_encoding(text_map(data)) {
        Some(t) => is_plan(acts, fetched, pieces_of(t, MAX_RECORD_LEN as nat)),
        None => false,
    }
}

/// A key-value store whose state lives as text records in one channel.
/// The map is served from memory; the channel is rewritten in full on each write.
pub struct Storage {
    /// The entries, ordered by key.
    pub data: BTreeMap<u64, String>,
    /// Identity of the channel that holds the records.
    pub channel: u64,
}

impl Storage {
    /// A store on `channel`, filled from the channel's records (oldest first) as a load reads them.
    pub fn new(channel: u64, records: &Vec<String>) -> (r: Storage)
        ensures
            r.channel == channel,
            text_map(r.data@) == loaded(views_of(records@), PAGE_LIMIT as nat),
    {
        Storage { data: load(records, PAGE_LIMIT), channel }
    }

    /// Replaces the map by what the channel's records (oldest first) hold.
    pub fn get_latest_from_channel(&mut self, records: &Vec<String>)
        ensures
            final(self).channel == old(self).channel,
            text_map(final(self).data@) == loaded(views_of(records@), PAGE_LIMIT as nat),
    {
        self.data = load(records, PAGE_LIMIT);
    }

    /// The value stored under `key`, if any.
    pub fn get(&self, key: &u64) -> (r: Option<&String>)
        ensures
            match r {
                Some(v) => self.data@.contains_key(*key) && self.data@[*key] == *v,
                None => !self.data@.contains_key(*key),
            },
    {
        broadcast use vstd::laws_cmp::group_laws_cmp, vstd::std_specs::btree::group_btree_axioms;
        self.data.get(key)
    }

    /// Sets the value under `key` in memory only; `persist` writes it out.
    pub fn insert(&mut self, key: u64, value: String)
        ensures
            final(self).channel == old(self).channel,
            final(self).data@ == old(self).data@.insert(key, value),
    {
        broadcast use vstd::laws_cmp::group_laws_cmp, vstd::std_specs::btree::group_btree_axioms;
        self.data.insert(key, value);
    }

    /// The requests that make the channel hold the current map: delete the
    /// fetched records, then append the pieces of the encoded map.
    pub fn persist(&self, fetched: &Vec<u64>) -> (r: Result<Vec<Action>, StoreError>)
        ensures
            match r {
                Ok(acts) => persist_plan(self.data@, fetched@, acts@),
                Err(e) => ron_encoding(text_map(self.data@)) is None && e is RonError,
            },
    {
        match encode(&self.data) {
            Ok(text) => Ok(plan_write(fetched, text.as_str())),
            Err(e) => Err(e),
        }
    }

    /// Sets `key` to `value` and returns the requests that persist the whole
    /// map over the fetched records.
    pub fn write(&mut self, key: u64, value: String, fetched: &Vec<u64>) -> (r: Result<Vec<Action>, StoreError>)
        ensures
            final(self).channel == old(self).channel,
            final(self).data@ == old(self).data@.insert(key, value),
            match r {
                Ok(acts) => persist_plan(final(self).data@, fetched@, acts@),
                Err(e) => ron_encoding(text_map(final(self).data@)) is None && e is RonError,
            },
    {
        self.insert(key, value);
        self.persist(fetched)
    }
}

} // verus!
