use std::collections::BTreeMap;
use vstd::prelude::*;

verus! {

/// The type of a stored value, checked when it is read.
#[derive(Debug, Clone, Copy, PartialEq, Eq, Structural)]
pub enum ValueKind {
    Int,
    Text,
    Flag,
}

/// A value of one of several types, tagged with its type.
#[derive(Debug)]
pub enum Value {
    Int(i64),
    Text(String),
    Flag(bool),
}

/// Why a typed read found nothing.
#[derive(Debug, Clone, Copy, PartialEq, Eq, Structural)]
pub enum LookupError {
    /// No value is stored under the key.
    NotFound,
    /// A value is stored under the key, of another type than the one asked for.
    WrongType,
}

/// The type tag of a value.
pub open spec fn kind_of(v: Value) -> ValueKind {
    match v {
        Value::Int(_) => ValueKind::Int,
        Value::Text(_) => ValueKind::Text,
        Value::Flag(_) => ValueKind::Flag,
    }
}

/// The outcome of reading `key` as a value of type `kind`.
pub open spec fn lookup(cells: Map<u64, Value>, key: u64, kind: ValueKind) -> Result<Value, LookupError> {
    if !cells.contains_key(key) {
        Err(LookupError::NotFound)
    } else if kind_of(cells[key]) != kind {
        Err(LookupError::WrongType)
    } else {
        Ok(cells[key])
    }
}

/// The map after inserting `entries` in order into `cells`.
pub open spec fn insert_all(cells: Map<u64, Value>, entries: Seq<(u64, Value)>) -> Map<u64, Value>
    decreases entries.len(),
{
    if entries.len() == 0 {
        cells
    } else {
        insert_all(cells.insert(entries[0].0, entries[0].1), entries.drop_first())
    }
}

impl Value {
    /// The type of this value.
    pub fn kind(&self) -> (r: ValueKind)
        ensures
            r == kind_of(*self),
    {
        match self {
            Value::Int(_) => ValueKind::Int,
            Value::Text(_) => ValueKind::Text,
            Value::Flag(_) => ValueKind::Flag,
        }
    }
}

/// A map from keys to values of mixed types, read back by type.
pub struct CellStore {
    pub cells: BTreeMap<u64, Value>,
}

impl CellStore {
    /// An empty store.
    pub fn new() -> (r: CellStore)
        ensures
            r.cells@ == Map::<u64, Value>::empty(),
    {
        CellStore { cells: BTreeMap::new() }
    }

    /// Stores `value` under `key`, replacing what was there.
    pub fn insert(&mut self, key: u64, value: Value)
        ensures
            final(self).cells@ == old(self).cells@.insert(key, value),
    {
        broadcast use vstd::laws_cmp::group_laws_cmp, vstd::std_specs::btree::group_btree_axioms;
        self.cells.insert(key, value);
    }

    /// The value under `key` where it has type `kind`; `NotFound` where no value
    /// is stored there, `WrongType` where one of another type is.
    pub fn get_as(&self, key: &u64, kind: ValueKind) -> (r: Result<&Value, LookupError>)
        ensures
            match r {
                Ok(v) => lookup(self.cells@, *key, kind) == Ok::<Value, LookupError>(*v),
                Err(e) => lookup(self.cells@, *key, kind) == Err::<Value, LookupError>(e),
            },
    {
        broadcast use vstd::laws_cmp::group_laws_cmp, vstd::std_specs::btree::group_btree_axioms;
        match self.cells.get(key) {
            None => Err(LookupError::NotFound),
            Some(v) => {
                if v.kind() == kind {
                    Ok(v)
                } else {
                    Err(LookupError::WrongType)
                }
            },
        }
    }
}

/// Reading a key that none of the inserted entries has, starting from an empty
/// store, gives `NotFound`, whatever type is asked for.
pub proof fn lemma_missing_key_not_found(entries: Seq<(u64, Value)>, key: u64, kind: ValueKind)
    requires
        forall|i: int| 0 <= i < entries.len() ==> (#[trigger] entries[i]).0 != key,
    ensures
        lookup(insert_all(Map::empty(), entries), key, kind) == Err::<Value, LookupError>(LookupError::NotFound),
{
    lemma_insert_all_absent(Map::empty(), entries, key);
}

proof fn lemma_insert_all_absent(cells: Map<u64, Value>, entries: Seq<(u64, Value)>, key: u64)
    requires
        !cells.contains_key(key),
        forall|i: int| 0 <= i < entries.len() ==> (#[trigger] entries[i]).0 != key,
    ensures
        !insert_all(cells, entries).contains_key(key),
    decreases entries.len(),
{
    if entries.len() > 0 {
        assert(entries[0].0 != key);
        assert forall|i: int| 0 <= i < entries.drop_first().len() implies (#[trigger] entries.drop_first()[i]).0 != key by {
            assert(entries.drop_first()[i] == entries[i + 1]);
        }
        lemma_insert_all_absent(cells.insert(entries[0].0, entries[0].1), entries.drop_first(), key);
    }
}

/// Reading a key just set to a value of one type, as another type, gives `WrongType`.
pub proof fn lemma_type_mismatch(cells: Map<u64, Value>, key: u64, value: Value, kind: ValueKind)
    requires
        kind != kind_of(value),
    ensures
        lookup(cells.insert(key, value), key, kind) == Err::<Value, LookupError>(LookupError::WrongType),
        lookup(cells.insert(key, value), key, kind_of(value)) == Ok::<Value, LookupError>(value),
{
}

} // verus!
