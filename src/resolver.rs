use vstd::prelude::*;
use vstd::string::*;

use crate::chunking::views_of;

verus! {

/// Name of the channel that holds a store's records.
pub const STORAGE_CHANNEL_NAME: &'static str = "storage-for-a-bot";

/// Position of the first channel named `name`, or the number of channels where none is.
pub open spec fn first_named(names: Seq<Seq<char>>, name: Seq<char>) -> nat
    decreases names.len(),
{
    if names.len() == 0 {
        0
    } else if names[0] == name {
        0
    } else {
        1 + first_named(names.drop_first(), name)
    }
}

/// The channels after resolving `name`: unchanged where one has that name,
/// else with a new channel of that name added last.
pub open spec fn after_resolve(names: Seq<Seq<char>>, name: Seq<char>) -> Seq<Seq<char>> {
    if first_named(names, name) < names.len() {
        names
    } else {
        names.push(name)
    }
}

proof fn lemma_first_named(names: Seq<Seq<char>>, name: Seq<char>, i: int)
    requires
        0 <= i <= names.len(),
        forall|j: int| 0 <= j < i ==> names[j] != name,
        i == names.len() || names[i] == name,
    ensures
        first_named(names, name) == i,
    decreases names.len(),
{
    if names.len() > 0 && i > 0 {
        assert forall|j: int| 0 <= j < i - 1 implies names.drop_first()[j] != name by {
            assert(names.drop_first()[j] == names[j + 1]);
        }
        lemma_first_named(names.drop_first(), name, i - 1);
    }
}

/// Finds the first channel whose name is exactly `name`.
pub fn find_channel(names: &Vec<String>, name: &str) -> (r: Option<usize>)
    ensures
        match r {
            Some(i) => i == first_named(views_of(names@), name@) && i < names@.len(),
            None => first_named(views_of(names@), name@) == names@.len(),
        },
{
    let wanted = String::from_str(name);
    let mut i: usize = 0;
    while i < names.len()
        invariant
            wanted@ == name@,
            i <= names@.len(),
            forall|j: int| 0 <= j < i ==> views_of(names@)[j] != name@,
        decreases names@.len() - i,
    {
        let found = names[i] == wanted;
        if found {
            proof {
                lemma_first_named(views_of(names@), name@, i as int);
            }
            return Some(i);
        }
        i = i + 1;
    }
    proof {
        lemma_first_named(views_of(names@), name@, i as int);
    }
    None
}

/// Resolving a channel by name twice gives the same channel both times, and the
/// second time adds no channel.
pub proof fn lemma_resolve_idempotent(names: Seq<Seq<char>>, name: Seq<char>)
    ensures
        after_resolve(after_resolve(names, name), name) == after_resolve(names, name),
        first_named(after_resolve(names, name), name) == first_named(names, name),
        first_named(names, name) < after_resolve(names, name).len(),
{
    let k = first_named(names, name);
    lemma_first_named_bounds(names, name);
    if k >= names.len() {
        let after = names.push(name);
        assert forall|j: int| 0 <= j < names.len() implies after[j] != name by {
            lemma_first_named_before(names, name, j);
        }
        lemma_first_named(after, name, names.len() as int);
    }
}

proof fn lemma_first_named_bounds(names: Seq<Seq<char>>, name: Seq<char>)
    ensures
        first_named(names, name) <= names.len(),
        first_named(names, name) < names.len() ==> names[first_named(names, name) as int] == name,
    decreases names.len(),
{
    if names.len() > 0 && names[0] != name {
        lemma_first_named_bounds(names.drop_first(), name);
    }
}

proof fn lemma_first_named_before(names: Seq<Seq<char>>, name: Seq<char>, j: int)
    requires
        0 <= j < first_named(names, name),
        j < names.len(),
    ensures
        names[j] != name,
    decreases names.len(),
{
    if j > 0 {
        lemma_first_named_before(names.drop_first(), name, j - 1);
    }
}

} // verus!
