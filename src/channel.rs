use vstd::prelude::*;

use crate::chunking::{join_all, lemma_pieces_join, pieces_of};
use crate::codec::{ron_decoding, ron_encoding, text_map};
use crate::loader::{loaded, recent_page, PAGE_LIMIT};
use crate::storage::{is_plan, persist_plan, Action, MAX_RECORD_LEN};

verus! {

/// A live record of the channel: its identity and its body.
pub type RecordModel = (u64, Seq<char>);

/// The channel without the records of identity `id`.
pub open spec fn without_record(ch: Seq<RecordModel>, id: u64) -> Seq<RecordModel>
    decreases ch.len(),
{
    if ch.len() == 0 {
        ch
    } else if ch[0].0 == id {
        without_record(ch.drop_first(), id)
    } else {
        seq![ch[0]] + without_record(ch.drop_first(), id)
    }
}

/// The channel after one request; an appended record gets identity `new_id`.
pub open spec fn apply_action(ch: Seq<RecordModel>, a: Action, new_id: u64) -> Seq<RecordModel> {
    match a {
        Action::Delete(id) => without_record(ch, id),
        Action::Append(body) => ch.push((new_id, body@)),
    }
}

/// The channel after the requests `acts` in order; `new_ids[i]` is the identity
/// the provider gives the record that `acts[i]` appends.
pub open spec fn apply_actions(ch: Seq<RecordModel>, acts: Seq<Action>, new_ids: Seq<u64>) -> Seq<RecordModel>
    decreases acts.len(),
{
    if acts.len() == 0 {
        ch
    } else {
        apply_actions(apply_action(ch, acts[0], new_ids[0]), acts.drop_first(), new_ids.drop_first())
    }
}

/// The identities of the channel's records, in order.
pub open spec fn ids_of(ch: Seq<RecordModel>) -> Seq<u64> {
    ch.map_values(|r: RecordModel| r.0)
}

/// The bodies of the channel's records, in order.
pub open spec fn bodies_of(ch: Seq<RecordModel>) -> Seq<Seq<char>> {
    ch.map_values(|r: RecordModel| r.1)
}

proof fn lemma_without_absent(ch: Seq<RecordModel>, id: u64)
    requires
        forall|i: int| 0 <= i < ch.len() ==> (#[trigger] ch[i]).0 != id,
    ensures
        without_record(ch, id) == ch,
    decreases ch.len(),
{
    if ch.len() > 0 {
        assert forall|i: int| 0 <= i < ch.drop_first().len() implies (#[trigger] ch.drop_first()[i]).0 != id by {
            assert(ch.drop_first()[i] == ch[i + 1]);
        }
        lemma_without_absent(ch.drop_first(), id);
        assert(seq![ch[0]] + ch.drop_first() =~= ch);
    }
}

/// Deleting the fetched records one by one, from `k` on, leaves what the
/// remaining requests make of an empty channel.
proof fn lemma_deletes(ch: Seq<RecordModel>, acts: Seq<Action>, new_ids: Seq<u64>, k: int)
    requires
        0 <= k <= ch.len(),
        ch.len() <= acts.len(),
        new_ids.len() == acts.len(),
        ids_of(ch).no_duplicates(),
        forall|i: int| 0 <= i < ch.len() ==> (#[trigger] acts[i]) == Action::Delete(ch[i].0),
    ensures
        apply_actions(ch.subrange(k, ch.len() as int), acts.subrange(k, acts.len() as int), new_ids.subrange(k, new_ids.len() as int))
            == apply_actions(Seq::<RecordModel>::empty(), acts.subrange(ch.len() as int, acts.len() as int),
                new_ids.subrange(ch.len() as int, new_ids.len() as int)),
    decreases ch.len() - k,
{
    if k < ch.len() {
        let rest = ch.subrange(k, ch.len() as int);
        let a = acts.subrange(k, acts.len() as int);
        let n = new_ids.subrange(k, new_ids.len() as int);
        assert(a[0] == Action::Delete(ch[k].0));
        assert forall|i: int| 0 <= i < rest.drop_first().len() implies (#[trigger] rest.drop_first()[i]).0 != ch[k].0 by {
            assert(rest.drop_first()[i] == ch[k + 1 + i]);
            assert(ids_of(ch)[k + 1 + i] == ch[k + 1 + i].0);
            assert(ids_of(ch)[k] == ch[k].0);
        }
        lemma_without_absent(rest.drop_first(), ch[k].0);
        assert(rest.drop_first() =~= ch.subrange(k + 1, ch.len() as int));
        assert(a.drop_first() =~= acts.subrange(k + 1, acts.len() as int));
        assert(n.drop_first() =~= new_ids.subrange(k + 1, new_ids.len() as int));
        lemma_deletes(ch, acts, new_ids, k + 1);
    } else {
        assert(ch.subrange(k, ch.len() as int) =~= Seq::<RecordModel>::empty());
    }
}

/// Appending the remaining bodies, from `j` on, adds them to the channel's bodies in order.
proof fn lemma_appends(ch: Seq<RecordModel>, acts: Seq<Action>, new_ids: Seq<u64>, bodies: Seq<Seq<char>>, j: int)
    requires
        0 <= j <= bodies.len(),
        acts.len() == bodies.len(),
        new_ids.len() == acts.len(),
        forall|i: int| 0 <= i < bodies.len() ==> crate::storage::is_append(#[trigger] acts[i], bodies[i]),
    ensures
        bodies_of(apply_actions(ch, acts.subrange(j, acts.len() as int), new_ids.subrange(j, new_ids.len() as int)))
            == bodies_of(ch) + bodies.subrange(j, bodies.len() as int),
    decreases bodies.len() - j,
{
    let a = acts.subrange(j, acts.len() as int);
    let n = new_ids.subrange(j, new_ids.len() as int);
    if j < bodies.len() {
        assert(a[0] == acts[j]);
        let next = apply_action(ch, a[0], n[0]);
        match acts[j] {
            Action::Append(s) => {
                assert(bodies_of(next) =~= bodies_of(ch).push(bodies[j]));
            },
            Action::Delete(_) => {},
        }
        assert(a.drop_first() =~= acts.subrange(j + 1, acts.len() as int));
        assert(n.drop_first() =~= new_ids.subrange(j + 1, new_ids.len() as int));
        lemma_appends(next, acts, new_ids, bodies, j + 1);
        assert(bodies_of(ch).push(bodies[j]) + bodies.subrange(j + 1, bodies.len() as int)
            =~= bodies_of(ch) + bodies.subrange(j, bodies.len() as int));
    } else {
        assert(a.len() == 0);
        assert(bodies_of(ch) + bodies.subrange(j, bodies.len() as int) =~= bodies_of(ch));
    }
}

/// Carrying out a plan over exactly the fetched records leaves the channel
/// holding the planned bodies, in order.
pub proof fn lemma_plan_result(ch: Seq<RecordModel>, acts: Seq<Action>, new_ids: Seq<u64>, bodies: Seq<Seq<char>>)
    requires
        ids_of(ch).no_duplicates(),
        is_plan(acts, ids_of(ch), bodies),
        new_ids.len() == acts.len(),
    ensures
        bodies_of(apply_actions(ch, acts, new_ids)) == bodies,
{
    let f = ch.len() as int;
    assert forall|i: int| 0 <= i < ch.len() implies (#[trigger] acts[i]) == Action::Delete(ch[i].0) by {
        assert(ids_of(ch)[i] == ch[i].0);
        assert(crate::storage::is_delete(acts[i], ids_of(ch)[i]));
    }
    lemma_deletes(ch, acts, new_ids, 0);
    assert(ch.subrange(0, f) =~= ch);
    assert(acts.subrange(0, acts.len() as int) =~= acts);
    assert(new_ids.subrange(0, new_ids.len() as int) =~= new_ids);
    let tail = acts.subrange(f, acts.len() as int);
    let tail_ids = new_ids.subrange(f, new_ids.len() as int);
    assert forall|i: int| 0 <= i < bodies.len() implies crate::storage::is_append(#[trigger] tail[i], bodies[i]) by {
        assert(tail[i] == acts[f + i]);
    }
    lemma_appends(Seq::<RecordModel>::empty(), tail, tail_ids, bodies, 0);
    assert(tail.subrange(0, tail.len() as int) =~= tail);
    assert(tail_ids.subrange(0, tail_ids.len() as int) =~= tail_ids);
    assert(bodies_of(Seq::<RecordModel>::empty()) + bodies.subrange(0, bodies.len() as int) =~= bodies);
}

/// After a successful write of `data` over a channel whose live records are
/// exactly the fetched ones, with no other writer, the records' bodies join to
/// the encoded map; where they fit in one page, a fresh load decodes exactly
/// that text.
pub proof fn lemma_write_then_load(data: Map<u64, String>, ch: Seq<RecordModel>, acts: Seq<Action>, new_ids: Seq<u64>)
    requires
        ids_of(ch).no_duplicates(),
        persist_plan(data, ids_of(ch), acts),
        new_ids.len() == acts.len(),
    ensures
        ron_encoding(text_map(data)) is Some,
        join_all(bodies_of(apply_actions(ch, acts, new_ids))) == ron_encoding(text_map(data))->0,
        bodies_of(apply_actions(ch, acts, new_ids)).len() <= PAGE_LIMIT ==>
            loaded(bodies_of(apply_actions(ch, acts, new_ids)), PAGE_LIMIT as nat)
                == match ron_decoding(ron_encoding(text_map(data))->0) {
                    Some(m) => m,
                    None => Map::<u64, Seq<char>>::empty(),
                },
{
    let t = ron_encoding(text_map(data))->0;
    lemma_plan_result(ch, acts, new_ids, pieces_of(t, MAX_RECORD_LEN as nat));
    lemma_pieces_join(t, MAX_RECORD_LEN as nat);
    let b = bodies_of(apply_actions(ch, acts, new_ids));
    assert(b.len() <= PAGE_LIMIT ==> recent_page(b, PAGE_LIMIT as nat) == b);
}

} // verus!
