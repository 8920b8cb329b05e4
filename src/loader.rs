use std::collections::BTreeMap;
use vstd::prelude::*;

use crate::chunking::{join_all, lemma_join_concat, lemma_join_len, lemma_join_push, lemma_pieces_join, pieces_of, views_of};
use crate::codec::{decode, ron_decoding, text_map, StoreError};

verus! {

/// How many of the most recent records one load reads.
pub const PAGE_LIMIT: usize = 100;

/// The most recent `limit` records of a channel listed oldest first.
pub open spec fn recent_page(records: Seq<Seq<char>>, limit: nat) -> Seq<Seq<char>> {
    if records.len() > limit {
        records.subrange(records.len() - limit, records.len() as int)
    } else {
        records
    }
}

/// The map a load yields: the decoded text of the most recent page, or the
/// empty map where that text is no valid snapshot.
pub open spec fn loaded(records: Seq<Seq<char>>, limit: nat) -> Map<u64, Seq<char>> {
    match ron_decoding(join_all(recent_page(records, limit))) {
        Some(m) => m,
        None => Map::empty(),
    }
}

/// Joins the bodies of the most recent `limit` records, oldest first.
pub fn page_text(records: &Vec<String>, limit: usize) -> (r: String)
    ensures
        r@ == join_all(recent_page(views_of(records@), limit as nat)),
{
    let n = records.len();
    let start: usize = if n > limit { n - limit } else { 0 };
    let mut out = String::new();
    let mut i: usize = start;
    while i < n
        invariant
            n == records@.len(),
            start <= i <= n,
            out@ == join_all(views_of(records@.subrange(start as int, i as int))),
        decreases n - i,
    {
        proof {
            let a = records@.subrange(start as int, i as int);
            assert(views_of(records@.subrange(start as int, i + 1)) =~= views_of(a).push(records@[i as int]@));
            lemma_join_push(views_of(a), records@[i as int]@);
        }
        out.append(records[i].as_str());
        i = i + 1;
    }
    proof {
        assert(views_of(records@.subrange(start as int, n as int)) =~= recent_page(views_of(records@), limit as nat));
    }
    out
}

/// Decodes the joined bodies of the most recent `limit` records, oldest
/// first, and reports a page that holds no valid snapshot as `Malformed`.
pub fn read_page(records: &Vec<String>, limit: usize) -> (r: Result<BTreeMap<u64, String>, StoreError>)
    ensures
        match r {
            Ok(m) => ron_decoding(join_all(recent_page(views_of(records@), limit as nat))) == Some(text_map(m@)),
            Err(e) => ron_decoding(join_all(recent_page(views_of(records@), limit as nat))) is None
                && e is Malformed,
        },
{
    let text = page_text(records, limit);
    decode(text.as_str())
}

/// Rebuilds the map from the records of the channel, oldest first. Only the
/// most recent `limit` records are read; where their joined text does not
/// decode, the result is the empty map.
pub fn load(records: &Vec<String>, limit: usize) -> (r: BTreeMap<u64, String>)
    ensures
        text_map(r@) == loaded(views_of(records@), limit as nat),
{
    match read_page(records, limit) {
        Ok(m) => m,
        Err(_) => {
            let m = BTreeMap::new();
            proof {
                assert(text_map(m@) =~= Map::<u64, Seq<char>>::empty());
            }
            m
        },
    }
}

/// A page whose joined text is no valid snapshot loads as the empty map, not as an error.
pub proof fn lemma_corrupt_page_loads_empty(records: Seq<Seq<char>>, limit: nat)
    requires
        ron_decoding(join_all(recent_page(records, limit))) is None,
    ensures
        loaded(records, limit) == Map::<u64, Seq<char>>::empty(),
{
}

/// Where a snapshot was cut into more pieces than one page holds, a load reads
/// a proper suffix of its text: the oldest pieces are not in the page.
pub proof fn lemma_over_limit_page_is_partial(text: Seq<char>, max_len: nat, limit: nat)
    requires
        max_len > 0,
        pieces_of(text, max_len).len() > limit,
    ensures
        ({
            let read = join_all(recent_page(pieces_of(text, max_len), limit));
            &&& read.len() < text.len()
            &&& read == text.subrange(text.len() - read.len(), text.len() as int)
        }),
{
    let p = pieces_of(text, max_len);
    lemma_pieces_join(text, max_len);
    let cut = p.len() - limit;
    let older = p.subrange(0, cut);
    let page = recent_page(p, limit);
    assert(older + page =~= p);
    lemma_join_concat(older, page);
    assert forall|i: int| 0 <= i < older.len() implies (#[trigger] older[i]).len() > 0 by {
        assert(older[i] == p[i]);
    }
    lemma_join_len(older);
    let read = join_all(page);
    assert(read =~= text.subrange(text.len() - read.len(), text.len() as int));
}

} // verus!
