use std::collections::BTreeMap;
use vstd::prelude::*;

verus! {

#[verifier::external_type_specification]
#[verifier::external_body]
pub struct ExRonError(ron::error::Error);

#[verifier::external_type_specification]
#[verifier::external_body]
pub struct ExRonSpannedError(ron::error::SpannedError);

/// What went wrong in the store.
#[derive(Debug)]
pub enum StoreError {
    /// The map could not be written as RON text.
    RonError(ron::Error),
    /// The text is not a RON encoding of a map from keys to strings.
    Malformed(ron::error::SpannedError),
}

/// The text values of a map, as character sequences.
pub open spec fn text_map(m: Map<u64, String>) -> Map<u64, Seq<char>> {
    Map::new(|k: u64| m.contains_key(k), |k: u64| m[k]@)
}

/// RON text of a map, or `None` where the serialiser fails.
pub uninterp spec fn ron_encoding(m: Map<u64, Seq<char>>) -> Option<Seq<char>>;

/// The map that RON text encodes, or `None` where the text is not one.
pub uninterp spec fn ron_decoding(s: Seq<char>) -> Option<Map<u64, Seq<char>>>;

/// Relies on ron::to_string: writes the map as RON text or fails, and which of
/// the two happens, and the text, depend on the map's entries alone.
#[verifier::external_body]
fn ron_to_string(m: &BTreeMap<u64, String>) -> (r: Result<String, ron::Error>)
    ensures
        r is Ok <==> ron_encoding(text_map(m@)) is Some,
        r is Ok ==> ron_encoding(text_map(m@)) == Some(r->Ok_0@),
{
    ron::to_string(m)
}

/// Relies on ron::from_str: reads RON text as a map or fails, depending on the
/// text alone.
#[verifier::external_body]
fn ron_from_str(s: &str) -> (r: Result<BTreeMap<u64, String>, ron::error::SpannedError>)
    ensures
        r is Ok <==> ron_decoding(s@) is Some,
        r is Ok ==> ron_decoding(s@) == Some(text_map(r->Ok_0@)),
{
    ron::from_str(s)
}

/// Writes the whole map as one self-describing text.
pub fn encode(data: &BTreeMap<u64, String>) -> (r: Result<String, StoreError>)
    ensures
        match r {
            Ok(t) => ron_encoding(text_map(data@)) == Some(t@),
            Err(e) => ron_encoding(text_map(data@)) is None && e is RonError,
        },
{
    match ron_to_string(data) {
        Ok(t) => Ok(t),
        Err(e) => Err(StoreError::RonError(e)),
    }
}

/// Reads a map back from its text.
pub fn decode(text: &str) -> (r: Result<BTreeMap<u64, String>, StoreError>)
    ensures
        match r {
            Ok(m) => ron_decoding(text@) == Some(text_map(m@)),
            Err(e) => ron_decoding(text@) is None && e is Malformed,
        },
{
    match ron_from_str(text) {
        Ok(m) => Ok(m),
        Err(e) => Err(StoreError::Malformed(e)),
    }
}

} // verus!
