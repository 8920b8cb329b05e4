use std::collections::BTreeMap;

use channel_store::chunking::{chunk, join};
use channel_store::codec::{decode, encode, StoreError};
use channel_store::loader::{load, page_text, read_page, PAGE_LIMIT};
use channel_store::resolver::{find_channel, STORAGE_CHANNEL_NAME};
use channel_store::storage::{plan_write, Action, Storage, MAX_RECORD_LEN};

fn strings(v: &[&str]) -> Vec<String> {
    v.iter().map(|s| s.to_string()).collect()
}

/// Carries out requests on a channel held as (identity, body) records.
fn apply(channel: &mut Vec<(u64, String)>, actions: &[Action], next_id: &mut u64) {
    for a in actions {
        match a {
            Action::Delete(id) => channel.retain(|r| r.0 != *id),
            Action::Append(body) => {
                assert!(body.chars().count() <= MAX_RECORD_LEN);
                channel.push((*next_id, body.clone()));
                *next_id += 1;
            }
        }
    }
}

fn sample_map() -> BTreeMap<u64, String> {
    let mut m = BTreeMap::new();
    m.insert(7, "seven".to_string());
    m.insert(1, "one, \"quoted\" \\ and ünïcödé ✓".to_string());
    m.insert(u64::MAX, String::new());
    m
}

#[test]
fn round_trip_keeps_map() {
    let m = sample_map();
    let text = encode(&m).unwrap();
    let back = decode(&text).unwrap();
    assert_eq!(back, m);
}

#[test]
fn round_trip_empty_map() {
    let m: BTreeMap<u64, String> = BTreeMap::new();
    let text = encode(&m).unwrap();
    assert!(!text.is_empty());
    assert_eq!(decode(&text).unwrap(), m);
}

#[test]
fn encode_gives_ron_text() {
    let mut m = BTreeMap::new();
    m.insert(1, "a".to_string());
    assert_eq!(encode(&m).unwrap(), "{1:\"a\"}");
}

#[test]
fn decode_rejects_malformed_text() {
    assert!(matches!(decode("{1:\"a\""), Err(StoreError::Malformed(_))));
    assert!(matches!(decode("not ron at all"), Err(StoreError::Malformed(_))));
    assert!(matches!(decode("{\"k\":\"v\"}"), Err(StoreError::Malformed(_))));
}

#[test]
fn chunk_cuts_exact_pieces() {
    let pieces = chunk("abcdefghij", 4);
    assert_eq!(pieces, strings(&["abcd", "efgh", "ij"]));
    assert_eq!(chunk("abcdefgh", 4), strings(&["abcd", "efgh"]));
    assert_eq!(chunk("", 4), Vec::<String>::new());
    assert_eq!(chunk("abc", 10), strings(&["abc"]));
}

#[test]
fn chunk_never_splits_a_character() {
    let text = "ééé✓✓😀x";
    let pieces = chunk(text, 2);
    assert_eq!(pieces, strings(&["éé", "é✓", "✓😀", "x"]));
    assert_eq!(join(&pieces), text);
}

#[test]
fn chunk_then_join_gives_text_back() {
    let text: String = (0..5000).map(|i| if i % 7 == 0 { 'ß' } else { 'a' }).collect();
    for limit in [1usize, 3, 1999, 2000, 2001, 5000, 9000] {
        let pieces = chunk(&text, limit);
        assert!(pieces.iter().all(|p| !p.is_empty() && p.chars().count() <= limit));
        assert_eq!(join(&pieces), text);
    }
}

#[test]
fn page_text_reads_most_recent_records() {
    let records = strings(&["a", "b", "c", "d"]);
    assert_eq!(page_text(&records, 2), "cd");
    assert_eq!(page_text(&records, 10), "abcd");
    assert_eq!(page_text(&records, 0), "");
}

#[test]
fn load_joins_records_in_order() {
    let records = strings(&["{1:\"a\",", "2:\"b\"}"]);
    let m = load(&records, PAGE_LIMIT);
    assert_eq!(m.len(), 2);
    assert_eq!(m.get(&1), Some(&"a".to_string()));
    assert_eq!(m.get(&2), Some(&"b".to_string()));
}

#[test]
fn corrupt_channel_loads_empty() {
    let records = strings(&["{1:\"a\",", "garbage"]);
    assert!(load(&records, PAGE_LIMIT).is_empty());
    let s = Storage::new(5, &records);
    assert!(s.data.is_empty());
    assert_eq!(s.channel, 5);
}

#[test]
fn empty_channel_loads_empty() {
    let s = Storage::new(9, &Vec::new());
    assert!(s.data.is_empty());
}

#[test]
fn snapshot_over_page_limit_is_lost() {
    let mut m = BTreeMap::new();
    m.insert(1, "x".repeat(MAX_RECORD_LEN * PAGE_LIMIT + 10));
    let text = encode(&m).unwrap();
    let pieces = chunk(&text, MAX_RECORD_LEN);
    assert!(pieces.len() > PAGE_LIMIT);
    assert!(load(&pieces, PAGE_LIMIT).is_empty());
    let all = load(&pieces, pieces.len());
    assert_eq!(all, m);
}

#[test]
fn small_page_limit_loses_snapshot() {
    let m = sample_map();
    let pieces = chunk(&encode(&m).unwrap(), 5);
    assert!(pieces.len() > 2);
    assert!(load(&pieces, 2).is_empty());
    assert_eq!(load(&pieces, pieces.len()), m);
}

#[test]
fn plan_deletes_then_appends() {
    let acts = plan_write(&vec![10, 11], "hello");
    assert_eq!(acts.len(), 3);
    assert!(matches!(acts[0], Action::Delete(10)));
    assert!(matches!(acts[1], Action::Delete(11)));
    assert!(matches!(&acts[2], Action::Append(s) if s == "hello"));
    assert!(plan_write(&vec![], "").is_empty());
}

#[test]
fn plan_cuts_long_text() {
    let text = "y".repeat(MAX_RECORD_LEN * 2 + 1);
    let acts = plan_write(&vec![3], &text);
    assert_eq!(acts.len(), 4);
    let lens: Vec<usize> = acts
        .iter()
        .filter_map(|a| match a {
            Action::Append(s) => Some(s.len()),
            Action::Delete(_) => None,
        })
        .collect();
    assert_eq!(lens, vec![MAX_RECORD_LEN, MAX_RECORD_LEN, 1]);
}

#[test]
fn write_then_load_gives_map_back() {
    let mut channel: Vec<(u64, String)> = vec![(100, "old".to_string()), (101, "junk".to_string())];
    let mut next_id = 200;
    let mut s = Storage::new(1, &channel.iter().map(|r| r.1.clone()).collect());
    assert!(s.data.is_empty());
    let fetched: Vec<u64> = channel.iter().map(|r| r.0).collect();
    let acts = s.write(4, "four".to_string(), &fetched).unwrap();
    apply(&mut channel, &acts, &mut next_id);
    assert!(channel.iter().all(|r| r.0 >= 200));

    let fetched: Vec<u64> = channel.iter().map(|r| r.0).collect();
    let acts = s.write(2, "two".to_string(), &fetched).unwrap();
    apply(&mut channel, &acts, &mut next_id);

    let bodies: Vec<String> = channel.iter().map(|r| r.1.clone()).collect();
    let fresh = Storage::new(1, &bodies);
    assert_eq!(fresh.data, s.data);
    assert_eq!(fresh.get(&4), Some(&"four".to_string()));
    assert_eq!(fresh.get(&2), Some(&"two".to_string()));
}

#[test]
fn write_of_large_map_spans_records() {
    let mut channel: Vec<(u64, String)> = Vec::new();
    let mut next_id = 1;
    let mut s = Storage::new(1, &Vec::new());
    for k in 0..50u64 {
        s.insert(k, "v".repeat(300));
    }
    let acts = s.persist(&Vec::new()).unwrap();
    apply(&mut channel, &acts, &mut next_id);
    assert!(channel.len() > 1);
    let bodies: Vec<String> = channel.iter().map(|r| r.1.clone()).collect();
    let mut other = Storage::new(1, &Vec::new());
    other.get_latest_from_channel(&bodies);
    assert_eq!(other.data, s.data);
}

#[test]
fn get_of_missing_key_is_none() {
    let mut s = Storage::new(1, &Vec::new());
    assert_eq!(s.get(&3), None);
    s.insert(4, "x".to_string());
    assert_eq!(s.get(&3), None);
    assert_eq!(s.get(&4), Some(&"x".to_string()));
}

#[test]
fn insert_replaces_value() {
    let mut s = Storage::new(1, &Vec::new());
    s.insert(4, "x".to_string());
    s.insert(4, "y".to_string());
    assert_eq!(s.data.len(), 1);
    assert_eq!(s.get(&4), Some(&"y".to_string()));
}

#[test]
fn find_channel_is_idempotent() {
    let mut names = strings(&["general", "storage-for-a-bot-old", "random"]);
    assert_eq!(find_channel(&names, STORAGE_CHANNEL_NAME), None);
    names.push(STORAGE_CHANNEL_NAME.to_string());
    let first = find_channel(&names, STORAGE_CHANNEL_NAME);
    assert_eq!(first, Some(3));
    assert_eq!(find_channel(&names, STORAGE_CHANNEL_NAME), first);
    assert_eq!(names.len(), 4);
}

#[test]
fn find_channel_takes_first_exact_match() {
    let names = strings(&["a", "Storage-For-A-Bot", "storage-for-a-bot", "storage-for-a-bot"]);
    assert_eq!(find_channel(&names, STORAGE_CHANNEL_NAME), Some(2));
    assert_eq!(find_channel(&Vec::new(), STORAGE_CHANNEL_NAME), None);
}

#[test]
fn read_page_reports_malformed_page() {
    let records = strings(&["{1:\"a\",", "garbage"]);
    assert!(matches!(read_page(&records, PAGE_LIMIT), Err(StoreError::Malformed(_))));
    let records = strings(&["{3:", "\"c\"}"]);
    let m = read_page(&records, PAGE_LIMIT).unwrap();
    assert_eq!(m.get(&3), Some(&"c".to_string()));
    assert!(matches!(read_page(&records, 1), Err(StoreError::Malformed(_))));
}
