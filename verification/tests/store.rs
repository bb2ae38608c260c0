use metasupply_backend::{ErrorKind, FileMetadata, Identity, MetadataStore};

fn who(tag: u8) -> Identity {
    Identity::new(vec![tag, 7, 7])
}

fn record(id: &str, previous: Option<&str>) -> FileMetadata {
    FileMetadata {
        id: id.to_string(),
        filename: format!("{}.bin", id),
        model: "model-x".to_string(),
        dataset: "set-y".to_string(),
        prompt: Some("draw a cat".to_string()),
        previous_hash: previous.map(|p| p.to_string()),
        creator: Identity::new(vec![0xFF]),
        timestamp: 1,
    }
}

fn ids(records: &[FileMetadata]) -> Vec<String> {
    records.iter().map(|r| r.id.clone()).collect()
}

#[test]
fn new_store_is_empty() {
    let store = MetadataStore::new();
    assert_eq!(store.len(), 0);
    assert!(store.list_all().is_empty());
    assert!(store.list_by_creator(&who(1)).is_empty());
    assert_eq!(store.get_by_key(&"h1".to_string()), None);
}

#[test]
fn insert_returns_the_key() {
    let mut store = MetadataStore::new();
    let outcome = store.insert(record("h1", None), who(1), 1_000);
    assert_eq!(outcome, Ok("h1".to_string()));
    assert_eq!(store.len(), 1);
}

#[test]
fn insert_then_get_by_key_gives_the_record_back() {
    let mut store = MetadataStore::new();
    let submitted = record("h1", Some("h0"));
    store.insert(submitted.clone(), who(1), 1_000).unwrap();
    let found = store.get_by_key(&"h1".to_string()).unwrap();
    assert_eq!(found.id, submitted.id);
    assert_eq!(found.filename, "h1.bin");
    assert_eq!(found.model, submitted.model);
    assert_eq!(found.dataset, submitted.dataset);
    assert_eq!(found.prompt, Some("draw a cat".to_string()));
    assert_eq!(found.previous_hash, Some("h0".to_string()));
    assert_eq!(found.creator, who(1));
    assert_ne!(found.creator, submitted.creator);
    assert_eq!(found.timestamp, 1_000);
}

#[test]
fn record_without_prompt_keeps_none() {
    let mut store = MetadataStore::new();
    let mut submitted = record("h1", None);
    submitted.prompt = None;
    store.insert(submitted, who(1), 5).unwrap();
    let found = store.get_by_key(&"h1".to_string()).unwrap();
    assert_eq!(found.prompt, None);
    assert_eq!(found.previous_hash, None);
}

#[test]
fn get_by_key_of_unknown_key_is_none() {
    let mut store = MetadataStore::new();
    store.insert(record("h1", None), who(1), 5).unwrap();
    assert_eq!(store.get_by_key(&"h2".to_string()), None);
    assert_eq!(store.get_by_key(&"".to_string()), None);
}

#[test]
fn duplicate_key_is_refused_and_changes_nothing() {
    let mut store = MetadataStore::new();
    store.insert(record("h1", None), who(1), 1_000).unwrap();
    let before = store.list_all();
    let mut again = record("h1", Some("h0"));
    again.filename = "other.bin".to_string();
    let outcome = store.insert(again, who(2), 2_000);
    assert_eq!(outcome, Err(ErrorKind::DuplicateKey));
    assert_eq!(store.list_all(), before);
    assert_eq!(store.len(), 1);
    assert_eq!(store.list_by_creator(&who(1)), before);
    assert!(store.list_by_creator(&who(2)).is_empty());
    let kept = store.get_by_key(&"h1".to_string()).unwrap();
    assert_eq!(kept.filename, "h1.bin");
    assert_eq!(kept.creator, who(1));
    assert_eq!(kept.timestamp, 1_000);
}

#[test]
fn same_record_inserted_twice_is_stored_once() {
    let mut store = MetadataStore::new();
    assert!(store.insert(record("h1", None), who(1), 10).is_ok());
    assert_eq!(store.insert(record("h1", None), who(1), 10), Err(ErrorKind::DuplicateKey));
    assert_eq!(ids(&store.list_all()), vec!["h1".to_string()]);
}

#[test]
fn list_all_is_in_insertion_order() {
    let mut store = MetadataStore::new();
    store.insert(record("c", None), who(1), 1).unwrap();
    store.insert(record("a", None), who(2), 2).unwrap();
    store.insert(record("b", None), who(1), 3).unwrap();
    assert_eq!(ids(&store.list_all()), vec!["c".to_string(), "a".to_string(), "b".to_string()]);
}

#[test]
fn list_by_creator_selects_from_list_all() {
    let mut store = MetadataStore::new();
    store.insert(record("k1", None), who(1), 1).unwrap();
    store.insert(record("k2", None), who(2), 2).unwrap();
    store.insert(record("k3", None), who(1), 3).unwrap();
    store.insert(record("k4", None), who(3), 4).unwrap();
    store.insert(record("k5", None), who(2), 5).unwrap();
    store.insert(record("k6", None), who(1), 6).unwrap();
    let all = store.list_all();
    for tag in 0u8..5 {
        let expected: Vec<FileMetadata> =
            all.iter().filter(|r| r.creator == who(tag)).cloned().collect();
        assert_eq!(store.list_by_creator(&who(tag)), expected);
    }
    assert_eq!(
        ids(&store.list_by_creator(&who(1))),
        vec!["k1".to_string(), "k3".to_string(), "k6".to_string()]
    );
    assert_eq!(ids(&store.list_by_creator(&who(2))), vec!["k2".to_string(), "k5".to_string()]);
    assert_eq!(ids(&store.list_by_creator(&who(3))), vec!["k4".to_string()]);
    assert!(store.list_by_creator(&who(4)).is_empty());
}

#[test]
fn stamp_is_the_clock_reading() {
    let mut store = MetadataStore::new();
    store.insert(record("h1", None), who(1), 100).unwrap();
    store.insert(record("h2", None), who(1), 100).unwrap();
    store.insert(record("h3", None), who(1), 250).unwrap();
    let stamps: Vec<u64> = store.list_all().iter().map(|r| r.timestamp).collect();
    assert_eq!(stamps, vec![100, 100, 250]);
}

#[test]
fn stamps_never_decrease_when_the_clock_goes_back() {
    let mut store = MetadataStore::new();
    store.insert(record("h1", None), who(1), 500).unwrap();
    store.insert(record("h2", None), who(2), 300).unwrap();
    store.insert(record("h3", None), who(1), 0).unwrap();
    store.insert(record("h4", None), who(1), u64::MAX).unwrap();
    store.insert(record("h5", None), who(1), 7).unwrap();
    let stamps: Vec<u64> = store.list_all().iter().map(|r| r.timestamp).collect();
    assert_eq!(stamps, vec![500, 500, 500, u64::MAX, u64::MAX]);
}

#[test]
fn chain_of_a_first_version_is_one_record() {
    let mut store = MetadataStore::new();
    store.insert(record("h1", None), who(1), 1).unwrap();
    store.insert(record("h2", None), who(1), 2).unwrap();
    let chain = store.resolve_chain(&"h1".to_string());
    assert_eq!(ids(&chain.records), vec!["h1".to_string()]);
    assert_eq!(chain.error, None);
}

#[test]
fn chain_of_a_self_link_is_cut_short() {
    let mut store = MetadataStore::new();
    store.insert(record("h1", Some("h1")), who(1), 1).unwrap();
    let chain = store.resolve_chain(&"h1".to_string());
    assert_eq!(ids(&chain.records), vec!["h1".to_string()]);
    assert_eq!(chain.error, Some(ErrorKind::BrokenChain));
}

#[test]
fn chain_round_a_circle_is_cut_short() {
    let mut store = MetadataStore::new();
    store.insert(record("a", Some("c")), who(1), 1).unwrap();
    store.insert(record("b", Some("a")), who(1), 2).unwrap();
    store.insert(record("c", Some("b")), who(2), 3).unwrap();
    let chain = store.resolve_chain(&"c".to_string());
    assert_eq!(ids(&chain.records), vec!["c".to_string(), "b".to_string(), "a".to_string()]);
    assert_eq!(chain.error, Some(ErrorKind::BrokenChain));
}

#[test]
fn chain_with_a_missing_link_gives_what_was_reached() {
    let mut store = MetadataStore::new();
    store.insert(record("h2", Some("h1")), who(1), 1).unwrap();
    store.insert(record("h3", Some("h2")), who(2), 2).unwrap();
    let chain = store.resolve_chain(&"h3".to_string());
    assert_eq!(ids(&chain.records), vec!["h3".to_string(), "h2".to_string()]);
    assert_eq!(chain.error, Some(ErrorKind::BrokenChain));
}

#[test]
fn chain_of_an_unknown_key_is_empty_and_broken() {
    let mut store = MetadataStore::new();
    store.insert(record("h1", None), who(1), 1).unwrap();
    let chain = store.resolve_chain(&"nope".to_string());
    assert!(chain.records.is_empty());
    assert_eq!(chain.error, Some(ErrorKind::BrokenChain));
    let empty = MetadataStore::new();
    let chain = empty.resolve_chain(&"h1".to_string());
    assert!(chain.records.is_empty());
    assert_eq!(chain.error, Some(ErrorKind::BrokenChain));
}

#[test]
fn chain_through_every_record_ends_well() {
    let mut store = MetadataStore::new();
    store.insert(record("v1", None), who(1), 1).unwrap();
    store.insert(record("v2", Some("v1")), who(2), 2).unwrap();
    store.insert(record("v3", Some("v2")), who(1), 3).unwrap();
    let chain = store.resolve_chain(&"v3".to_string());
    assert_eq!(ids(&chain.records), vec!["v3".to_string(), "v2".to_string(), "v1".to_string()]);
    assert_eq!(chain.error, None);
    assert_eq!(chain.records[1].creator, who(2));
}

#[test]
fn two_versions_chain_and_listing() {
    let a = Identity::new(vec![0xA]);
    let mut store = MetadataStore::new();
    let first = FileMetadata {
        id: "h1".to_string(),
        filename: "a.bin".to_string(),
        model: "m".to_string(),
        dataset: "d".to_string(),
        prompt: None,
        previous_hash: None,
        creator: a.clone(),
        timestamp: 0,
    };
    let second = FileMetadata {
        id: "h2".to_string(),
        filename: "b.bin".to_string(),
        model: "m".to_string(),
        dataset: "d".to_string(),
        prompt: None,
        previous_hash: Some("h1".to_string()),
        creator: a.clone(),
        timestamp: 0,
    };
    assert_eq!(store.insert(first, a.clone(), 10), Ok("h1".to_string()));
    assert_eq!(store.insert(second, a.clone(), 20), Ok("h2".to_string()));
    let chain = store.resolve_chain(&"h2".to_string());
    assert_eq!(ids(&chain.records), vec!["h2".to_string(), "h1".to_string()]);
    assert_eq!(chain.error, None);
    assert_eq!(chain.records[1].filename, "a.bin");
    assert_eq!(ids(&store.list_by_creator(&a)), vec!["h1".to_string(), "h2".to_string()]);
}

#[test]
fn reads_hand_out_copies() {
    let mut store = MetadataStore::new();
    store.insert(record("h1", None), who(1), 1).unwrap();
    let mut copy = store.get_by_key(&"h1".to_string()).unwrap();
    copy.filename = "changed".to_string();
    copy.creator = who(9);
    let mut listed = store.list_all();
    listed.clear();
    let again = store.get_by_key(&"h1".to_string()).unwrap();
    assert_eq!(again.filename, "h1.bin");
    assert_eq!(again.creator, who(1));
    assert_eq!(store.len(), 1);
}

#[test]
fn duplicate_of_a_record_is_equal() {
    let r = record("h1", Some("h0"));
    assert_eq!(r.duplicate(), r);
}

#[test]
fn restore_rebuilds_the_store_from_its_listing() {
    let mut store = MetadataStore::new();
    store.insert(record("k1", None), who(1), 10).unwrap();
    store.insert(record("k2", Some("k1")), who(2), 20).unwrap();
    store.insert(record("k3", Some("k2")), who(1), 20).unwrap();
    let listing = store.list_all();
    let mut restored = MetadataStore::restore(&listing).unwrap();
    assert_eq!(restored.list_all(), listing);
    assert_eq!(restored.list_by_creator(&who(1)), store.list_by_creator(&who(1)));
    assert_eq!(restored.list_by_creator(&who(2)), store.list_by_creator(&who(2)));
    assert_eq!(
        restored.resolve_chain(&"k3".to_string()),
        store.resolve_chain(&"k3".to_string())
    );
    assert_eq!(restored.insert(record("k1", None), who(3), 30), Err(ErrorKind::DuplicateKey));
    assert_eq!(restored.insert(record("k4", None), who(3), 5), Ok("k4".to_string()));
    assert_eq!(restored.get_by_key(&"k4".to_string()).unwrap().timestamp, 20);
}

#[test]
fn restore_of_nothing_is_an_empty_store() {
    let restored = MetadataStore::restore(&Vec::new()).unwrap();
    assert_eq!(restored.len(), 0);
}

#[test]
fn restore_refuses_inconsistent_records() {
    let mut early = record("k1", None);
    early.timestamp = 5;
    let mut late = record("k2", None);
    late.timestamp = 9;
    assert!(MetadataStore::restore(&vec![early.clone(), late.clone()]).is_some());
    assert!(MetadataStore::restore(&vec![late.clone(), early.clone()]).is_none());
    let mut twin = late.clone();
    twin.id = "k1".to_string();
    assert!(MetadataStore::restore(&vec![early.clone(), twin]).is_none());
    let mut nameless = late.clone();
    nameless.id = String::new();
    assert!(MetadataStore::restore(&vec![early, nameless]).is_none());
}
