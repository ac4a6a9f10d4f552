use kvs::engines::index::{Index, Meta};
use kvs::engines::kvs::{compact_file, data_file, record_value};
use kvs::engines::kvs::{IndexWriter, Pending, Side, COMPACT_THRESHOLD_BYTES};
use kvs::engines::record::{read_record, Command};
use kvs::error::KvsError;

/// A store whose data file is a vector of bytes: it does to the vector what
/// the writer hands back.
struct Store {
    writer: IndexWriter,
    data: Vec<u8>,
}

fn open(data: Vec<u8>, threshold: u64) -> Result<Store, KvsError> {
    let writer = IndexWriter::open_with_threshold(&data, threshold)?;
    Ok(Store { writer, data })
}

fn write(store: &mut Store, pending: Pending) {
    store.data.extend_from_slice(pending.bytes());
    if let Some(plan) = store.writer.apply(pending) {
        let mut fresh = Vec::new();
        for Meta(offset, len) in plan {
            fresh.extend_from_slice(&store.data[offset as usize..(offset + len) as usize]);
        }
        store.data = fresh;
    }
}

fn set(store: &mut Store, key: &str, value: &str) {
    let pending = store.writer.set(key.to_string(), value.to_string());
    write(store, pending);
}

fn remove(store: &mut Store, key: &str) -> Result<(), KvsError> {
    let pending = store.writer.remove(key.to_string())?;
    write(store, pending);
    Ok(())
}

fn get(store: &Store, key: &str) -> Result<Option<String>, KvsError> {
    match store.writer.get(key) {
        None => Ok(None),
        Some(Meta(offset, len)) => {
            record_value(&store.data[offset as usize..(offset + len) as usize]).map(Some)
        }
    }
}

#[test]
fn set_then_get_each_key() {
    let mut store = open(Vec::new(), COMPACT_THRESHOLD_BYTES).unwrap();
    set(&mut store, "k1", "v1");
    set(&mut store, "k2", "v2");
    assert_eq!(get(&store, "k1"), Ok(Some("v1".to_string())));
    assert_eq!(get(&store, "k2"), Ok(Some("v2".to_string())));
    assert_eq!(get(&store, "k3"), Ok(None));
}

#[test]
fn overwrite_then_remove() {
    let mut store = open(Vec::new(), COMPACT_THRESHOLD_BYTES).unwrap();
    set(&mut store, "k", "a");
    set(&mut store, "k", "b");
    assert_eq!(get(&store, "k"), Ok(Some("b".to_string())));
    assert_eq!(remove(&mut store, "k"), Ok(()));
    assert_eq!(get(&store, "k"), Ok(None));
    let before = store.data.clone();
    assert_eq!(remove(&mut store, "k"), Err(KvsError::KeyNotFoundError));
    assert_eq!(store.data, before);
}

#[test]
fn open_without_records_gives_an_empty_store() {
    let store = open(Vec::new(), COMPACT_THRESHOLD_BYTES).unwrap();
    assert_eq!(get(&store, "anything"), Ok(None));
    assert_eq!(get(&store, ""), Ok(None));
    assert!(!store.writer.needs_compaction());
    assert!(IndexWriter::open(&[]).is_ok());
}

#[test]
fn records_are_json_text() {
    let put = Command::Put { key: "key".to_string(), value: "value".to_string() };
    assert_eq!(put.to_bytes(), b"{\"Set\":{\"key\":\"key\",\"value\":\"value\"}}".to_vec());
    let gone = Command::Remove { key: "key".to_string() };
    assert_eq!(gone.to_bytes(), b"{\"Remove\":{\"key\":\"key\"}}".to_vec());
    let odd = Command::Put { key: "a\"b\\c".to_string(), value: "line\nbreak\ttab\u{1}\u{1f}".to_string() };
    assert_eq!(
        odd.to_bytes(),
        b"{\"Set\":{\"key\":\"a\\\"b\\\\c\",\"value\":\"line\\nbreak\\ttab\\u0001\\u001f\"}}".to_vec()
    );
}

#[test]
fn records_round_trip() {
    let keys = ["", "k", "clé ✓", "quote\"slash\\", "\u{0}\u{8}\u{c}\r\n\t\u{1b}", "{\"Set\":{}}"];
    for key in keys {
        for value in keys {
            let put = Command::Put { key: key.to_string(), value: value.to_string() };
            let mut text = put.to_bytes();
            let len = text.len();
            assert_eq!(read_record(&text, 0), Some((put.clone(), len)));
            text.extend_from_slice(b"{\"Remove\":");
            assert_eq!(read_record(&text, 0), Some((put, len)));
        }
        let gone = Command::Remove { key: key.to_string() };
        let text = gone.to_bytes();
        assert_eq!(read_record(&text, 0), Some((gone, text.len())));
    }
}

#[test]
fn reader_takes_the_other_escapes_of_json() {
    let text = b"{\"Set\":{\"key\":\"a\\/b\",\"value\":\"\\u0041\\u007A\\u000a\"}}";
    let expected = Command::Put { key: "a/b".to_string(), value: "Az\n".to_string() };
    assert_eq!(read_record(text, 0), Some((expected, text.len())));
}

#[test]
fn what_is_no_record() {
    assert_eq!(read_record(b"", 0), None);
    assert_eq!(read_record(b"{\"Set\":{\"key\":\"k\",\"value\":\"v\"}", 0), None);
    assert_eq!(read_record(b"{\"Set\":{\"key\":\"k\"}}", 0), None);
    assert_eq!(read_record(b"{\"Get\":{\"key\":\"k\"}}", 0), None);
    assert_eq!(read_record(b"{\"Remove\":{\"key\":\"k\\x\"}}", 0), None);
    assert_eq!(read_record(b"{\"Remove\":{\"key\":\"k\nk\"}}", 0), None);
    assert_eq!(read_record(b"{\"Remove\":{\"key\":\"\\u00g0\"}}", 0), None);
    assert_eq!(read_record(b"{\"Remove\":{\"key\":\"\\u0080\"}}", 0), None);
    assert_eq!(read_record(b"{\"Remove\":{\"key\":\"\xff\"}}", 0), None);
    assert_eq!(read_record(b" {\"Remove\":{\"key\":\"k\"}}", 0), None);
}

#[test]
fn value_of_a_record() {
    let put = Command::Put { key: "k".to_string(), value: "v".to_string() }.to_bytes();
    assert_eq!(record_value(&put), Ok("v".to_string()));
    let gone = Command::Remove { key: "k".to_string() }.to_bytes();
    assert_eq!(record_value(&gone), Err(KvsError::InvalidCommandError));
    assert_eq!(record_value(&put[..put.len() - 1]), Err(KvsError::Corruption));
    let mut two = put.clone();
    two.extend_from_slice(&put);
    assert_eq!(record_value(&two), Err(KvsError::Corruption));
    assert_eq!(record_value(b""), Err(KvsError::Corruption));
}

#[test]
fn reopen_replays_the_log() {
    let mut store = open(Vec::new(), COMPACT_THRESHOLD_BYTES).unwrap();
    set(&mut store, "a", "1");
    set(&mut store, "b", "2");
    set(&mut store, "a", "3");
    remove(&mut store, "b").unwrap();
    set(&mut store, "c", "4");
    let again = open(store.data.clone(), COMPACT_THRESHOLD_BYTES).unwrap();
    for key in ["a", "b", "c", "d"] {
        assert_eq!(again.writer.get(key), store.writer.get(key));
        assert_eq!(get(&again, key), get(&store, key));
    }
    assert_eq!(get(&again, "a"), Ok(Some("3".to_string())));
    assert_eq!(get(&again, "b"), Ok(None));
    assert_eq!(again.writer.needs_compaction(), store.writer.needs_compaction());
}

#[test]
fn index_points_at_offset_and_length() {
    let mut store = open(Vec::new(), COMPACT_THRESHOLD_BYTES).unwrap();
    set(&mut store, "k", "v");
    // {"Set":{"key":"k","value":"v"}} is 31 bytes long
    assert_eq!(store.writer.get("k"), Some(Meta(0, 31)));
    set(&mut store, "kk", "v");
    assert_eq!(store.writer.get("kk"), Some(Meta(31, 32)));
    set(&mut store, "k", "vvv");
    assert_eq!(store.writer.get("k"), Some(Meta(63, 33)));
    assert_eq!(store.data.len(), 96);
}

#[test]
fn truncated_or_corrupt_log_does_not_open() {
    let mut store = open(Vec::new(), COMPACT_THRESHOLD_BYTES).unwrap();
    set(&mut store, "a", "1");
    set(&mut store, "b", "2");
    let whole = store.data.clone();
    for cut in 1..whole.len() {
        if cut == 31 {
            continue;
        }
        assert_eq!(open(whole[..cut].to_vec(), 0).err(), Some(KvsError::Corruption));
    }
    assert!(open(whole[..31].to_vec(), 0).is_ok());
    let mut garbled = whole.clone();
    garbled[40] = b'#';
    assert_eq!(open(garbled, 0).err(), Some(KvsError::Corruption));
    let mut trailing = whole;
    trailing.push(b'\n');
    assert_eq!(open(trailing, 0).err(), Some(KvsError::Corruption));
}

#[test]
fn compaction_starts_above_the_threshold_and_keeps_the_values() {
    // each record of a one-letter key and a one-letter value is 31 bytes long
    let mut store = open(Vec::new(), 62).unwrap();
    set(&mut store, "a", "1");
    set(&mut store, "b", "1");
    set(&mut store, "a", "2");
    assert_eq!(store.data.len(), 93);
    set(&mut store, "a", "3");
    // 62 dangling bytes are not above the threshold
    assert_eq!(store.data.len(), 124);
    assert!(!store.writer.needs_compaction());
    let mut tight = open(store.data.clone(), 62).unwrap();
    set(&mut tight, "b", "2");
    // 93 dangling bytes are above 62: the log is rewritten to the two live records
    assert_eq!(tight.data.len(), 62);
    assert!(!tight.writer.needs_compaction());
    assert_eq!(get(&tight, "a"), Ok(Some("3".to_string())));
    assert_eq!(get(&tight, "b"), Ok(Some("2".to_string())));
    assert_eq!(tight.writer.get("a"), Some(Meta(0, 31)));
    assert_eq!(tight.writer.get("b"), Some(Meta(31, 31)));
    let again = open(tight.data.clone(), 62).unwrap();
    assert_eq!(get(&again, "a"), Ok(Some("3".to_string())));
    assert_eq!(get(&again, "b"), Ok(Some("2".to_string())));
}

fn plan_after(first: &[u8], second: &[u8]) -> Vec<Meta> {
    vec![Meta(0, first.len() as u64), Meta(first.len() as u64, second.len() as u64)]
}

#[test]
fn compaction_plan_lists_the_live_records_in_key_order() {
    let mut writer = IndexWriter::open_with_threshold(&[], 0).unwrap();
    let mut lengths = Vec::new();
    for (key, value) in [("b", "1"), ("a", "22"), ("b", "333")] {
        let pending = writer.set(key.to_string(), value.to_string());
        lengths.push(pending.bytes().to_vec());
        writer.commit(pending);
    }
    let (first, second, third) = (&lengths[0], &lengths[1], &lengths[2]);
    assert!(writer.needs_compaction());
    let plan = writer.compact().unwrap();
    let second_at = first.len() as u64;
    let third_at = second_at + second.len() as u64;
    assert_eq!(plan, vec![Meta(second_at, second.len() as u64), Meta(third_at, third.len() as u64)]);
    assert_eq!(writer.get("a"), Some(Meta(0, second.len() as u64)));
    assert_eq!(writer.get("b"), Some(Meta(second.len() as u64, third.len() as u64)));
    assert!(!writer.needs_compaction());
    assert_eq!(writer.compact(), None);
    assert_eq!(writer.rewrite(), plan_after(&second, &third));
}

#[test]
fn removal_counts_the_record_and_the_tombstone() {
    // the Set record is 31 bytes long, the Remove record 22
    let mut store = open(Vec::new(), 52).unwrap();
    set(&mut store, "a", "1");
    remove(&mut store, "a").unwrap();
    // 53 dangling bytes are above 52: nothing is live, the log is empty again
    assert_eq!(store.data.len(), 0);
    let mut loose = open(Vec::new(), 53).unwrap();
    set(&mut loose, "a", "1");
    remove(&mut loose, "a").unwrap();
    assert_eq!(loose.data.len(), 53);
}

#[test]
fn many_keys_survive_a_restart_within_the_size_bound() {
    let mut store = open(Vec::new(), COMPACT_THRESHOLD_BYTES).unwrap();
    let mut live = 0usize;
    for i in 1..(1 << 12) {
        let key = format!("key{}", i);
        set(&mut store, &key, "value");
        live += Command::Put { key, value: "value".to_string() }.to_bytes().len();
    }
    let again = open(store.data.clone(), COMPACT_THRESHOLD_BYTES).unwrap();
    for i in 1..(1 << 12) {
        assert_eq!(get(&again, &format!("key{}", i)), Ok(Some("value".to_string())));
    }
    assert!(again.data.len() <= live + COMPACT_THRESHOLD_BYTES as usize);
}

#[test]
fn size_stays_within_live_bytes_and_threshold() {
    let threshold = 500u64;
    let mut store = open(Vec::new(), threshold).unwrap();
    for round in 0..200 {
        let key = format!("k{}", round % 7);
        set(&mut store, &key, &format!("value{}", round));
        if round % 3 == 0 {
            let _ = remove(&mut store, &format!("k{}", (round + 1) % 7));
        }
        let mut live = 0u64;
        for k in 0..7 {
            if let Some(Meta(_, len)) = store.writer.get(&format!("k{}", k)) {
                live += len;
            }
        }
        assert!(store.data.len() as u64 <= live + threshold);
    }
}

#[test]
fn compaction_flips_the_live_side() {
    assert_eq!(Side::Left.other(), Side::Right);
    assert_eq!(Side::Right.other(), Side::Left);
    assert_eq!(Side::Left.version(), 0);
    assert_eq!(Side::Right.version(), 1);
    assert_eq!(Side::from_version(0), Some(Side::Left));
    assert_eq!(Side::from_version(1), Some(Side::Right));
    assert_eq!(Side::from_version(2), None);
}

#[test]
fn index_holds_one_place_for_each_key() {
    let mut index = Index::new();
    assert_eq!(index.get("a"), None);
    assert_eq!(index.insert("a".to_string(), Meta::new(0, 5)), None);
    assert_eq!(index.insert("b".to_string(), Meta::new(5, 6)), None);
    assert_eq!(index.insert("a".to_string(), Meta::new(11, 7)), Some(Meta(0, 5)));
    assert_eq!(index.get("a"), Some(Meta(11, 7)));
    assert_eq!(index.entries(), vec![("a".to_string(), Meta(11, 7)), ("b".to_string(), Meta(5, 6))]);
    let shared = index.share();
    assert_eq!(index.remove("a"), Some(Meta(11, 7)));
    assert_eq!(index.remove("a"), None);
    assert_eq!(index.get("a"), None);
    assert_eq!(shared.get("a"), None);
    assert_eq!(shared.get("b"), Some(Meta(5, 6)));
    assert_eq!(index.entries(), vec![("b".to_string(), Meta(5, 6))]);
}

#[test]
fn index_changes_at_commit_and_not_before() {
    let mut writer = IndexWriter::open(&[]).unwrap();
    let pending = writer.set("k".to_string(), "v".to_string());
    assert_eq!(pending.bytes(), b"{\"Set\":{\"key\":\"k\",\"value\":\"v\"}}");
    assert_eq!(writer.get("k"), None);
    let shared = writer.share_index();
    assert_eq!(shared.get("k"), None);
    writer.commit(pending);
    assert_eq!(writer.get("k"), Some(Meta(0, 31)));
    assert_eq!(shared.get("k"), Some(Meta(0, 31)));
    assert_eq!(writer.remove("other".to_string()).err(), Some(KvsError::KeyNotFoundError));
    let gone = writer.remove("k".to_string()).unwrap();
    assert_eq!(gone.bytes(), b"{\"Remove\":{\"key\":\"k\"}}");
    assert_eq!(writer.get("k"), Some(Meta(0, 31)));
    writer.commit(gone);
    assert_eq!(writer.get("k"), None);
    assert_eq!(shared.get("k"), None);
}

#[test]
fn names_of_the_files_of_a_store() {
    assert_eq!(data_file(), "data");
    assert_eq!(compact_file(), "data.compact");
    assert_eq!(COMPACT_THRESHOLD_BYTES, 1 << 20);
}

#[test]
fn apply_commits_and_compacts_where_that_is_due() {
    // each record of a one-letter key and a one-letter value is 31 bytes long
    let mut writer = IndexWriter::open_with_threshold(&[], 31).unwrap();
    let first = writer.set("a".to_string(), "1".to_string());
    assert_eq!(writer.apply(first), None);
    let second = writer.set("a".to_string(), "2".to_string());
    // 31 dangling bytes are not above the threshold
    assert_eq!(writer.apply(second), None);
    assert_eq!(writer.get("a"), Some(Meta(31, 31)));
    let third = writer.set("a".to_string(), "3".to_string());
    // 62 dangling bytes are above it: the one live record is the last of the log
    assert_eq!(writer.apply(third), Some(vec![Meta(62, 31)]));
    assert_eq!(writer.get("a"), Some(Meta(0, 31)));
    assert!(!writer.needs_compaction());
    let gone = writer.remove("a".to_string()).unwrap();
    // the Set record and the Remove record, 53 bytes, are dangling: nothing is live
    assert_eq!(writer.apply(gone), Some(vec![]));
    assert_eq!(writer.get("a"), None);
}
