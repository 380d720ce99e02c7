use kvs::codec::{decode, encode, Command, Decoded};
use kvs::error::KvsError;
use kvs::store::{decode_value, StoreState};

type Disk = Vec<(u64, Vec<u8>)>;

fn segment(disk: &Disk, id: u64) -> &Vec<u8> {
    &disk.iter().find(|(i, _)| *i == id).unwrap().1
}

fn append(disk: &mut Disk, id: u64, bytes: &[u8]) {
    let seg = disk.iter_mut().find(|(i, _)| *i == id).unwrap();
    seg.1.extend_from_slice(bytes);
}

fn open(disk: &mut Disk) -> StoreState {
    disk.sort_by_key(|(id, _)| *id);
    let mut state = StoreState::new();
    let n = disk.len();
    for (i, (id, bytes)) in disk.iter_mut().enumerate() {
        let keep = state.replay(*id, bytes, i + 1 == n).unwrap();
        bytes.truncate(keep);
    }
    if let Some(id) = state.ensure_active() {
        disk.push((id, Vec::new()));
    }
    state
}

fn compact(state: &mut StoreState, disk: &mut Disk) {
    let plan = state.compact().unwrap();
    let mut data = Vec::new();
    for loc in &plan.copies {
        let seg = segment(disk, loc.log_id);
        data.extend_from_slice(&seg[loc.offset as usize..(loc.offset + loc.length) as usize]);
    }
    disk.retain(|(id, _)| !plan.retired.contains(id));
    disk.push((plan.target, data));
    disk.push((plan.next_active, Vec::new()));
}

fn set(state: &mut StoreState, disk: &mut Disk, key: &str, value: &str) {
    let id = state.active_id();
    let bytes = state.put(key.to_string(), value.to_string()).unwrap();
    append(disk, id, &bytes);
    if state.needs_compaction() {
        compact(state, disk);
    }
}

fn remove(state: &mut StoreState, disk: &mut Disk, key: &str) -> Result<(), KvsError> {
    let id = state.active_id();
    let bytes = state.remove(key.to_string())?;
    append(disk, id, &bytes);
    if state.needs_compaction() {
        compact(state, disk);
    }
    Ok(())
}

fn get(state: &StoreState, disk: &Disk, key: &str) -> Option<String> {
    let key = key.to_string();
    let loc = state.locate(&key)?;
    let seg = segment(disk, loc.log_id);
    let bytes = &seg[loc.offset as usize..(loc.offset + loc.length) as usize];
    Some(decode_value(&key, bytes).unwrap())
}

fn disk_size(disk: &Disk) -> usize {
    disk.iter().map(|(_, b)| b.len()).sum()
}

#[test]
fn basic_round_trip() {
    let mut disk = Disk::new();
    let mut s = open(&mut disk);
    set(&mut s, &mut disk, "a", "1");
    set(&mut s, &mut disk, "b", "2");
    assert_eq!(get(&s, &disk, "a"), Some("1".to_string()));
    assert_eq!(get(&s, &disk, "b"), Some("2".to_string()));
    assert_eq!(get(&s, &disk, "c"), None);
}

#[test]
fn overwrite_keeps_last_value() {
    let mut disk = Disk::new();
    let mut s = open(&mut disk);
    set(&mut s, &mut disk, "a", "1");
    set(&mut s, &mut disk, "a", "2");
    assert_eq!(get(&s, &disk, "a"), Some("2".to_string()));
}

#[test]
fn remove_then_get_and_remove_missing() {
    let mut disk = Disk::new();
    let mut s = open(&mut disk);
    set(&mut s, &mut disk, "x", "y");
    remove(&mut s, &mut disk, "x").unwrap();
    assert_eq!(get(&s, &disk, "x"), None);
    let before = disk_size(&disk);
    match remove(&mut s, &mut disk, "x") {
        Err(KvsError::Remove(k)) => assert_eq!(k, "x"),
        other => panic!("unexpected {:?}", other),
    }
    assert_eq!(disk_size(&disk), before);
    set(&mut s, &mut disk, "x", "z");
    assert_eq!(get(&s, &disk, "x"), Some("z".to_string()));
}

#[test]
fn restart_persistence() {
    let mut disk = Disk::new();
    let mut s = open(&mut disk);
    set(&mut s, &mut disk, "k1", "v1");
    set(&mut s, &mut disk, "k2", "v2");
    remove(&mut s, &mut disk, "k1").unwrap();
    drop(s);
    let s = open(&mut disk);
    assert_eq!(get(&s, &disk, "k1"), None);
    assert_eq!(get(&s, &disk, "k2"), Some("v2".to_string()));
}

#[test]
fn compaction_triggered_by_size() {
    let mut disk = Disk::new();
    let mut s = open(&mut disk);
    let pad = "p".repeat(100);
    for round in 0..2 {
        for i in 0..20000 {
            let value = format!("value-{}-{}-{}", i, round, pad);
            set(&mut s, &mut disk, &format!("key-{}", i), &value[..100]);
        }
    }
    assert!(disk.len() >= 2);
    let mut live = 0;
    for i in 0..20000 {
        let value = format!("value-{}-{}-{}", i, 1, pad);
        let key = format!("key-{}", i);
        assert_eq!(get(&s, &disk, &key), Some(value[..100].to_string()));
        live += encode(&Command::Put { key, value: value[..100].to_string() }).len();
    }
    assert!(disk_size(&disk) < 3 * live);
    let s2 = open(&mut disk);
    assert_eq!(get(&s2, &disk, "key-7"), get(&s, &disk, "key-7"));
}

#[test]
fn compaction_keeps_mapping() {
    let mut disk = Disk::new();
    let mut s = open(&mut disk);
    set(&mut s, &mut disk, "a", "1");
    set(&mut s, &mut disk, "b", "2");
    set(&mut s, &mut disk, "a", "3");
    remove(&mut s, &mut disk, "b").unwrap();
    let old_active = s.active_id();
    compact(&mut s, &mut disk);
    assert_eq!(s.active_id(), old_active + 2);
    assert_eq!(s.active_size(), 0);
    assert_eq!(get(&s, &disk, "a"), Some("3".to_string()));
    assert_eq!(get(&s, &disk, "b"), None);
    let compacted = segment(&disk, old_active + 1);
    assert_eq!(compacted.len(), encode(&Command::Put { key: "a".to_string(), value: "3".to_string() }).len());
    assert!(disk.iter().all(|(id, _)| *id > old_active));
}

#[test]
fn recovery_from_torn_tail() {
    let mut disk = Disk::new();
    let mut s = open(&mut disk);
    set(&mut s, &mut disk, "a", "1");
    set(&mut s, &mut disk, "b", "2");
    drop(s);
    let last = disk.len() - 1;
    disk[last].1.pop();
    let mut s = open(&mut disk);
    assert_eq!(get(&s, &disk, "a"), Some("1".to_string()));
    assert_eq!(get(&s, &disk, "b"), None);
    set(&mut s, &mut disk, "c", "3");
    let s = open(&mut disk);
    assert_eq!(get(&s, &disk, "a"), Some("1".to_string()));
    assert_eq!(get(&s, &disk, "c"), Some("3".to_string()));
}

#[test]
fn torn_record_in_earlier_segment_is_corrupt() {
    let mut bytes = encode(&Command::Put { key: "a".to_string(), value: "1".to_string() });
    bytes.pop();
    let mut s = StoreState::new();
    assert!(matches!(s.replay(1, &bytes, false), Err(KvsError::Corrupt)));
    let mut s = StoreState::new();
    assert_eq!(s.replay(1, &bytes, true).unwrap(), 0);
}

#[test]
fn replay_rejects_ids_out_of_order() {
    let mut s = StoreState::new();
    s.replay(5, &[], false).unwrap();
    assert!(matches!(s.replay(3, &[], true), Err(KvsError::UnKnownLog(3))));
}

#[test]
fn fresh_store_gets_segment_one() {
    let mut s = StoreState::new();
    assert_eq!(s.ensure_active(), Some(1));
    assert_eq!(s.active_id(), 1);
    assert_eq!(s.ensure_active(), None);
}

#[test]
fn codec_round_trip() {
    let put = Command::Put { key: "k€y".to_string(), value: "v".to_string() };
    let rm = Command::Remove { key: "k".to_string() };
    let mut buf = encode(&put);
    let first = buf.len();
    buf.extend(encode(&rm));
    assert_eq!(first, 1 + 8 + 5 + 8 + 1);
    assert_eq!(buf[0], 0);
    assert_eq!(&buf[1..9], &[5, 0, 0, 0, 0, 0, 0, 0]);
    match decode(&buf, 0) {
        Decoded::Record(Command::Put { key, value }, n) => {
            assert_eq!((key.as_str(), value.as_str(), n), ("k€y", "v", first));
        }
        _ => panic!("expected a put"),
    }
    match decode(&buf, first) {
        Decoded::Record(Command::Remove { key }, n) => {
            assert_eq!((key.as_str(), n), ("k", buf.len() - first));
        }
        _ => panic!("expected a remove"),
    }
    assert!(matches!(decode(&buf, buf.len()), Decoded::Incomplete));
}

#[test]
fn codec_truncated_and_malformed() {
    let buf = encode(&Command::Remove { key: "abc".to_string() });
    assert!(matches!(decode(&buf[..buf.len() - 1], 0), Decoded::Incomplete));
    assert!(matches!(decode(&[7u8], 0), Decoded::Malformed));
    let mut bad = buf.clone();
    bad[9] = 0xff;
    assert!(matches!(decode(&bad, 0), Decoded::Malformed));
}

#[test]
fn decode_value_checks_key_and_length() {
    let buf = encode(&Command::Put { key: "a".to_string(), value: "1".to_string() });
    assert_eq!(decode_value(&"a".to_string(), &buf).unwrap(), "1");
    assert!(matches!(decode_value(&"b".to_string(), &buf), Err(KvsError::Corrupt)));
    let mut longer = buf.clone();
    longer.push(0);
    assert!(matches!(decode_value(&"a".to_string(), &longer), Err(KvsError::Corrupt)));
    let rm = encode(&Command::Remove { key: "a".to_string() });
    assert!(matches!(decode_value(&"a".to_string(), &rm), Err(KvsError::Corrupt)));
}

#[test]
fn remove_from_middle_keeps_other_keys() {
    let mut disk = Disk::new();
    let mut s = open(&mut disk);
    for k in ["a", "b", "c", "d"] {
        set(&mut s, &mut disk, k, &format!("v{}", k));
    }
    remove(&mut s, &mut disk, "b").unwrap();
    remove(&mut s, &mut disk, "d").unwrap();
    assert_eq!(get(&s, &disk, "a"), Some("va".to_string()));
    assert_eq!(get(&s, &disk, "b"), None);
    assert_eq!(get(&s, &disk, "c"), Some("vc".to_string()));
    assert_eq!(get(&s, &disk, "d"), None);
    set(&mut s, &mut disk, "b", "again");
    assert_eq!(get(&s, &disk, "b"), Some("again".to_string()));
    compact(&mut s, &mut disk);
    assert_eq!(get(&s, &disk, "b"), Some("again".to_string()));
    assert_eq!(get(&s, &disk, "c"), Some("vc".to_string()));
    assert_eq!(get(&s, &disk, "d"), None);
}
