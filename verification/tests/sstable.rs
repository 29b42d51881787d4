use naive_kv::memtable::Memtable;
use naive_kv::sstable::{SSTable, SSTableView};
use naive_kv::types::{NaiveError, Record};
use std::collections::BTreeMap;

#[test]
fn test_sstable() {
    const MAX_NUMBER: i32 = 10000; // Make sure this spans over multiple chunks.
    const MAX_GEN_NO: i32 = 2;

    let mut expected_values = BTreeMap::new();

    let memtable_log_path = String::from("/tmp/test_sstable_memtable.log");
    let empty_sstables: Vec<SSTable> = Vec::new();
    let mut sstables = Vec::new();
    for gen_no in (0..=MAX_GEN_NO).rev() {
        let mut memtable = Memtable::open(memtable_log_path.clone(), Vec::new()).unwrap();
        for num in 0..MAX_NUMBER {
            let key = (gen_no + 2) * num;
            let value = (gen_no + 2) * num + gen_no + 1;
            expected_values.insert(key, value);
            memtable.set(key.to_string(), value.to_string()).unwrap();
        }
        let sstable_path_str = format!("/tmp/test_gen_{}.sst", gen_no);
        let sstable = SSTable::create(
            sstable_path_str,
            &memtable,
            &empty_sstables,
            empty_sstables.len(),
            0,
        )
        .unwrap();
        for num in 0..MAX_NUMBER {
            let key = ((gen_no + 2) * num).to_string();
            let value = ((gen_no + 2) * num + gen_no + 1).to_string();
            let record = sstable.get(&key).unwrap();
            assert!(record == Some(Record::Value(value)));
        }
        sstables.push(sstable);
    }
    sstables.reverse();

    let mut memtable = Memtable::open(memtable_log_path.clone(), Vec::new()).unwrap();
    for num in 0..MAX_NUMBER {
        expected_values.insert(num, num);
        let key = num.to_string();
        let value = key.clone();
        memtable.set(key, value).unwrap();
    }

    let sstable_path = String::from("/tmp/test_sstable.sst");
    let created =
        SSTable::create(sstable_path.clone(), &memtable, &sstables, sstables.len(), 0).unwrap();

    let sstable = SSTable::open(sstable_path, created.file().clone()).unwrap();
    for (key, value) in expected_values {
        let key = key.to_string();
        let value = value.to_string();
        let record = sstable.get(&key).unwrap();
        assert!(record == Some(Record::Value(value)));
    }
}

fn memtable_of(entries: &[(&str, Option<&str>)]) -> Memtable {
    let mut memtable = Memtable::open(String::from("memtable_0.log"), Vec::new()).unwrap();
    for (key, value) in entries {
        match value {
            Some(value) => memtable
                .set(String::from(*key), String::from(*value))
                .unwrap(),
            None => memtable.remove(String::from(*key)).unwrap(),
        }
    }
    memtable
}

fn run_of(entries: &[(&str, Option<&str>)], gen_no: usize, epoch_no: u64) -> SSTable {
    SSTable::create(
        format!("gen_{}_1.sst", gen_no),
        &memtable_of(entries),
        &[],
        gen_no,
        epoch_no,
    )
    .unwrap()
}

fn entries_of(sstable: &SSTable) -> Vec<(String, Record)> {
    let mut iter = sstable.pseudo_iter();
    let mut entries = Vec::new();
    while let Some(entry) = iter.next().unwrap() {
        entries.push(entry);
    }
    entries
}

#[test]
fn an_empty_run_is_its_generation_number() {
    let sstable = SSTable::create_empty(String::from("gen_3_9.sst"), 3, 7).unwrap();
    assert_eq!(sstable.file(), &vec![0, 0, 0, 3]);
    assert_eq!(sstable.gen_no(), 3);
    assert_eq!(sstable.epoch_no(), 7);
    assert_eq!(sstable.file_size(), 4);
    assert_eq!(sstable.file_path(), "gen_3_9.sst");
    assert!(!sstable.is_deprecated());
    assert_eq!(sstable.get("a").unwrap(), None);
    assert!(entries_of(&sstable).is_empty());
}

#[test]
fn the_generation_number_is_written_big_endian() {
    let sstable = SSTable::create_empty(String::from("x.sst"), 0x0102_0304, 0).unwrap();
    assert_eq!(sstable.file(), &vec![1, 2, 3, 4]);
    let opened = SSTable::open(String::from("x.sst"), sstable.file().clone()).unwrap();
    assert_eq!(opened.gen_no(), 0x0102_0304);
}

#[test]
fn a_generation_number_beyond_four_bytes_is_refused() {
    if usize::BITS > 32 {
        let too_large = (u32::MAX as usize) + 1;
        assert!(matches!(
            SSTable::create_empty(String::from("x.sst"), too_large, 0),
            Err(NaiveError::InvalidData)
        ));
        assert!(matches!(
            SSTable::create(String::from("x.sst"), &memtable_of(&[]), &[], too_large, 0),
            Err(NaiveError::InvalidData)
        ));
    }
    let largest = u32::MAX as usize;
    let sstable = SSTable::create_empty(String::from("x.sst"), largest, 0).unwrap();
    assert_eq!(sstable.file(), &vec![255, 255, 255, 255]);
}

#[test]
fn a_small_run_is_one_chunk_of_messages() {
    let sstable = run_of(&[("b", Some("2")), ("a", None)], 1, 5);
    let expected: Vec<u8> = vec![
        0, 0, 0, 1, // the generation number
        0, 0, 0, 27, // the length of the chunk
        0, 0, 0, 7, 1, 0, 0, 0, 0, 1, b'a', // the tombstone of "a"
        0, 0, 0, 12, 0, 1, 0, 0, 0, 1, b'b', 0, 0, 0, 1, b'2', // "b" is "2"
    ];
    assert_eq!(sstable.file(), &expected);
    assert_eq!(sstable.file_size(), expected.len());
    assert_eq!(sstable.epoch_no(), 5);
    assert_eq!(sstable.gen_no(), 1);
}

#[test]
fn a_run_holds_what_the_memtable_held() {
    let sstable = run_of(
        &[("k1", Some("v1")), ("k3", Some("v3")), ("k2", None)],
        0,
        1,
    );
    assert_eq!(
        sstable.get("k1").unwrap(),
        Some(Record::Value(String::from("v1")))
    );
    assert_eq!(sstable.get("k2").unwrap(), Some(Record::Deleted));
    assert_eq!(
        sstable.get("k3").unwrap(),
        Some(Record::Value(String::from("v3")))
    );
    assert_eq!(sstable.get("k0").unwrap(), None);
    assert_eq!(sstable.get("k25").unwrap(), None);
    assert_eq!(sstable.get("k4").unwrap(), None);
    assert_eq!(sstable.get("").unwrap(), None);
}

#[test]
fn the_youngest_source_wins() {
    let oldest = run_of(&[("a", Some("old")), ("b", Some("old")), ("d", Some("old"))], 1, 1);
    let older = run_of(&[("b", Some("mid")), ("c", Some("mid")), ("d", None)], 0, 1);
    let memtable = memtable_of(&[("c", Some("new")), ("e", Some("new"))]);
    let merged = SSTable::create(
        String::from("gen_2_5.sst"),
        &memtable,
        &[older, oldest],
        2,
        2,
    )
    .unwrap();
    let expected = vec![
        (String::from("a"), Record::Value(String::from("old"))),
        (String::from("b"), Record::Value(String::from("mid"))),
        (String::from("c"), Record::Value(String::from("new"))),
        (String::from("d"), Record::Deleted),
        (String::from("e"), Record::Value(String::from("new"))),
    ];
    assert_eq!(entries_of(&merged), expected);
    for (key, record) in expected {
        assert_eq!(merged.get(&key).unwrap(), Some(record));
    }
}

#[test]
fn tombstones_are_kept_by_a_merge() {
    let older = run_of(&[("x", Some("old"))], 0, 1);
    let memtable = memtable_of(&[("x", None), ("y", None)]);
    let merged =
        SSTable::create(String::from("gen_0_5.sst"), &memtable, &[older], 0, 2).unwrap();
    assert_eq!(merged.get("x").unwrap(), Some(Record::Deleted));
    assert_eq!(merged.get("y").unwrap(), Some(Record::Deleted));
}

#[test]
fn a_merge_of_nothing_is_an_empty_run() {
    let merged = SSTable::create(
        String::from("gen_0_5.sst"),
        &memtable_of(&[]),
        &[run_of(&[], 0, 0), run_of(&[], 1, 0)],
        0,
        2,
    )
    .unwrap();
    assert_eq!(merged.file(), &vec![0, 0, 0, 0]);
}

/// The chunks of a run: for each, the keys of its messages.
fn chunks_of(file: &[u8]) -> Vec<Vec<Vec<u8>>> {
    let mut chunks = Vec::new();
    let mut at = 4;
    while at < file.len() {
        let len = u32::from_be_bytes([file[at], file[at + 1], file[at + 2], file[at + 3]]) as usize;
        let chunk = &file[at + 4..at + 4 + len];
        let mut keys = Vec::new();
        let mut inner = 0;
        while inner < chunk.len() {
            let message_len = u32::from_be_bytes([
                chunk[inner],
                chunk[inner + 1],
                chunk[inner + 2],
                chunk[inner + 3],
            ]) as usize;
            let message = &chunk[inner + 4..inner + 4 + message_len];
            let key_len =
                u32::from_be_bytes([message[2], message[3], message[4], message[5]]) as usize;
            keys.push(message[6..6 + key_len].to_vec());
            inner += 4 + message_len;
        }
        chunks.push(keys);
        at += 4 + len;
    }
    chunks
}

#[test]
fn chunks_close_at_the_threshold_and_ascend() {
    let mut memtable = Memtable::open(String::from("m"), Vec::new()).unwrap();
    for i in 0..500 {
        memtable
            .set(format!("key{:05}", i), format!("value{:05}", i))
            .unwrap();
    }
    let sstable = SSTable::create(String::from("s"), &memtable, &[], 0, 0).unwrap();
    let file = sstable.file();
    // Each message is 4 + 2 + 4 + 8 + 4 + 10 = 32 bytes: 32 of them reach 1024.
    let chunks = chunks_of(file);
    assert_eq!(chunks.len(), 16);
    for chunk in &chunks[..15] {
        assert_eq!(chunk.len(), 32);
    }
    assert_eq!(chunks[15].len(), 500 - 15 * 32);
    for pair in chunks.windows(2) {
        let last = pair[0].last().unwrap();
        let first = pair[1].first().unwrap();
        assert!(last < first);
    }
    for chunk in &chunks {
        for pair in chunk.windows(2) {
            assert!(pair[0] < pair[1]);
        }
    }
    assert_eq!(file.len(), 4 + 16 * 4 + 500 * 32);
}

#[test]
fn a_lookup_finds_the_keys_at_the_edges_of_the_chunks() {
    let mut memtable = Memtable::open(String::from("m"), Vec::new()).unwrap();
    for i in 0..200 {
        memtable
            .set(format!("key{:05}", 2 * i), format!("value{:05}", i))
            .unwrap();
    }
    let sstable = SSTable::create(String::from("s"), &memtable, &[], 0, 0).unwrap();
    for i in 0..200 {
        assert_eq!(
            sstable.get(&format!("key{:05}", 2 * i)).unwrap(),
            Some(Record::Value(format!("value{:05}", i)))
        );
        assert_eq!(sstable.get(&format!("key{:05}", 2 * i + 1)).unwrap(), None);
    }
    assert_eq!(sstable.get("key").unwrap(), None);
    assert_eq!(sstable.get("key99999").unwrap(), None);
}

#[test]
fn a_run_that_was_written_opens_as_it_was() {
    let mut memtable = Memtable::open(String::from("m"), Vec::new()).unwrap();
    for i in 0..300 {
        if i % 7 == 0 {
            memtable.remove(format!("key{}", i)).unwrap();
        } else {
            memtable.set(format!("key{}", i), format!("{}", i * i)).unwrap();
        }
    }
    let written = SSTable::create(String::from("gen_4_1.sst"), &memtable, &[], 4, 9).unwrap();
    let opened = SSTable::open(String::from("gen_4_1.sst"), written.file().clone()).unwrap();
    assert_eq!(opened.gen_no(), 4);
    assert_eq!(opened.epoch_no(), 0);
    assert_eq!(opened.file_size(), written.file_size());
    assert_eq!(opened.file(), written.file());
    assert_eq!(entries_of(&opened), entries_of(&written));
    assert_eq!(entries_of(&opened).len(), 300);
}

#[test]
fn open_refuses_a_file_that_is_no_run() {
    let refused = |file: Vec<u8>| {
        matches!(
            SSTable::open(String::from("x.sst"), file),
            Err(NaiveError::InvalidData)
        )
    };
    // Shorter than a generation number.
    assert!(refused(vec![]));
    assert!(refused(vec![0, 0, 0]));
    let good = run_of(&[("a", Some("1")), ("b", Some("2"))], 0, 0)
        .file()
        .clone();
    assert!(SSTable::open(String::from("x.sst"), good.clone()).is_ok());
    // The file ends inside the chunk.
    let mut cut = good.clone();
    cut.pop();
    assert!(refused(cut));
    // Bytes behind the last chunk.
    let mut longer = good.clone();
    longer.push(0);
    assert!(refused(longer));
    // An empty chunk.
    let mut with_empty = good.clone();
    with_empty.extend_from_slice(&[0, 0, 0, 0]);
    assert!(refused(with_empty));
    // A kind that does not exist.
    let mut bad_kind = good.clone();
    bad_kind[12] = 7;
    assert!(refused(bad_kind));
    // Keys that do not ascend: "b" before "a".
    let mut unordered = good.clone();
    let a = unordered.iter().position(|b| *b == b'a').unwrap();
    let b = unordered.iter().position(|b| *b == b'b').unwrap();
    unordered.swap(a, b);
    assert!(refused(unordered));
    // The same key twice.
    let mut twice = good.clone();
    twice[b] = b'a';
    assert!(refused(twice));
    // A command whose kind and value disagree: a DELETE with a value.
    let mut mismatched = good;
    mismatched[12] = 1;
    assert!(refused(mismatched));
}

#[test]
fn open_refuses_a_key_that_is_not_utf8() {
    let mut file = run_of(&[("a", Some("1"))], 0, 0).file().clone();
    let a = file.iter().position(|b| *b == b'a').unwrap();
    file[a] = 0xff;
    assert!(matches!(
        SSTable::open(String::from("x.sst"), file),
        Err(NaiveError::InvalidData)
    ));
}

#[test]
fn a_pass_yields_the_entries_of_all_chunks_in_order() {
    let mut memtable = Memtable::open(String::from("m"), Vec::new()).unwrap();
    let mut expected = BTreeMap::new();
    for i in 0..1000u32 {
        let key = format!("{}", i.wrapping_mul(2654435761) % 5000);
        let value = format!("value of {}", i);
        memtable.set(key.clone(), value.clone()).unwrap();
        expected.insert(key, value);
    }
    let sstable = SSTable::create(String::from("s"), &memtable, &[], 0, 0).unwrap();
    let entries = entries_of(&sstable);
    let expected: Vec<(String, Record)> = expected
        .into_iter()
        .map(|(key, value)| (key, Record::Value(value)))
        .collect();
    assert_eq!(entries, expected);
}

#[test]
fn a_handle_keeps_the_epoch_of_its_run() {
    let sstable = run_of(&[("a", Some("1"))], 0, 42);
    let mut view = SSTableView::new(&sstable).unwrap();
    assert_eq!(view.epoch_no(), 42);
    assert_eq!(
        view.get(&sstable, "a").unwrap(),
        Some(Record::Value(String::from("1")))
    );
    assert_eq!(view.get(&sstable, "b").unwrap(), None);
    assert_eq!(view.epoch_no(), 42);
}

#[test]
fn deprecate_latches_on_a_run() {
    let mut sstable = run_of(&[("a", Some("1"))], 0, 0);
    assert!(!sstable.is_deprecated());
    sstable.deprecate().unwrap();
    assert!(sstable.is_deprecated());
    assert_eq!(
        sstable.get("a").unwrap(),
        Some(Record::Value(String::from("1")))
    );
}

#[test]
fn a_copy_of_a_run_is_the_run() {
    let mut memtable = Memtable::open(String::from("m"), Vec::new()).unwrap();
    for i in 0..300 {
        memtable
            .set(format!("key{:05}", i), format!("value{:05}", i))
            .unwrap();
    }
    let mut sstable = SSTable::create(String::from("data/gen_3_5.sst"), &memtable, &[], 3, 8)
        .unwrap();
    sstable.deprecate().unwrap();
    let copy = sstable.duplicate();
    assert_eq!(copy.file(), sstable.file());
    assert_eq!(copy.file_size(), sstable.file_size());
    assert_eq!(copy.file_path(), "data/gen_3_5.sst");
    assert_eq!(copy.gen_no(), 3);
    assert_eq!(copy.epoch_no(), 8);
    assert!(copy.is_deprecated());
    assert_eq!(entries_of(&copy), entries_of(&sstable));
    for i in [0, 31, 32, 33, 150, 299] {
        assert_eq!(
            copy.get(&format!("key{:05}", i)).unwrap(),
            Some(Record::Value(format!("value{:05}", i)))
        );
    }
    assert_eq!(copy.get("key").unwrap(), None);
    assert_eq!(copy.get("key00300").unwrap(), None);
}
