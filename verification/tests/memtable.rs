use naive_kv::command::{Command, CommandType};
use naive_kv::memtable::{apply_command_to_data, LoggedWrite, Memtable, RecordTable};
use naive_kv::run::search;
use naive_kv::types::{IoErrorKind, NaiveError, Record};
use naive_kv::utils::write_message;

#[test]
fn test_memtable() {
    const MAX_NUMBER: i32 = 1000;
    let log_path = String::from("/tmp/test_memtable.log");

    let mut memtable = Memtable::open(log_path.clone(), Vec::new()).unwrap();
    for num in 0..=MAX_NUMBER {
        let num_str = num.to_string();
        memtable.set(num_str.clone(), num_str.clone()).unwrap();
    }
    for num in 0..=MAX_NUMBER {
        let num_str = num.to_string();
        let record = memtable.get(&num_str).unwrap();
        assert!(record == Some(Record::Value(num_str.clone())));
    }
    assert!(memtable
        .get(&(MAX_NUMBER + 1).to_string())
        .unwrap()
        .is_none());

    // Remove all the odd numbers.
    for num in (1..=MAX_NUMBER).step_by(2) {
        let num_str = num.to_string();
        memtable.remove(num_str).unwrap();
    }
    for num in 0..=MAX_NUMBER {
        let num_str = num.to_string();
        let record = memtable.get(&num_str).unwrap();
        if num % 2 == 0 {
            assert!(record == Some(Record::Value(num_str.clone())));
        } else {
            assert!(record == Some(Record::Deleted));
        }
    }

    // Restart from the log.
    let mut memtable = Memtable::open(log_path.clone(), memtable.log().clone()).unwrap();
    memtable.deprecate().unwrap();
    for num in 0..=MAX_NUMBER {
        let num_str = num.to_string();
        let record = memtable.get(&num_str).unwrap();
        if num % 2 == 0 {
            assert!(record == Some(Record::Value(num_str.clone())));
        } else {
            assert!(record == Some(Record::Deleted));
        }
    }
}

fn fresh() -> Memtable {
    Memtable::open(String::from("memtable_1.log"), Vec::new()).unwrap()
}

#[test]
fn memtable_starts_empty() {
    let memtable = fresh();
    assert_eq!(memtable.data_size(), 0);
    assert_eq!(memtable.len(), 0);
    assert!(memtable.log().is_empty());
    assert_eq!(memtable.log_path(), "memtable_1.log");
    assert!(!memtable.is_deprecated());
    assert_eq!(memtable.get("a").unwrap(), None);
}

#[test]
fn data_size_grows_by_key_and_value_on_insert() {
    let mut memtable = fresh();
    memtable.set(String::from("key"), String::from("value")).unwrap();
    assert_eq!(memtable.data_size(), 3 + 5);
    memtable.set(String::from("k2"), String::from("")).unwrap();
    assert_eq!(memtable.data_size(), 8 + 2);
}

#[test]
fn data_size_changes_by_the_difference_on_overwrite() {
    let mut memtable = fresh();
    memtable.set(String::from("key"), String::from("value")).unwrap();
    memtable.set(String::from("key"), String::from("v")).unwrap();
    assert_eq!(memtable.data_size(), 3 + 1);
    memtable.set(String::from("key"), String::from("longer value")).unwrap();
    assert_eq!(memtable.data_size(), 3 + 12);
}

#[test]
fn overwrite_with_a_value_of_the_same_length_keeps_the_size() {
    let mut memtable = fresh();
    memtable.set(String::from("key"), String::from("abc")).unwrap();
    let before = memtable.data_size();
    memtable.set(String::from("key"), String::from("abc")).unwrap();
    assert_eq!(memtable.data_size(), before);
    memtable.set(String::from("key"), String::from("xyz")).unwrap();
    assert_eq!(memtable.data_size(), before);
}

#[test]
fn data_size_is_the_sum_of_the_steps() {
    let mut memtable = fresh();
    let mut expected: usize = 0;
    // insert, insert, overwrite, tombstone over a value, tombstone of a new key
    memtable.set(String::from("a"), String::from("12345")).unwrap();
    expected += 1 + 5;
    assert_eq!(memtable.data_size(), expected);
    memtable.set(String::from("bb"), String::from("1")).unwrap();
    expected += 2 + 1;
    assert_eq!(memtable.data_size(), expected);
    memtable.set(String::from("a"), String::from("1")).unwrap();
    expected = expected - 5 + 1;
    assert_eq!(memtable.data_size(), expected);
    memtable.remove(String::from("bb")).unwrap();
    expected = expected - 1 + 2;
    assert_eq!(memtable.data_size(), expected);
    memtable.remove(String::from("ccc")).unwrap();
    expected += 3 + 2;
    assert_eq!(memtable.data_size(), expected);
    assert_eq!(expected, 11);
}

#[test]
fn a_tombstone_of_an_absent_key_stays_a_tombstone() {
    let mut memtable = fresh();
    memtable.remove(String::from("ghost")).unwrap();
    assert_eq!(memtable.get("ghost").unwrap(), Some(Record::Deleted));
    assert_eq!(memtable.data_size(), 5 + 2);
    let reopened = Memtable::open(String::from("x"), memtable.log().clone()).unwrap();
    assert_eq!(reopened.get("ghost").unwrap(), Some(Record::Deleted));
}

#[test]
fn the_empty_key_is_accepted_and_comes_first() {
    let mut memtable = fresh();
    memtable.set(String::from("b"), String::from("2")).unwrap();
    memtable.set(String::from(""), String::from("0")).unwrap();
    memtable.set(String::from("a"), String::from("1")).unwrap();
    assert_eq!(
        memtable.get("").unwrap(),
        Some(Record::Value(String::from("0")))
    );
    let mut iter = memtable.iter();
    let (key, record) = iter.next().unwrap();
    assert_eq!(key, "");
    assert_eq!(record, &Record::Value(String::from("0")));
}

#[test]
fn iter_yields_the_entries_in_key_order() {
    let mut memtable = fresh();
    for key in ["pear", "apple", "zebra", "mango", "apple2", "Zed"] {
        memtable.set(String::from(key), key.to_uppercase()).unwrap();
    }
    memtable.remove(String::from("mango")).unwrap();
    let mut iter = memtable.iter();
    let mut seen = Vec::new();
    while let Some((key, record)) = iter.next() {
        seen.push((key.clone(), record.clone()));
    }
    let expected = vec![
        (String::from("Zed"), Record::Value(String::from("ZED"))),
        (String::from("apple"), Record::Value(String::from("APPLE"))),
        (String::from("apple2"), Record::Value(String::from("APPLE2"))),
        (String::from("mango"), Record::Deleted),
        (String::from("pear"), Record::Value(String::from("PEAR"))),
        (String::from("zebra"), Record::Value(String::from("ZEBRA"))),
    ];
    assert_eq!(seen, expected);
    assert!(iter.next().is_none());
}

#[test]
fn keys_are_ordered_by_their_bytes() {
    let mut memtable = fresh();
    // 'é' is two bytes, the first 0xC3; 'z' is 0x7A; '😀' begins with 0xF0.
    for key in ["é", "z", "😀", "a"] {
        memtable.set(String::from(key), String::new()).unwrap();
    }
    let mut iter = memtable.iter();
    let mut seen = Vec::new();
    while let Some((key, _)) = iter.next() {
        seen.push(key.clone());
    }
    assert_eq!(seen, vec!["a", "z", "é", "😀"]);
}

#[test]
fn the_log_grows_by_one_message_for_each_write() {
    let mut memtable = fresh();
    memtable.set(String::from("a"), String::from("1")).unwrap();
    let expected: Vec<u8> = vec![0, 0, 0, 12, 0, 1, 0, 0, 0, 1, b'a', 0, 0, 0, 1, b'1'];
    assert_eq!(memtable.log(), &expected);
    memtable.remove(String::from("a")).unwrap();
    let mut expected = expected;
    expected.extend_from_slice(&[0, 0, 0, 7, 1, 0, 0, 0, 0, 1, b'a']);
    assert_eq!(memtable.log(), &expected);
}

#[test]
fn the_memtable_is_what_its_log_replays_to() {
    let mut memtable = fresh();
    let mut commands = Vec::new();
    for i in 0..200u32 {
        let key = format!("k{}", i % 37);
        if i % 5 == 0 {
            memtable.remove(key.clone()).unwrap();
            commands.push((key, None));
        } else {
            let value = format!("v{}", i);
            memtable.set(key.clone(), value.clone()).unwrap();
            commands.push((key, Some(value)));
        }
    }
    // The same commands, written to a log of their own and replayed.
    let mut log = Vec::new();
    for (key, value) in &commands {
        let mut command = Command::new();
        command.set_key(key.clone());
        match value {
            Some(value) => {
                command.set_command_type(CommandType::SET_VALUE);
                command.set_value(value.clone());
            }
            None => command.set_command_type(CommandType::DELETE),
        }
        write_message(&command, &mut log).unwrap();
    }
    assert_eq!(&log, memtable.log());
    let replayed = Memtable::open(String::from("other"), log).unwrap();
    assert_eq!(replayed.data_size(), memtable.data_size());
    assert_eq!(replayed.len(), memtable.len());
    for i in 0..40u32 {
        let key = format!("k{}", i);
        assert_eq!(replayed.get(&key).unwrap(), memtable.get(&key).unwrap());
    }
}

#[test]
fn replay_refuses_a_command_whose_kind_and_value_disagree() {
    // A DELETE that carries a value.
    let mut command = Command::new();
    command.set_key(String::from("k"));
    command.set_command_type(CommandType::DELETE);
    command.set_value(String::from("v"));
    let mut log = Vec::new();
    write_message(&command, &mut log).unwrap();
    assert!(matches!(
        Memtable::open(String::from("x"), log),
        Err(NaiveError::InvalidData)
    ));
    // A SET_VALUE without a value.
    let mut command = Command::new();
    command.set_key(String::from("k"));
    let mut log = Vec::new();
    write_message(&command, &mut log).unwrap();
    assert!(matches!(
        Memtable::open(String::from("x"), log),
        Err(NaiveError::InvalidData)
    ));
}

#[test]
fn replay_refuses_a_log_that_ends_inside_a_message() {
    let mut memtable = fresh();
    memtable.set(String::from("a"), String::from("1")).unwrap();
    let mut log = memtable.log().clone();
    log.pop();
    assert!(matches!(
        Memtable::open(String::from("x"), log),
        Err(NaiveError::IoError(IoErrorKind::UnexpectedEof))
    ));
}

#[test]
fn replay_refuses_bytes_that_are_no_command() {
    // A chunk of three bytes: too short for a command.
    let log = vec![0, 0, 0, 3, 9, 9, 9];
    assert!(matches!(
        Memtable::open(String::from("x"), log),
        Err(NaiveError::ProtobufError)
    ));
}

#[test]
fn replay_refuses_what_is_left_over_behind_the_last_message() {
    let mut memtable = fresh();
    memtable.set(String::from("a"), String::from("1")).unwrap();
    // Two bytes that are no length.
    let mut log = memtable.log().clone();
    log.extend_from_slice(&[0, 0]);
    assert!(matches!(
        Memtable::open(String::from("x"), log),
        Err(NaiveError::InvalidData)
    ));
    // An empty chunk.
    let mut log = memtable.log().clone();
    log.extend_from_slice(&[0, 0, 0, 0]);
    assert!(matches!(
        Memtable::open(String::from("x"), log),
        Err(NaiveError::InvalidData)
    ));
}

#[test]
fn deprecate_latches() {
    let mut memtable = fresh();
    memtable.set(String::from("a"), String::from("1")).unwrap();
    assert!(!memtable.is_deprecated());
    memtable.deprecate().unwrap();
    assert!(memtable.is_deprecated());
    memtable.deprecate().unwrap();
    assert!(memtable.is_deprecated());
    assert_eq!(
        memtable.get("a").unwrap(),
        Some(Record::Value(String::from("1")))
    );
}

fn set_command(key: &str, value: &str) -> Command {
    let mut command = Command::new();
    command.set_key(String::from(key));
    command.set_command_type(CommandType::SET_VALUE);
    command.set_value(String::from(value));
    command
}

#[test]
fn a_command_is_applied_to_a_table_and_its_size() {
    let mut data = RecordTable::new();
    let mut data_size = 0;
    assert_eq!(data.len(), 0);
    apply_command_to_data(&set_command("b", "22"), &mut data, &mut data_size).unwrap();
    apply_command_to_data(&set_command("a", "1"), &mut data, &mut data_size).unwrap();
    apply_command_to_data(&set_command("c", "333"), &mut data, &mut data_size).unwrap();
    assert_eq!(data.len(), 3);
    assert_eq!(data_size, 3 + 6);
    assert_eq!(data.key_at(0), "a");
    assert_eq!(data.key_at(1), "b");
    assert_eq!(data.key_at(2), "c");
    assert_eq!(data.record_at(1), &Record::Value(String::from("22")));
    assert_eq!(data.get("c"), Some(&Record::Value(String::from("333"))));
    assert_eq!(data.get("d"), None);

    let mut delete = Command::new();
    delete.set_key(String::from("b"));
    delete.set_command_type(CommandType::DELETE);
    apply_command_to_data(&delete, &mut data, &mut data_size).unwrap();
    assert_eq!(data.len(), 3);
    assert_eq!(data_size, 9 - 2 + 2);
    assert_eq!(data.record_at(1), &Record::Deleted);

    // A command whose kind and value disagree changes nothing.
    delete.set_value(String::from("v"));
    assert_eq!(
        apply_command_to_data(&delete, &mut data, &mut data_size),
        Err(NaiveError::InvalidData)
    );
    assert_eq!(data.len(), 3);
    assert_eq!(data_size, 9);
    assert_eq!(data.record_at(1), &Record::Deleted);
}

#[test]
fn a_search_finds_a_key_or_the_place_where_it_belongs() {
    let keys: Vec<String> = ["b", "d", "f", "h"].iter().map(|k| k.to_string()).collect();
    assert_eq!(search(&keys, "b"), (true, 0));
    assert_eq!(search(&keys, "d"), (true, 1));
    assert_eq!(search(&keys, "f"), (true, 2));
    assert_eq!(search(&keys, "h"), (true, 3));
    assert_eq!(search(&keys, ""), (false, 0));
    assert_eq!(search(&keys, "a"), (false, 0));
    assert_eq!(search(&keys, "c"), (false, 1));
    assert_eq!(search(&keys, "e"), (false, 2));
    assert_eq!(search(&keys, "g"), (false, 3));
    assert_eq!(search(&keys, "i"), (false, 4));
    assert_eq!(search(&keys, "bb"), (false, 1));
    assert_eq!(search(&Vec::new(), "a"), (false, 0));
    let one = vec![String::from("m")];
    assert_eq!(search(&one, "a"), (false, 0));
    assert_eq!(search(&one, "m"), (true, 0));
    assert_eq!(search(&one, "z"), (false, 1));
}

#[test]
fn a_write_is_made_ready_with_the_bytes_of_its_message() {
    let write = LoggedWrite::set(String::from("a"), String::from("1")).unwrap();
    assert_eq!(
        write.entry(),
        &vec![0, 0, 0, 12, 0, 1, 0, 0, 0, 1, b'a', 0, 0, 0, 1, b'1']
    );
    let write = LoggedWrite::remove(String::from("a")).unwrap();
    assert_eq!(write.entry(), &vec![0, 0, 0, 7, 1, 0, 0, 0, 0, 1, b'a']);
    let write = LoggedWrite::new(set_command("", "")).unwrap();
    assert_eq!(write.entry(), &vec![0, 0, 0, 10, 0, 1, 0, 0, 0, 0, 0, 0, 0, 0]);
    // A command whose kind and value disagree is not made ready.
    let mut mismatched = set_command("k", "v");
    mismatched.set_command_type(CommandType::DELETE);
    assert!(matches!(
        LoggedWrite::new(mismatched),
        Err(NaiveError::InvalidData)
    ));
    let mut without_value = Command::new();
    without_value.set_key(String::from("k"));
    assert!(matches!(
        LoggedWrite::new(without_value),
        Err(NaiveError::InvalidData)
    ));
}

#[test]
fn a_write_that_was_logged_is_applied_as_a_set_is() {
    let mut stepwise = fresh();
    let mut direct = fresh();
    for i in 0..50u32 {
        let key = format!("k{}", i % 7);
        if i % 3 == 0 {
            let write = LoggedWrite::remove(key.clone()).unwrap();
            let before = stepwise.log().len();
            let entry = write.entry().clone();
            stepwise.commit(write);
            assert_eq!(&stepwise.log()[before..], &entry[..]);
            direct.remove(key).unwrap();
        } else {
            let value = format!("value {}", i);
            stepwise.commit(LoggedWrite::set(key.clone(), value.clone()).unwrap());
            direct.set(key, value).unwrap();
        }
        assert_eq!(stepwise.log(), direct.log());
        assert_eq!(stepwise.data_size(), direct.data_size());
    }
    for i in 0..8u32 {
        let key = format!("k{}", i);
        assert_eq!(stepwise.get(&key).unwrap(), direct.get(&key).unwrap());
    }
}

#[test]
fn a_copy_of_a_memtable_holds_what_the_memtable_holds() {
    let mut memtable = Memtable::open(String::from("data/memtable_7.log"), Vec::new()).unwrap();
    memtable.set(String::from("b"), String::from("2")).unwrap();
    memtable.remove(String::from("a")).unwrap();
    memtable.deprecate().unwrap();
    let mut copy = memtable.duplicate();
    assert_eq!(copy.log(), memtable.log());
    assert_eq!(copy.log_path(), "data/memtable_7.log");
    assert_eq!(copy.data_size(), memtable.data_size());
    assert_eq!(copy.len(), 2);
    assert!(copy.is_deprecated());
    assert_eq!(copy.get("a").unwrap(), Some(Record::Deleted));
    assert_eq!(
        copy.get("b").unwrap(),
        Some(Record::Value(String::from("2")))
    );
    // The copy is a table of its own.
    copy.set(String::from("c"), String::from("3")).unwrap();
    assert_eq!(memtable.get("c").unwrap(), None);
    assert_eq!(memtable.len(), 2);
    let table = RecordTable::new().duplicate();
    assert_eq!(table.len(), 0);
}

#[test]
fn a_size_is_changed_by_the_delta_of_each_command_wherever_it_starts() {
    let mut data = RecordTable::new();
    let mut data_size = 1000usize;
    apply_command_to_data(&set_command("key", "value"), &mut data, &mut data_size).unwrap();
    assert_eq!(data_size, 1000 + 3 + 5);
    apply_command_to_data(&set_command("key", "v"), &mut data, &mut data_size).unwrap();
    assert_eq!(data_size, 1000 + 3 + 1);
    apply_command_to_data(&set_command("key", "a longer value"), &mut data, &mut data_size)
        .unwrap();
    assert_eq!(data_size, 1000 + 3 + 14);
    let mut delete = Command::new();
    delete.set_key(String::from("key"));
    delete.set_command_type(CommandType::DELETE);
    apply_command_to_data(&delete, &mut data, &mut data_size).unwrap();
    assert_eq!(data_size, 1000 + 3 + 2);
    assert_eq!(data.len(), 1);
    assert_eq!(data.get("key"), Some(&Record::Deleted));
}
