use naive_kv::catalog::{arrange_by_generation, Catalog, CatalogViewer, DirFile};
use naive_kv::compaction::{
    choose_generation, compact, freeze, install, merge, merge_copied, merge_input,
};
use naive_kv::memtable::LoggedWrite;
use naive_kv::memtable::Memtable;
use naive_kv::names::{
    classify, decimal_string, join_path, memtable_file_name, sstable_file_name, str_ends_with,
    str_starts_with, FileKind,
};
use naive_kv::sstable::SSTable;
use naive_kv::types::{IoErrorKind, NaiveError, Record};
use naive_kv::NaiveKV;

fn memtable_of(entries: &[(&str, Option<&str>)]) -> Memtable {
    let mut memtable = Memtable::open(String::from("memtable_0.log"), Vec::new()).unwrap();
    for (key, value) in entries {
        match value {
            Some(value) => memtable
                .set(String::from(*key), String::from(*value))
                .unwrap(),
            None => memtable.remove(String::from(*key)).unwrap(),
        }
    }
    memtable
}

fn run_of(entries: &[(&str, Option<&str>)], gen_no: usize) -> SSTable {
    SSTable::create(
        format!("gen_{}_1.sst", gen_no),
        &memtable_of(entries),
        &[],
        gen_no,
        0,
    )
    .unwrap()
}

fn run_file(entries: &[(&str, Option<&str>)], gen_no: usize, name: &str) -> DirFile {
    DirFile {
        name: String::from(name),
        bytes: run_of(entries, gen_no).file().clone(),
    }
}

fn log_file(entries: &[(&str, Option<&str>)], name: &str) -> DirFile {
    DirFile {
        name: String::from(name),
        bytes: memtable_of(entries).log().clone(),
    }
}

/// The name of a file behind the folder of its path.
fn name_of(path: &str) -> String {
    match path.rfind('/') {
        Some(at) => String::from(&path[at + 1..]),
        None => String::from(path),
    }
}

/// The files that hold a catalog, as a program would find them on disk.
fn files_of(catalog: &Catalog) -> Vec<DirFile> {
    let mut files = vec![DirFile {
        name: name_of(catalog.memtable.log_path()),
        bytes: catalog.memtable.log().clone(),
    }];
    for sstable in &catalog.sstables {
        files.push(DirFile {
            name: name_of(sstable.file_path()),
            bytes: sstable.file().clone(),
        });
    }
    files
}

#[test]
fn names_are_made_with_decimal_numbers() {
    assert_eq!(decimal_string(0), "0");
    assert_eq!(decimal_string(7), "7");
    assert_eq!(decimal_string(10), "10");
    assert_eq!(decimal_string(1234567890), "1234567890");
    assert_eq!(decimal_string(u64::MAX), "18446744073709551615");
    assert_eq!(memtable_file_name(42), "memtable_42.log");
    assert_eq!(sstable_file_name(3, 99), "gen_3_99.sst");
    assert_eq!(sstable_file_name(0, 0), "gen_0_0.sst");
}

#[test]
fn files_are_told_by_their_names() {
    assert_eq!(classify("gen_0_1.sst"), FileKind::SSTable);
    assert_eq!(classify(".sst"), FileKind::SSTable);
    assert_eq!(classify("anything.sst"), FileKind::SSTable);
    assert_eq!(classify("memtable_1.log"), FileKind::MemtableLog);
    assert_eq!(classify("memtable_.log"), FileKind::MemtableLog);
    assert_eq!(classify("memtable_x.sst"), FileKind::SSTable);
    assert_eq!(classify("memtable_1.log.bak"), FileKind::Other);
    assert_eq!(classify("memtable1.log"), FileKind::Other);
    assert_eq!(classify("x_memtable_1.log"), FileKind::Other);
    assert_eq!(classify("notes.txt"), FileKind::Other);
    assert_eq!(classify("sst"), FileKind::Other);
    assert_eq!(classify(""), FileKind::Other);
    assert_eq!(classify(&memtable_file_name(u64::MAX)), FileKind::MemtableLog);
    assert_eq!(classify(&sstable_file_name(12, 0)), FileKind::SSTable);
}

#[test]
fn prefixes_and_suffixes_are_found() {
    assert!(str_ends_with("abc", "bc"));
    assert!(str_ends_with("abc", ""));
    assert!(str_ends_with("abc", "abc"));
    assert!(!str_ends_with("abc", "ab"));
    assert!(!str_ends_with("bc", "abc"));
    assert!(str_starts_with("abc", "ab"));
    assert!(str_starts_with("abc", ""));
    assert!(!str_starts_with("abc", "bc"));
    assert!(!str_starts_with("ab", "abc"));
    assert!(str_ends_with("naïve😀", "ve😀"));
    assert!(str_starts_with("naïve😀", "naï"));
}

#[test]
fn a_path_is_the_folder_and_the_name() {
    assert_eq!(join_path("/tmp/kv", "a.sst"), "/tmp/kv/a.sst");
    assert_eq!(join_path("/tmp/kv/", "a.sst"), "/tmp/kv/a.sst");
    assert_eq!(join_path("", "a.sst"), "a.sst");
    assert_eq!(join_path("/", "a.sst"), "/a.sst");
    assert_eq!(join_path("data", ""), "data/");
}

#[test]
fn new_paths_lie_in_the_folder_and_are_named_for_what_they_hold() {
    let folder = String::from("/tmp/kv");
    let path = Catalog::gen_memtable_path(&folder);
    assert!(path.starts_with("/tmp/kv/memtable_"));
    assert!(path.ends_with(".log"));
    let number = &path["/tmp/kv/memtable_".len()..path.len() - ".log".len()];
    assert_eq!(number.parse::<u64>().unwrap().to_string(), number);
    assert_eq!(classify(&name_of(&path)), FileKind::MemtableLog);

    let path = Catalog::gen_sstable_path(&folder, 5);
    assert!(path.starts_with("/tmp/kv/gen_5_"));
    assert!(path.ends_with(".sst"));
    let number = &path["/tmp/kv/gen_5_".len()..path.len() - ".sst".len()];
    assert_eq!(number.parse::<u64>().unwrap().to_string(), number);
    assert_eq!(classify(&name_of(&path)), FileKind::SSTable);
}

#[test]
fn new_paths_differ() {
    let folder = String::from("data");
    let mut paths = Vec::new();
    for _ in 0..20 {
        paths.push(Catalog::gen_memtable_path(&folder));
    }
    paths.sort();
    paths.dedup();
    // Twenty numbers of 64 bits that are all the same are no random numbers.
    assert!(paths.len() > 1);
}

#[test]
fn runs_are_put_in_the_order_of_their_generations() {
    let placed = arrange_by_generation(vec![
        run_of(&[("c", Some("2"))], 2),
        run_of(&[("a", Some("0"))], 0),
        run_of(&[("b", Some("1"))], 1),
    ])
    .unwrap();
    assert_eq!(placed.len(), 3);
    for (i, sstable) in placed.iter().enumerate() {
        assert_eq!(sstable.gen_no(), i);
    }
    assert_eq!(
        placed[0].get("a").unwrap(),
        Some(Record::Value(String::from("0")))
    );
    assert_eq!(
        placed[2].get("c").unwrap(),
        Some(Record::Value(String::from("2")))
    );
    assert_eq!(arrange_by_generation(Vec::new()).unwrap().len(), 0);
}

#[test]
fn a_gap_or_a_generation_twice_is_refused() {
    assert!(matches!(
        arrange_by_generation(vec![run_of(&[], 0), run_of(&[], 2)]),
        Err(NaiveError::InvalidData)
    ));
    assert!(matches!(
        arrange_by_generation(vec![run_of(&[], 0), run_of(&[], 0)]),
        Err(NaiveError::InvalidData)
    ));
    assert!(matches!(
        arrange_by_generation(vec![run_of(&[], 1)]),
        Err(NaiveError::InvalidData)
    ));
    assert!(matches!(
        arrange_by_generation(vec![run_of(&[], 1), run_of(&[], 2), run_of(&[], 3)]),
        Err(NaiveError::InvalidData)
    ));
}

#[test]
fn an_empty_folder_opens_with_a_new_memtable() {
    let catalog = Catalog::open(String::from("/tmp/kv"), Vec::new()).unwrap();
    assert_eq!(catalog.folder_path, "/tmp/kv");
    assert!(catalog.ro_memtable.is_none());
    assert!(catalog.sstables.is_empty());
    assert_eq!(catalog.memtable.data_size(), 0);
    assert!(catalog.memtable.log().is_empty());
    assert!(catalog.memtable.log_path().starts_with("/tmp/kv/memtable_"));
    assert!(catalog.memtable.log_path().ends_with(".log"));
}

#[test]
fn a_folder_opens_with_its_runs_in_order_and_its_log() {
    let files = vec![
        run_file(&[("b", Some("gen1"))], 1, "gen_1_77.sst"),
        DirFile {
            name: String::from("README"),
            bytes: vec![1, 2, 3],
        },
        log_file(&[("a", Some("log"))], "memtable_5.log"),
        run_file(&[("c", Some("gen2"))], 2, "gen_2_78.sst"),
        run_file(&[("a", Some("gen0"))], 0, "gen_0_79.sst"),
    ];
    let catalog = Catalog::open(String::from("data"), files).unwrap();
    assert_eq!(catalog.sstables.len(), 3);
    for (i, sstable) in catalog.sstables.iter().enumerate() {
        assert_eq!(sstable.gen_no(), i);
        assert_eq!(sstable.epoch_no(), 0);
    }
    assert_eq!(catalog.sstables[0].file_path(), "data/gen_0_79.sst");
    assert_eq!(catalog.sstables[1].file_path(), "data/gen_1_77.sst");
    assert_eq!(catalog.sstables[2].file_path(), "data/gen_2_78.sst");
    assert_eq!(catalog.memtable.log_path(), "data/memtable_5.log");
    assert_eq!(
        catalog.memtable.get("a").unwrap(),
        Some(Record::Value(String::from("log")))
    );
    let mut viewer = CatalogViewer::new(&catalog).unwrap();
    assert_eq!(viewer.get(&catalog, "a").unwrap(), Some(String::from("log")));
    assert_eq!(viewer.get(&catalog, "b").unwrap(), Some(String::from("gen1")));
    assert_eq!(viewer.get(&catalog, "c").unwrap(), Some(String::from("gen2")));
    assert_eq!(viewer.get(&catalog, "d").unwrap(), None);
}

#[test]
fn two_logs_are_refused() {
    let files = vec![
        log_file(&[], "memtable_1.log"),
        log_file(&[], "memtable_2.log"),
    ];
    assert!(matches!(
        Catalog::open(String::from("data"), files),
        Err(NaiveError::InvalidData)
    ));
    let files = vec![
        run_file(&[], 0, "gen_0_1.sst"),
        log_file(&[("a", Some("1"))], "memtable_1.log"),
        log_file(&[("b", Some("2"))], "memtable_2.log"),
    ];
    assert!(matches!(
        NaiveKV::open(String::from("data"), files, 1024, 8, 1),
        Err(NaiveError::InvalidData)
    ));
}

#[test]
fn a_gap_among_the_generations_is_refused() {
    let files = vec![
        run_file(&[], 0, "gen_0_1.sst"),
        run_file(&[], 2, "gen_2_1.sst"),
    ];
    assert!(matches!(
        Catalog::open(String::from("data"), files),
        Err(NaiveError::InvalidData)
    ));
    let files = vec![
        run_file(&[], 0, "gen_0_1.sst"),
        run_file(&[], 0, "gen_0_2.sst"),
        log_file(&[], "memtable_1.log"),
    ];
    assert!(matches!(
        Catalog::open(String::from("data"), files),
        Err(NaiveError::InvalidData)
    ));
}

#[test]
fn a_file_that_is_named_as_a_run_and_is_none_is_refused() {
    let files = vec![DirFile {
        name: String::from("gen_0_1.sst"),
        bytes: vec![0, 0],
    }];
    assert!(matches!(
        Catalog::open(String::from("data"), files),
        Err(NaiveError::InvalidData)
    ));
}

#[test]
fn a_log_that_does_not_replay_is_refused_with_its_error() {
    let mut log = log_file(&[("a", Some("1"))], "memtable_1.log");
    log.bytes.pop();
    assert!(matches!(
        Catalog::open(String::from("data"), vec![log]),
        Err(NaiveError::IoError(IoErrorKind::UnexpectedEof))
    ));
    let log = DirFile {
        name: String::from("memtable_1.log"),
        bytes: vec![0, 0, 0, 1, 9],
    };
    assert!(matches!(
        Catalog::open(String::from("data"), vec![log]),
        Err(NaiveError::ProtobufError)
    ));
}

#[test]
fn the_generation_of_a_run_is_that_in_its_file_not_that_in_its_name() {
    let files = vec![
        run_file(&[("a", Some("0"))], 0, "gen_1_5.sst"),
        run_file(&[("a", Some("1"))], 1, "gen_0_5.sst"),
    ];
    let catalog = Catalog::open(String::from("data"), files).unwrap();
    assert_eq!(catalog.sstables[0].file_path(), "data/gen_1_5.sst");
    assert_eq!(catalog.sstables[0].gen_no(), 0);
    assert_eq!(catalog.sstables[0].file()[..4], [0, 0, 0, 0]);
    assert_eq!(catalog.sstables[1].gen_no(), 1);
    assert_eq!(catalog.sstables[1].file()[..4], [0, 0, 0, 1]);
}

#[test]
fn a_reader_is_answered_by_the_youngest_table() {
    let files = vec![
        run_file(&[("k", Some("gen1")), ("only1", Some("x")), ("dead", Some("old"))], 1, "b.sst"),
        run_file(&[("k", Some("gen0")), ("dead", None)], 0, "a.sst"),
    ];
    let mut catalog = Catalog::open(String::from("data"), files).unwrap();
    let mut viewer = CatalogViewer::new(&catalog).unwrap();
    assert_eq!(viewer.get(&catalog, "k").unwrap(), Some(String::from("gen0")));
    assert_eq!(viewer.get(&catalog, "only1").unwrap(), Some(String::from("x")));
    assert_eq!(viewer.get(&catalog, "dead").unwrap(), None);
    viewer
        .set(&mut catalog, String::from("k"), String::from("mem"))
        .unwrap();
    assert_eq!(viewer.get(&catalog, "k").unwrap(), Some(String::from("mem")));
    viewer.remove(&mut catalog, String::from("only1")).unwrap();
    assert_eq!(viewer.get(&catalog, "only1").unwrap(), None);
    viewer
        .set(&mut catalog, String::from("dead"), String::from("alive"))
        .unwrap();
    assert_eq!(
        viewer.get(&catalog, "dead").unwrap(),
        Some(String::from("alive"))
    );
}

#[test]
fn the_memtable_that_is_only_read_answers_before_the_runs() {
    let files = vec![run_file(&[("k", Some("run")), ("r", Some("run"))], 0, "a.sst")];
    let mut catalog = Catalog::open(String::from("data"), files).unwrap();
    catalog.ro_memtable = Some(memtable_of(&[("k", Some("frozen")), ("f", None)]));
    let mut viewer = CatalogViewer::new(&catalog).unwrap();
    assert_eq!(
        viewer.get(&catalog, "k").unwrap(),
        Some(String::from("frozen"))
    );
    assert_eq!(viewer.get(&catalog, "r").unwrap(), Some(String::from("run")));
    assert_eq!(viewer.get(&catalog, "f").unwrap(), None);
    viewer
        .set(&mut catalog, String::from("k"), String::from("active"))
        .unwrap();
    assert_eq!(
        viewer.get(&catalog, "k").unwrap(),
        Some(String::from("active"))
    );
}

#[test]
fn a_removed_key_stays_removed_until_it_is_set() {
    let mut engine = NaiveKV::open(String::from("data"), Vec::new(), 32, 2, 1).unwrap();
    let mut viewer = engine.catalog_viewer().unwrap();
    engine
        .set(&mut viewer, String::from("x"), String::from("old"))
        .unwrap();
    engine.compact().unwrap();
    engine.remove(&mut viewer, String::from("x")).unwrap();
    assert_eq!(engine.get(&mut viewer, "x").unwrap(), None);
    for i in 0..50 {
        engine
            .set(&mut viewer, format!("other{}", i), String::from("some value"))
            .unwrap();
        engine.compact().unwrap();
        assert_eq!(engine.get(&mut viewer, "x").unwrap(), None);
        let mut other = engine.catalog_viewer().unwrap();
        assert_eq!(engine.get(&mut other, "x").unwrap(), None);
    }
    engine
        .set(&mut viewer, String::from("x"), String::from("new"))
        .unwrap();
    assert_eq!(
        engine.get(&mut viewer, "x").unwrap(),
        Some(String::from("new"))
    );
}

#[test]
fn the_target_generation_grows_with_what_is_gathered() {
    let small = |gen_no: usize| run_of(&[("k", Some("v"))], gen_no);
    // Each of these runs is 4 + 4 + 4 + 12 = 24 bytes.
    assert_eq!(small(0).file_size(), 24);
    let runs = vec![small(0), small(1), small(2)];
    // No runs: generation 0.
    assert_eq!(choose_generation(100, &Vec::new(), 10, 8), 0);
    // 10 + 24 < 10 * 8: generation 0.
    assert_eq!(choose_generation(10, &runs, 10, 8), 0);
    // 56 + 24 = 80 is not below 80, and 80 + 24 < 640: generation 1.
    assert_eq!(choose_generation(56, &runs, 10, 8), 1);
    // 34 >= 20, 58 >= 40, 82 >= 80: behind the last run.
    assert_eq!(choose_generation(10, &runs, 10, 2), 3);
    // 34 >= 30, 58 < 90: generation 1.
    assert_eq!(choose_generation(10, &runs, 10, 3), 1);
    // A ratio of 0 or a threshold of 0 makes every limit 0.
    assert_eq!(choose_generation(0, &runs, 10, 0), 3);
    assert_eq!(choose_generation(0, &runs, 0, 8), 3);
    // The largest settings overflow nothing.
    assert_eq!(choose_generation(usize::MAX, &runs, usize::MAX, usize::MAX), 0);
    assert_eq!(choose_generation(usize::MAX, &runs, usize::MAX, 1), 3);
}

#[test]
fn a_cycle_below_the_threshold_does_nothing() {
    let mut catalog = Catalog::open(String::from("data"), Vec::new()).unwrap();
    let mut epoch_no = 4;
    let path = catalog.memtable.log_path().clone();
    // The memtable is empty.
    assert!(compact(&mut catalog, &mut epoch_no, 1, 8).unwrap().is_none());
    assert_eq!(epoch_no, 4);
    assert!(catalog.sstables.is_empty());
    assert_eq!(catalog.memtable.log_path(), &path);
    // The memtable is one byte below the threshold.
    let mut viewer = CatalogViewer::new(&catalog).unwrap();
    viewer
        .set(&mut catalog, String::from("key"), String::from("value"))
        .unwrap();
    assert_eq!(catalog.memtable.data_size(), 8);
    assert!(compact(&mut catalog, &mut epoch_no, 9, 8).unwrap().is_none());
    assert_eq!(epoch_no, 4);
    assert!(catalog.sstables.is_empty());
    assert_eq!(catalog.memtable.data_size(), 8);
    assert_eq!(catalog.memtable.log_path(), &path);
}

#[test]
fn a_cycle_at_the_threshold_writes_the_first_run() {
    let mut catalog = Catalog::open(String::from("data"), Vec::new()).unwrap();
    let mut viewer = CatalogViewer::new(&catalog).unwrap();
    viewer
        .set(&mut catalog, String::from("key"), String::from("value"))
        .unwrap();
    let old_path = catalog.memtable.log_path().clone();
    let old_log = catalog.memtable.log().clone();
    let mut epoch_no = 0;
    let retired = compact(&mut catalog, &mut epoch_no, 8, 8).unwrap().unwrap();
    assert_eq!(epoch_no, 1);
    assert!(catalog.ro_memtable.is_none());
    assert_eq!(catalog.memtable.data_size(), 0);
    assert!(catalog.memtable.log().is_empty());
    assert!(catalog.memtable.log_path() != &old_path);
    assert_eq!(catalog.sstables.len(), 1);
    assert_eq!(catalog.sstables[0].gen_no(), 0);
    assert_eq!(catalog.sstables[0].epoch_no(), 1);
    assert!(catalog.sstables[0].file_path().starts_with("data/gen_0_"));
    assert_eq!(
        catalog.sstables[0].get("key").unwrap(),
        Some(Record::Value(String::from("value")))
    );
    assert!(retired.memtable.is_deprecated());
    assert_eq!(retired.memtable.log_path(), &old_path);
    assert_eq!(retired.memtable.log(), &old_log);
    assert!(retired.sstables.is_empty());
    assert_eq!(
        viewer.get(&catalog, "key").unwrap(),
        Some(String::from("value"))
    );
}

#[test]
fn a_cycle_replaces_the_runs_up_to_the_generation_it_merges_into() {
    // Generation 0 is 24 bytes, generations 1 and 2 are 40 bytes each.
    let files = vec![
        run_file(&[("a", Some("0"))], 0, "gen_0_1.sst"),
        run_file(&[("a", Some("1")), ("b", Some("1"))], 1, "gen_1_1.sst"),
        run_file(&[("a", Some("2")), ("c", Some("2"))], 2, "gen_2_1.sst"),
    ];
    let mut catalog = Catalog::open(String::from("data"), files).unwrap();
    let mut viewer = CatalogViewer::new(&catalog).unwrap();
    viewer
        .set(&mut catalog, String::from("b"), String::from("new b!"))
        .unwrap();
    assert_eq!(catalog.memtable.data_size(), 7);
    let third = catalog.sstables[2].file().clone();
    assert_eq!(catalog.sstables[1].file_size(), 40);
    // The limits are 16, 32, 64: 7 + 24 = 31 >= 16; 31 + 40 = 71 >= 32;
    // 71 + 40 = 111 >= 64: generation 3.
    assert_eq!(choose_generation(7, &catalog.sstables, 8, 2), 3);
    // With a ratio of 4 the limits are 32, 128: 31 < 32, generation 0.
    assert_eq!(choose_generation(7, &catalog.sstables, 8, 4), 0);
    // With a ratio of 3 the limits are 24, 72: 31 >= 24, 71 < 72, generation 1.
    assert_eq!(choose_generation(7, &catalog.sstables, 8, 3), 1);
    // With a threshold of 7 and a ratio of 4 the limits are 28, 112: generation 1.
    let mut epoch_no = 10;
    let retired = compact(&mut catalog, &mut epoch_no, 7, 4).unwrap().unwrap();
    assert_eq!(epoch_no, 11);
    assert_eq!(catalog.sstables.len(), 3);
    // Generation 0 is empty now, generation 1 holds the merge, generation 2 is as it was.
    assert_eq!(catalog.sstables[0].file(), &vec![0, 0, 0, 0]);
    assert_eq!(catalog.sstables[0].epoch_no(), 11);
    assert_eq!(catalog.sstables[1].epoch_no(), 11);
    assert_eq!(catalog.sstables[1].gen_no(), 1);
    assert_eq!(
        catalog.sstables[1].get("a").unwrap(),
        Some(Record::Value(String::from("0")))
    );
    assert_eq!(
        catalog.sstables[1].get("b").unwrap(),
        Some(Record::Value(String::from("new b!")))
    );
    assert_eq!(catalog.sstables[1].get("c").unwrap(), None);
    assert_eq!(catalog.sstables[2].epoch_no(), 0);
    assert_eq!(catalog.sstables[2].file(), &third);
    assert_eq!(catalog.sstables[2].file_path(), "data/gen_2_1.sst");
    // The runs that were merged are handed back, marked for removal.
    assert_eq!(retired.sstables.len(), 2);
    assert_eq!(retired.sstables[0].file_path(), "data/gen_0_1.sst");
    assert_eq!(retired.sstables[1].file_path(), "data/gen_1_1.sst");
    assert!(retired.sstables.iter().all(|sstable| sstable.is_deprecated()));
    assert!(!catalog.sstables.iter().any(|sstable| sstable.is_deprecated()));
    // What is read is what was read before.
    assert_eq!(viewer.get(&catalog, "a").unwrap(), Some(String::from("0")));
    assert_eq!(
        viewer.get(&catalog, "b").unwrap(),
        Some(String::from("new b!"))
    );
    assert_eq!(viewer.get(&catalog, "c").unwrap(), Some(String::from("2")));
}

#[test]
fn a_cycle_takes_up_a_memtable_that_was_left_frozen() {
    let mut catalog = Catalog::open(String::from("data"), Vec::new()).unwrap();
    let mut viewer = CatalogViewer::new(&catalog).unwrap();
    viewer
        .set(&mut catalog, String::from("key"), String::from("value"))
        .unwrap();
    // The first step of a cycle is taken, and the cycle is given up.
    let mut epoch_no = 3;
    let given_up = freeze(&mut catalog, &mut epoch_no, 1, 8).unwrap().unwrap();
    assert_eq!(given_up.epoch_no(), 4);
    let frozen_path = catalog.ro_memtable.as_ref().unwrap().log_path().clone();
    let active_path = catalog.memtable.log_path().clone();
    viewer
        .set(&mut catalog, String::from("later"), String::from("write"))
        .unwrap();
    // The next cycle is for the memtable that is still frozen, though the
    // memtable that takes the writes is far below the threshold.
    let plan = freeze(&mut catalog, &mut epoch_no, 1000, 8).unwrap().unwrap();
    assert_eq!(epoch_no, 5);
    assert_eq!(plan.epoch_no(), 5);
    assert_eq!(plan.gen_no(), 0);
    assert_eq!(catalog.memtable.log_path(), &active_path);
    assert_eq!(catalog.memtable.data_size(), 10);
    assert_eq!(
        catalog.ro_memtable.as_ref().unwrap().log_path(),
        &frozen_path
    );
    // So is a whole cycle.
    let retired = compact(&mut catalog, &mut epoch_no, 1000, 8)
        .unwrap()
        .unwrap();
    assert_eq!(epoch_no, 6);
    assert!(catalog.ro_memtable.is_none());
    assert_eq!(retired.memtable.log_path(), &frozen_path);
    assert!(retired.memtable.is_deprecated());
    assert_eq!(catalog.memtable.log_path(), &active_path);
    assert_eq!(catalog.memtable.data_size(), 10);
    assert_eq!(catalog.sstables.len(), 1);
    assert_eq!(catalog.sstables[0].epoch_no(), 6);
    assert_eq!(
        catalog.sstables[0].get("key").unwrap(),
        Some(Record::Value(String::from("value")))
    );
    assert_eq!(catalog.sstables[0].get("later").unwrap(), None);
    assert_eq!(
        viewer.get(&catalog, "key").unwrap(),
        Some(String::from("value"))
    );
    assert_eq!(
        viewer.get(&catalog, "later").unwrap(),
        Some(String::from("write"))
    );
    // With nothing left frozen, the threshold decides again.
    assert!(compact(&mut catalog, &mut epoch_no, 1000, 8)
        .unwrap()
        .is_none());
    assert_eq!(epoch_no, 6);
}

#[test]
fn a_cycle_refuses_to_run_out_of_epochs() {
    let mut catalog = Catalog::open(String::from("data"), Vec::new()).unwrap();
    let mut viewer = CatalogViewer::new(&catalog).unwrap();
    viewer
        .set(&mut catalog, String::from("key"), String::from("value"))
        .unwrap();
    let mut epoch_no = u64::MAX;
    assert!(matches!(
        compact(&mut catalog, &mut epoch_no, 1, 8),
        Err(NaiveError::Unknown)
    ));
    assert_eq!(epoch_no, u64::MAX);
    assert_eq!(catalog.memtable.data_size(), 8);
    assert!(catalog.sstables.is_empty());
}

#[test]
fn a_viewer_renews_the_handles_of_the_runs_it_consults() {
    let mut engine = NaiveKV::open(String::from("data"), Vec::new(), 8, 8, 1).unwrap();
    let mut early = engine.catalog_viewer().unwrap();
    let mut viewer = engine.catalog_viewer().unwrap();
    engine
        .set(&mut viewer, String::from("key"), String::from("value"))
        .unwrap();
    assert!(engine.compact().unwrap().is_some());
    // A viewer that was made before the first run was written has no handle on it yet.
    assert_eq!(
        engine.get(&mut early, "key").unwrap(),
        Some(String::from("value"))
    );
    engine
        .set(&mut viewer, String::from("key"), String::from("value2"))
        .unwrap();
    assert!(engine.compact().unwrap().is_some());
    assert_eq!(engine.catalog().sstables[0].epoch_no(), 2);
    // Its handle is of epoch 1 now, and the run of epoch 2.
    assert_eq!(
        engine.get(&mut early, "key").unwrap(),
        Some(String::from("value2"))
    );
    assert_eq!(
        engine.get(&mut viewer, "key").unwrap(),
        Some(String::from("value2"))
    );
}

#[test]
fn what_was_set_is_read_after_a_reopening() {
    let mut engine = NaiveKV::open(String::from("/tmp/basic"), Vec::new(), 1 << 20, 8, 1).unwrap();
    let mut viewer = engine.catalog_viewer().unwrap();
    engine
        .set(&mut viewer, String::from("a"), String::from("1"))
        .unwrap();
    engine
        .set(&mut viewer, String::from("b"), String::from("2"))
        .unwrap();
    let files = files_of(engine.catalog());
    let engine = NaiveKV::open(String::from("/tmp/basic"), files, 1 << 20, 8, 1).unwrap();
    let mut viewer = engine.catalog_viewer().unwrap();
    assert_eq!(engine.get(&mut viewer, "a").unwrap(), Some(String::from("1")));
    assert_eq!(engine.get(&mut viewer, "b").unwrap(), Some(String::from("2")));
    assert_eq!(engine.get(&mut viewer, "c").unwrap(), None);
}

#[test]
fn a_tombstone_hides_what_an_older_run_holds() {
    let mut engine = NaiveKV::open(String::from("data"), Vec::new(), 32, 8, 1).unwrap();
    let mut viewer = engine.catalog_viewer().unwrap();
    engine
        .set(&mut viewer, String::from("x"), String::from("old"))
        .unwrap();
    engine
        .set(&mut viewer, String::from("padding"), "p".repeat(400))
        .unwrap();
    // The first cycle writes "x" into generation 0.
    assert!(engine.compact().unwrap().is_some());
    assert_eq!(
        engine.catalog().sstables[0].get("x").unwrap(),
        Some(Record::Value(String::from("old")))
    );
    engine.remove(&mut viewer, String::from("x")).unwrap();
    engine
        .set(&mut viewer, String::from("filler"), "f".repeat(40))
        .unwrap();
    // The second cycle merges into generation 1: generation 0 is too large.
    assert!(engine.compact().unwrap().is_some());
    assert_eq!(engine.catalog().sstables.len(), 2);
    assert_eq!(engine.get(&mut viewer, "x").unwrap(), None);
    // The tombstone is kept in the run.
    assert_eq!(
        engine.catalog().sstables[1].get("x").unwrap(),
        Some(Record::Deleted)
    );
    // A tombstone of a key that no run holds is kept as well.
    engine.remove(&mut viewer, String::from("never set")).unwrap();
    engine
        .set(&mut viewer, String::from("filler2"), "f".repeat(40))
        .unwrap();
    assert!(engine.compact().unwrap().is_some());
    let holds_tombstone = engine
        .catalog()
        .sstables
        .iter()
        .any(|sstable| sstable.get("never set").unwrap() == Some(Record::Deleted));
    assert!(holds_tombstone);
    assert_eq!(engine.get(&mut viewer, "never set").unwrap(), None);
}

#[test]
fn the_younger_value_is_read() {
    let mut engine = NaiveKV::open(String::from("data"), Vec::new(), 32, 2, 1).unwrap();
    let mut viewer = engine.catalog_viewer().unwrap();
    engine
        .set(&mut viewer, String::from("k"), String::from("v1"))
        .unwrap();
    engine
        .set(&mut viewer, String::from("padding"), "p".repeat(60))
        .unwrap();
    assert!(engine.compact().unwrap().is_some());
    engine
        .set(&mut viewer, String::from("k"), String::from("v2"))
        .unwrap();
    engine
        .set(&mut viewer, String::from("padding"), "q".repeat(60))
        .unwrap();
    assert!(engine.compact().unwrap().is_some());
    assert_eq!(engine.catalog().sstables.len(), 2);
    assert_eq!(engine.catalog().sstables[0].file_size(), 4);
    assert_eq!(
        engine.get(&mut viewer, "k").unwrap(),
        Some(String::from("v2"))
    );
}

#[test]
fn many_writes_and_cycles_are_kept_over_a_reopening() {
    const MAX_NUMBER: usize = 4000;
    let mut engine = NaiveKV::open(String::from("/tmp/naive_kv"), Vec::new(), 1024, 8, 1).unwrap();
    let mut viewers = vec![
        engine.catalog_viewer().unwrap(),
        engine.catalog_viewer().unwrap(),
        engine.catalog_viewer().unwrap(),
    ];
    // Write the first values.
    for num in 0..MAX_NUMBER {
        let viewer = &mut viewers[num % 3];
        let num_str = num.to_string();
        engine.set(viewer, num_str.clone(), num_str.clone()).unwrap();
        assert_eq!(engine.get(viewer, &num_str).unwrap(), Some(num_str));
        if num % 50 == 0 {
            engine.compact().unwrap();
        }
    }
    // Overwrite them.
    for num in 0..MAX_NUMBER {
        let viewer = &mut viewers[num % 3];
        let num_str = num.to_string();
        let num_plus_one_str = (num + 1).to_string();
        engine
            .set(viewer, num_str.clone(), num_plus_one_str.clone())
            .unwrap();
        assert_eq!(engine.get(viewer, &num_str).unwrap(), Some(num_plus_one_str));
        if num % 50 == 0 {
            engine.compact().unwrap();
        }
    }
    assert!(engine.catalog().sstables.len() > 1);
    for (i, sstable) in engine.catalog().sstables.iter().enumerate() {
        assert_eq!(sstable.gen_no(), i);
    }
    // Reopen from the files.
    let files = files_of(engine.catalog());
    let engine = NaiveKV::open(String::from("/tmp/naive_kv"), files, 1024, 8, 1).unwrap();
    let mut viewer = engine.catalog_viewer().unwrap();
    for num in 0..MAX_NUMBER {
        let num_str = num.to_string();
        let num_plus_one_str = (num + 1).to_string();
        assert_eq!(
            engine.get(&mut viewer, &num_str).unwrap(),
            Some(num_plus_one_str)
        );
    }
    assert_eq!(engine.compaction_daemon_cycle_s(), 1);
}

#[test]
fn the_steps_of_a_cycle_leave_what_is_read_as_it_was() {
    let files = vec![
        run_file(&[("a", Some("0")), ("gone", Some("old"))], 0, "gen_0_1.sst"),
        run_file(&[("a", Some("1")), ("b", Some("1"))], 1, "gen_1_1.sst"),
    ];
    let mut catalog = Catalog::open(String::from("data"), files).unwrap();
    let mut viewer = CatalogViewer::new(&catalog).unwrap();
    viewer
        .set(&mut catalog, String::from("c"), String::from("memtable"))
        .unwrap();
    viewer.remove(&mut catalog, String::from("gone")).unwrap();
    let expected = [
        ("a", Some("0")),
        ("b", Some("1")),
        ("c", Some("memtable")),
        ("gone", None),
        ("never", None),
    ];
    let check = |viewer: &mut CatalogViewer, catalog: &Catalog| {
        for (key, value) in expected {
            assert_eq!(
                viewer.get(catalog, key).unwrap(),
                value.map(String::from)
            );
        }
    };
    check(&mut viewer, &catalog);
    let full_path = catalog.memtable.log_path().clone();

    // The first step: a new memtable takes the writes.
    let mut epoch_no = 0;
    let plan = freeze(&mut catalog, &mut epoch_no, 1, 1).unwrap().unwrap();
    assert_eq!(epoch_no, 1);
    assert_eq!(plan.epoch_no(), 1);
    // The limits are 1, 1, 1: every run is merged, into the generation behind them.
    assert_eq!(plan.gen_no(), 2);
    assert!(plan.sstable_path().starts_with("data/gen_2_"));
    assert_eq!(catalog.memtable.data_size(), 0);
    assert!(catalog.memtable.log_path() != &full_path);
    assert_eq!(catalog.ro_memtable.as_ref().unwrap().log_path(), &full_path);
    assert_eq!(catalog.sstables.len(), 2);
    check(&mut viewer, &catalog);

    // The second step reads the catalog, and writes go on meanwhile.
    let merged = merge(&catalog, &plan).unwrap();
    viewer
        .set(&mut catalog, String::from("late"), String::from("write"))
        .unwrap();
    assert_eq!(merged.gen_no(), 2);
    assert_eq!(merged.epoch_no(), 1);
    assert_eq!(merged.file_path(), plan.sstable_path());
    assert_eq!(merged.get("gone").unwrap(), Some(Record::Deleted));
    assert_eq!(merged.get("late").unwrap(), None);
    check(&mut viewer, &catalog);

    // The last step puts the new runs in their places.
    let retired = install(&mut catalog, plan, merged).unwrap();
    assert!(catalog.ro_memtable.is_none());
    assert_eq!(catalog.sstables.len(), 3);
    assert_eq!(catalog.sstables[0].file(), &vec![0, 0, 0, 0]);
    assert_eq!(catalog.sstables[1].file(), &vec![0, 0, 0, 1]);
    assert!(catalog.sstables[0].file_path().starts_with("data/gen_0_"));
    assert!(catalog.sstables[1].file_path().starts_with("data/gen_1_"));
    for sstable in &catalog.sstables {
        assert_eq!(sstable.epoch_no(), 1);
        assert!(!sstable.is_deprecated());
    }
    assert!(retired.memtable.is_deprecated());
    assert_eq!(retired.memtable.log_path(), &full_path);
    assert_eq!(retired.sstables.len(), 2);
    assert_eq!(retired.sstables[0].file_path(), "data/gen_0_1.sst");
    assert_eq!(retired.sstables[1].file_path(), "data/gen_1_1.sst");
    check(&mut viewer, &catalog);
    assert_eq!(
        viewer.get(&catalog, "late").unwrap(),
        Some(String::from("write"))
    );
    let mut fresh = CatalogViewer::new(&catalog).unwrap();
    check(&mut fresh, &catalog);
}

#[test]
fn the_engine_takes_the_steps_of_a_cycle() {
    let mut engine = NaiveKV::open(String::from("data"), Vec::new(), 4, 8, 1).unwrap();
    let mut viewer = engine.catalog_viewer().unwrap();
    assert!(engine.freeze().unwrap().is_none());
    engine
        .set(&mut viewer, String::from("key"), String::from("value"))
        .unwrap();
    let plan = engine.freeze().unwrap().unwrap();
    assert_eq!(engine.epoch_no(), 1);
    assert_eq!(plan.gen_no(), 0);
    let merged = engine.merge(&plan).unwrap();
    engine.remove(&mut viewer, String::from("key")).unwrap();
    let retired = engine.install(plan, merged).unwrap();
    assert!(retired.sstables.is_empty());
    assert_eq!(engine.catalog().sstables.len(), 1);
    assert_eq!(
        engine.catalog().sstables[0].get("key").unwrap(),
        Some(Record::Value(String::from("value")))
    );
    assert_eq!(engine.get(&mut viewer, "key").unwrap(), None);
}

#[test]
fn a_merge_of_a_copy_is_the_merge_of_the_catalog() {
    let files = vec![
        run_file(&[("a", Some("0")), ("gone", Some("old"))], 0, "gen_0_1.sst"),
        run_file(&[("a", Some("1")), ("b", Some("1"))], 1, "gen_1_1.sst"),
        run_file(&[("z", Some("2"))], 2, "gen_2_1.sst"),
    ];
    let mut catalog = Catalog::open(String::from("data"), files).unwrap();
    let mut viewer = CatalogViewer::new(&catalog).unwrap();
    viewer
        .set(&mut catalog, String::from("c"), String::from("memtable"))
        .unwrap();
    viewer.remove(&mut catalog, String::from("gone")).unwrap();
    // The limits are 40, 160: generation 1 is picked, and generation 2 is left alone.
    let mut epoch_no = 0;
    let plan = freeze(&mut catalog, &mut epoch_no, 10, 4).unwrap().unwrap();
    assert_eq!(plan.gen_no(), 1);
    let input = merge_input(&catalog, &plan).unwrap();
    // Writes go on while the copy is merged.
    viewer
        .set(&mut catalog, String::from("a"), String::from("late"))
        .unwrap();
    let merged = merge_copied(&input, &plan).unwrap();
    let direct = merge(&catalog, &plan).unwrap();
    assert_eq!(merged.file(), direct.file());
    assert_eq!(merged.file_path(), plan.sstable_path());
    assert_eq!(merged.gen_no(), 1);
    assert_eq!(merged.epoch_no(), 1);
    assert_eq!(
        merged.get("a").unwrap(),
        Some(Record::Value(String::from("0")))
    );
    assert_eq!(merged.get("gone").unwrap(), Some(Record::Deleted));
    assert_eq!(merged.get("z").unwrap(), None);
    install(&mut catalog, plan, merged).unwrap();
    for (key, value) in [
        ("a", Some("late")),
        ("b", Some("1")),
        ("c", Some("memtable")),
        ("gone", None),
        ("z", Some("2")),
    ] {
        assert_eq!(viewer.get(&catalog, key).unwrap(), value.map(String::from));
    }
}

#[test]
fn the_engine_applies_a_write_that_was_logged() {
    let mut engine = NaiveKV::open(String::from("data"), Vec::new(), 1024, 8, 1).unwrap();
    let mut viewer = engine.catalog_viewer().unwrap();
    let write = LoggedWrite::set(String::from("key"), String::from("value")).unwrap();
    let entry = write.entry().clone();
    engine.commit(&mut viewer, write);
    assert_eq!(engine.catalog().memtable.log(), &entry);
    assert_eq!(
        engine.get(&mut viewer, "key").unwrap(),
        Some(String::from("value"))
    );
    engine.commit(&mut viewer, LoggedWrite::remove(String::from("key")).unwrap());
    assert_eq!(engine.get(&mut viewer, "key").unwrap(), None);
    assert_eq!(engine.catalog().memtable.log().len(), entry.len() + 13);
    let plan = engine.freeze();
    assert!(plan.unwrap().is_none());
}
