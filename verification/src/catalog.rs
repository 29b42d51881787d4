//! The catalog: what a data folder holds, and the view of a client on it.
//!
//! A catalog has the memtable that takes the writes, for the time of a
//! compaction a second memtable that is only read, and the sorted runs,
//! the run of generation `i` at place `i`. A key is answered by the
//! youngest of them that holds it: the memtable first, then the memtable
//! that is only read, then the runs in the order of their generations.

use vstd::prelude::*;
use vstd::string::*;
use crate::command::{encodable, CommandType, CommandView};
use crate::layout::parse_image;
use crate::memtable::{
    remove_command, replay, set_command, LoggedWrite, Memtable, MemtableView,
};
use crate::names::{
    classify, file_kind, join_path, memtable_file_name, memtable_name, path_join, random_u64,
    sstable_file_name, sstable_name, FileKind,
};
use crate::run::{holds, lookup, youngest, EntryView};
use crate::sstable::SSTable;
use crate::types::{
    option_record_view, option_string_view, record_value, NaiveError, Record, RecordView,
};

verus! {

/// A file of the data folder: its name in the folder and its bytes.
pub struct DirFile {
    pub name: String,
    pub bytes: Vec<u8>,
}

/// The catalog of a data folder.
pub struct Catalog {
    /// The path of the data folder.
    pub folder_path: String,
    /// The data that is read and written.
    pub memtable: Memtable,
    /// What the memtable held when the compaction began that is under
    /// way; it is only read.
    pub ro_memtable: Option<Memtable>,
    /// The sorted runs, in the order of their generations.
    pub sstables: Vec<SSTable>,
}

/// Each run is sound and stands at the place of its generation.
pub open spec fn runs_in_place(sstables: Seq<SSTable>) -> bool {
    forall|i: int|
        0 <= i < sstables.len() ==> (#[trigger] sstables[i]).inv() && sstables[i].generation() == i
}

/// The entries of each run, in the order of the runs.
pub open spec fn run_rows(sstables: Seq<SSTable>) -> Seq<Seq<EntryView>> {
    Seq::new(sstables.len(), |i: int| sstables[i].entries())
}

/// The entries of the memtable that is only read, if there is one.
pub open spec fn frozen_rows(ro_memtable: Option<Memtable>) -> Seq<Seq<EntryView>> {
    match ro_memtable {
        Some(memtable) => seq![memtable.entries()],
        None => Seq::<Seq<EntryView>>::empty(),
    }
}

/// What a client is answered for a record: nothing where there is none,
/// and nothing for a tombstone.
pub open spec fn answer(record: Option<RecordView>) -> Option<Seq<char>> {
    match record {
        Some(record) => record_value(record),
        None => None,
    }
}

impl Catalog {
    /// The tables of the catalog are sound, and each run stands at the
    /// place of its generation.
    pub open spec fn wf(&self) -> bool {
        &&& self.memtable.inv()
        &&& self.ro_memtable matches Some(memtable) ==> memtable.inv()
        &&& runs_in_place(self.sstables@)
    }

    /// The rows that answer for a key, youngest first.
    pub open spec fn rows(&self) -> Seq<Seq<EntryView>> {
        seq![self.memtable.entries()] + frozen_rows(self.ro_memtable) + run_rows(self.sstables@)
    }

    /// The record that the catalog holds for `key`: that of the youngest
    /// table that holds the key.
    pub open spec fn record_of(&self, key: Seq<char>) -> Option<RecordView> {
        youngest(self.rows(), key)
    }

    /// The value that a client reads for `key`.
    pub open spec fn value_of(&self, key: Seq<char>) -> Option<Seq<char>> {
        answer(self.record_of(key))
    }
}

impl View for Catalog {
    type V = Map<Seq<char>, Seq<char>>;

    /// The catalog as a map from the keys that have a value to their
    /// values.
    open spec fn view(&self) -> Map<Seq<char>, Seq<char>> {
        Map::new(
            |key: Seq<char>| self.value_of(key) is Some,
            |key: Seq<char>| self.value_of(key)->Some_0,
        )
    }
}

/// The number of files of a kind.
pub open spec fn count_kind(files: Seq<DirFile>, kind: FileKind) -> nat
    decreases files.len(),
{
    if files.len() == 0 {
        0
    } else {
        count_kind(files.drop_first(), kind) + if file_kind(files[0].name@) == kind {
            1nat
        } else {
            0nat
        }
    }
}

/// The run was recovered from the file.
#[verifier::opaque]
pub open spec fn opened_from(table: SSTable, folder: Seq<char>, file: DirFile) -> bool {
    &&& file_kind(file.name@) == FileKind::SSTable
    &&& table.inv()
    &&& table.generation() <= u32::MAX
    &&& parse_image(file.bytes@) == Some((table.generation() as u32, table.groups()))
    &&& table.file_bytes() == file.bytes@
    &&& table.path() == path_join(folder, file.name@)
    &&& table.epoch() == 0
    &&& !table.deprecated()
}

/// One of the files is a run of generation `gen_no`.
pub open spec fn has_generation(files: Seq<DirFile>, gen_no: int) -> bool {
    exists|j: int|
        0 <= j < files.len() && file_kind((#[trigger] files[j]).name@) == FileKind::SSTable
            && parse_image(files[j].bytes@) is Some && parse_image(files[j].bytes@)->Some_0.0
            == gen_no
}

/// What a data folder must hold to be opened: each file that is named as
/// a run is one, there is at most one write-ahead log, and the runs have
/// the generations from 0 on, without a gap.
#[verifier::opaque]
pub open spec fn folder_is_sound(files: Seq<DirFile>) -> bool {
    &&& forall|j: int|
        0 <= j < files.len() && file_kind((#[trigger] files[j]).name@) == FileKind::SSTable
            ==> parse_image(files[j].bytes@) is Some
    &&& count_kind(files, FileKind::MemtableLog) <= 1
    &&& forall|i: int|
        0 <= i < count_kind(files, FileKind::SSTable) ==> #[trigger] has_generation(files, i)
}

/// One of the runs has the generation `gen_no`.
pub open spec fn generation_present(tables: Seq<SSTable>, gen_no: int) -> bool {
    exists|t: int| 0 <= t < tables.len() && (#[trigger] tables[t]).generation() == gen_no
}

/// `table` is one of the runs.
pub open spec fn one_of(tables: Seq<SSTable>, table: SSTable) -> bool {
    exists|t: int| 0 <= t < tables.len() && #[trigger] tables[t] == table
}

/// Puts the runs in the order of their generations. Runs whose
/// generations are not the numbers from 0 on, each once, are refused.
pub fn arrange_by_generation(tables: Vec<SSTable>) -> (r: Result<Vec<SSTable>, NaiveError>)
    ensures
        r is Ok <==> forall|i: int|
            0 <= i < tables@.len() ==> #[trigger] generation_present(tables@, i),
        match r {
            Ok(placed) => {
                &&& placed@.len() == tables@.len()
                &&& forall|i: int|
                    0 <= i < placed@.len() ==> (#[trigger] placed@[i]).generation() == i
                &&& forall|i: int| 0 <= i < placed@.len() ==> one_of(tables@, #[trigger] placed@[i])
            },
            Err(e) => e == NaiveError::InvalidData,
        },
{
    let n = tables.len();
    let ghost given = tables@;
    let mut rest = tables;
    let mut placed: Vec<SSTable> = Vec::new();
    let mut g: usize = 0;
    proof {
        assert forall|u: int| 0 <= u < n implies one_of(rest@, #[trigger] given[u]) by {
            assert(rest@[u] == given[u]);
        }
        assert forall|t: int| 0 <= t < n implies one_of(given, #[trigger] rest@[t]) by {
            assert(given[t] == rest@[t]);
        }
    }
    while g < n
        invariant
            given == tables@,
            n == given.len(),
            g <= n,
            placed@.len() == g,
            rest@.len() == n - g,
            forall|i: int| 0 <= i < g ==> (#[trigger] placed@[i]).generation() == i,
            forall|i: int| 0 <= i < g ==> one_of(given, #[trigger] placed@[i]),
            forall|t: int| 0 <= t < rest@.len() ==> one_of(given, #[trigger] rest@[t]),
            forall|u: int|
                0 <= u < n && (#[trigger] given[u]).generation() >= g ==> one_of(rest@, given[u]),
        decreases n - g,
    {
        let mut j: usize = 0;
        while j < rest.len() && rest[j].gen_no() != g
            invariant
                j <= rest@.len(),
                forall|t: int| 0 <= t < j ==> (#[trigger] rest@[t]).generation() != g,
            decreases rest@.len() - j,
        {
            j += 1;
        }
        if j == rest.len() {
            proof {
                // No run has the generation `g`.
                assert(!generation_present(given, g as int)) by {
                    assert forall|t: int| 0 <= t < n implies (#[trigger] given[t]).generation()
                        != g by {
                        if given[t].generation() == g {
                            assert(one_of(rest@, given[t]));
                            let at = choose|at: int|
                                0 <= at < rest@.len() && #[trigger] rest@[at] == given[t];
                            assert(rest@[at].generation() != g);
                        }
                    }
                }
            }
            return Err(NaiveError::InvalidData);
        }
        let ghost before = rest@;
        let table = rest.swap_remove(j);
        proof {
            assert(one_of(given, before[j as int]));
            assert forall|t: int| 0 <= t < rest@.len() implies one_of(given, #[trigger] rest@[t]) by {
                if t == j {
                    assert(rest@[t] == before[before.len() - 1]);
                } else {
                    assert(rest@[t] == before[t]);
                }
            }
            assert forall|u: int|
                0 <= u < n && (#[trigger] given[u]).generation() >= g + 1 implies one_of(
                rest@,
                given[u],
            ) by {
                assert(one_of(before, given[u]));
                let at = choose|at: int| 0 <= at < before.len() && #[trigger] before[at] == given[u];
                assert(at != j);
                if at == before.len() - 1 {
                    assert(rest@[j as int] == given[u]);
                } else {
                    assert(rest@[at] == given[u]);
                }
            }
        }
        placed.push(table);
        g += 1;
    }
    proof {
        assert forall|i: int| 0 <= i < n implies #[trigger] generation_present(given, i) by {
            assert(one_of(given, placed@[i]));
            let t = choose|t: int| 0 <= t < n && #[trigger] given[t] == placed@[i];
            assert(given[t].generation() == i);
        }
    }
    Ok(placed)
}

/// One of the runs was recovered from the file.
spec fn run_of_file(tables: Seq<SSTable>, folder: Seq<char>, file: DirFile) -> bool {
    exists|t: int| 0 <= t < tables.len() && opened_from(#[trigger] tables[t], folder, file)
}

/// The run was recovered from one of the files from place `from` on.
pub open spec fn file_of_run(
    files: Seq<DirFile>,
    from: int,
    folder: Seq<char>,
    table: SSTable,
) -> bool {
    exists|j: int| from <= j < files.len() && opened_from(table, folder, #[trigger] files[j])
}

/// The file is one of the logs that were found.
spec fn log_kept(logs: Seq<DirFile>, file: DirFile) -> bool {
    exists|t: int| 0 <= t < logs.len() && #[trigger] logs[t] == file
}

/// The log is one of the files from place `from` on, and named as a log.
spec fn file_of_log(files: Seq<DirFile>, from: int, log: DirFile) -> bool {
    exists|j: int|
        from <= j < files.len() && #[trigger] files[j] == log && file_kind(files[j].name@)
            == FileKind::MemtableLog
}

/// What a scan has found in the files from place `from` on: the runs
/// that the files named as runs hold, and the files named as logs.
#[verifier::opaque]
spec fn scanned(
    files: Seq<DirFile>,
    from: int,
    folder: Seq<char>,
    tables: Seq<SSTable>,
    logs: Seq<DirFile>,
) -> bool {
    &&& tables.len() == count_kind(files.skip(from), FileKind::SSTable)
    &&& logs.len() == count_kind(files.skip(from), FileKind::MemtableLog)
    &&& forall|t: int|
        0 <= t < tables.len() ==> file_of_run(files, from, folder, #[trigger] tables[t])
    &&& forall|j: int|
        from <= j < files.len() && file_kind((#[trigger] files[j]).name@) == FileKind::SSTable
            ==> run_of_file(tables, folder, files[j])
    &&& forall|t: int| 0 <= t < logs.len() ==> file_of_log(files, from, #[trigger] logs[t])
    &&& forall|j: int|
        from <= j < files.len() && file_kind((#[trigger] files[j]).name@)
            == FileKind::MemtableLog ==> log_kept(logs, files[j])
}

/// The files from a place on are one more of a kind than the files
/// behind that place if the file at the place is of the kind.
proof fn lemma_count_step(files: Seq<DirFile>, from: int, kind: FileKind)
    requires
        0 < from <= files.len(),
    ensures
        count_kind(files.skip(from - 1), kind) == count_kind(files.skip(from), kind) + if file_kind(
            files[from - 1].name@,
        ) == kind {
            1nat
        } else {
            0nat
        },
{
    assert(files.skip(from - 1).drop_first() =~= files.skip(from));
    assert(files.skip(from - 1)[0] == files[from - 1]);
}

/// What a step of a scan does to what it has found: a run is added for a
/// file that is named as a run, and a file that is named as a log is kept.
spec fn scan_moves(
    file: DirFile,
    folder: Seq<char>,
    tables: Seq<SSTable>,
    logs: Seq<DirFile>,
    tables2: Seq<SSTable>,
    logs2: Seq<DirFile>,
) -> bool {
    match file_kind(file.name@) {
        FileKind::SSTable => logs2 == logs && tables2 == tables.push(tables2.last())
            && tables2.len() == tables.len() + 1 && opened_from(tables2.last(), folder, file),
        FileKind::MemtableLog => tables2 == tables && logs2 == logs.push(file),
        FileKind::Other => tables2 == tables && logs2 == logs,
    }
}

proof fn lemma_scan_runs(
    files: Seq<DirFile>,
    from: int,
    folder: Seq<char>,
    tables: Seq<SSTable>,
    tables2: Seq<SSTable>,
)
    requires
        0 < from <= files.len(),
        forall|t: int|
            0 <= t < tables.len() ==> file_of_run(files, from, folder, #[trigger] tables[t]),
        tables2 == tables || (tables2 == tables.push(tables2.last()) && tables2.len()
            == tables.len() + 1 && opened_from(tables2.last(), folder, files[from - 1])),
    ensures
        forall|t: int|
            0 <= t < tables2.len() ==> file_of_run(files, from - 1, folder, #[trigger] tables2[t]),
{
    assert forall|t: int| 0 <= t < tables2.len() implies file_of_run(
        files,
        from - 1,
        folder,
        #[trigger] tables2[t],
    ) by {
        if t < tables.len() {
            assert(tables2[t] == tables[t]);
            assert(file_of_run(files, from, folder, tables[t]));
            let j = choose|j: int|
                from <= j < files.len() && opened_from(tables[t], folder, #[trigger] files[j]);
            assert(opened_from(tables2[t], folder, files[j]));
        } else {
            assert(opened_from(tables2[t], folder, files[from - 1]));
        }
    }
}

proof fn lemma_scan_files(
    files: Seq<DirFile>,
    from: int,
    folder: Seq<char>,
    tables: Seq<SSTable>,
    tables2: Seq<SSTable>,
)
    requires
        0 < from <= files.len(),
        forall|j: int|
            from <= j < files.len() && file_kind((#[trigger] files[j]).name@) == FileKind::SSTable
                ==> run_of_file(tables, folder, files[j]),
        file_kind(files[from - 1].name@) != FileKind::SSTable ==> tables2 == tables,
        file_kind(files[from - 1].name@) == FileKind::SSTable ==> tables2 == tables.push(
            tables2.last(),
        ) && tables2.len() == tables.len() + 1 && opened_from(
            tables2.last(),
            folder,
            files[from - 1],
        ),
    ensures
        forall|j: int|
            from - 1 <= j < files.len() && file_kind((#[trigger] files[j]).name@)
                == FileKind::SSTable ==> run_of_file(tables2, folder, files[j]),
{
    assert forall|j: int|
        from - 1 <= j < files.len() && file_kind((#[trigger] files[j]).name@)
            == FileKind::SSTable implies run_of_file(tables2, folder, files[j]) by {
        if j >= from {
            assert(run_of_file(tables, folder, files[j]));
            let t = choose|t: int|
                0 <= t < tables.len() && opened_from(#[trigger] tables[t], folder, files[j]);
            assert(tables2[t] == tables[t]);
            assert(opened_from(tables2[t], folder, files[j]));
        } else {
            assert(opened_from(tables2[tables2.len() - 1], folder, files[j]));
        }
    }
}

proof fn lemma_scan_logs(files: Seq<DirFile>, from: int, logs: Seq<DirFile>, logs2: Seq<DirFile>)
    requires
        0 < from <= files.len(),
        forall|t: int| 0 <= t < logs.len() ==> file_of_log(files, from, #[trigger] logs[t]),
        forall|j: int|
            from <= j < files.len() && file_kind((#[trigger] files[j]).name@)
                == FileKind::MemtableLog ==> log_kept(logs, files[j]),
        file_kind(files[from - 1].name@) != FileKind::MemtableLog ==> logs2 == logs,
        file_kind(files[from - 1].name@) == FileKind::MemtableLog ==> logs2 == logs.push(
            files[from - 1],
        ),
    ensures
        forall|t: int| 0 <= t < logs2.len() ==> file_of_log(files, from - 1, #[trigger] logs2[t]),
        forall|j: int|
            from - 1 <= j < files.len() && file_kind((#[trigger] files[j]).name@)
                == FileKind::MemtableLog ==> log_kept(logs2, files[j]),
{
    assert forall|t: int| 0 <= t < logs2.len() implies file_of_log(
        files,
        from - 1,
        #[trigger] logs2[t],
    ) by {
        if t < logs.len() {
            assert(logs2[t] == logs[t]);
            assert(file_of_log(files, from, logs[t]));
            let j = choose|j: int|
                from <= j < files.len() && #[trigger] files[j] == logs[t] && file_kind(
                    files[j].name@,
                ) == FileKind::MemtableLog;
            assert(files[j] == logs2[t]);
        } else {
            assert(files[from - 1] == logs2[t]);
        }
    }
    assert forall|j: int|
        from - 1 <= j < files.len() && file_kind((#[trigger] files[j]).name@)
            == FileKind::MemtableLog implies log_kept(logs2, files[j]) by {
        if j >= from {
            assert(log_kept(logs, files[j]));
            let t = choose|t: int| 0 <= t < logs.len() && #[trigger] logs[t] == files[j];
            assert(logs2[t] == files[j]);
        } else {
            assert(logs2[logs2.len() - 1] == files[j]);
        }
    }
}

/// A scan that has found nothing has found all there is behind the last
/// file.
proof fn lemma_scan_start(files: Seq<DirFile>, folder: Seq<char>)
    ensures
        scanned(
            files,
            files.len() as int,
            folder,
            Seq::<SSTable>::empty(),
            Seq::<DirFile>::empty(),
        ),
{
    reveal(scanned);
    assert(files.skip(files.len() as int) =~= Seq::<DirFile>::empty());
}

/// A scan that has found all there is from place `from` on has, with the
/// file before that place, found all there is from that file on.
proof fn lemma_scan_step(
    files: Seq<DirFile>,
    from: int,
    folder: Seq<char>,
    tables: Seq<SSTable>,
    logs: Seq<DirFile>,
    tables2: Seq<SSTable>,
    logs2: Seq<DirFile>,
)
    requires
        0 < from <= files.len(),
        scanned(files, from, folder, tables, logs),
        scan_moves(files[from - 1], folder, tables, logs, tables2, logs2),
    ensures
        scanned(files, from - 1, folder, tables2, logs2),
{
    reveal(scanned);
    lemma_count_step(files, from, FileKind::SSTable);
    lemma_count_step(files, from, FileKind::MemtableLog);
    lemma_scan_runs(files, from, folder, tables, tables2);
    lemma_scan_files(files, from, folder, tables, tables2);
    lemma_scan_logs(files, from, logs, logs2);
}

/// Reads the files of a folder: each file that is named as a run is
/// recovered, and each file that is named as a log is kept. A file that
/// is named as a run and is none is refused.
fn scan_folder(folder_path: &str, files: Vec<DirFile>) -> (r: Result<
    (Vec<SSTable>, Vec<DirFile>),
    NaiveError,
>)
    ensures
        match r {
            Ok(found) => scanned(files@, 0, folder_path@, found.0@, found.1@),
            Err(e) => {
                &&& e == NaiveError::InvalidData
                &&& exists|j: int|
                    0 <= j < files@.len() && file_kind((#[trigger] files@[j]).name@)
                        == FileKind::SSTable && parse_image(files@[j].bytes@) is None
            },
        },
{
    let ghost given = files@;
    let mut left = files;
    let mut sstables: Vec<SSTable> = Vec::new();
    let mut logs: Vec<DirFile> = Vec::new();
    proof {
        lemma_scan_start(given, folder_path@);
        assert(left@ =~= given.take(left@.len() as int));
    }
    while left.len() > 0
        invariant
            given == files@,
            left@.len() <= given.len(),
            left@ == given.take(left@.len() as int),
            scanned(given, left@.len() as int, folder_path@, sstables@, logs@),
        decreases left@.len(),
    {
        let ghost from = left@.len() as int;
        let ghost tables_before = sstables@;
        let ghost logs_before = logs@;
        let file = match left.pop() {
            Some(file) => file,
            None => {
                return Err(NaiveError::Unknown);
            },
        };
        assert(file == given[from - 1]);
        assert(left@ =~= given.take(from - 1));
        match classify(file.name.as_str()) {
            FileKind::SSTable => {
                let path = join_path(folder_path, file.name.as_str());
                match SSTable::open(path, file.bytes) {
                    Ok(sstable) => {
                        proof {
                            sstable.lemma_inv();
                            reveal(opened_from);
                            assert(opened_from(sstable, folder_path@, given[from - 1]));
                        }
                        sstables.push(sstable);
                        assert(sstables@ =~= tables_before.push(sstables@.last()));
                    },
                    Err(e) => {
                        proof {
                            assert(file_kind(given[from - 1].name@) == FileKind::SSTable
                                && parse_image(given[from - 1].bytes@) is None);
                        }
                        return Err(e);
                    },
                }
            },
            FileKind::MemtableLog => {
                logs.push(file);
            },
            FileKind::Other => {},
        }
        proof {
            lemma_scan_step(
                given,
                from,
                folder_path@,
                tables_before,
                logs_before,
                sstables@,
                logs@,
            );
        }
    }
    proof {
        assert(left@.len() == 0);
    }
    Ok((sstables, logs))
}

/// The runs that a scan has found have the generations that the files
/// have which are named as runs, and each such file is a run.
#[verifier::rlimit(40)]
proof fn lemma_generations_agree(
    files: Seq<DirFile>,
    folder: Seq<char>,
    tables: Seq<SSTable>,
    logs: Seq<DirFile>,
)
    requires
        scanned(files, 0, folder, tables, logs),
    ensures
        tables.len() == count_kind(files, FileKind::SSTable),
        logs.len() == count_kind(files, FileKind::MemtableLog),
        forall|i: int|
            0 <= i < tables.len() ==> (#[trigger] generation_present(tables, i)
                <==> has_generation(files, i)),
        forall|i: int|
            0 <= i < tables.len() ==> (generation_present(tables, i)
                <==> #[trigger] has_generation(files, i)),
        forall|j: int|
            0 <= j < files.len() && file_kind((#[trigger] files[j]).name@) == FileKind::SSTable
                ==> parse_image(files[j].bytes@) is Some,
{
    reveal(opened_from);
    reveal(scanned);
    assert(files.skip(0) =~= files);
    assert forall|i: int| 0 <= i < tables.len() implies (generation_present(tables, i)
        <==> has_generation(files, i)) by {
        if generation_present(tables, i) {
            let t = choose|t: int| 0 <= t < tables.len() && (#[trigger] tables[t]).generation() == i;
            assert(file_of_run(files, 0, folder, tables[t]));
            let j = choose|j: int|
                0 <= j < files.len() && opened_from(tables[t], folder, #[trigger] files[j]);
            assert(parse_image(files[j].bytes@)->Some_0.0 == i);
        }
        if has_generation(files, i) {
            let j = choose|j: int|
                0 <= j < files.len() && file_kind((#[trigger] files[j]).name@) == FileKind::SSTable
                    && parse_image(files[j].bytes@) is Some && parse_image(
                    files[j].bytes@,
                )->Some_0.0 == i;
            assert(run_of_file(tables, folder, files[j]));
            let t = choose|t: int|
                0 <= t < tables.len() && opened_from(#[trigger] tables[t], folder, files[j]);
            assert(tables[t].generation() == i);
        }
    }
    assert forall|j: int|
        0 <= j < files.len() && file_kind((#[trigger] files[j]).name@)
            == FileKind::SSTable implies parse_image(files[j].bytes@) is Some by {
        assert(run_of_file(tables, folder, files[j]));
        let t = choose|t: int|
            0 <= t < tables.len() && opened_from(#[trigger] tables[t], folder, files[j]);
    }
}

/// A generation that no run has is a gap in the folder.
proof fn lemma_gap_is_unsound(files: Seq<DirFile>, tables: Seq<SSTable>)
    requires
        tables.len() == count_kind(files, FileKind::SSTable),
        forall|i: int|
            0 <= i < tables.len() ==> (#[trigger] generation_present(tables, i)
                <==> has_generation(files, i)),
        !(forall|i: int| 0 <= i < tables.len() ==> #[trigger] generation_present(tables, i)),
    ensures
        !folder_is_sound(files),
{
    reveal(folder_is_sound);
    let i = choose|i: int| 0 <= i < tables.len() && !#[trigger] generation_present(tables, i);
    assert(!has_generation(files, i));
}

/// A folder whose runs are runs, which has at most one log and no gap
/// among its generations, is sound.
proof fn lemma_sound(files: Seq<DirFile>, tables: Seq<SSTable>)
    requires
        tables.len() == count_kind(files, FileKind::SSTable),
        count_kind(files, FileKind::MemtableLog) <= 1,
        forall|i: int|
            0 <= i < tables.len() ==> (#[trigger] generation_present(tables, i)
                <==> has_generation(files, i)),
        forall|i: int| 0 <= i < tables.len() ==> #[trigger] generation_present(tables, i),
        forall|j: int|
            0 <= j < files.len() && file_kind((#[trigger] files[j]).name@) == FileKind::SSTable
                ==> parse_image(files[j].bytes@) is Some,
    ensures
        folder_is_sound(files),
{
    reveal(folder_is_sound);
    assert forall|i: int| 0 <= i < count_kind(files, FileKind::SSTable) implies #[trigger] has_generation(
        files,
        i,
    ) by {
        assert(generation_present(tables, i));
    }
}

/// The memtable that was recovered from the log that the scan kept is
/// that of the one log of the folder.
proof fn lemma_memtable_recovered(
    files: Seq<DirFile>,
    folder: Seq<char>,
    tables: Seq<SSTable>,
    logs: Seq<DirFile>,
    memtable: Memtable,
)
    requires
        scanned(files, 0, folder, tables, logs),
        logs.len() == 1,
        replay(MemtableView::empty(), logs[0].bytes@) == Ok::<MemtableView, NaiveError>(memtable@),
        memtable.log_bytes() == logs[0].bytes@,
        memtable.path() == path_join(folder, logs[0].name@),
    ensures
        memtable_from(memtable, folder, files),
{
    reveal(memtable_from);
    reveal(scanned);
    assert(files.skip(0) =~= files);
    assert(file_of_log(files, 0, logs[0]));
}

/// The log that the scan kept and that does not replay is the one log of
/// the folder.
proof fn lemma_log_fails(
    files: Seq<DirFile>,
    folder: Seq<char>,
    tables: Seq<SSTable>,
    logs: Seq<DirFile>,
    e: NaiveError,
)
    requires
        scanned(files, 0, folder, tables, logs),
        logs.len() == 1,
        replay(MemtableView::empty(), logs[0].bytes@) == Err::<MemtableView, NaiveError>(e),
    ensures
        log_fails(files, e),
{
    reveal(log_fails);
    reveal(scanned);
    assert(file_of_log(files, 0, logs[0]));
}

/// Runs that were put in the order of their generations are still the
/// runs of the files.
proof fn lemma_runs_placed(
    files: Seq<DirFile>,
    folder: Seq<char>,
    tables: Seq<SSTable>,
    logs: Seq<DirFile>,
    placed: Seq<SSTable>,
)
    requires
        scanned(files, 0, folder, tables, logs),
        forall|i: int| 0 <= i < placed.len() ==> (#[trigger] placed[i]).generation() == i,
        forall|i: int| 0 <= i < placed.len() ==> one_of(tables, #[trigger] placed[i]),
    ensures
        runs_in_place(placed),
        forall|i: int|
            0 <= i < placed.len() ==> file_of_run(files, 0, folder, #[trigger] placed[i]),
{
    reveal(opened_from);
    reveal(scanned);
    assert forall|i: int| 0 <= i < placed.len() implies (#[trigger] placed[i]).inv()
        && file_of_run(files, 0, folder, placed[i]) by {
        assert(one_of(tables, placed[i]));
        let t = choose|t: int| 0 <= t < tables.len() && #[trigger] tables[t] == placed[i];
        assert(file_of_run(files, 0, folder, tables[t]));
        let j = choose|j: int|
            0 <= j < files.len() && opened_from(tables[t], folder, #[trigger] files[j]);
    }
}

/// The memtable was recovered from the one log of the folder, or is a
/// new one where the folder has no log.
#[verifier::opaque]
pub open spec fn memtable_from(memtable: Memtable, folder: Seq<char>, files: Seq<DirFile>) -> bool {
    if count_kind(files, FileKind::MemtableLog) == 0 {
        &&& memtable@ == MemtableView::empty()
        &&& memtable.log_bytes() == Seq::<u8>::empty()
        &&& exists|suffix: u64| memtable.path() == path_join(folder, #[trigger] memtable_name(suffix))
    } else {
        exists|j: int|
            0 <= j < files.len() && file_kind((#[trigger] files[j]).name@)
                == FileKind::MemtableLog && replay(MemtableView::empty(), files[j].bytes@) == Ok::<
                MemtableView,
                NaiveError,
            >(memtable@) && memtable.log_bytes() == files[j].bytes@ && memtable.path() == path_join(
                folder,
                files[j].name@,
            )
    }
}

/// The log of the folder does not replay.
#[verifier::opaque]
pub open spec fn log_fails(files: Seq<DirFile>, e: NaiveError) -> bool {
    exists|j: int|
        0 <= j < files.len() && file_kind((#[trigger] files[j]).name@) == FileKind::MemtableLog
            && replay(MemtableView::empty(), files[j].bytes@) == Err::<MemtableView, NaiveError>(e)
}

/// What opening a folder gives. A folder that is not sound is refused as
/// invalid. Of a sound folder the catalog has the runs, each at the place
/// of its generation, and the memtable of the log; if the log does not
/// replay, the error of the replay is returned.
pub open spec fn opens_as(
    files: Seq<DirFile>,
    folder: Seq<char>,
    r: Result<Catalog, NaiveError>,
) -> bool {
    if !folder_is_sound(files) {
        r matches Err(e) && e == NaiveError::InvalidData
    } else {
        match r {
            Ok(catalog) => {
                &&& catalog.wf()
                &&& catalog.folder_path@ == folder
                &&& catalog.ro_memtable is None
                &&& !catalog.memtable.deprecated()
                &&& catalog.sstables@.len() == count_kind(files, FileKind::SSTable)
                &&& forall|i: int|
                    0 <= i < catalog.sstables@.len() ==> file_of_run(
                        files,
                        0,
                        folder,
                        #[trigger] catalog.sstables@[i],
                    )
                &&& memtable_from(catalog.memtable, folder, files)
            },
            Err(e) => log_fails(files, e),
        }
    }
}

impl Catalog {
    /// Opens the catalog of a data folder from the files that the folder
    /// holds. Files that are named neither as a run nor as a log are
    /// passed over. More than one log, a file that is named as a run and
    /// is none, and runs whose generations are not the numbers from 0 on,
    /// each once, are refused; so is a log that does not replay. Where
    /// the folder has no log, the memtable gets a new one.
    pub fn open(folder_path: String, files: Vec<DirFile>) -> (r: Result<Catalog, NaiveError>)
        ensures
            opens_as(files@, folder_path@, r),
    {
        let (sstables, mut logs) = match scan_folder(folder_path.as_str(), files) {
            Ok(found) => found,
            Err(e) => {
                proof {
                    reveal(folder_is_sound);
                }
                return Err(e);
            },
        };
        let ghost tables = sstables@;
        let ghost kept = logs@;
        proof {
            lemma_generations_agree(files@, folder_path@, tables, kept);
        }
        if logs.len() > 1 {
            proof {
                reveal(folder_is_sound);
            }
            return Err(NaiveError::InvalidData);
        }
        let sstables = match arrange_by_generation(sstables) {
            Ok(sstables) => sstables,
            Err(e) => {
                proof {
                    lemma_gap_is_unsound(files@, tables);
                }
                return Err(e);
            },
        };
        proof {
            lemma_sound(files@, tables);
            lemma_runs_placed(files@, folder_path@, tables, kept, sstables@);
        }
        // If no log is found, the memtable gets a new one.
        let memtable = match logs.pop() {
            Some(log) => {
                let ghost file = log;
                proof {
                    assert(log == kept[0]);
                }
                let path = join_path(folder_path.as_str(), log.name.as_str());
                match Memtable::open(path, log.bytes) {
                    Ok(memtable) => {
                        proof {
                            lemma_memtable_recovered(
                                files@,
                                folder_path@,
                                tables,
                                kept,
                                memtable,
                            );
                        }
                        memtable
                    },
                    Err(e) => {
                        proof {
                            lemma_log_fails(files@, folder_path@, tables, kept, e);
                        }
                        return Err(e);
                    },
                }
            },
            None => {
                let path = Self::gen_memtable_path(&folder_path);
                match Memtable::open(path, Vec::new()) {
                    Ok(memtable) => {
                        proof {
                            reveal(memtable_from);
                        }
                        memtable
                    },
                    Err(e) => {
                        return Err(e);
                    },
                }
            },
        };
        Ok(Catalog { folder_path, memtable, ro_memtable: None, sstables })
    }

    /// The path of a new write-ahead log in the folder: its name holds a
    /// number drawn at random.
    pub fn gen_memtable_path(folder_path: &String) -> (path: String)
        ensures
            exists|suffix: u64| path@ == path_join(folder_path@, #[trigger] memtable_name(suffix)),
    {
        let suffix = random_u64();
        let name = memtable_file_name(suffix);
        let path = join_path(folder_path.as_str(), name.as_str());
        assert(path@ == path_join(folder_path@, memtable_name(suffix)));
        path
    }

    /// The path of a new run of generation `gen_no` in the folder: its
    /// name holds a number drawn at random.
    pub fn gen_sstable_path(folder_path: &String, gen_no: usize) -> (path: String)
        ensures
            exists|suffix: u64|
                path@ == path_join(folder_path@, #[trigger] sstable_name(gen_no, suffix)),
    {
        let suffix = random_u64();
        let name = sstable_file_name(gen_no, suffix);
        let path = join_path(folder_path.as_str(), name.as_str());
        assert(path@ == path_join(folder_path@, sstable_name(gen_no, suffix)));
        path
    }
}

/// The number of rows that are read until one holds `key`: the rows up
/// to the youngest that holds the key, or all of them.
pub open spec fn runs_reached(rows: Seq<Seq<EntryView>>, key: Seq<char>) -> nat
    decreases rows.len(),
{
    if rows.len() == 0 {
        0
    } else if holds(rows[0], key) {
        1
    } else {
        1 + runs_reached(rows.drop_first(), key)
    }
}

/// The number of runs that a reader consults for `key`: none where a
/// memtable answers, else the runs up to the youngest that holds `key`.
pub open spec fn runs_consulted(catalog: Catalog, key: Seq<char>) -> nat {
    if holds(catalog.memtable.entries(), key) || youngest(frozen_rows(catalog.ro_memtable), key)
        is Some {
        0
    } else {
        runs_reached(run_rows(catalog.sstables@), key)
    }
}

/// Consults the memtables of a catalog for `key`: the memtable that takes
/// the writes, then the one that is only read.
fn get_from_memtables(catalog: &Catalog, key: &str) -> (r: Result<Option<Record>, NaiveError>)
    requires
        catalog.wf(),
    ensures
        r matches Ok(found) && match found {
            Some(record) => {
                &&& catalog.record_of(key@) == Some(record@)
                &&& runs_consulted(*catalog, key@) == 0
            },
            None => {
                &&& catalog.record_of(key@) == youngest(run_rows(catalog.sstables@), key@)
                &&& runs_consulted(*catalog, key@) == runs_reached(
                    run_rows(catalog.sstables@),
                    key@,
                )
            },
        },
{
    let ghost rows = catalog.rows();
    let ghost runs = run_rows(catalog.sstables@);
    let ghost frozen = frozen_rows(catalog.ro_memtable);
    proof {
        catalog.memtable.lemma_inv();
        assert(rows[0] == catalog.memtable.entries());
        assert(rows.drop_first() =~= frozen + runs);
    }
    // Step 1. Try to read the memtable.
    match catalog.memtable.get(key) {
        Err(e) => {
            return Err(e);
        },
        Ok(Some(record)) => {
            return Ok(Some(record));
        },
        Ok(None) => {},
    }
    // Step 2. Try to read the memtable that is only read, if it exists.
    match &catalog.ro_memtable {
        Some(memtable) => {
            proof {
                memtable.lemma_inv();
                assert(frozen[0] == memtable.entries());
                assert((frozen + runs)[0] == memtable.entries());
                assert((frozen + runs).drop_first() =~= runs);
                assert(frozen.drop_first() =~= Seq::<Seq<EntryView>>::empty());
            }
            proof {
                assert(youngest(frozen.drop_first(), key@) is None);
                assert(youngest(frozen, key@) == if holds(memtable.entries(), key@) {
                    lookup(memtable.entries(), key@)
                } else {
                    None
                });
                assert(youngest(frozen + runs, key@) == if holds(memtable.entries(), key@) {
                    lookup(memtable.entries(), key@)
                } else {
                    youngest(runs, key@)
                });
            }
            match memtable.get(key) {
                Err(e) => Err(e),
                Ok(found) => Ok(found),
            }
        },
        None => {
            proof {
                assert(frozen + runs =~= runs);
                assert(youngest(frozen, key@) is None);
            }
            Ok(None)
        },
    }
}

/// What a row holds for a key is what answers for the key in the rows
/// from that row on, if the row holds the key; else the rows behind it
/// answer.
pub proof fn lemma_youngest_unfold(rows: Seq<Seq<EntryView>>, at: int, key: Seq<char>)
    requires
        0 <= at < rows.len(),
    ensures
        youngest(rows.skip(at), key) == if holds(rows[at], key) {
            lookup(rows[at], key)
        } else {
            youngest(rows.skip(at + 1), key)
        },
        runs_reached(rows.skip(at), key) == if holds(rows[at], key) {
            1nat
        } else {
            1 + runs_reached(rows.skip(at + 1), key)
        },
{
    assert(rows.skip(at)[0] == rows[at]);
    assert(rows.skip(at).drop_first() =~= rows.skip(at + 1));
}

/// What a write makes of a catalog. A command that can be logged is
/// logged and put into the memtable, and answers for its key from then
/// on; one that is too large is refused, and the memtable and its log
/// stay as they were. The runs, the memtable that is only read and the
/// folder are the same before and after.
pub open spec fn write_outcome(
    before: Catalog,
    after: Catalog,
    command: CommandView,
    r: Result<(), NaiveError>,
) -> bool {
    &&& after.folder_path == before.folder_path
    &&& after.ro_memtable == before.ro_memtable
    &&& after.sstables == before.sstables
    &&& after.memtable.path() == before.memtable.path()
    &&& after.memtable.deprecated() == before.memtable.deprecated()
    &&& if encodable(command) {
        &&& r is Ok
        &&& after.memtable@ == before.memtable@.put(
            command.key,
            crate::types::command_record(command)->Some_0,
        )
        &&& after.memtable.log_bytes() == before.memtable.log_bytes() + crate::utils::message(
            command,
        )
        &&& after.record_of(command.key) == crate::types::command_record(command)
    } else {
        &&& r matches Err(e) && e == NaiveError::ProtobufError
        &&& after.memtable@ == before.memtable@
        &&& after.memtable.entries() == before.memtable.entries()
        &&& after.memtable.log_bytes() == before.memtable.log_bytes()
    }
}

/// What a store holds after a command: the value of a command that
/// sets, and nothing for the key of one that removes.
pub open spec fn store_with(
    store: Map<Seq<char>, Seq<char>>,
    command: CommandView,
) -> Map<Seq<char>, Seq<char>> {
    match crate::types::command_record(command) {
        Some(RecordView::Value(value)) => store.insert(command.key, value),
        _ => store.remove(command.key),
    }
}

/// The view of one client on a catalog: a handle on each run that the
/// client has consulted.
pub struct CatalogViewer {
    /// The handles, that on the run of generation `i` at place `i`.
    sstable_views: Vec<crate::sstable::SSTableView>,
}

impl CatalogViewer {
    /// The epochs of the handles.
    pub closed spec fn epochs(&self) -> Seq<nat> {
        Seq::new(self.sstable_views@.len(), |i: int| self.sstable_views@[i].epoch())
    }

    /// A view with a handle on each run of the catalog.
    pub fn new(catalog: &Catalog) -> (r: Result<CatalogViewer, NaiveError>)
        ensures
            r matches Ok(viewer) && viewer.epochs() == Seq::new(
                catalog.sstables@.len(),
                |i: int| catalog.sstables@[i].epoch(),
            ),
    {
        let mut sstable_views: Vec<crate::sstable::SSTableView> = Vec::new();
        let mut i: usize = 0;
        while i < catalog.sstables.len()
            invariant
                i <= catalog.sstables@.len(),
                sstable_views@.len() == i,
                forall|j: int|
                    0 <= j < i ==> (#[trigger] sstable_views@[j]).epoch()
                        == catalog.sstables@[j].epoch(),
            decreases catalog.sstables@.len() - i,
        {
            match crate::sstable::SSTableView::new(&catalog.sstables[i]) {
                Ok(view) => {
                    sstable_views.push(view);
                },
                Err(e) => {
                    return Err(e);
                },
            }
            i += 1;
        }
        let viewer = CatalogViewer { sstable_views };
        assert(viewer.epochs() =~= Seq::new(
            catalog.sstables@.len(),
            |i: int| catalog.sstables@[i].epoch(),
        ));
        Ok(viewer)
    }

    /// Reads the value of `key`: that of the youngest table that holds
    /// the key, and nothing where that table holds a tombstone or no
    /// table holds the key. The handle on each run that is consulted is
    /// made anew where the run has another epoch than the handle.
    pub fn get(&mut self, catalog: &Catalog, key: &str) -> (r: Result<Option<String>, NaiveError>)
        requires
            catalog.wf(),
        ensures
            r matches Ok(value) && option_string_view(value) == catalog.value_of(key@)
                && option_string_view(value) == catalog@.get(key@),
            final(self).epochs().len() >= runs_consulted(*catalog, key@),
            final(self).epochs().len() >= old(self).epochs().len(),
            forall|i: int|
                0 <= i < runs_consulted(*catalog, key@) ==> #[trigger] final(self).epochs()[i]
                    == catalog.sstables@[i].epoch(),
            forall|i: int|
                runs_consulted(*catalog, key@) <= i < old(self).epochs().len()
                    ==> #[trigger] final(self).epochs()[i] == old(self).epochs()[i],
    {
        // Steps 1 and 2. Try to read the memtables.
        match get_from_memtables(catalog, key) {
            Err(e) => {
                return Err(e);
            },
            Ok(Some(record)) => {
                return Ok(record.into_value());
            },
            Ok(None) => {},
        }
        // Step 3. Try to read the runs in sequence.
        match self.get_from_runs(catalog, key) {
            Err(e) => Err(e),
            Ok(Some(record)) => Ok(record.into_value()),
            Ok(None) => Ok(None),
        }
    }

    /// Consults the runs for `key`, youngest first, up to the first that
    /// holds the key.
    fn get_from_runs(&mut self, catalog: &Catalog, key: &str) -> (r: Result<
        Option<Record>,
        NaiveError,
    >)
        requires
            catalog.wf(),
        ensures
            r matches Ok(found) && option_record_view(found) == youngest(
                run_rows(catalog.sstables@),
                key@,
            ),
            ({
                let consulted = runs_reached(run_rows(catalog.sstables@), key@);
                &&& final(self).epochs().len() >= consulted
                &&& final(self).epochs().len() >= old(self).epochs().len()
                &&& forall|i: int|
                    0 <= i < consulted ==> #[trigger] final(self).epochs()[i]
                        == catalog.sstables@[i].epoch()
                &&& forall|i: int|
                    consulted <= i < old(self).epochs().len() ==> #[trigger] final(self).epochs()[i]
                        == old(self).epochs()[i]
            }),
    {
        let ghost runs = run_rows(catalog.sstables@);
        let mut gen_no: usize = 0;
        proof {
            assert(runs.skip(0) =~= runs);
        }
        while gen_no < catalog.sstables.len()
            invariant
                catalog.wf(),
                runs == run_rows(catalog.sstables@),
                gen_no <= catalog.sstables@.len(),
                youngest(runs, key@) == youngest(runs.skip(gen_no as int), key@),
                runs_reached(runs, key@) == gen_no + runs_reached(runs.skip(gen_no as int), key@),
                self.sstable_views@.len() >= gen_no,
                self.sstable_views@.len() >= old(self).sstable_views@.len(),
                forall|i: int|
                    0 <= i < gen_no ==> (#[trigger] self.sstable_views@[i]).epoch()
                        == catalog.sstables@[i].epoch(),
                forall|i: int|
                    gen_no <= i < old(self).sstable_views@.len() ==> #[trigger] self.sstable_views@[i]
                        == old(self).sstable_views@[i],
            decreases catalog.sstables@.len() - gen_no,
        {
            let sstable = &catalog.sstables[gen_no];
            proof {
                lemma_youngest_unfold(runs, gen_no as int, key@);
            }
            // The handles are brought up to date on demand.
            if self.sstable_views.len() == gen_no {
                match crate::sstable::SSTableView::new(sstable) {
                    Ok(view) => {
                        self.sstable_views.push(view);
                    },
                    Err(e) => {
                        return Err(e);
                    },
                }
            } else if self.sstable_views[gen_no].epoch_no() != sstable.epoch_no() {
                match crate::sstable::SSTableView::new(sstable) {
                    Ok(view) => {
                        self.sstable_views.set(gen_no, view);
                    },
                    Err(e) => {
                        return Err(e);
                    },
                }
            }
            match self.sstable_views[gen_no].get(sstable, key) {
                Err(e) => {
                    return Err(e);
                },
                Ok(Some(record)) => {
                    return Ok(Some(record));
                },
                Ok(None) => {},
            }
            gen_no += 1;
        }
        proof {
            assert(runs.skip(gen_no as int) =~= Seq::<Seq<EntryView>>::empty());
        }
        Ok(None)
    }

    /// Applies a write that the caller has logged to the memtable of the
    /// catalog.
    pub fn commit(&mut self, catalog: &mut Catalog, write: LoggedWrite)
        requires
            old(catalog).wf(),
            write.inv(),
        ensures
            final(catalog).wf(),
            final(self).epochs() == old(self).epochs(),
            write_outcome(
                *old(catalog),
                *final(catalog),
                write.command(),
                Ok::<(), NaiveError>(()),
            ),
            final(catalog).memtable.log_bytes() == old(catalog).memtable.log_bytes()
                + write.entry_bytes(),
            final(catalog)@ == store_with(old(catalog)@, write.command()),
    {
        let ghost before = *catalog;
        let ghost command = write.command();
        proof {
            write.lemma_inv();
        }
        catalog.memtable.commit(write);
        proof {
            let record = crate::types::command_record(command)->Some_0;
            lemma_put(before, *catalog, command.key, record);
            assert(catalog@ =~= store_with(before@, command));
        }
    }

    /// Sets `key` to `value` in the memtable of the catalog: the write is
    /// logged, then applied. A pair that is too large to be logged is
    /// refused, and nothing changes.
    pub fn set(&mut self, catalog: &mut Catalog, key: String, value: String) -> (r: Result<
        (),
        NaiveError,
    >)
        requires
            old(catalog).wf(),
        ensures
            final(catalog).wf(),
            final(self).epochs() == old(self).epochs(),
            write_outcome(*old(catalog), *final(catalog), set_command(key@, value@), r),
            encodable(set_command(key@, value@)) ==> final(catalog)@ == old(catalog)@.insert(
                key@,
                value@,
            ),
            !encodable(set_command(key@, value@)) ==> final(catalog)@ == old(catalog)@,
    {
        let ghost before = *catalog;
        let r = catalog.memtable.set(key, value);
        proof {
            if r is Ok {
                lemma_put(before, *catalog, key@, RecordView::Value(value@));
                assert(catalog@ =~= before@.insert(key@, value@));
            } else {
                lemma_same_rows(before, *catalog);
                assert(catalog@ =~= before@);
            }
        }
        r
    }

    /// Removes `key`: a tombstone is logged and put into the memtable of
    /// the catalog, which hides what older tables hold for the key. A key
    /// that is too large to be logged is refused, and nothing changes.
    pub fn remove(&mut self, catalog: &mut Catalog, key: String) -> (r: Result<(), NaiveError>)
        requires
            old(catalog).wf(),
        ensures
            final(catalog).wf(),
            final(self).epochs() == old(self).epochs(),
            write_outcome(*old(catalog), *final(catalog), remove_command(key@), r),
            encodable(remove_command(key@)) ==> final(catalog)@ == old(catalog)@.remove(key@),
            !encodable(remove_command(key@)) ==> final(catalog)@ == old(catalog)@,
    {
        let ghost before = *catalog;
        let r = catalog.memtable.remove(key);
        proof {
            if r is Ok {
                lemma_put(before, *catalog, key@, RecordView::Deleted);
                assert(catalog@ =~= before@.remove(key@));
            } else {
                lemma_same_rows(before, *catalog);
                assert(catalog@ =~= before@);
            }
        }
        r
    }
}

/// A write to the memtable of a catalog answers for its key from then
/// on, and leaves the other keys as they were.
pub proof fn lemma_put(before: Catalog, after: Catalog, key: Seq<char>, record: RecordView)
    requires
        before.memtable.inv(),
        after.memtable.inv(),
        after.memtable@ == before.memtable@.put(key, record),
        after.ro_memtable == before.ro_memtable,
        after.sstables == before.sstables,
    ensures
        forall|k: Seq<char>|
            #[trigger] after.record_of(k) == if k == key {
                Some(record)
            } else {
                before.record_of(k)
            },
{
    before.memtable.lemma_inv();
    after.memtable.lemma_inv();
    let older = frozen_rows(before.ro_memtable) + run_rows(before.sstables@);
    assert(before.rows().drop_first() =~= older);
    assert(after.rows().drop_first() =~= older);
    assert forall|k: Seq<char>|
        #[trigger] after.record_of(k) == if k == key {
            Some(record)
        } else {
            before.record_of(k)
        } by {
        assert(after.memtable@.get(k) == lookup(after.memtable.entries(), k));
        assert(before.memtable@.get(k) == lookup(before.memtable.entries(), k));
    }
}

/// Catalogs whose tables hold the same entries answer alike.
pub proof fn lemma_same_rows(before: Catalog, after: Catalog)
    requires
        after.memtable.entries() == before.memtable.entries(),
        after.ro_memtable == before.ro_memtable,
        after.sstables == before.sstables,
    ensures
        forall|k: Seq<char>| #[trigger] after.record_of(k) == before.record_of(k),
{
    assert(after.rows() =~= before.rows());
}

/// A write of a client.
pub enum Op {
    Put(Seq<char>, Seq<char>),
    Delete(Seq<char>),
}

/// The key that a write is about.
pub open spec fn op_key(op: Op) -> Seq<char> {
    match op {
        Op::Put(key, _) => key,
        Op::Delete(key) => key,
    }
}

/// What a store holds after a write.
pub open spec fn apply_op(store: Map<Seq<char>, Seq<char>>, op: Op) -> Map<Seq<char>, Seq<char>> {
    match op {
        Op::Put(key, value) => store.insert(key, value),
        Op::Delete(key) => store.remove(key),
    }
}

/// What a store holds after a row of writes, one after the other.
pub open spec fn apply_ops(store: Map<Seq<char>, Seq<char>>, ops: Seq<Op>) -> Map<
    Seq<char>,
    Seq<char>,
>
    decreases ops.len(),
{
    if ops.len() == 0 {
        store
    } else {
        apply_op(apply_ops(store, ops.drop_last()), ops.last())
    }
}

/// The last of the writes that is about `key`.
pub open spec fn last_write(ops: Seq<Op>, key: Seq<char>) -> Option<Op>
    decreases ops.len(),
{
    if ops.len() == 0 {
        None
    } else if op_key(ops.last()) == key {
        Some(ops.last())
    } else {
        last_write(ops.drop_last(), key)
    }
}

/// After a row of writes a key reads as its last write left it, and as
/// it read before where no write was about it.
pub proof fn lemma_last_write_wins(store: Map<Seq<char>, Seq<char>>, ops: Seq<Op>, key: Seq<char>)
    ensures
        apply_ops(store, ops).get(key) == match last_write(ops, key) {
            Some(Op::Put(_, value)) => Some(value),
            Some(Op::Delete(_)) => None,
            None => store.get(key),
        },
    decreases ops.len(),
{
    if ops.len() > 0 {
        lemma_last_write_wins(store, ops.drop_last(), key);
    }
}

/// A key that was removed reads as absent after any row of writes none
/// of which sets it.
pub proof fn lemma_removed_until_set(
    store: Map<Seq<char>, Seq<char>>,
    key: Seq<char>,
    ops: Seq<Op>,
)
    requires
        forall|i: int| 0 <= i < ops.len() ==> !(#[trigger] ops[i] matches Op::Put(k, _) && k == key),
    ensures
        apply_ops(store.remove(key), ops).get(key) is None,
    decreases ops.len(),
{
    if ops.len() > 0 {
        assert forall|i: int| 0 <= i < ops.drop_last().len() implies !(
        #[trigger] ops.drop_last()[i] matches Op::Put(k, _) && k == key) by {
            assert(ops.drop_last()[i] == ops[i]);
        }
        lemma_removed_until_set(store, key, ops.drop_last());
        assert(!(ops[ops.len() - 1] matches Op::Put(k, _) && k == key));
    }
}

/// Rows that hold the same for a key, place by place, answer alike for
/// the key.
pub proof fn lemma_youngest_of_like_rows(
    rows: Seq<Seq<EntryView>>,
    others: Seq<Seq<EntryView>>,
    key: Seq<char>,
)
    requires
        rows.len() == others.len(),
        forall|i: int|
            0 <= i < rows.len() ==> lookup(#[trigger] rows[i], key) == lookup(others[i], key),
    ensures
        youngest(rows, key) == youngest(others, key),
    decreases rows.len(),
{
    if rows.len() > 0 {
        assert(lookup(rows[0], key) == lookup(others[0], key));
        assert forall|i: int| 0 <= i < rows.drop_first().len() implies lookup(
            #[trigger] rows.drop_first()[i],
            key,
        ) == lookup(others.drop_first()[i], key) by {
            assert(rows.drop_first()[i] == rows[i + 1]);
            assert(lookup(rows[i + 1], key) == lookup(others[i + 1], key));
        }
        lemma_youngest_of_like_rows(rows.drop_first(), others.drop_first(), key);
    }
}

/// The file has the bytes of the file of one of the runs.
pub open spec fn file_is_of(runs: Seq<SSTable>, file: DirFile) -> bool {
    exists|i: int| 0 <= i < runs.len() && (#[trigger] runs[i]).file_bytes() == file.bytes@
}

/// One of the files is named as a run and has the bytes of the file of
/// the run.
pub open spec fn run_is_held(files: Seq<DirFile>, table: SSTable) -> bool {
    exists|j: int|
        0 <= j < files.len() && file_kind((#[trigger] files[j]).name@) == FileKind::SSTable
            && files[j].bytes@ == table.file_bytes()
}

/// The files hold the catalog: one log with the bytes of the log of the
/// memtable, and for each run one file with the bytes of its file, and
/// no other file that is named as a run or as a log.
pub open spec fn holds_catalog(files: Seq<DirFile>, catalog: Catalog) -> bool {
    &&& count_kind(files, FileKind::SSTable) == catalog.sstables@.len()
    &&& count_kind(files, FileKind::MemtableLog) == 1
    &&& forall|j: int|
        0 <= j < files.len() && file_kind((#[trigger] files[j]).name@) == FileKind::SSTable
            ==> file_is_of(catalog.sstables@, files[j])
    &&& forall|i: int|
        0 <= i < catalog.sstables@.len() ==> run_is_held(files, #[trigger] catalog.sstables@[i])
    &&& forall|j: int|
        0 <= j < files.len() && file_kind((#[trigger] files[j]).name@) == FileKind::MemtableLog
            ==> files[j].bytes@ == catalog.memtable.log_bytes()
}

/// The file spells the run of a generation of the catalog.
spec fn spells_run_of(runs: Seq<SSTable>, file: DirFile) -> bool {
    exists|i: int|
        0 <= i < runs.len() && parse_image(file.bytes@) == Some(
            (i as u32, (#[trigger] runs[i]).groups()),
        )
}

/// Each run that stands at the place of its generation is read back from
/// its file with that generation.
proof fn lemma_runs_read_back(runs: Seq<SSTable>)
    requires
        runs_in_place(runs),
    ensures
        runs.len() <= u32::MAX + 1,
        forall|i: int|
            0 <= i < runs.len() ==> parse_image((#[trigger] runs[i]).file_bytes()) == Some(
                (i as u32, runs[i].groups()),
            ),
{
    assert forall|i: int| 0 <= i < runs.len() implies parse_image(
        (#[trigger] runs[i]).file_bytes(),
    ) == Some((i as u32, runs[i].groups())) && i <= u32::MAX by {
        runs[i].lemma_reads_back();
        runs[i].lemma_inv();
    }
    if runs.len() > 0 {
        assert(runs[runs.len() - 1].generation() == runs.len() - 1);
        runs[runs.len() - 1].lemma_inv();
    }
}

/// A file with the bytes of one of the runs spells that run.
proof fn lemma_file_spells_run(runs: Seq<SSTable>, file: DirFile)
    requires
        runs_in_place(runs),
        file_is_of(runs, file),
    ensures
        spells_run_of(runs, file),
        parse_image(file.bytes@) is Some,
{
    lemma_runs_read_back(runs);
    let i = choose|i: int| 0 <= i < runs.len() && (#[trigger] runs[i]).file_bytes() == file.bytes@;
    assert(parse_image(runs[i].file_bytes()) == Some((i as u32, runs[i].groups())));
}

/// The files that hold a sound catalog have a run of each generation.
proof fn lemma_held_generation(runs: Seq<SSTable>, files: Seq<DirFile>, i: int)
    requires
        runs_in_place(runs),
        0 <= i < runs.len(),
        run_is_held(files, runs[i]),
    ensures
        has_generation(files, i),
{
    lemma_runs_read_back(runs);
    let j = choose|j: int|
        0 <= j < files.len() && file_kind((#[trigger] files[j]).name@) == FileKind::SSTable
            && files[j].bytes@ == runs[i].file_bytes();
    assert(parse_image(runs[i].file_bytes()) == Some((i as u32, runs[i].groups())));
    assert(parse_image(files[j].bytes@)->Some_0.0 == i);
}

/// The files that hold a sound catalog are a sound folder, and their log
/// replays.
proof fn lemma_holding_folder_is_sound(before: Catalog, files: Seq<DirFile>)
    requires
        before.wf(),
        holds_catalog(files, before),
    ensures
        folder_is_sound(files),
        forall|e: NaiveError| !log_fails(files, e),
{
    reveal(folder_is_sound);
    reveal(log_fails);
    let runs = before.sstables@;
    before.memtable.lemma_inv();
    assert forall|j: int|
        0 <= j < files.len() && file_kind((#[trigger] files[j]).name@)
            == FileKind::SSTable implies parse_image(files[j].bytes@) is Some by {
        lemma_file_spells_run(runs, files[j]);
    }
    assert forall|i: int| 0 <= i < count_kind(files, FileKind::SSTable) implies #[trigger] has_generation(
        files,
        i,
    ) by {
        assert(run_is_held(files, runs[i]));
        lemma_held_generation(runs, files, i);
    }
    assert forall|e: NaiveError| !log_fails(files, e) by {
        if log_fails(files, e) {
            let j = choose|j: int|
                0 <= j < files.len() && file_kind((#[trigger] files[j]).name@)
                    == FileKind::MemtableLog && replay(MemtableView::empty(), files[j].bytes@)
                    == Err::<MemtableView, NaiveError>(e);
            assert(files[j].bytes@ == before.memtable.log_bytes());
        }
    }
}

/// The memtable that is recovered from the files that hold a catalog is
/// the memtable of the catalog.
proof fn lemma_reopened_memtable(
    before: Catalog,
    files: Seq<DirFile>,
    folder: Seq<char>,
    memtable: Memtable,
)
    requires
        before.memtable.inv(),
        holds_catalog(files, before),
        memtable_from(memtable, folder, files),
    ensures
        memtable@ == before.memtable@,
{
    reveal(memtable_from);
    before.memtable.lemma_inv();
    let j = choose|j: int|
        0 <= j < files.len() && file_kind((#[trigger] files[j]).name@) == FileKind::MemtableLog
            && replay(MemtableView::empty(), files[j].bytes@) == Ok::<MemtableView, NaiveError>(
            memtable@,
        ) && memtable.log_bytes() == files[j].bytes@ && memtable.path() == path_join(
            folder,
            files[j].name@,
        );
    assert(files[j].bytes@ == before.memtable.log_bytes());
}

/// The run of a generation that is recovered from the files that hold a
/// catalog has the entries of the run of that generation in the catalog.
proof fn lemma_reopened_run(
    before: Catalog,
    files: Seq<DirFile>,
    folder: Seq<char>,
    table: SSTable,
    i: int,
)
    requires
        before.wf(),
        holds_catalog(files, before),
        0 <= i < before.sstables@.len(),
        table.generation() == i,
        file_of_run(files, 0, folder, table),
    ensures
        table.entries() == before.sstables@[i].entries(),
{
    let runs = before.sstables@;
    let j = choose|j: int|
        0 <= j < files.len() && opened_from(table, folder, #[trigger] files[j]);
    assert(file_kind(files[j].name@) == FileKind::SSTable && parse_image(files[j].bytes@) == Some(
        (table.generation() as u32, table.groups()),
    )) by {
        reveal(opened_from);
    }
    assert(file_is_of(runs, files[j]));
    lemma_file_spells_run(runs, files[j]);
    lemma_runs_read_back(runs);
    let at = choose|at: int|
        0 <= at < runs.len() && parse_image(files[j].bytes@) == Some(
            (at as u32, (#[trigger] runs[at]).groups()),
        );
    assert(at as u32 == i as u32);
    assert(at == i);
    assert(table.groups() == runs[i].groups());
}

/// A catalog that is opened from the files that hold a catalog answers as
/// that catalog did: what was set and removed is kept over a close and a
/// reopening.
pub proof fn lemma_reopen(
    before: Catalog,
    files: Seq<DirFile>,
    folder: Seq<char>,
    r: Result<Catalog, NaiveError>,
)
    requires
        before.wf(),
        before.ro_memtable is None,
        holds_catalog(files, before),
        opens_as(files, folder, r),
    ensures
        r is Ok,
        forall|key: Seq<char>| #[trigger] r->Ok_0.record_of(key) == before.record_of(key),
        r->Ok_0@ == before@,
{
    lemma_holding_folder_is_sound(before, files);
    let after = r->Ok_0;
    let runs = before.sstables@;
    lemma_reopened_memtable(before, files, folder, after.memtable);
    before.memtable.lemma_inv();
    after.memtable.lemma_inv();
    assert forall|i: int| 0 <= i < runs.len() implies (#[trigger] after.sstables@[i]).entries()
        == runs[i].entries() by {
        lemma_reopened_run(before, files, folder, after.sstables@[i], i);
    }
    assert forall|key: Seq<char>| #[trigger] after.record_of(key) == before.record_of(key) by {
        assert(after.rows().len() == before.rows().len());
        assert forall|i: int| 0 <= i < after.rows().len() implies lookup(
            #[trigger] after.rows()[i],
            key,
        ) == lookup(before.rows()[i], key) by {
            if i == 0 {
                assert(after.memtable@.get(key) == lookup(after.memtable.entries(), key));
                assert(before.memtable@.get(key) == lookup(before.memtable.entries(), key));
            } else {
                assert(after.rows()[i] == after.sstables@[i - 1].entries());
                assert(before.rows()[i] == runs[i - 1].entries());
            }
        }
        lemma_youngest_of_like_rows(after.rows(), before.rows(), key);
    }
    assert(after@ =~= before@);
}

} // verus!
