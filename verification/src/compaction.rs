//! Compaction: the cycle that turns a full memtable into a sorted run.
//!
//! A cycle begins once the memtable is accounted with at least a
//! threshold. It puts a new memtable in the place of the full one, picks
//! the generation that the full memtable is merged into, writes the run
//! of that generation from the full memtable and the runs up to it, and
//! puts runs without entries in the places of the younger generations.
//! What a reader is answered for a key is the same before and after.

use vstd::prelude::*;
use vstd::slice::slice_subrange;
use vstd::string::*;
use crate::catalog::{run_rows, runs_in_place, Catalog};
use crate::memtable::{Memtable, MemtableView};
use crate::names::{memtable_name, path_join, sstable_name};
use crate::merge::{lemma_youngest_concat, lemma_youngest_none};
use crate::run::{holds, lookup, youngest, EntryView};
use crate::sstable::{merge_rows, SSTable};
use crate::types::NaiveError;

verus! {

/// The generation that a memtable is merged into. The runs are added one
/// by one, from generation 0 on, to what is to be merged; the first
/// generation at which the bytes gathered so far stay below the limit of
/// the generation is picked, and the generation behind the last run where
/// there is none. The limit of generation 0 is `limit`, and that of each
/// further generation is `ratio` times that of the one before.
pub open spec fn target_from(
    accumulated: nat,
    limit: nat,
    ratio: nat,
    sizes: Seq<nat>,
    at: nat,
) -> nat
    decreases sizes.len() - at,
{
    if at >= sizes.len() {
        at
    } else if accumulated + sizes[at as int] < limit {
        at
    } else {
        target_from(accumulated + sizes[at as int], limit * ratio, ratio, sizes, at + 1)
    }
}

/// The generation that a memtable of `frozen_size` accounted bytes is
/// merged into, where the runs have `sizes` bytes.
pub open spec fn target_generation(
    frozen_size: nat,
    sizes: Seq<nat>,
    threshold: nat,
    ratio: nat,
) -> nat {
    target_from(frozen_size, threshold * ratio, ratio, sizes, 0)
}

/// The sizes of the files of the runs.
pub open spec fn file_sizes(sstables: Seq<SSTable>) -> Seq<nat> {
    Seq::new(sstables.len(), |i: int| sstables[i].file_bytes().len())
}

proof fn lemma_sum_fits(count: int, accumulated: int, size: int)
    by (nonlinear_arith)
    requires
        0 <= count < 0x1_0000_0000_0000_0000,
        0 <= accumulated <= count * 0xffff_ffff_ffff_ffff,
        0 <= size <= 0xffff_ffff_ffff_ffff,
    ensures
        accumulated + size <= (count + 1) * 0xffff_ffff_ffff_ffff,
        (count + 1) * 0xffff_ffff_ffff_ffff <= 0xffff_ffff_ffff_ffff_ffff_ffff_ffff_ffff,
{
}

proof fn lemma_product_fits(a: int, b: int)
    by (nonlinear_arith)
    requires
        0 <= a <= 0xffff_ffff_ffff_ffff,
        0 <= b <= 0xffff_ffff_ffff_ffff,
    ensures
        0 <= a * b <= 0xffff_ffff_ffff_ffff_ffff_ffff_ffff_ffff,
{
}

/// Picks the generation that a memtable of `frozen_size` accounted bytes
/// is merged into.
pub fn choose_generation(
    frozen_size: usize,
    sstables: &Vec<SSTable>,
    threshold: usize,
    ratio: usize,
) -> (gen_no: usize)
    requires
        forall|i: int| 0 <= i < sstables@.len() ==> (#[trigger] sstables@[i]).inv(),
    ensures
        gen_no == target_generation(
            frozen_size as nat,
            file_sizes(sstables@),
            threshold as nat,
            ratio as nat,
        ),
        gen_no <= sstables@.len(),
{
    let ghost sizes = file_sizes(sstables@);
    let count = sstables.len();
    let mut accumulated: u128 = frozen_size as u128;
    proof {
        lemma_product_fits(threshold as int, ratio as int);
    }
    // A limit that 128 bits cannot hold is above any size.
    let mut limit: Option<u128> = Some((threshold as u128) * (ratio as u128));
    let ghost mut true_limit: nat = (threshold * ratio) as nat;
    let mut at: usize = 0;
    while at < count
        invariant
            count == sstables@.len(),
            sizes == file_sizes(sstables@),
            forall|i: int| 0 <= i < sstables@.len() ==> (#[trigger] sstables@[i]).inv(),
            at <= count,
            accumulated <= (at + 1) * 0xffff_ffff_ffff_ffff,
            match limit {
                Some(limit) => limit == true_limit,
                None => true_limit > u128::MAX,
            },
            target_generation(frozen_size as nat, sizes, threshold as nat, ratio as nat)
                == target_from(accumulated as nat, true_limit, ratio as nat, sizes, at as nat),
        decreases count - at,
    {
        let size = sstables[at].file_size() as u128;
        proof {
            lemma_sum_fits(at + 1, accumulated as int, size as int);
        }
        accumulated = accumulated + size;
        let below = match limit {
            Some(limit) => accumulated < limit,
            None => true,
        };
        if below {
            return at;
        }
        limit =
        match limit {
            Some(limit) => limit.checked_mul(ratio as u128),
            None => None,
        };
        proof {
            true_limit = true_limit * (ratio as nat);
        }
        at += 1;
    }
    at
}

/// What a compaction cycle has taken out of the catalog: the memtable
/// that was merged and the runs that were replaced, each marked for the
/// removal of its file.
pub struct Retired {
    pub memtable: Memtable,
    pub sstables: Vec<SSTable>,
}

/// The run has a new file in the folder, named for its generation.
pub open spec fn new_run_in(table: SSTable, folder: Seq<char>) -> bool {
    &&& !table.deprecated()
    &&& exists|suffix: u64|
        table.path() == path_join(
            folder,
            #[trigger] sstable_name(table.generation() as usize, suffix),
        )
}

/// The memtable has a new log in the folder, and has logged nothing yet.
pub open spec fn new_memtable_in(memtable: Memtable, folder: Seq<char>) -> bool {
    &&& memtable@ == MemtableView::empty()
    &&& memtable.log_bytes() == Seq::<u8>::empty()
    &&& !memtable.deprecated()
    &&& exists|suffix: u64| memtable.path() == path_join(folder, #[trigger] memtable_name(suffix))
}

/// The runs after a cycle that merged into generation `gen_no`: runs
/// without entries before the generation, the merged run at it, and the
/// older runs as they were. The runs up to the generation are new in the
/// folder and carry the epoch of the cycle.
pub open spec fn runs_replaced(
    before: Seq<SSTable>,
    after: Seq<SSTable>,
    gen_no: int,
    epoch_no: nat,
    folder: Seq<char>,
) -> bool {
    &&& 0 <= gen_no <= before.len()
    &&& after.len() == if gen_no == before.len() {
        before.len() + 1
    } else {
        before.len()
    }
    &&& forall|i: int|
        0 <= i < gen_no ==> (#[trigger] after[i]).entries() == Seq::<EntryView>::empty()
    &&& forall|i: int|
        0 <= i <= gen_no ==> (#[trigger] after[i]).epoch() == epoch_no && new_run_in(
            after[i],
            folder,
        )
    &&& forall|i: int| gen_no < i < before.len() ==> #[trigger] after[i] == before[i]
}

/// The number of runs that a cycle merges: those up to the generation
/// that it merges into.
pub open spec fn merged_count(runs: int, gen_no: int) -> int {
    if gen_no < runs {
        gen_no + 1
    } else {
        runs
    }
}

/// Rows without entries answer for no key.
pub proof fn lemma_youngest_of_empty_rows(rows: Seq<Seq<EntryView>>, key: Seq<char>)
    requires
        forall|i: int| 0 <= i < rows.len() ==> (#[trigger] rows[i]).len() == 0,
    ensures
        youngest(rows, key) is None,
{
    assert forall|i: int| 0 <= i < rows.len() implies !holds(#[trigger] rows[i], key) by {}
    lemma_youngest_none(rows, key);
}

/// A cycle leaves what answers for a key as it was: the merged run
/// answers as the memtable and the runs that it was merged from did, the
/// runs without entries answer for nothing, and the older runs are as
/// they were.
pub proof fn lemma_cycle_keeps_answers(
    memtable: Seq<EntryView>,
    runs: Seq<Seq<EntryView>>,
    gen_no: int,
    merged: Seq<EntryView>,
    after: Seq<Seq<EntryView>>,
    key: Seq<char>,
)
    requires
        0 <= gen_no <= runs.len(),
        lookup(merged, key) == youngest(
            seq![memtable] + runs.take(merged_count(runs.len() as int, gen_no)),
            key,
        ),
        after.len() == if gen_no == runs.len() {
            runs.len() + 1
        } else {
            runs.len()
        },
        forall|i: int| 0 <= i < gen_no ==> (#[trigger] after[i]).len() == 0,
        after[gen_no] == merged,
        forall|i: int| gen_no < i < runs.len() ==> #[trigger] after[i] == runs[i],
    ensures
        youngest(seq![Seq::<EntryView>::empty()] + after, key) == youngest(
            seq![memtable] + runs,
            key,
        ),
{
    let count = merged_count(runs.len() as int, gen_no);
    let front = seq![memtable] + runs.take(count);
    let tail = runs.skip(count);
    assert(seq![memtable] + runs =~= front + tail);
    lemma_youngest_concat(front, tail, key);
    let empties = seq![Seq::<EntryView>::empty()] + after.take(gen_no);
    let rest = after.skip(gen_no);
    assert(seq![Seq::<EntryView>::empty()] + after =~= empties + rest);
    lemma_youngest_concat(empties, rest, key);
    lemma_youngest_of_empty_rows(empties, key);
    assert(rest[0] == merged);
    assert(rest.drop_first() =~= tail);
}

/// The run was taken out of the catalog as `table` stood in it, and
/// marked for the removal of its file.
pub open spec fn retired_from(retired: SSTable, table: SSTable) -> bool {
    &&& retired.deprecated()
    &&& retired.path() == table.path()
    &&& retired.file_bytes() == table.file_bytes()
    &&& retired.groups() == table.groups()
    &&& retired.generation() == table.generation()
}

/// Puts `table` in the place `at` and returns the run that stood there.
fn replace_run(sstables: &mut Vec<SSTable>, at: usize, table: SSTable) -> (displaced: SSTable)
    requires
        at < old(sstables)@.len(),
    ensures
        displaced == old(sstables)@[at as int],
        final(sstables)@ == old(sstables)@.update(at as int, table),
{
    sstables.push(table);
    let displaced = sstables.swap_remove(at);
    assert(sstables@ =~= old(sstables)@.update(at as int, table));
    displaced
}

/// A run that was made at a new path of its generation is new in the
/// folder.
proof fn lemma_new_run(table: SSTable, folder: Seq<char>, gen_no: usize, path: Seq<char>)
    requires
        table.generation() == gen_no,
        table.path() == path,
        !table.deprecated(),
        exists|suffix: u64| path == path_join(folder, #[trigger] sstable_name(gen_no, suffix)),
    ensures
        new_run_in(table, folder),
{
    let suffix = choose|suffix: u64| path == path_join(folder, #[trigger] sstable_name(gen_no, suffix));
    assert(table.generation() as usize == gen_no);
    assert(table.path() == path_join(
        folder,
        sstable_name(table.generation() as usize, suffix),
    ));
}

/// The run has no entries, carries the epoch and is new in the folder.
spec fn emptied(table: SSTable, epoch_no: u64, folder: Seq<char>) -> bool {
    &&& table.entries() == Seq::<EntryView>::empty()
    &&& table.epoch() == epoch_no
    &&& new_run_in(table, folder)
}

/// Puts runs without entries in the places before `gen_no`, and returns
/// the runs that stood there.
fn empty_younger_runs(catalog: &mut Catalog, gen_no: usize, epoch_no: u64) -> (r: Result<
    Vec<SSTable>,
    NaiveError,
>)
    requires
        gen_no <= old(catalog).sstables@.len(),
        gen_no <= u32::MAX,
        runs_in_place(old(catalog).sstables@),
    ensures
        r matches Ok(retired) && retired@.len() == gen_no && forall|i: int|
            0 <= i < gen_no ==> retired_from(#[trigger] retired@[i], old(catalog).sstables@[i]),
        final(catalog).folder_path == old(catalog).folder_path,
        final(catalog).memtable == old(catalog).memtable,
        final(catalog).ro_memtable == old(catalog).ro_memtable,
        final(catalog).sstables@.len() == old(catalog).sstables@.len(),
        runs_in_place(final(catalog).sstables@),
        forall|i: int|
            0 <= i < gen_no ==> emptied(
                #[trigger] final(catalog).sstables@[i],
                epoch_no,
                old(catalog).folder_path@,
            ),
        forall|i: int|
            gen_no <= i < old(catalog).sstables@.len() ==> #[trigger] final(catalog).sstables@[i]
                == old(catalog).sstables@[i],
{
    let ghost before = *catalog;
    let mut retired: Vec<SSTable> = Vec::new();
    let mut i: usize = 0;
    while i < gen_no
        invariant
            i <= gen_no <= before.sstables@.len(),
            gen_no <= u32::MAX,
            catalog.folder_path == before.folder_path,
            catalog.memtable == before.memtable,
            catalog.ro_memtable == before.ro_memtable,
            catalog.sstables@.len() == before.sstables@.len(),
            runs_in_place(before.sstables@),
            runs_in_place(catalog.sstables@),
            retired@.len() == i,
            forall|j: int| 0 <= j < i ==> retired_from(#[trigger] retired@[j], before.sstables@[j]),
            forall|j: int|
                0 <= j < i ==> emptied(
                    #[trigger] catalog.sstables@[j],
                    epoch_no,
                    before.folder_path@,
                ),
            forall|j: int|
                i <= j < before.sstables@.len() ==> #[trigger] catalog.sstables@[j]
                    == before.sstables@[j],
        decreases gen_no - i,
    {
        let path = Catalog::gen_sstable_path(&catalog.folder_path, i);
        let ghost new_path = path@;
        let empty = match SSTable::create_empty(path, i, epoch_no) {
            Ok(empty) => empty,
            Err(e) => {
                return Err(e);
            },
        };
        let ghost tables = catalog.sstables@;
        proof {
            lemma_new_run(empty, before.folder_path@, i, new_path);
        }
        let mut displaced = replace_run(&mut catalog.sstables, i, empty);
        let _ = displaced.deprecate();
        retired.push(displaced);
        proof {
            assert forall|j: int| 0 <= j < catalog.sstables@.len() implies (
            #[trigger] catalog.sstables@[j]).inv() && catalog.sstables@[j].generation() == j by {
                if j != i {
                    assert(catalog.sstables@[j] == tables[j]);
                }
            }
            assert forall|j: int| 0 <= j < i + 1 implies emptied(
                #[trigger] catalog.sstables@[j],
                epoch_no,
                before.folder_path@,
            ) by {
                if j != i {
                    assert(catalog.sstables@[j] == tables[j]);
                }
            }
        }
        i += 1;
    }
    Ok(retired)
}

/// What a cycle has decided when it froze the memtable: the generation
/// that the memtable is merged into, the epoch of the cycle, and the path
/// of the run that the merge writes.
pub struct CyclePlan {
    gen_no: usize,
    epoch_no: u64,
    sstable_path: String,
}

impl CyclePlan {
    /// The generation that the memtable is merged into.
    pub closed spec fn target(&self) -> nat {
        self.gen_no as nat
    }

    /// The epoch of the cycle.
    pub closed spec fn epoch(&self) -> nat {
        self.epoch_no as nat
    }

    /// The path of the run that the merge writes.
    pub closed spec fn path(&self) -> Seq<char> {
        self.sstable_path@
    }

    /// The generation that the memtable is merged into.
    pub fn gen_no(&self) -> (gen_no: usize)
        ensures
            gen_no == self.target(),
    {
        self.gen_no
    }

    /// The epoch of the cycle.
    pub fn epoch_no(&self) -> (epoch_no: u64)
        ensures
            epoch_no == self.epoch(),
    {
        self.epoch_no
    }

    /// The path of the run that the merge writes.
    pub fn sstable_path(&self) -> (path: &String)
        ensures
            path@ == self.path(),
    {
        &self.sstable_path
    }
}

/// The plan is one for the catalog: the catalog has a memtable that is
/// only read, the generation of the plan is that of one of the runs or the
/// one behind them, and the path of the plan is a new one in the folder.
pub open spec fn plan_fits(plan: CyclePlan, catalog: Catalog) -> bool {
    &&& catalog.ro_memtable is Some
    &&& plan.target() <= catalog.sstables@.len()
    &&& plan.target() <= u32::MAX
    &&& plan.epoch() <= u64::MAX
    &&& exists|suffix: u64|
        plan.path() == path_join(
            catalog.folder_path@,
            #[trigger] sstable_name(plan.target() as usize, suffix),
        )
}

/// The memtable that a cycle on the catalog merges: the memtable that is
/// only read, which an earlier cycle has left behind, or else the memtable
/// that takes the writes.
pub open spec fn full_memtable(catalog: Catalog) -> Memtable {
    match catalog.ro_memtable {
        Some(frozen) => frozen,
        None => catalog.memtable,
    }
}

/// The generation that a cycle on the catalog merges into.
pub open spec fn target_of(catalog: Catalog, threshold: usize, ratio: usize) -> nat {
    target_generation(
        full_memtable(catalog)@.data_size as nat,
        file_sizes(catalog.sstables@),
        threshold as nat,
        ratio as nat,
    )
}

/// A cycle has work to do on the catalog: an earlier cycle has left a
/// memtable behind that is only read, or the memtable that takes the
/// writes is accounted with at least the threshold.
pub open spec fn cycle_is_due(catalog: Catalog, threshold: usize) -> bool {
    catalog.ro_memtable is Some || catalog.memtable@.data_size >= threshold
}

/// What the first step of a cycle makes of a catalog and an epoch, by
/// cases: nothing while no cycle is due; an error, and nothing else,
/// where the generation picked does not fit in four bytes or where the
/// epochs are used up; else the epoch moves on and the plan is made. If
/// an earlier cycle has left a memtable behind that is only read, the
/// plan is for that memtable and the catalog stays as it was; else a new
/// memtable takes the writes, and the full one is only read from then on.
pub open spec fn freeze_outcome(
    before: Catalog,
    epoch_before: nat,
    threshold: usize,
    ratio: usize,
    after: Catalog,
    epoch_after: nat,
    r: Result<Option<CyclePlan>, NaiveError>,
) -> bool {
    if !cycle_is_due(before, threshold) {
        &&& r matches Ok(None)
        &&& after == before
        &&& epoch_after == epoch_before
    } else if target_of(before, threshold, ratio) > u32::MAX {
        &&& r matches Err(e) && e == NaiveError::InvalidData
        &&& after == before
        &&& epoch_after == epoch_before
    } else if epoch_before == u64::MAX {
        &&& r matches Err(e) && e == NaiveError::Unknown
        &&& after == before
        &&& epoch_after == epoch_before
    } else {
        &&& r matches Ok(Some(plan))
        &&& plan.target() == target_of(before, threshold, ratio)
        &&& plan.epoch() == epoch_after
        &&& epoch_after == epoch_before + 1
        &&& after.folder_path == before.folder_path
        &&& after.ro_memtable == Some(full_memtable(before))
        &&& after.sstables == before.sstables
        &&& if before.ro_memtable is Some {
            after.memtable == before.memtable
        } else {
            new_memtable_in(after.memtable, before.folder_path@)
        }
        &&& plan_fits(plan, after)
    }
}

/// The first step of a cycle. If the memtable is accounted with at least
/// the threshold, a new memtable takes its place, the full one is kept to
/// be read, and the generation that it is merged into is picked. A
/// memtable that an earlier cycle has frozen and not merged stays frozen:
/// the cycle is then planned for that memtable, whatever the size of the
/// memtable that takes the writes.
pub fn freeze(
    catalog: &mut Catalog,
    epoch_no: &mut u64,
    memtable_compaction_threshold: usize,
    generation_geometric_ratio: usize,
) -> (r: Result<Option<CyclePlan>, NaiveError>)
    requires
        old(catalog).wf(),
    ensures
        final(catalog).wf(),
        forall|key: Seq<char>| #[trigger]
            final(catalog).record_of(key) == old(catalog).record_of(key),
        final(catalog)@ == old(catalog)@,
        freeze_outcome(
            *old(catalog),
            *old(epoch_no) as nat,
            memtable_compaction_threshold,
            generation_geometric_ratio,
            *final(catalog),
            *final(epoch_no) as nat,
            r,
        ),
{
    let ghost before = *catalog;
    proof {
        assert(catalog@ =~= before@);
    }
    let full_size = match &catalog.ro_memtable {
        Some(frozen) => frozen.data_size(),
        None => {
            if catalog.memtable.data_size() < memtable_compaction_threshold {
                return Ok(None);
            }
            catalog.memtable.data_size()
        },
    };
    let gen_no = choose_generation(
        full_size,
        &catalog.sstables,
        memtable_compaction_threshold,
        generation_geometric_ratio,
    );
    if gen_no > 0xffff_ffff {
        return Err(NaiveError::InvalidData);
    }
    if *epoch_no == u64::MAX {
        return Err(NaiveError::Unknown);
    }
    if catalog.ro_memtable.is_none() {
        // Create a new memtable to replace the one that takes the writes.
        let memtable_path = Catalog::gen_memtable_path(&catalog.folder_path);
        let mut frozen = match Memtable::open(memtable_path, Vec::new()) {
            Ok(memtable) => memtable,
            Err(e) => {
                return Err(e);
            },
        };
        core::mem::swap(&mut frozen, &mut catalog.memtable);
        // Move the full memtable to where it is only read.
        catalog.ro_memtable = Some(frozen);
        proof {
            catalog.memtable.lemma_inv();
            lemma_empty_view_has_no_entries(catalog.memtable.entries());
            let runs = run_rows(before.sstables@);
            let frozen_row = seq![before.memtable.entries()];
            assert(before.rows() =~= frozen_row + runs);
            assert(catalog.rows() =~= seq![catalog.memtable.entries()] + (frozen_row + runs));
            assert forall|key: Seq<char>| #[trigger]
                catalog.record_of(key) == before.record_of(key) by {
                lemma_youngest_concat(seq![catalog.memtable.entries()], frozen_row + runs, key);
                lemma_youngest_of_empty_rows(seq![catalog.memtable.entries()], key);
            }
            assert(catalog@ =~= before@);
        }
    }
    *epoch_no = *epoch_no + 1;
    let sstable_path = Catalog::gen_sstable_path(&catalog.folder_path, gen_no);
    let plan = CyclePlan { gen_no, epoch_no: *epoch_no, sstable_path };
    proof {
        let suffix = choose|suffix: u64|
            plan.sstable_path@ == path_join(
                before.folder_path@,
                #[trigger] sstable_name(gen_no, suffix),
            );
        assert(plan.target() as usize == gen_no);
        assert(plan.path() == path_join(
            catalog.folder_path@,
            sstable_name(plan.target() as usize, suffix),
        ));
    }
    Ok(Some(plan))
}

/// The run answers for each key as the rows do.
pub open spec fn answers_as(entries: Seq<EntryView>, rows: Seq<Seq<EntryView>>) -> bool {
    forall|key: Seq<char>| #[trigger] lookup(entries, key) == youngest(rows, key)
}

/// The rows that a cycle merges: the entries of the memtable that is only
/// read, and those of the runs up to the generation of the plan.
pub open spec fn rows_to_merge(catalog: Catalog, plan: CyclePlan) -> Seq<Seq<EntryView>> {
    seq![catalog.ro_memtable->Some_0.entries()] + run_rows(catalog.sstables@).take(
        merged_count(catalog.sstables@.len() as int, plan.target() as int),
    )
}

/// The run is what a cycle with the plan merges on the catalog: a run of
/// the generation, the epoch and the path of the plan, which answers as
/// the rows that the cycle merges.
pub open spec fn merged_for(merged: SSTable, catalog: Catalog, plan: CyclePlan) -> bool {
    &&& merged.inv()
    &&& merged.generation() == plan.target()
    &&& merged.epoch() == plan.epoch()
    &&& merged.path() == plan.path()
    &&& !merged.deprecated()
    &&& crate::sstable::chunked_by_threshold(merged.groups())
    &&& answers_as(merged.entries(), rows_to_merge(catalog, plan))
}

/// The second step of a cycle: the memtable that is only read is merged
/// with the runs up to the generation of the plan into a new run. The
/// catalog is only read.
pub fn merge(catalog: &Catalog, plan: &CyclePlan) -> (r: Result<SSTable, NaiveError>)
    requires
        catalog.wf(),
        plan_fits(*plan, *catalog),
    ensures
        r matches Ok(merged) && merged_for(merged, *catalog, *plan),
{
    let count = catalog.sstables.len();
    let merging = if plan.gen_no < count {
        plan.gen_no + 1
    } else {
        count
    };
    let frozen = match &catalog.ro_memtable {
        Some(frozen) => frozen,
        None => {
            return Err(NaiveError::InvalidData);
        },
    };
    let merged = match SSTable::create(
        plan.sstable_path.clone(),
        frozen,
        slice_subrange(catalog.sstables.as_slice(), 0, merging),
        plan.gen_no,
        plan.epoch_no,
    ) {
        Ok(merged) => merged,
        Err(e) => {
            return Err(e);
        },
    };
    proof {
        assert(merge_rows(*frozen, catalog.sstables@.subrange(0, merging as int))
            =~= rows_to_merge(*catalog, *plan));
    }
    Ok(merged)
}

/// What a cycle merges, copied out of the catalog, so that the merge
/// needs no access to the catalog and readers and writers go on
/// meanwhile.
pub struct MergeInput {
    memtable: Memtable,
    sstables: Vec<SSTable>,
}

impl MergeInput {
    /// The rows that are merged, youngest first.
    pub closed spec fn rows(&self) -> Seq<Seq<EntryView>> {
        merge_rows(self.memtable, self.sstables@)
    }

    /// The copies are sound tables.
    pub closed spec fn inv(&self) -> bool {
        &&& self.memtable.inv()
        &&& forall|i: int| 0 <= i < self.sstables@.len() ==> (#[trigger] self.sstables@[i]).inv()
    }
}

/// Copies what a cycle with the plan merges out of the catalog: the
/// memtable that is only read and the runs up to the generation of the
/// plan.
pub fn merge_input(catalog: &Catalog, plan: &CyclePlan) -> (r: Result<MergeInput, NaiveError>)
    requires
        catalog.wf(),
        plan_fits(*plan, *catalog),
    ensures
        r matches Ok(input) && input.inv() && input.rows() == rows_to_merge(*catalog, *plan),
{
    let count = catalog.sstables.len();
    let merging = if plan.gen_no < count {
        plan.gen_no + 1
    } else {
        count
    };
    let memtable = match &catalog.ro_memtable {
        Some(frozen) => frozen.duplicate(),
        None => {
            return Err(NaiveError::InvalidData);
        },
    };
    let mut sstables: Vec<SSTable> = Vec::new();
    let mut i: usize = 0;
    while i < merging
        invariant
            i <= merging <= catalog.sstables@.len(),
            catalog.wf(),
            sstables@.len() == i,
            forall|j: int|
                0 <= j < i ==> (#[trigger] sstables@[j]).inv() && sstables@[j].entries()
                    == catalog.sstables@[j].entries(),
        decreases merging - i,
    {
        sstables.push(catalog.sstables[i].duplicate());
        i += 1;
    }
    let input = MergeInput { memtable, sstables };
    proof {
        assert(input.rows() =~= rows_to_merge(*catalog, *plan));
    }
    Ok(input)
}

/// The second step of a cycle on a copy of what it merges: the catalog is
/// not touched.
pub fn merge_copied(input: &MergeInput, plan: &CyclePlan) -> (r: Result<SSTable, NaiveError>)
    requires
        input.inv(),
        plan.target() <= u32::MAX,
    ensures
        r matches Ok(merged) && merged.inv() && merged.generation() == plan.target()
            && merged.epoch() == plan.epoch() && merged.path() == plan.path()
            && !merged.deprecated() && crate::sstable::chunked_by_threshold(merged.groups())
            && answers_as(merged.entries(), input.rows()),
{
    SSTable::create(
        plan.sstable_path.clone(),
        &input.memtable,
        input.sstables.as_slice(),
        plan.gen_no,
        plan.epoch_no,
    )
}

/// What the last step of a cycle makes of a catalog: the memtable that
/// was only read is taken out, the merged run stands at the generation of
/// the plan, and runs without entries stand before it. What was taken out
/// is marked for the removal of its files.
pub open spec fn installed(
    before: Catalog,
    plan: CyclePlan,
    merged: SSTable,
    after: Catalog,
    retired: Retired,
) -> bool {
    let runs = before.sstables@.len() as int;
    let frozen = before.ro_memtable->Some_0;
    &&& after.folder_path == before.folder_path
    &&& after.memtable == before.memtable
    &&& after.ro_memtable is None
    &&& runs_replaced(
        before.sstables@,
        after.sstables@,
        plan.target() as int,
        plan.epoch(),
        before.folder_path@,
    )
    &&& after.sstables@[plan.target() as int] == merged
    &&& retired.memtable.deprecated()
    &&& retired.memtable.path() == frozen.path()
    &&& retired.memtable.log_bytes() == frozen.log_bytes()
    &&& retired.memtable.entries() == frozen.entries()
    &&& retired.sstables@.len() == merged_count(runs, plan.target() as int)
    &&& forall|i: int|
        0 <= i < retired.sstables@.len() ==> retired_from(
            #[trigger] retired.sstables@[i],
            before.sstables@[i],
        )
}

/// The last step of a cycle: the merged run is put in its place, runs
/// without entries are put in the places before it, and the memtable that
/// was only read is taken out of the catalog. What a reader is answered
/// is the same before and after.
pub fn install(catalog: &mut Catalog, plan: CyclePlan, merged: SSTable) -> (r: Result<
    Retired,
    NaiveError,
>)
    requires
        old(catalog).wf(),
        plan_fits(plan, *old(catalog)),
        merged_for(merged, *old(catalog), plan),
    ensures
        final(catalog).wf(),
        forall|key: Seq<char>| #[trigger]
            final(catalog).record_of(key) == old(catalog).record_of(key),
        final(catalog)@ == old(catalog)@,
        r matches Ok(retired) && installed(*old(catalog), plan, merged, *final(catalog), retired),
{
    let ghost before = *catalog;
    let gen_no = plan.gen_no;
    let epoch = plan.epoch_no;
    let count = catalog.sstables.len();
    // Take the memtable that was merged out of the catalog.
    let mut taken: Option<Memtable> = None;
    core::mem::swap(&mut taken, &mut catalog.ro_memtable);
    let mut frozen = match taken {
        Some(frozen) => frozen,
        None => {
            return Err(NaiveError::InvalidData);
        },
    };
    let _ = frozen.deprecate();
    // Replace the runs that were merged by runs without entries.
    let mut retired = match empty_younger_runs(catalog, gen_no, epoch) {
        Ok(retired) => retired,
        Err(e) => {
            return Err(e);
        },
    };
    let ghost emptied = catalog.sstables@;
    // Place the merged run.
    if gen_no == count {
        catalog.sstables.push(merged);
    } else {
        let mut displaced = replace_run(&mut catalog.sstables, gen_no, merged);
        let _ = displaced.deprecate();
        retired.push(displaced);
    }
    proof {
        let after = catalog.sstables@;
        assert forall|i: int| 0 <= i < after.len() implies (#[trigger] after[i]).inv()
            && after[i].generation() == i by {
            if i != gen_no {
                assert(after[i] == emptied[i]);
            }
        }
        assert forall|i: int| 0 <= i <= gen_no implies (#[trigger] after[i]).epoch() == epoch
            && new_run_in(after[i], before.folder_path@) && (i < gen_no ==> after[i].entries()
            == Seq::<EntryView>::empty()) by {
            if i < gen_no {
                assert(after[i] == emptied[i]);
                assert(self::emptied(emptied[i], epoch, before.folder_path@));
            } else {
                lemma_new_run(after[i], before.folder_path@, gen_no, plan.path());
            }
        }
        assert forall|i: int| gen_no < i < before.sstables@.len() implies #[trigger] after[i]
            == before.sstables@[i] by {
            assert(after[i] == emptied[i]);
        }
        let active = seq![before.memtable.entries()];
        let frozen_row = seq![before.ro_memtable->Some_0.entries()];
        let runs = run_rows(before.sstables@);
        let rows_after = run_rows(after);
        let nothing = seq![Seq::<EntryView>::empty()];
        assert(catalog.rows() =~= active + rows_after);
        assert(before.rows() =~= active + (frozen_row + runs));
        assert forall|key: Seq<char>| #[trigger]
            catalog.record_of(key) == before.record_of(key) by {
            lemma_cycle_keeps_answers(
                before.ro_memtable->Some_0.entries(),
                runs,
                gen_no as int,
                merged.entries(),
                rows_after,
                key,
            );
            lemma_youngest_concat(nothing, rows_after, key);
            lemma_youngest_of_empty_rows(nothing, key);
            lemma_youngest_concat(active, rows_after, key);
            lemma_youngest_concat(active, frozen_row + runs, key);
        }
        assert(catalog@ =~= before@);
    }
    Ok(Retired { memtable: frozen, sstables: retired })
}

/// What a cycle makes of a catalog and an epoch, by cases: nothing while
/// no cycle is due; an error, and nothing else, where the generation
/// picked does not fit in four bytes or where the epochs are used up; else
/// the full memtable is merged and taken out of the catalog, and the runs
/// up to the generation picked are replaced. The full memtable is the one
/// that an earlier cycle has left behind, if there is one; else it is the
/// memtable that takes the writes, and a new memtable takes its place.
pub open spec fn cycle_outcome(
    before: Catalog,
    epoch_before: nat,
    threshold: usize,
    ratio: usize,
    after: Catalog,
    epoch_after: nat,
    r: Result<Option<Retired>, NaiveError>,
) -> bool {
    let gen_no = target_of(before, threshold, ratio);
    let runs = before.sstables@.len() as int;
    let full = full_memtable(before);
    if !cycle_is_due(before, threshold) {
        &&& r matches Ok(None)
        &&& after == before
        &&& epoch_after == epoch_before
    } else if gen_no > u32::MAX {
        &&& r matches Err(e) && e == NaiveError::InvalidData
        &&& after == before
        &&& epoch_after == epoch_before
    } else if epoch_before == u64::MAX {
        &&& r matches Err(e) && e == NaiveError::Unknown
        &&& after == before
        &&& epoch_after == epoch_before
    } else {
        &&& r matches Ok(Some(retired))
        &&& epoch_after == epoch_before + 1
        &&& after.folder_path == before.folder_path
        &&& after.ro_memtable is None
        &&& if before.ro_memtable is Some {
            after.memtable == before.memtable
        } else {
            new_memtable_in(after.memtable, before.folder_path@)
        }
        &&& runs_replaced(
            before.sstables@,
            after.sstables@,
            gen_no as int,
            epoch_after,
            before.folder_path@,
        )
        &&& answers_as(
            after.sstables@[gen_no as int].entries(),
            seq![full.entries()] + run_rows(before.sstables@).take(
                merged_count(runs, gen_no as int),
            ),
        )
        &&& crate::sstable::chunked_by_threshold(after.sstables@[gen_no as int].groups())
        &&& retired.memtable.deprecated()
        &&& retired.memtable.path() == full.path()
        &&& retired.memtable.log_bytes() == full.log_bytes()
        &&& retired.memtable.entries() == full.entries()
        &&& retired.sstables@.len() == merged_count(runs, gen_no as int)
        &&& forall|i: int|
            0 <= i < retired.sstables@.len() ==> retired_from(
                #[trigger] retired.sstables@[i],
                before.sstables@[i],
            )
    }
}

/// Under a threshold above 0, a cycle leaves a catalog as it is and writes
/// no run if the memtable is empty and no earlier cycle has left a
/// memtable behind.
pub proof fn lemma_empty_memtable_is_left(
    before: Catalog,
    epoch_before: nat,
    threshold: usize,
    ratio: usize,
    after: Catalog,
    epoch_after: nat,
    r: Result<Option<Retired>, NaiveError>,
)
    requires
        threshold > 0,
        before.memtable@ == MemtableView::empty(),
        before.ro_memtable is None,
        cycle_outcome(before, epoch_before, threshold, ratio, after, epoch_after, r),
    ensures
        r matches Ok(None),
        after == before,
        epoch_after == epoch_before,
{
}

/// One compaction cycle, all three steps of it in a row. Nothing is done
/// while the memtable is accounted with less than the threshold and no
/// earlier cycle has left a memtable behind. Else the full memtable is
/// merged, with the runs up to the generation that is picked, into the
/// run of that generation; the runs of the younger generations are
/// replaced by runs without entries, and all the new runs carry the next
/// epoch. What was taken out of the catalog is returned.
///
/// A generation that four bytes cannot hold is refused; nothing changes
/// then, nor when the epochs are used up.
pub fn compact(
    catalog: &mut Catalog,
    epoch_no: &mut u64,
    memtable_compaction_threshold: usize,
    generation_geometric_ratio: usize,
) -> (r: Result<Option<Retired>, NaiveError>)
    requires
        old(catalog).wf(),
    ensures
        final(catalog).wf(),
        final(catalog).folder_path == old(catalog).folder_path,
        forall|key: Seq<char>| #[trigger]
            final(catalog).record_of(key) == old(catalog).record_of(key),
        final(catalog)@ == old(catalog)@,
        cycle_outcome(
            *old(catalog),
            *old(epoch_no) as nat,
            memtable_compaction_threshold,
            generation_geometric_ratio,
            *final(catalog),
            *final(epoch_no) as nat,
            r,
        ),
{
    let ghost before = *catalog;
    let plan = match freeze(
        catalog,
        epoch_no,
        memtable_compaction_threshold,
        generation_geometric_ratio,
    ) {
        Ok(Some(plan)) => plan,
        Ok(None) => {
            return Ok(None);
        },
        Err(e) => {
            return Err(e);
        },
    };
    let ghost frozen = *catalog;
    let merged = match merge(catalog, &plan) {
        Ok(merged) => merged,
        Err(e) => {
            return Err(e);
        },
    };
    match install(catalog, plan, merged) {
        Ok(retired) => {
            proof {
                assert forall|key: Seq<char>| #[trigger]
                    catalog.record_of(key) == before.record_of(key) by {
                    assert(frozen.record_of(key) == before.record_of(key));
                }
                assert(catalog@ =~= before@);
            }
            Ok(Some(retired))
        },
        Err(e) => Err(e),
    }
}

/// A row that is a map without keys has no entries.
proof fn lemma_empty_view_has_no_entries(entries: Seq<EntryView>)
    requires
        crate::run::map_of(entries) == Map::<Seq<char>, crate::types::RecordView>::empty(),
    ensures
        entries.len() == 0,
{
    if entries.len() > 0 {
        assert(holds(entries, entries[0].key));
        assert(crate::run::map_of(entries).dom().contains(entries[0].key));
    }
}

} // verus!
