//! A log-structured merge engine for a persistent key-value store.
//!
//! The engine is written over byte images: a write-ahead log and a sorted
//! run are each a `Vec<u8>` whose layout is fixed by this crate, and every
//! operation is a function from images and tables to images and tables.
//! Reading and writing the files that hold those images, and the threads
//! and locks of a running server, belong to the program that embeds the
//! engine.

pub mod catalog;
pub mod command;
pub mod compaction;
pub mod layout;
pub mod memtable;
pub mod merge;
pub mod messages;
pub mod names;
pub mod order;
pub mod run;
pub mod server;
pub mod sstable;
pub mod types;
pub mod utils;

use vstd::prelude::*;
use crate::catalog::{Catalog, CatalogViewer, DirFile};
use crate::command::encodable;
use crate::compaction::{CyclePlan, Retired};
use crate::sstable::SSTable;
use crate::types::NaiveError;

verus! {

/// The facade of the storage engine: a catalog, the settings of its
/// compaction and the epoch of the last cycle.
pub struct NaiveKV {
    /// The catalog of the data files.
    catalog: Catalog,
    /// The number of compaction cycles that have replaced runs.
    epoch_no: u64,
    /// The accounted size from which on the memtable is merged.
    memtable_compaction_threshold: usize,
    /// By how much the limit of a generation exceeds that of the one
    /// before.
    generation_geometric_ratio: usize,
    /// The seconds between two looks at the size of the memtable.
    compaction_daemon_cycle_s: u64,
}

impl View for NaiveKV {
    type V = Map<Seq<char>, Seq<char>>;

    /// The store as a map from the keys that have a value to their
    /// values.
    closed spec fn view(&self) -> Map<Seq<char>, Seq<char>> {
        self.catalog@
    }
}

impl NaiveKV {
    /// The catalog of the engine.
    pub closed spec fn catalog_of(&self) -> Catalog {
        self.catalog
    }

    /// The epoch of the last compaction cycle that replaced runs.
    pub closed spec fn epoch(&self) -> nat {
        self.epoch_no as nat
    }

    /// The settings of the compaction: the threshold, the ratio and the
    /// seconds between two cycles.
    pub closed spec fn settings(&self) -> (usize, usize, u64) {
        (
            self.memtable_compaction_threshold,
            self.generation_geometric_ratio,
            self.compaction_daemon_cycle_s,
        )
    }

    /// The catalog of the engine is sound.
    pub closed spec fn inv(&self) -> bool {
        self.catalog.wf()
    }

    /// Opens the engine on the files of a data folder, as
    /// `Catalog::open` opens the catalog.
    pub fn open(
        folder_path: String,
        files: Vec<DirFile>,
        memtable_compaction_threshold: usize,
        generation_geometric_ratio: usize,
        compaction_daemon_cycle_s: u64,
    ) -> (r: Result<NaiveKV, NaiveError>)
        ensures
            match r {
                Ok(engine) => {
                    &&& engine.inv()
                    &&& engine.epoch() == 0
                    &&& engine.settings() == (
                        memtable_compaction_threshold,
                        generation_geometric_ratio,
                        compaction_daemon_cycle_s,
                    )
                    &&& crate::catalog::opens_as(files@, folder_path@, Ok(engine.catalog_of()))
                },
                Err(e) => crate::catalog::opens_as(files@, folder_path@, Err(e)),
            },
    {
        match Catalog::open(folder_path, files) {
            Ok(catalog) => Ok(
                NaiveKV {
                    catalog,
                    epoch_no: 0,
                    memtable_compaction_threshold,
                    generation_geometric_ratio,
                    compaction_daemon_cycle_s,
                },
            ),
            Err(e) => Err(e),
        }
    }

    /// A view of one client on the catalog of the engine.
    pub fn catalog_viewer(&self) -> (r: Result<CatalogViewer, NaiveError>)
        ensures
            r matches Ok(viewer) && viewer.epochs() == Seq::new(
                self.catalog_of().sstables@.len(),
                |i: int| self.catalog_of().sstables@[i].epoch(),
            ),
    {
        CatalogViewer::new(&self.catalog)
    }

    /// The catalog of the engine.
    pub fn catalog(&self) -> (catalog: &Catalog)
        ensures
            *catalog == self.catalog_of(),
    {
        &self.catalog
    }

    /// The seconds between two looks at the size of the memtable.
    pub fn compaction_daemon_cycle_s(&self) -> (seconds: u64)
        ensures
            seconds == self.settings().2,
    {
        self.compaction_daemon_cycle_s
    }

    /// Reads the value of `key` through the view of a client.
    pub fn get(&self, viewer: &mut CatalogViewer, key: &str) -> (r: Result<
        Option<String>,
        NaiveError,
    >)
        requires
            self.inv(),
        ensures
            r matches Ok(value) && crate::types::option_string_view(value) == self@.get(key@),
    {
        viewer.get(&self.catalog, key)
    }

    /// Sets `key` to `value`: the write is logged, then applied to the
    /// memtable. A pair that is too large to be logged is refused, and
    /// nothing changes.
    pub fn set(&mut self, viewer: &mut CatalogViewer, key: String, value: String) -> (r: Result<
        (),
        NaiveError,
    >)
        requires
            old(self).inv(),
        ensures
            final(self).inv(),
            final(self).epoch() == old(self).epoch(),
            final(self).settings() == old(self).settings(),
            final(viewer).epochs() == old(viewer).epochs(),
            crate::catalog::write_outcome(
                old(self).catalog_of(),
                final(self).catalog_of(),
                crate::memtable::set_command(key@, value@),
                r,
            ),
            encodable(crate::memtable::set_command(key@, value@)) ==> r is Ok && final(self)@
                == old(self)@.insert(key@, value@),
            !encodable(crate::memtable::set_command(key@, value@)) ==> (r matches Err(e) && e
                == NaiveError::ProtobufError) && final(self)@ == old(self)@,
    {
        viewer.set(&mut self.catalog, key, value)
    }

    /// Removes `key`: a tombstone is logged, then put into the memtable,
    /// whether or not a table holds the key. A key that is too large to
    /// be logged is refused, and nothing changes.
    pub fn remove(&mut self, viewer: &mut CatalogViewer, key: String) -> (r: Result<
        (),
        NaiveError,
    >)
        requires
            old(self).inv(),
        ensures
            final(self).inv(),
            final(self).epoch() == old(self).epoch(),
            final(self).settings() == old(self).settings(),
            final(viewer).epochs() == old(viewer).epochs(),
            crate::catalog::write_outcome(
                old(self).catalog_of(),
                final(self).catalog_of(),
                crate::memtable::remove_command(key@),
                r,
            ),
            encodable(crate::memtable::remove_command(key@)) ==> r is Ok && final(self)@
                == old(self)@.remove(key@),
            !encodable(crate::memtable::remove_command(key@)) ==> (r matches Err(e) && e
                == NaiveError::ProtobufError) && final(self)@ == old(self)@,
    {
        viewer.remove(&mut self.catalog, key)
    }

    /// Applies a write that the caller has logged, as
    /// `CatalogViewer::commit` applies it on the catalog of the engine.
    pub fn commit(&mut self, viewer: &mut CatalogViewer, write: crate::memtable::LoggedWrite)
        requires
            old(self).inv(),
            write.inv(),
        ensures
            final(self).inv(),
            final(self).epoch() == old(self).epoch(),
            final(self).settings() == old(self).settings(),
            final(viewer).epochs() == old(viewer).epochs(),
            crate::catalog::write_outcome(
                old(self).catalog_of(),
                final(self).catalog_of(),
                write.command(),
                Ok::<(), NaiveError>(()),
            ),
            final(self).catalog_of().memtable.log_bytes()
                == old(self).catalog_of().memtable.log_bytes() + write.entry_bytes(),
            final(self)@ == crate::catalog::store_with(old(self)@, write.command()),
    {
        viewer.commit(&mut self.catalog, write)
    }

    /// Answers a request through the view of a client, as
    /// `server::handle_request` answers it on the catalog of the engine.
    pub fn handle_request(
        &mut self,
        viewer: &mut CatalogViewer,
        request: &crate::messages::Request,
        response: &mut crate::messages::Response,
    )
        requires
            old(self).inv(),
        ensures
            final(self).inv(),
            final(self).epoch() == old(self).epoch(),
            final(self).settings() == old(self).settings(),
            final(self)@ == crate::server::store_after(old(self)@, request@),
            final(self).catalog_of().memtable.log_bytes()
                == old(self).catalog_of().memtable.log_bytes() + crate::server::log_entry(request@),
            final(response)@ == crate::server::response_for(
                old(self)@,
                request@,
                old(response)@,
            ),
    {
        crate::server::handle_request(viewer, &mut self.catalog, request, response)
    }

    /// Answers a `GET` through the view of a client, as
    /// `server::handle_get` answers it: the engine is only read.
    pub fn handle_get(
        &self,
        viewer: &mut CatalogViewer,
        request: &crate::messages::Request,
        response: &mut crate::messages::Response,
    )
        requires
            self.inv(),
            request@.operation == crate::messages::Operation::GET,
        ensures
            final(response)@ == crate::server::response_for(self@, request@, old(response)@),
    {
        crate::server::handle_get(viewer, &self.catalog, request, response)
    }

    /// Answers a request whose write, if it asks for one, the caller has
    /// logged, as `server::handle_logged` answers it on the catalog of
    /// the engine.
    pub fn handle_logged(
        &mut self,
        viewer: &mut CatalogViewer,
        request: &crate::messages::Request,
        write: Option<crate::memtable::LoggedWrite>,
        response: &mut crate::messages::Response,
    )
        requires
            old(self).inv(),
            crate::server::write_is_for(write, request@),
        ensures
            final(self).inv(),
            final(self).epoch() == old(self).epoch(),
            final(self).settings() == old(self).settings(),
            final(self)@ == crate::server::store_after(old(self)@, request@),
            final(self).catalog_of().memtable.log_bytes()
                == old(self).catalog_of().memtable.log_bytes() + crate::server::log_entry(request@),
            final(response)@ == crate::server::response_for(
                old(self)@,
                request@,
                old(response)@,
            ),
    {
        crate::server::handle_logged(viewer, &mut self.catalog, request, write, response)
    }

    /// The epoch of the last compaction cycle that replaced runs.
    pub fn epoch_no(&self) -> (epoch_no: u64)
        ensures
            epoch_no == self.epoch(),
    {
        self.epoch_no
    }

    /// The first step of a compaction cycle, as `compaction::freeze`
    /// takes it with the settings of the engine.
    pub fn freeze(&mut self) -> (r: Result<Option<CyclePlan>, NaiveError>)
        requires
            old(self).inv(),
        ensures
            final(self).inv(),
            final(self)@ == old(self)@,
            final(self).settings() == old(self).settings(),
            crate::compaction::freeze_outcome(
                old(self).catalog_of(),
                old(self).epoch(),
                old(self).settings().0,
                old(self).settings().1,
                final(self).catalog_of(),
                final(self).epoch(),
                r,
            ),
    {
        crate::compaction::freeze(
            &mut self.catalog,
            &mut self.epoch_no,
            self.memtable_compaction_threshold,
            self.generation_geometric_ratio,
        )
    }

    /// The second step of a compaction cycle, as `compaction::merge`
    /// takes it: the engine is only read.
    pub fn merge(&self, plan: &CyclePlan) -> (r: Result<SSTable, NaiveError>)
        requires
            self.inv(),
            crate::compaction::plan_fits(*plan, self.catalog_of()),
        ensures
            r matches Ok(merged) && crate::compaction::merged_for(
                merged,
                self.catalog_of(),
                *plan,
            ),
    {
        crate::compaction::merge(&self.catalog, plan)
    }

    /// Copies what a cycle with the plan merges out of the engine, as
    /// `compaction::merge_input` copies it, for
    /// `compaction::merge_copied` to merge.
    pub fn merge_input(&self, plan: &CyclePlan) -> (r: Result<
        crate::compaction::MergeInput,
        NaiveError,
    >)
        requires
            self.inv(),
            crate::compaction::plan_fits(*plan, self.catalog_of()),
        ensures
            r matches Ok(input) && input.inv() && input.rows() == crate::compaction::rows_to_merge(
                self.catalog_of(),
                *plan,
            ),
    {
        crate::compaction::merge_input(&self.catalog, plan)
    }

    /// The last step of a compaction cycle, as `compaction::install`
    /// takes it.
    pub fn install(&mut self, plan: CyclePlan, merged: SSTable) -> (r: Result<
        Retired,
        NaiveError,
    >)
        requires
            old(self).inv(),
            crate::compaction::plan_fits(plan, old(self).catalog_of()),
            crate::compaction::merged_for(merged, old(self).catalog_of(), plan),
        ensures
            final(self).inv(),
            final(self)@ == old(self)@,
            final(self).epoch() == old(self).epoch(),
            final(self).settings() == old(self).settings(),
            r matches Ok(retired) && crate::compaction::installed(
                old(self).catalog_of(),
                plan,
                merged,
                final(self).catalog_of(),
                retired,
            ),
    {
        crate::compaction::install(&mut self.catalog, plan, merged)
    }

    /// One compaction cycle, as `compaction::compact` runs it with the
    /// settings of the engine. What the store holds is the same before
    /// and after.
    pub fn compact(&mut self) -> (r: Result<Option<Retired>, NaiveError>)
        requires
            old(self).inv(),
        ensures
            final(self).inv(),
            final(self)@ == old(self)@,
            final(self).settings() == old(self).settings(),
            crate::compaction::cycle_outcome(
                old(self).catalog_of(),
                old(self).epoch(),
                old(self).settings().0,
                old(self).settings().1,
                final(self).catalog_of(),
                final(self).epoch(),
                r,
            ),
    {
        crate::compaction::compact(
            &mut self.catalog,
            &mut self.epoch_no,
            self.memtable_compaction_threshold,
            self.generation_geometric_ratio,
        )
    }
}

} // verus!
