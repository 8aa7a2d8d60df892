//! A text-valued adapter over the byte-valued table: values are stored as
//! their UTF-8 bytes; versions come from the caller, 1 when not given.
use vstd::prelude::*;

use vstd::utf8::encode_utf8;

use crate::error::Error;
use crate::merge::{merge_cells, merge_fails, report_of, MergeReport, TieBreakPolicy};
use crate::row::{apply_inserts, insert_histories};
use crate::storage::{strip_all, Key, NodeModel};
use crate::sync::Changeset;
use crate::table::CrrTable;

verus! {

/// The version given for column `col`: the first entry naming it, else 1.
pub open spec fn version_for(versions: Seq<(Seq<char>, u64)>, col: Seq<char>) -> u64
    decreases versions.len(),
{
    if versions.len() == 0 {
        1
    } else if versions[0].0 == col {
        versions[0].1
    } else {
        version_for(versions.drop_first(), col)
    }
}

/// The writes that `insert_or_update` makes, in order.
pub open spec fn text_writes(
    columns: Seq<(Seq<char>, Seq<char>)>,
    versions: Seq<(Seq<char>, u64)>,
) -> Seq<(Seq<char>, Seq<u8>, u64)> {
    columns.map_values(
        |c: (Seq<char>, Seq<char>)| (c.0, encode_utf8(c.1), version_for(versions, c.0)),
    )
}

/// The version given for `col` in `versions`.
fn lookup_version(versions: &Vec<(String, u64)>, col: &String) -> (r: u64)
    ensures
        r == version_for(versions@.map_values(|v: (String, u64)| (v.0@, v.1)), col@),
{
    let ghost vs = versions@.map_values(|v: (String, u64)| (v.0@, v.1));
    let mut i: usize = 0;
    assert(vs.skip(0) =~= vs);
    while i < versions.len()
        invariant
            i <= versions@.len(),
            vs == versions@.map_values(|v: (String, u64)| (v.0@, v.1)),
            version_for(vs, col@) == version_for(vs.skip(i as int), col@),
        decreases versions.len() - i,
    {
        assert(vs.skip(i as int).drop_first() =~= vs.skip(i + 1));
        if versions[i].0 == *col {
            return versions[i].1;
        }
        i = i + 1;
    }
    1
}

/// A table whose values are text.
pub struct LegacyCrrTable {
    table: CrrTable,
}

impl LegacyCrrTable {
    /// The underlying byte table is well formed.
    pub closed spec fn wf(&self) -> bool {
        self.table.wf()
    }

    /// The column histories.
    pub closed spec fn histories(&self) -> Map<Key, Seq<NodeModel>> {
        self.table.histories()
    }

    /// The store behind the table.
    pub closed spec fn store(&self) -> crate::storage::MemoryStorage {
        self.table.store()
    }

    /// The cells, values as UTF-8 bytes.
    pub closed spec fn cells(&self) -> Map<Key, (Seq<u8>, u64)> {
        self.table.cells()
    }

    /// An empty table.
    pub fn new() -> (r: LegacyCrrTable)
        ensures
            r.wf(),
            r.cells() == Map::<Key, (Seq<u8>, u64)>::empty(),
    {
        LegacyCrrTable { table: CrrTable::open_in_memory() }
    }

    /// The byte table behind this one.
    pub fn table(&self) -> (r: &CrrTable)
        ensures
            r.wf() == self.wf(),
            r.cells() == self.cells(),
            r.histories() == self.histories(),
    {
        &self.table
    }

    /// Writes each `(column, text)` of `columns` in order under `pk`, at the
    /// version `versions` gives for that column (1 when none); stops with
    /// `InvalidState` at a column already at a higher version.
    pub fn insert_or_update(
        &mut self,
        pk: &str,
        columns: Vec<(String, String)>,
        versions: Vec<(String, u64)>,
    ) -> (r: Result<(), Error>)
        requires
            old(self).wf(),
        ensures
            final(self).wf(),
            r is Err <==> apply_inserts(
                old(self).cells(),
                pk@,
                text_writes(
                    columns@.map_values(|c: (String, String)| (c.0@, c.1@)),
                    versions@.map_values(|v: (String, u64)| (v.0@, v.1)),
                ),
            ).1,
            final(self).cells() == apply_inserts(
                old(self).cells(),
                pk@,
                text_writes(
                    columns@.map_values(|c: (String, String)| (c.0@, c.1@)),
                    versions@.map_values(|v: (String, u64)| (v.0@, v.1)),
                ),
            ).0,
            strip_all(final(self).histories()) == insert_histories(
                strip_all(old(self).histories()),
                old(self).cells(),
                pk@,
                text_writes(
                    columns@.map_values(|c: (String, String)| (c.0@, c.1@)),
                    versions@.map_values(|v: (String, u64)| (v.0@, v.1)),
                ),
            ),
    {
        let ghost cv = columns@.map_values(|c: (String, String)| (c.0@, c.1@));
        let ghost vv = versions@.map_values(|v: (String, u64)| (v.0@, v.1));
        let mut builder = self.table.insert(pk);
        let mut i: usize = 0;
        while i < columns.len()
            invariant
                i <= columns@.len(),
                cv == columns@.map_values(|c: (String, String)| (c.0@, c.1@)),
                vv == versions@.map_values(|v: (String, u64)| (v.0@, v.1)),
                builder.pk_view() == pk@,
                builder.pending() == text_writes(cv, vv).take(i as int),
            decreases columns.len() - i,
        {
            let version = lookup_version(&versions, &columns[i].0);
            builder = builder.column_str(columns[i].0.as_str(), columns[i].1.as_str(), version);
            assert(builder.pending() =~= text_writes(cv, vv).take(i + 1));
            i = i + 1;
        }
        assert(text_writes(cv, vv).take(columns@.len() as int) =~= text_writes(cv, vv));
        builder.commit(&mut self.table)
    }

    /// Every cell, as a changeset.
    pub fn changeset(&self) -> (r: Changeset)
        requires
            self.wf(),
        ensures
            r.wf(),
            r.cells() == self.cells(),
    {
        self.table.changeset()
    }

    /// Merges a changeset as the byte table does.
    pub fn crr_merge(&mut self, changeset: &Changeset, policy: TieBreakPolicy) -> (r: Result<
        MergeReport,
        Error,
    >)
        requires
            old(self).wf(),
            changeset.wf(),
        ensures
            final(self).wf(),
            r is Err <==> merge_fails(old(self).cells(), changeset.cells(), policy),
            r is Err ==> final(self).cells() == old(self).cells() && final(self).histories()
                == old(self).histories(),
            r matches Ok(rep) ==> final(self).cells() == merge_cells(
                old(self).cells(),
                changeset.cells(),
                policy,
            ) && report_of(rep, old(self).cells(), changeset@, policy)
                && crate::table::merge_histories_ok(
                &old(self).store(),
                &final(self).store(),
                changeset.cells(),
                policy,
            ),
    {
        self.table.merge(changeset, policy)
    }
}

} // verus!
