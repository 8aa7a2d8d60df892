//! The replicated table: local writes, reads, merge of remote changesets, GC.
use vstd::prelude::*;

use vstd::math::min;

use crate::error::Error;
use crate::keyed::{keyed, lemma_keyed_dom, lemma_keyed_index, lemma_keyed_take, lemma_unique_take};
use crate::merge::{
    decide, is_conflict, is_inserted, is_skipped, is_updated, lemma_count_bound, lemma_count_step,
    lookup, merge_cells, merge_fails, merged, outcome, overflows, report_of, writes, CellOutcome,
    MergeReport, TieBreakPolicy,
};
use crate::row::{name_key, InsertBuilder, RowColumn, RowView, UpdateBuilder};
use crate::storage::{
    append_node, copy_bytes, is_row_of, keep_last, node_is, nodes_view, now_millis, pks_of,
    total_excess, Cell, DagNode, Key, MemoryStorage, NodeModel,
};
use crate::sync::{cell_map, entry_key, Changeset};

verus! {

/// What merging one incoming cell leaves in the column's history: a written cell
/// appends a node with the new version and value, whose parents are the local
/// version (when there was one) and, for a tie won, the incoming version.
pub open spec fn merge_history_ok(
    old_h: Seq<NodeModel>,
    new_h: Seq<NodeModel>,
    local: Option<(Seq<u8>, u64)>,
    value: Seq<u8>,
    version: u64,
    policy: TieBreakPolicy,
) -> bool {
    let o = outcome(local, value, version, policy);
    if writes(o) {
        &&& new_h.len() > 0
        &&& new_h == append_node(old_h, new_h.last())
        &&& node_is(
            new_h.last(),
            merged(local, value, version, policy).1,
            value,
            if local is Some && local.unwrap().1 > 0 {
                Some(local.unwrap().1)
            } else {
                None
            },
            if o == CellOutcome::ConflictWon {
                Some(version)
            } else {
                None
            },
            false,
        )
    } else {
        new_h == old_h
    }
}

/// The histories of store `new_t` after merging the incoming cells `cs` into
/// store `old_t`: keys of `cs` as `merge_history_ok` says, others unchanged.
pub open spec fn merge_histories_ok(
    old_t: &MemoryStorage,
    new_t: &MemoryStorage,
    cs: Map<Key, (Seq<u8>, u64)>,
    policy: TieBreakPolicy,
) -> bool {
    forall|k: Key|
        #![trigger new_t.history_of(k)]
        if cs.contains_key(k) {
            merge_history_ok(
                old_t.history_of(k),
                new_t.history_of(k),
                lookup(old_t.cells(), k),
                cs[k].0,
                cs[k].1,
                policy,
            )
        } else {
            new_t.history_of(k) == old_t.history_of(k)
        }
}

/// One peer's copy of a table: cells with versions and a history per column.
pub struct CrrTable {
    storage: MemoryStorage,
}

impl CrrTable {
    /// The store is well formed.
    pub closed spec fn wf(&self) -> bool {
        self.storage.wf()
    }

    /// The store behind the table.
    pub closed spec fn store(&self) -> MemoryStorage {
        self.storage
    }

    /// The live cells by `(pk, col)`.
    pub open spec fn cells(&self) -> Map<Key, (Seq<u8>, u64)> {
        self.store().cells()
    }

    /// The column histories by `(pk, col)`.
    pub open spec fn histories(&self) -> Map<Key, Seq<NodeModel>> {
        self.store().histories()
    }

    /// The history of a key, empty when absent.
    pub open spec fn history_of(&self, k: Key) -> Seq<NodeModel> {
        self.store().history_of(k)
    }

    /// Each live cell is backed by the newest node of its history.
    pub proof fn lemma_heads(&self)
        requires
            self.wf(),
        ensures
            self.store().heads_back_cells(),
    {
        self.storage.lemma_heads();
    }

    /// An empty table held in memory.
    pub fn open_in_memory() -> (r: CrrTable)
        ensures
            r.wf(),
            r.cells() == Map::<Key, (Seq<u8>, u64)>::empty(),
            r.histories() == Map::<Key, Seq<NodeModel>>::empty(),
    {
        CrrTable { storage: MemoryStorage::new() }
    }

    /// A table over the given store.
    pub fn with_storage(storage: MemoryStorage) -> (r: CrrTable)
        requires
            storage.wf(),
        ensures
            r.wf(),
            r.store() == storage,
    {
        CrrTable { storage }
    }

    /// Erases every cell and all history of `pk` (hard delete).
    pub fn delete(&mut self, pk: &str)
        requires
            old(self).wf(),
        ensures
            final(self).wf(),
            final(self).cells() == old(self).cells().remove_keys(Set::new(|k: Key| k.0 == pk@)),
            final(self).histories() == old(self).histories().remove_keys(
                Set::new(|k: Key| k.0 == pk@),
            ),
    {
        self.storage.delete_row(pk);
    }

    /// Number of rows.
    pub fn len(&self) -> (r: usize)
        requires
            self.wf(),
        ensures
            r == pks_of(self.cells()).len(),
    {
        self.storage.row_count()
    }

    /// Whether the table holds no cell.
    pub fn is_empty(&self) -> (r: bool)
        requires
            self.wf(),
        ensures
            r == (pks_of(self.cells()).len() == 0),
    {
        self.storage.row_count() == 0
    }

    /// The primary keys, each once.
    pub fn pks(&self) -> (r: Vec<String>)
        requires
            self.wf(),
        ensures
            crate::storage::strings_view(r@).no_duplicates(),
            crate::storage::strings_view(r@).to_set() == pks_of(self.cells()),
    {
        self.storage.all_pks()
    }

    /// Every cell of the table, as a changeset.
    pub fn changeset(&self) -> (r: Changeset)
        requires
            self.wf(),
        ensures
            r.wf(),
            r.cells() == self.cells(),
    {
        self.storage.export()
    }

    /// Cuts each column history to its newest `keep_versions` nodes (0 is taken
    /// as 1, so the node behind the current cell always stays) and returns how
    /// many nodes were dropped (saturating). Cells are untouched.
    pub fn gc(&mut self, keep_versions: usize) -> (r: usize)
        requires
            old(self).wf(),
        ensures
            final(self).wf(),
            final(self).cells() == old(self).cells(),
            final(self).histories() == old(self).histories().map_values(
                |h: Seq<NodeModel>| keep_last(h, gc_depth(keep_versions)),
            ),
            r as int == min(
                total_excess(old(self).histories(), gc_depth(keep_versions)) as int,
                usize::MAX as int,
            ),
    {
        let keep = if keep_versions == 0 { 1 } else { keep_versions };
        self.storage.gc_all(keep)
    }

    /// Whether both tables hold the same cells.
    pub fn same_cells(&self, other: &CrrTable) -> (r: bool)
        requires
            self.wf(),
            other.wf(),
        ensures
            r == (self.cells() == other.cells()),
    {
        let ca = self.changeset();
        let cb = other.changeset();
        let na = ca.column_count();
        let nb = cb.column_count();
        if na != nb {
            return false;
        }
        let ghost s = ca@;
        let mut i: usize = 0;
        while i < na
            invariant
                self.wf(),
                other.wf(),
                s == ca@,
                ca.wf(),
                ca.cells() == self.cells(),
                na == s.len(),
                i <= na,
                forall|j: int|
                    0 <= j < i ==> other.cells().contains_key(#[trigger] s[j].0) && other.cells()[s[j].0]
                        == s[j].1,
            decreases na - i,
        {
            let c = ca.cell(i);
            proof {
                lemma_keyed_index(s, entry_key(), i as int);
                assert(self.cells().contains_key(s[i as int].0));
                assert(self.cells()[s[i as int].0] == s[i as int].1);
            }
            match other.get_cell(&c.pk, &c.col) {
                None => {
                    return false;
                },
                Some(cell) => {
                    if cell.version != c.version || !crate::merge::bytes_eq(
                        cell.value.as_slice(),
                        c.value.as_slice(),
                    ) {
                        return false;
                    }
                },
            }
            i = i + 1;
        }
        proof {
            assert forall|k: Key| #[trigger] self.cells().contains_key(k) implies other.cells().contains_key(k)
                && other.cells()[k] == self.cells()[k] by {
                lemma_keyed_dom(s, entry_key(), k);
                let j = choose|j: int| 0 <= j < s.len() && entry_key()(s[j]) == k;
                lemma_keyed_index(s, entry_key(), j);
            }
            if exists|k: Key| other.cells().contains_key(k) && !self.cells().contains_key(k) {
                let k = choose|k: Key| other.cells().contains_key(k) && !self.cells().contains_key(k);
                self.cells().dom().lemma_subset_not_in_lt(other.cells().dom(), k);
            }
            assert(self.cells() =~= other.cells());
        }
        true
    }

    /// Starts a batch of column writes at caller-given versions for `pk`.
    pub fn insert(&self, pk: &str) -> (r: InsertBuilder)
        ensures
            r.pk_view() == pk@,
            r.pending() == Seq::<(Seq<char>, Seq<u8>, u64)>::empty(),
    {
        InsertBuilder::new(pk)
    }

    /// Starts a batch of column writes for `pk`, each one version past the current.
    pub fn update(&self, pk: &str) -> (r: UpdateBuilder)
        ensures
            r.pk_view() == pk@,
            r.pending() == Seq::<(Seq<char>, Seq<u8>)>::empty(),
    {
        UpdateBuilder::new(pk)
    }

    /// The cell at `(pk, col)`, if any.
    pub fn get_cell(&self, pk: &str, col: &str) -> (r: Option<Cell>)
        requires
            self.wf(),
        ensures
            r is Some <==> self.cells().contains_key((pk@, col@)),
            r matches Some(c) ==> c@ == self.cells()[(pk@, col@)],
    {
        self.storage.get_cell(pk, col)
    }

    /// The row of `pk` with the histories of its columns; `None` when it holds no cell.
    pub fn get(&self, pk: &str) -> (r: Option<RowView>)
        requires
            self.wf(),
        ensures
            r is None <==> !pks_of(self.cells()).contains(pk@),
            r matches Some(v) ==> {
                &&& v.wf()
                &&& v.pk_view() == pk@
                &&& v.col_map() == row_cells(self.cells(), pk@)
                &&& v.hist_map() == row_histories(self.histories(), pk@)
            },
    {
        match self.storage.get_row(pk) {
            None => None,
            Some(row) => {
                let mut cols: Vec<RowColumn> = Vec::new();
                let mut j: usize = 0;
                while j < row.cells.len()
                    invariant
                        self.wf(),
                        is_row_of(row, pk@, self.cells()),
                        j <= row.cells@.len(),
                        cols@.len() == j,
                        forall|x: int|
                            #![trigger cols@[x]]
                            0 <= x < j ==> cols@[x].name@ == row.cells@[x].0@ && cols@[x].cell@
                                == row.cells@[x].1@ && nodes_view(cols@[x].history@)
                                == self.history_of((pk@, row.cells@[x].0@)),
                    decreases row.cells@.len() - j,
                {
                    let name = row.cells[j].0.clone();
                    let cell = Cell {
                        value: copy_bytes(row.cells[j].1.value.as_slice()),
                        version: row.cells[j].1.version,
                    };
                    let history = self.storage.get_dag_history(pk, name.as_str());
                    cols.push(RowColumn { name, cell, history });
                    j = j + 1;
                }
                proof {
                    self.storage.lemma_heads();
                    assert forall|a: int, b: int| 0 <= a < b < cols@.len() implies name_key()(cols@[a]) != name_key()(cols@[b]) by {}
                }
                let ghost cs = cols@;
                let v = RowView::from_columns(row.pk, cols);
                proof {
                    assert forall|c: Seq<char>| #[trigger] keyed(cs, name_key()).contains_key(c) <==> self.cells().contains_key((pk@, c)) by {
                        lemma_keyed_dom(cs, name_key(), c);
                        if self.cells().contains_key((pk@, c)) {
                            let x = choose|x: int| 0 <= x < row.cells@.len() && row.cells@[x].0@ == c;
                            assert(name_key()(cs[x]) == c);
                        }
                    }
                    assert forall|c: Seq<char>| #[trigger] keyed(cs, name_key()).contains_key(c) implies keyed(cs, name_key())[c].cell@ == self.cells()[(pk@, c)]
                        && nodes_view(keyed(cs, name_key())[c].history@) == self.histories()[(pk@, c)] by {
                        lemma_keyed_dom(cs, name_key(), c);
                        let x = choose|x: int| 0 <= x < cs.len() && name_key()(cs[x]) == c;
                        lemma_keyed_index(cs, name_key(), x);
                    }
                    assert(v.col_map() =~= row_cells(self.cells(), pk@));
                    assert(v.hist_map() =~= row_histories(self.histories(), pk@));
                }
                Some(v)
            },
        }
    }

    /// Writes one cell and appends its history node.
    pub(crate) fn write_cell(
        &mut self,
        pk: &str,
        col: &str,
        value: &[u8],
        version: u64,
        parent: Option<u64>,
        parent2: Option<u64>,
    )
        requires
            old(self).wf(),
            old(self).cells().contains_key((pk@, col@)) ==> version >= old(self).cells()[(pk@, col@)].1,
        ensures
            final(self).wf(),
            final(self).cells() == old(self).cells().insert((pk@, col@), (value@, version)),
            final(self).histories() == old(self).histories().insert(
                (pk@, col@),
                final(self).history_of((pk@, col@)),
            ),
            final(self).history_of((pk@, col@)).len() > 0,
            final(self).history_of((pk@, col@)) == append_node(
                old(self).history_of((pk@, col@)),
                final(self).history_of((pk@, col@)).last(),
            ),
            node_is(
                final(self).history_of((pk@, col@)).last(),
                version,
                value@,
                parent,
                parent2,
                false,
            ),
    {
        let node = DagNode {
            version,
            value: copy_bytes(value),
            parent_version: parent,
            parent2_version: parent2,
            timestamp: now_millis(),
            is_tombstone: false,
        };
        let ghost nv = node@;
        self.storage.write(pk, col, copy_bytes(value), node);
        proof {
            assert(self.histories().contains_key((pk@, col@)));
            assert(self.history_of((pk@, col@)) == append_node(old(self).history_of((pk@, col@)), nv));
        }
    }

    /// Whether merging `cs` under `policy` succeeds: no tie won by an incoming
    /// cell sits at version `u64::MAX`.
    pub fn can_merge(&self, cs: &Changeset, policy: TieBreakPolicy) -> (r: bool)
        requires
            self.wf(),
            cs.wf(),
        ensures
            r == !merge_fails(self.cells(), cs.cells(), policy),
    {
        let n = cs.column_count();
        let ghost s = cs@;
        let ghost c0 = self.cells();
        let mut i: usize = 0;
        while i < n
            invariant
                self.wf(),
                self.cells() == c0,
                s == cs@,
                cs.wf(),
                n == s.len(),
                i <= n,
                forall|j: int|
                    0 <= j < i ==> !overflows(lookup(c0, #[trigger] s[j].0), s[j].1.0, s[j].1.1, policy),
            decreases n - i,
        {
            let c = cs.cell(i);
            let local = self.storage.get_cell(&c.pk, &c.col);
            let d = decide(&local, &c.value, c.version, policy);
            proof {
                assert(lookup(c0, s[i as int].0) == match local {
                    Some(l) => Some(l@),
                    None => None,
                });
            }
            if d == CellOutcome::ConflictWon && c.version == u64::MAX {
                proof {
                    lemma_keyed_index(s, entry_key(), i as int);
                    assert(cs.cells().contains_key(s[i as int].0));
                    assert(cs.cells()[s[i as int].0] == s[i as int].1);
                }
                return false;
            }
            i = i + 1;
        }
        proof {
            assert forall|k: Key| cs.cells().contains_key(k) implies !overflows(
                lookup(c0, k),
                cs.cells()[k].0,
                cs.cells()[k].1,
                policy,
            ) by {
                lemma_keyed_dom(s, entry_key(), k);
                let j = choose|j: int| 0 <= j < s.len() && entry_key()(s[j]) == k;
                lemma_keyed_index(s, entry_key(), j);
            }
        }
        true
    }

    /// Merges a remote changeset cell by cell. Fails, changing nothing, exactly
    /// when a tie won by the remote side would push a version past `u64::MAX`.
    pub fn merge(&mut self, cs: &Changeset, policy: TieBreakPolicy) -> (r: Result<MergeReport, Error>)
        requires
            old(self).wf(),
            cs.wf(),
        ensures
            final(self).wf(),
            r is Err <==> merge_fails(old(self).cells(), cs.cells(), policy),
            r is Err ==> final(self).cells() == old(self).cells() && final(self).histories()
                == old(self).histories(),
            r matches Ok(rep) ==> {
                &&& final(self).cells() == merge_cells(old(self).cells(), cs.cells(), policy)
                &&& report_of(rep, old(self).cells(), cs@, policy)
                &&& merge_histories_ok(&old(self).store(), &final(self).store(), cs.cells(), policy)
            },
    {
        if !self.can_merge(cs, policy) {
            return Err(Error::InvalidState("version overflow".to_owned()));
        }
        let n = cs.column_count();
        let ghost s = cs@;
        let ghost c0 = self.cells();
        let mut report = MergeReport::new();
        let mut i: usize = 0;
        proof {
            assert(s.take(0) =~= Seq::<(Key, (Seq<u8>, u64))>::empty());
            assert(cell_map(s.take(0)) =~= Map::<Key, (Seq<u8>, u64)>::empty());
            assert(merge_cells(c0, cell_map(s.take(0)), policy) =~= c0);
        }
        while i < n
            invariant
                self.wf(),
                s == cs@,
                cs.wf(),
                c0 == old(self).cells(),
                n == s.len(),
                i <= n,
                forall|k: Key|
                    cs.cells().contains_key(k) ==> !overflows(
                        lookup(c0, k),
                        #[trigger] cs.cells()[k].0,
                        cs.cells()[k].1,
                        policy,
                    ),
                self.cells() == merge_cells(c0, cell_map(s.take(i as int)), policy),
                report_of(report, c0, s.take(i as int), policy),
                merge_histories_ok(&old(self).store(), &self.store(), cell_map(s.take(i as int)), policy),
            decreases n - i,
        {
            let c = cs.cell(i);
            let ghost k: Key = s[i as int].0;
            let ghost pre = cell_map(s.take(i as int));
            let ghost st = self.store();
            proof {
                lemma_keyed_take(s, entry_key(), i as int);
                lemma_unique_take(s, entry_key(), i as int);
                if pre.contains_key(k) {
                    lemma_keyed_dom(s.take(i as int), entry_key(), k);
                    let j = choose|j: int| 0 <= j < i && entry_key()(s.take(i as int)[j]) == k;
                    assert(s.take(i as int)[j] == s[j]);
                }
                lemma_keyed_index(s, entry_key(), i as int);
                assert(cs.cells()[k] == s[i as int].1);
                assert(lookup(self.cells(), k) == lookup(c0, k));
                assert(st.history_of(k) == old(self).store().history_of(k));
            }
            let local = self.storage.get_cell(&c.pk, &c.col);
            let d = decide(&local, &c.value, c.version, policy);
            let ghost lv = lookup(c0, k);
            proof {
                assert(lv == match local {
                    Some(l) => Some(l@),
                    None => None,
                });
            }
            let local_version: u64 = match &local {
                Some(l) => l.version,
                None => 0,
            };
            let parent: Option<u64> = if local_version > 0 { Some(local_version) } else { None };
            proof {
                lemma_count_bound(c0, s.take(i as int), policy, is_inserted());
                lemma_count_bound(c0, s.take(i as int), policy, is_updated());
                lemma_count_bound(c0, s.take(i as int), policy, is_skipped());
                lemma_count_bound(c0, s.take(i as int), policy, is_conflict());
            }
            match d {
                CellOutcome::Inserted => {
                    self.write_cell(&c.pk, &c.col, c.value.as_slice(), c.version, parent, None);
                    report.inserted = report.inserted + 1;
                },
                CellOutcome::Updated => {
                    self.write_cell(&c.pk, &c.col, c.value.as_slice(), c.version, parent, None);
                    report.updated = report.updated + 1;
                },
                CellOutcome::ConflictWon => {
                    self.write_cell(
                        &c.pk,
                        &c.col,
                        c.value.as_slice(),
                        c.version + 1,
                        parent,
                        Some(c.version),
                    );
                    report.updated = report.updated + 1;
                    report.conflicts = report.conflicts + 1;
                },
                CellOutcome::ConflictKept => {
                    report.conflicts = report.conflicts + 1;
                },
                CellOutcome::Skipped => {
                    report.skipped = report.skipped + 1;
                },
            }
            proof {
                lemma_count_step(c0, s, i as int, policy, is_inserted());
                lemma_count_step(c0, s, i as int, policy, is_updated());
                lemma_count_step(c0, s, i as int, policy, is_skipped());
                lemma_count_step(c0, s, i as int, policy, is_conflict());
                let nxt = cell_map(s.take(i + 1));
                assert(nxt == pre.insert(k, s[i as int].1));
                assert(self.cells() =~= merge_cells(c0, nxt, policy));
                assert forall|k2: Key| #![trigger self.store().history_of(k2)] if nxt.contains_key(k2) {
                    merge_history_ok(
                        old(self).store().history_of(k2),
                        self.store().history_of(k2),
                        lookup(old(self).store().cells(), k2),
                        nxt[k2].0,
                        nxt[k2].1,
                        policy,
                    )
                } else {
                    self.store().history_of(k2) == old(self).store().history_of(k2)
                } by {
                    if k2 != k {
                        assert(self.store().history_of(k2) == st.history_of(k2));
                    }
                }
            }
            i = i + 1;
        }
        proof {
            assert(s.take(n as int) =~= s);
        }
        Ok(report)
    }
}

/// The cells of one primary key, by column.
pub open spec fn row_cells(cells: Map<Key, (Seq<u8>, u64)>, pk: Seq<char>) -> Map<
    Seq<char>,
    (Seq<u8>, u64),
> {
    Map::new(|c: Seq<char>| cells.contains_key((pk, c)), |c: Seq<char>| cells[(pk, c)])
}

/// The histories of one primary key, by column.
pub open spec fn row_histories(hs: Map<Key, Seq<NodeModel>>, pk: Seq<char>) -> Map<
    Seq<char>,
    Seq<NodeModel>,
> {
    Map::new(|c: Seq<char>| hs.contains_key((pk, c)), |c: Seq<char>| hs[(pk, c)])
}

/// The depth that `gc(keep_versions)` keeps: zero is taken as one.
pub open spec fn gc_depth(keep_versions: usize) -> nat {
    if keep_versions == 0 {
        1
    } else {
        keep_versions as nat
    }
}

} // verus!
