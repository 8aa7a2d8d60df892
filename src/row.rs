//! Row views and the insert / update builders.
use vstd::prelude::*;

use vstd::utf8::{encode_utf8, valid_utf8};

use crate::error::Error;
use crate::keyed::{keyed, keys_unique, lemma_keyed_dom, lemma_keyed_index};
use crate::storage::{
    append_facts, copy_bytes, lemma_strip_append, nodes_view, strip, strip_all, Cell, DagNode, Key,
    NodeFacts, NodeModel,
};
use crate::table::CrrTable;

verus! {

/// One column of a row view: its name, cell and history.
pub struct RowColumn {
    pub name: String,
    pub cell: Cell,
    pub history: Vec<DagNode>,
}

/// The key of a row view column.
pub open spec fn name_key() -> spec_fn(RowColumn) -> Seq<char> {
    |c: RowColumn| c.name@
}

/// A read-only copy of one row: its cells and their histories.
pub struct RowView {
    pk: String,
    columns: Vec<RowColumn>,
}

/// Relies on `String::from_utf8`: `Ok` exactly for valid UTF-8, holding those bytes.
#[verifier::external_body]
fn utf8_to_string(bytes: Vec<u8>) -> (r: Option<String>)
    ensures
        r is Some <==> valid_utf8(bytes@),
        r matches Some(s) ==> encode_utf8(s@) == bytes@,
{
    String::from_utf8(bytes).ok()
}

impl RowView {
    /// Column names are unique.
    pub closed spec fn wf(&self) -> bool {
        keys_unique(self.columns@, name_key())
    }

    /// The primary key.
    pub closed spec fn pk_view(&self) -> Seq<char> {
        self.pk@
    }

    /// The cells by column name.
    pub closed spec fn col_map(&self) -> Map<Seq<char>, (Seq<u8>, u64)> {
        keyed(self.columns@, name_key()).map_values(|c: RowColumn| c.cell@)
    }

    /// The histories by column name.
    pub closed spec fn hist_map(&self) -> Map<Seq<char>, Seq<NodeModel>> {
        keyed(self.columns@, name_key()).map_values(|c: RowColumn| nodes_view(c.history@))
    }

    /// A view from columns with unique names.
    pub fn from_columns(pk: String, columns: Vec<RowColumn>) -> (r: RowView)
        requires
            keys_unique(columns@, name_key()),
        ensures
            r.wf(),
            r.pk_view() == pk@,
            r.col_map() == keyed(columns@, name_key()).map_values(|c: RowColumn| c.cell@),
            r.hist_map() == keyed(columns@, name_key()).map_values(
                |c: RowColumn| nodes_view(c.history@),
            ),
    {
        RowView { pk, columns }
    }

    /// The index of the column named `col`.
    fn find(&self, col: &str) -> (r: Option<usize>)
        requires
            self.wf(),
        ensures
            r is None <==> !self.col_map().contains_key(col@),
            r matches Some(i) ==> i < self.columns@.len() && self.col_map()[col@]
                == self.columns@[i as int].cell@ && self.hist_map()[col@] == nodes_view(
                self.columns@[i as int].history@,
            ),
    {
        let c = col.to_owned();
        let mut i: usize = 0;
        while i < self.columns.len()
            invariant
                self.wf(),
                c@ == col@,
                i <= self.columns@.len(),
                forall|j: int| 0 <= j < i ==> name_key()(self.columns@[j]) != col@,
            decreases self.columns.len() - i,
        {
            if self.columns[i].name == c {
                proof {
                    lemma_keyed_index(self.columns@, name_key(), i as int);
                }
                return Some(i);
            }
            i = i + 1;
        }
        proof {
            lemma_keyed_dom(self.columns@, name_key(), col@);
        }
        None
    }

    /// The primary key.
    pub fn pk(&self) -> (r: &str)
        ensures
            r@ == self.pk_view(),
    {
        self.pk.as_str()
    }

    /// The value of column `col`.
    pub fn get(&self, col: &str) -> (r: Option<&[u8]>)
        requires
            self.wf(),
        ensures
            r is Some <==> self.col_map().contains_key(col@),
            r matches Some(b) ==> b@ == self.col_map()[col@].0,
    {
        match self.find(col) {
            None => None,
            Some(i) => Some(self.columns[i].cell.value.as_slice()),
        }
    }

    /// The value of column `col` read as UTF-8 text; `None` when absent or not UTF-8.
    pub fn get_string(&self, col: &str) -> (r: Option<String>)
        requires
            self.wf(),
        ensures
            r is Some <==> self.col_map().contains_key(col@) && valid_utf8(self.col_map()[col@].0),
            r matches Some(s) ==> encode_utf8(s@) == self.col_map()[col@].0,
    {
        match self.find(col) {
            None => None,
            Some(i) => utf8_to_string(copy_bytes(self.columns[i].cell.value.as_slice())),
        }
    }

    /// The version of column `col`.
    pub fn version(&self, col: &str) -> (r: Option<u64>)
        requires
            self.wf(),
        ensures
            r is Some <==> self.col_map().contains_key(col@),
            r matches Some(v) ==> v == self.col_map()[col@].1,
    {
        match self.find(col) {
            None => None,
            Some(i) => Some(self.columns[i].cell.version),
        }
    }

    /// Every column as `(name, value, version)`.
    pub fn columns(&self) -> (r: Vec<(String, Vec<u8>, u64)>)
        requires
            self.wf(),
        ensures
            r@.len() == self.col_map().len(),
            forall|j: int|
                #![trigger r@[j]]
                0 <= j < r@.len() ==> self.col_map().contains_key(r@[j].0@) && self.col_map()[r@[j].0@]
                    == (r@[j].1@, r@[j].2),
            forall|c: Seq<char>|
                #[trigger] self.col_map().contains_key(c) ==> exists|j: int|
                    0 <= j < r@.len() && r@[j].0@ == c,
    {
        let mut out: Vec<(String, Vec<u8>, u64)> = Vec::new();
        let mut i: usize = 0;
        while i < self.columns.len()
            invariant
                self.wf(),
                i <= self.columns@.len(),
                out@.len() == i,
                forall|j: int|
                    #![trigger out@[j]]
                    0 <= j < i ==> out@[j].0@ == self.columns@[j].name@ && (out@[j].1@, out@[j].2)
                        == self.columns@[j].cell@,
            decreases self.columns.len() - i,
        {
            let c = &self.columns[i];
            out.push((c.name.clone(), copy_bytes(c.cell.value.as_slice()), c.cell.version));
            i = i + 1;
        }
        proof {
            crate::keyed::lemma_keyed_len(self.columns@, name_key());
            assert(self.col_map().dom() =~= keyed(self.columns@, name_key()).dom());
            assert forall|j: int| #![trigger out@[j]] 0 <= j < out@.len() implies self.col_map().contains_key(out@[j].0@)
                && self.col_map()[out@[j].0@] == (out@[j].1@, out@[j].2) by {
                lemma_keyed_index(self.columns@, name_key(), j);
            }
            assert forall|c: Seq<char>| #[trigger] self.col_map().contains_key(c) implies exists|j: int|
                0 <= j < out@.len() && out@[j].0@ == c by {
                lemma_keyed_dom(self.columns@, name_key(), c);
                let j = choose|j: int| 0 <= j < self.columns@.len() && name_key()(self.columns@[j]) == c;
                assert(out@[j].0@ == c);
            }
        }
        out
    }

    /// Every column name.
    pub fn column_names(&self) -> (r: Vec<String>)
        requires
            self.wf(),
        ensures
            r@.len() == self.col_map().len(),
            forall|j: int| 0 <= j < r@.len() ==> self.col_map().contains_key(#[trigger] r@[j]@),
            forall|c: Seq<char>|
                #[trigger] self.col_map().contains_key(c) ==> exists|j: int|
                    0 <= j < r@.len() && r@[j]@ == c,
    {
        let mut out: Vec<String> = Vec::new();
        let mut i: usize = 0;
        while i < self.columns.len()
            invariant
                self.wf(),
                i <= self.columns@.len(),
                out@.len() == i,
                forall|j: int| #![trigger out@[j]] 0 <= j < i ==> out@[j]@ == self.columns@[j].name@,
            decreases self.columns.len() - i,
        {
            out.push(self.columns[i].name.clone());
            i = i + 1;
        }
        proof {
            crate::keyed::lemma_keyed_len(self.columns@, name_key());
            assert(self.col_map().dom() =~= keyed(self.columns@, name_key()).dom());
            assert forall|j: int| 0 <= j < out@.len() implies self.col_map().contains_key(#[trigger] out@[j]@) by {
                lemma_keyed_index(self.columns@, name_key(), j);
            }
            assert forall|c: Seq<char>| #[trigger] self.col_map().contains_key(c) implies exists|j: int|
                0 <= j < out@.len() && out@[j]@ == c by {
                lemma_keyed_dom(self.columns@, name_key(), c);
                let j = choose|j: int| 0 <= j < self.columns@.len() && name_key()(self.columns@[j]) == c;
                assert(out@[j]@ == c);
            }
        }
        out
    }

    /// The history of column `col`, oldest first.
    pub fn dag_history(&self, col: &str) -> (r: Option<&[DagNode]>)
        requires
            self.wf(),
        ensures
            r is Some <==> self.hist_map().contains_key(col@),
            r matches Some(h) ==> nodes_view(h@) == self.hist_map()[col@],
    {
        match self.find(col) {
            None => None,
            Some(i) => Some(self.columns[i].history.as_slice()),
        }
    }
}

/// The cells after writing `w` in order under primary key `pk`, each column at
/// its given version, and whether a write stopped at a column whose current
/// version is above the given one (versions never go down; the writes before
/// it stay).
pub open spec fn apply_inserts(
    m: Map<Key, (Seq<u8>, u64)>,
    pk: Seq<char>,
    w: Seq<(Seq<char>, Seq<u8>, u64)>,
) -> (Map<Key, (Seq<u8>, u64)>, bool)
    decreases w.len(),
{
    if w.len() == 0 {
        (m, false)
    } else {
        let prev = apply_inserts(m, pk, w.drop_last());
        let k = (pk, w.last().0);
        if prev.1 || (prev.0.contains_key(k) && prev.0[k].1 > w.last().2) {
            (prev.0, true)
        } else {
            (prev.0.insert(k, (w.last().1, w.last().2)), false)
        }
    }
}

/// Once an insert has stopped, the later ones change nothing.
pub proof fn lemma_inserts_stop(
    m: Map<Key, (Seq<u8>, u64)>,
    hs: Map<Key, Seq<NodeFacts>>,
    pk: Seq<char>,
    w: Seq<(Seq<char>, Seq<u8>, u64)>,
    j: int,
)
    requires
        0 <= j <= w.len(),
        apply_inserts(m, pk, w.take(j)).1,
    ensures
        apply_inserts(m, pk, w) == apply_inserts(m, pk, w.take(j)),
        insert_histories(hs, m, pk, w) == insert_histories(hs, m, pk, w.take(j)),
    decreases w.len(),
{
    if j == w.len() {
        assert(w.take(j) =~= w);
    } else {
        assert(w.drop_last().take(j) =~= w.take(j));
        lemma_inserts_stop(m, hs, pk, w.drop_last(), j);
    }
}

/// The history of `k` in `hs`, empty when absent.
pub open spec fn facts_at(hs: Map<Key, Seq<NodeFacts>>, k: Key) -> Seq<NodeFacts> {
    if hs.contains_key(k) {
        hs[k]
    } else {
        Seq::empty()
    }
}

/// The parent a write of `k` records: the version it replaces, none when
/// absent or 0.
pub open spec fn parent_in(m: Map<Key, (Seq<u8>, u64)>, k: Key) -> Option<u64> {
    if m.contains_key(k) && m[k].1 > 0 {
        Some(m[k].1)
    } else {
        None
    }
}

/// The histories (timestamps left out) after the writes `apply_inserts` makes:
/// each write appends a node with its version and value whose parent is the
/// version it replaced.
pub open spec fn insert_histories(
    hs: Map<Key, Seq<NodeFacts>>,
    m: Map<Key, (Seq<u8>, u64)>,
    pk: Seq<char>,
    w: Seq<(Seq<char>, Seq<u8>, u64)>,
) -> Map<Key, Seq<NodeFacts>>
    decreases w.len(),
{
    if w.len() == 0 {
        hs
    } else {
        let prev = insert_histories(hs, m, pk, w.drop_last());
        let cells = apply_inserts(m, pk, w.drop_last()).0;
        let k = (pk, w.last().0);
        if apply_inserts(m, pk, w).1 {
            prev
        } else {
            prev.insert(
                k,
                append_facts(
                    facts_at(prev, k),
                    (w.last().2, w.last().1, parent_in(cells, k), None, false),
                ),
            )
        }
    }
}

/// The histories (timestamps left out) after the writes `apply_updates` makes,
/// up to the write that stopped, if any.
pub open spec fn update_histories(
    hs: Map<Key, Seq<NodeFacts>>,
    m: Map<Key, (Seq<u8>, u64)>,
    pk: Seq<char>,
    w: Seq<(Seq<char>, Seq<u8>)>,
) -> Map<Key, Seq<NodeFacts>>
    decreases w.len(),
{
    if w.len() == 0 {
        hs
    } else {
        let prev = update_histories(hs, m, pk, w.drop_last());
        let before = apply_updates(m, pk, w.drop_last());
        let k = (pk, w.last().0);
        if apply_updates(m, pk, w).1 {
            prev
        } else {
            prev.insert(
                k,
                append_facts(
                    facts_at(prev, k),
                    (next_version(before.0, k) as u64, w.last().1, parent_in(before.0, k), None, false),
                ),
            )
        }
    }
}

/// The version a local write of key `k` gets: one past the current, 1 if absent.
pub open spec fn next_version(m: Map<Key, (Seq<u8>, u64)>, k: Key) -> int {
    if m.contains_key(k) {
        m[k].1 + 1
    } else {
        1
    }
}

/// The cells after writing `w` in order under `pk`, each column one version
/// past its current one, and whether a write stopped at a version of `u64::MAX`
/// (the writes before it stay).
pub open spec fn apply_updates(
    m: Map<Key, (Seq<u8>, u64)>,
    pk: Seq<char>,
    w: Seq<(Seq<char>, Seq<u8>)>,
) -> (Map<Key, (Seq<u8>, u64)>, bool)
    decreases w.len(),
{
    if w.len() == 0 {
        (m, false)
    } else {
        let prev = apply_updates(m, pk, w.drop_last());
        let k = (pk, w.last().0);
        if prev.1 || (prev.0.contains_key(k) && prev.0[k].1 == u64::MAX) {
            (prev.0, true)
        } else {
            (prev.0.insert(k, (w.last().1, next_version(prev.0, k) as u64)), false)
        }
    }
}

/// Once a write has stopped, the later ones change nothing.
pub proof fn lemma_updates_stop(
    m: Map<Key, (Seq<u8>, u64)>,
    pk: Seq<char>,
    w: Seq<(Seq<char>, Seq<u8>)>,
    j: int,
)
    requires
        0 <= j <= w.len(),
        apply_updates(m, pk, w.take(j)).1,
    ensures
        apply_updates(m, pk, w) == apply_updates(m, pk, w.take(j)),
    decreases w.len(),
{
    if j == w.len() {
        assert(w.take(j) =~= w);
    } else {
        assert(w.drop_last().take(j) =~= w.take(j));
        lemma_updates_stop(m, pk, w.drop_last(), j);
    }
}

/// Once a write has stopped, the later ones leave the histories alone.
pub proof fn lemma_update_histories_stop(
    hs: Map<Key, Seq<NodeFacts>>,
    m: Map<Key, (Seq<u8>, u64)>,
    pk: Seq<char>,
    w: Seq<(Seq<char>, Seq<u8>)>,
    j: int,
)
    requires
        0 <= j <= w.len(),
        apply_updates(m, pk, w.take(j)).1,
    ensures
        update_histories(hs, m, pk, w) == update_histories(hs, m, pk, w.take(j)),
    decreases w.len(),
{
    if j == w.len() {
        assert(w.take(j) =~= w);
    } else {
        assert(w.drop_last().take(j) =~= w.take(j));
        lemma_updates_stop(m, pk, w, j);
        lemma_update_histories_stop(hs, m, pk, w.drop_last(), j);
    }
}

/// Columns written with the version the caller gives.
pub struct InsertBuilder {
    pk: String,
    columns: Vec<(String, Vec<u8>, u64)>,
}

impl InsertBuilder {
    /// The primary key written.
    pub closed spec fn pk_view(&self) -> Seq<char> {
        self.pk@
    }

    /// The pending writes, in order.
    pub closed spec fn pending(&self) -> Seq<(Seq<char>, Seq<u8>, u64)> {
        self.columns@.map_values(|c: (String, Vec<u8>, u64)| (c.0@, c.1@, c.2))
    }

    /// A builder for `pk` with nothing pending.
    pub fn new(pk: &str) -> (r: InsertBuilder)
        ensures
            r.pk_view() == pk@,
            r.pending() == Seq::<(Seq<char>, Seq<u8>, u64)>::empty(),
    {
        let r = InsertBuilder { pk: pk.to_owned(), columns: Vec::new() };
        assert(r.pending() =~= Seq::<(Seq<char>, Seq<u8>, u64)>::empty());
        r
    }

    /// Adds a write of `value` at `version` to column `name`.
    pub fn column(self, name: &str, value: &[u8], version: u64) -> (r: InsertBuilder)
        ensures
            r.pk_view() == self.pk_view(),
            r.pending() == self.pending().push((name@, value@, version)),
    {
        let mut b = self;
        let ghost before = b.pending();
        b.columns.push((name.to_owned(), copy_bytes(value), version));
        assert(b.pending() =~= before.push((name@, value@, version)));
        b
    }

    /// Adds a write of the UTF-8 bytes of `value` at `version` to column `name`.
    pub fn column_str(self, name: &str, value: &str, version: u64) -> (r: InsertBuilder)
        ensures
            r.pk_view() == self.pk_view(),
            r.pending() == self.pending().push((name@, encode_utf8(value@), version)),
    {
        self.column(name, value.as_bytes(), version)
    }

    /// Writes every pending column in order: each overwrites its cell and appends
    /// a history node whose parent is the version it replaced (none if absent or 0).
    /// Stops with `InvalidState` at a column whose current version is above the
    /// given one; the columns before it stay written.
    pub fn commit(self, table: &mut CrrTable) -> (r: Result<(), Error>)
        requires
            old(table).wf(),
        ensures
            r is Err <==> apply_inserts(old(table).cells(), self.pk_view(), self.pending()).1,
            final(table).wf(),
            final(table).cells() == apply_inserts(old(table).cells(), self.pk_view(), self.pending()).0,
            strip_all(final(table).histories()) == insert_histories(
                strip_all(old(table).histories()),
                old(table).cells(),
                self.pk_view(),
                self.pending(),
            ),
            forall|k: Key|
                k.0 != self.pk_view() ==> #[trigger] final(table).history_of(k) == old(table).history_of(k),
    {
        let ghost w = self.pending();
        let mut i: usize = 0;
        while i < self.columns.len()
            invariant
                table.wf(),
                w == self.pending(),
                i <= w.len(),
                !apply_inserts(old(table).cells(), self.pk@, w.take(i as int)).1,
                table.cells() == apply_inserts(old(table).cells(), self.pk@, w.take(i as int)).0,
                strip_all(table.histories()) == insert_histories(
                    strip_all(old(table).histories()),
                    old(table).cells(),
                    self.pk@,
                    w.take(i as int),
                ),
                forall|k: Key|
                    k.0 != self.pk@ ==> #[trigger] table.history_of(k) == old(table).history_of(k),
            decreases w.len() - i,
        {
            let c = &self.columns[i];
            proof {
                assert(w.take(i + 1).drop_last() =~= w.take(i as int));
                assert(w.take(i + 1).last() == w[i as int]);
            }
            let current = table.get_cell(self.pk.as_str(), c.0.as_str());
            let newer = match &current {
                Some(cell) => cell.version > c.2,
                None => false,
            };
            if newer {
                proof {
                    lemma_inserts_stop(old(table).cells(), strip_all(old(table).histories()), self.pk@, w, i + 1);
                }
                return Err(Error::InvalidState("version below the current one".to_owned()));
            }
            let parent: Option<u64> = match &current {
                Some(cell) => if cell.version > 0 {
                    Some(cell.version)
                } else {
                    None
                },
                None => None,
            };
            let ghost t0 = *table;
            table.write_cell(self.pk.as_str(), c.0.as_str(), c.1.as_slice(), c.2, parent, None);
            proof {
                assert(w.take(i + 1).drop_last() =~= w.take(i as int));
                assert(w.take(i + 1).last() == w[i as int]);
                let k = (self.pk@, c.0@);
                lemma_strip_append(t0.history_of(k), table.history_of(k).last());
                assert(facts_at(strip_all(t0.histories()), k) == strip(t0.history_of(k)));
                assert(strip_all(table.histories()) =~= strip_all(t0.histories()).insert(
                    k,
                    strip(table.history_of(k)),
                ));
                assert forall|k: Key| k.0 != self.pk@ implies #[trigger] table.history_of(k) == old(table).history_of(k) by {
                    assert(table.history_of(k) == t0.history_of(k));
                }
            }
            i = i + 1;
        }
        proof {
            assert(w.take(w.len() as int) =~= w);
        }
        Ok(())
    }
}

/// Columns written one version past their current one.
pub struct UpdateBuilder {
    pk: String,
    columns: Vec<(String, Vec<u8>)>,
}

impl UpdateBuilder {
    /// The primary key written.
    pub closed spec fn pk_view(&self) -> Seq<char> {
        self.pk@
    }

    /// The pending writes, in order.
    pub closed spec fn pending(&self) -> Seq<(Seq<char>, Seq<u8>)> {
        self.columns@.map_values(|c: (String, Vec<u8>)| (c.0@, c.1@))
    }

    /// A builder for `pk` with nothing pending.
    pub fn new(pk: &str) -> (r: UpdateBuilder)
        ensures
            r.pk_view() == pk@,
            r.pending() == Seq::<(Seq<char>, Seq<u8>)>::empty(),
    {
        let r = UpdateBuilder { pk: pk.to_owned(), columns: Vec::new() };
        assert(r.pending() =~= Seq::<(Seq<char>, Seq<u8>)>::empty());
        r
    }

    /// Adds a write of `value` to column `name`.
    pub fn column(self, name: &str, value: &[u8]) -> (r: UpdateBuilder)
        ensures
            r.pk_view() == self.pk_view(),
            r.pending() == self.pending().push((name@, value@)),
    {
        let mut b = self;
        let ghost before = b.pending();
        b.columns.push((name.to_owned(), copy_bytes(value)));
        assert(b.pending() =~= before.push((name@, value@)));
        b
    }

    /// Adds a write of the UTF-8 bytes of `value` to column `name`.
    pub fn column_str(self, name: &str, value: &str) -> (r: UpdateBuilder)
        ensures
            r.pk_view() == self.pk_view(),
            r.pending() == self.pending().push((name@, encode_utf8(value@))),
    {
        self.column(name, value.as_bytes())
    }

    /// Writes every pending column in order, each one version past its current
    /// one (1 if absent), appending a history node whose parent is the replaced
    /// version. Stops with `InvalidState` at a column already at `u64::MAX`; the
    /// columns before it stay written.
    pub fn commit(self, table: &mut CrrTable) -> (r: Result<(), Error>)
        requires
            old(table).wf(),
        ensures
            final(table).wf(),
            r is Err <==> apply_updates(old(table).cells(), self.pk_view(), self.pending()).1,
            final(table).cells() == apply_updates(old(table).cells(), self.pk_view(), self.pending()).0,
            strip_all(final(table).histories()) == update_histories(
                strip_all(old(table).histories()),
                old(table).cells(),
                self.pk_view(),
                self.pending(),
            ),
            forall|k: Key|
                k.0 != self.pk_view() ==> #[trigger] final(table).history_of(k) == old(table).history_of(k),
    {
        let ghost w = self.pending();
        let ghost m0 = old(table).cells();
        let ghost h0 = strip_all(old(table).histories());
        let mut i: usize = 0;
        while i < self.columns.len()
            invariant
                table.wf(),
                w == self.pending(),
                m0 == old(table).cells(),
                h0 == strip_all(old(table).histories()),
                i <= w.len(),
                !apply_updates(m0, self.pk@, w.take(i as int)).1,
                table.cells() == apply_updates(m0, self.pk@, w.take(i as int)).0,
                strip_all(table.histories()) == update_histories(h0, m0, self.pk@, w.take(i as int)),
                forall|k: Key|
                    k.0 != self.pk@ ==> #[trigger] table.history_of(k) == old(table).history_of(k),
            decreases w.len() - i,
        {
            let c = &self.columns[i];
            proof {
                assert(w.take(i + 1).drop_last() =~= w.take(i as int));
                assert(w.take(i + 1).last() == w[i as int]);
            }
            let current = table.get_cell(self.pk.as_str(), c.0.as_str());
            let (version, parent): (u64, Option<u64>) = match &current {
                Some(cell) => {
                    if cell.version == u64::MAX {
                        proof {
                            lemma_updates_stop(m0, self.pk@, w, i + 1);
                            lemma_update_histories_stop(h0, m0, self.pk@, w, i + 1);
                            assert(update_histories(h0, m0, self.pk@, w.take(i + 1)) == update_histories(
                                h0,
                                m0,
                                self.pk@,
                                w.take(i as int),
                            ));
                        }
                        return Err(Error::InvalidState("version overflow".to_owned()));
                    }
                    (cell.version + 1, if cell.version > 0 {
                        Some(cell.version)
                    } else {
                        None
                    })
                },
                None => (1, None),
            };
            let ghost t0 = *table;
            table.write_cell(self.pk.as_str(), c.0.as_str(), c.1.as_slice(), version, parent, None);
            proof {
                let k = (self.pk@, c.0@);
                lemma_strip_append(t0.history_of(k), table.history_of(k).last());
                assert(facts_at(strip_all(t0.histories()), k) == strip(t0.history_of(k)));
                assert(strip_all(table.histories()) =~= strip_all(t0.histories()).insert(
                    k,
                    strip(table.history_of(k)),
                ));
                assert forall|k: Key| k.0 != self.pk@ implies #[trigger] table.history_of(k) == old(table).history_of(k) by {
                    assert(table.history_of(k) == t0.history_of(k));
                }
            }
            i = i + 1;
        }
        proof {
            assert(w.take(w.len() as int) =~= w);
        }
        Ok(())
    }
}

} // verus!
