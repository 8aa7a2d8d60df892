//! Cells, history nodes and the in-process store.
use vstd::prelude::*;

use vstd::math::min;

use crate::sync::Changeset;

use crate::keyed::{
    keyed, keys_unique, lemma_keyed_dom, lemma_keyed_index, lemma_keyed_push,
    lemma_keyed_remove, lemma_keyed_update,
};

verus! {

/// A `(pk, col)` address, as character sequences.
pub type Key = (Seq<char>, Seq<char>);

/// A value with its version.
#[derive(Debug)]
pub struct Cell {
    pub value: Vec<u8>,
    pub version: u64,
}

impl View for Cell {
    type V = (Seq<u8>, u64);

    open spec fn view(&self) -> (Seq<u8>, u64) {
        (self.value@, self.version)
    }
}

/// One recorded value of a column, with links to the versions it came from.
#[derive(Debug)]
pub struct DagNode {
    pub version: u64,
    pub value: Vec<u8>,
    pub parent_version: Option<u64>,
    pub parent2_version: Option<u64>,
    pub timestamp: u64,
    pub is_tombstone: bool,
}

/// What a history node records, with the value as a byte sequence.
pub struct NodeModel {
    pub version: u64,
    pub value: Seq<u8>,
    pub parent_version: Option<u64>,
    pub parent2_version: Option<u64>,
    pub timestamp: u64,
    pub is_tombstone: bool,
}

impl View for DagNode {
    type V = NodeModel;

    open spec fn view(&self) -> NodeModel {
        NodeModel {
            version: self.version,
            value: self.value@,
            parent_version: self.parent_version,
            parent2_version: self.parent2_version,
            timestamp: self.timestamp,
            is_tombstone: self.is_tombstone,
        }
    }
}

/// All live cells of one primary key.
#[derive(Debug)]
pub struct Row {
    pub pk: String,
    pub cells: Vec<(String, Cell)>,
}

/// Relies on `SystemTime::elapsed` from the Unix epoch: wall-clock
/// milliseconds, 0 for a clock set before the epoch. Informational only;
/// nothing is known of the value.
#[verifier::external_body]
pub fn now_millis() -> u64 {
    match std::time::UNIX_EPOCH.elapsed() {
        Ok(d) => d.as_millis() as u64,
        Err(_) => 0,
    }
}

/// A copy of a byte vector.
pub fn copy_bytes(b: &[u8]) -> (r: Vec<u8>)
    ensures
        r@ == b@,
{
    let mut r: Vec<u8> = Vec::new();
    let mut i: usize = 0;
    while i < b.len()
        invariant
            i <= b@.len(),
            r@ == b@.take(i as int),
        decreases b.len() - i,
    {
        r.push(b[i]);
        i = i + 1;
        assert(r@ =~= b@.take(i as int));
    }
    assert(b@.take(b@.len() as int) =~= b@);
    r
}

impl DagNode {
    /// A copy of this node.
    pub fn copy(&self) -> (r: DagNode)
        ensures
            r@ == self@,
    {
        DagNode {
            version: self.version,
            value: copy_bytes(&self.value),
            parent_version: self.parent_version,
            parent2_version: self.parent2_version,
            timestamp: self.timestamp,
            is_tombstone: self.is_tombstone,
        }
    }
}

/// A copy of a sequence of history nodes.
pub fn copy_nodes(v: &Vec<DagNode>) -> (r: Vec<DagNode>)
    ensures
        nodes_view(r@) == nodes_view(v@),
{
    let mut r: Vec<DagNode> = Vec::new();
    let mut i: usize = 0;
    while i < v.len()
        invariant
            i <= v@.len(),
            r@.len() == i,
            forall|j: int| 0 <= j < i ==> (#[trigger] r@[j])@ == v@[j]@,
        decreases v.len() - i,
    {
        r.push(v[i].copy());
        i = i + 1;
    }
    assert(nodes_view(r@) =~= nodes_view(v@));
    r
}

/// The models of a sequence of nodes.
pub open spec fn nodes_view(s: Seq<DagNode>) -> Seq<NodeModel> {
    s.map_values(|n: DagNode| n@)
}

/// Appends a node to a column history; a node whose version equals that of the
/// newest node replaces it.
pub open spec fn append_node(h: Seq<NodeModel>, n: NodeModel) -> Seq<NodeModel> {
    if h.len() > 0 && h.last().version == n.version {
        h.drop_last().push(n)
    } else {
        h.push(n)
    }
}

/// What a history node records apart from its timestamp:
/// `(version, value, parent, second parent, tombstone)`.
pub type NodeFacts = (u64, Seq<u8>, Option<u64>, Option<u64>, bool);

/// The facts of a node, its timestamp left out.
pub open spec fn facts_of(n: NodeModel) -> NodeFacts {
    (n.version, n.value, n.parent_version, n.parent2_version, n.is_tombstone)
}

/// A history with timestamps left out.
pub open spec fn strip(h: Seq<NodeModel>) -> Seq<NodeFacts> {
    h.map_values(|n: NodeModel| facts_of(n))
}

/// Histories by key with timestamps left out.
pub open spec fn strip_all(hs: Map<Key, Seq<NodeModel>>) -> Map<Key, Seq<NodeFacts>> {
    hs.map_values(|h: Seq<NodeModel>| strip(h))
}

/// `append_node` on histories with timestamps left out.
pub open spec fn append_facts(h: Seq<NodeFacts>, f: NodeFacts) -> Seq<NodeFacts> {
    if h.len() > 0 && h.last().0 == f.0 {
        h.drop_last().push(f)
    } else {
        h.push(f)
    }
}

/// Leaving out timestamps commutes with appending a node.
pub proof fn lemma_strip_append(h: Seq<NodeModel>, n: NodeModel)
    ensures
        strip(append_node(h, n)) == append_facts(strip(h), facts_of(n)),
{
    if h.len() > 0 && h.last().version == n.version {
        assert(strip(append_node(h, n)) =~= append_facts(strip(h), facts_of(n)));
    } else {
        assert(strip(append_node(h, n)) =~= append_facts(strip(h), facts_of(n)));
    }
}

/// Versions strictly increase along a history.
pub open spec fn ascending(h: Seq<NodeModel>) -> bool {
    forall|i: int, j: int| 0 <= i < j < h.len() ==> h[i].version < h[j].version
}

/// On an ascending history, appending a node no older than the newest keeps the
/// history ascending; the node of the same version, if any, is replaced and
/// every other node stays.
pub proof fn lemma_append_ascending(h: Seq<NodeModel>, n: NodeModel)
    requires
        ascending(h),
        h.len() > 0 ==> n.version >= h.last().version,
    ensures
        ascending(append_node(h, n)),
        append_node(h, n).last() == n,
        forall|i: int| 0 <= i < h.len() && h[i].version != n.version ==> append_node(h, n).contains(#[trigger] h[i]),
        forall|i: int|
            0 <= i < append_node(h, n).len() ==> #[trigger] append_node(h, n)[i] == n || (h.contains(
                append_node(h, n)[i],
            ) && append_node(h, n)[i].version != n.version),
{
    let r = append_node(h, n);
    if h.len() > 0 && h.last().version == n.version {
        assert forall|i: int| 0 <= i < h.len() && h[i].version != n.version implies r.contains(#[trigger] h[i]) by {
            assert(r[i] == h[i]);
        }
        assert forall|i: int| 0 <= i < r.len() implies #[trigger] r[i] == n || (h.contains(r[i]) && r[i].version != n.version) by {
            if i < r.len() - 1 {
                assert(r[i] == h[i]);
                assert(h[i].version < h[h.len() - 1].version);
            }
        }
    } else {
        assert forall|i: int| 0 <= i < h.len() && h[i].version != n.version implies r.contains(#[trigger] h[i]) by {
            assert(r[i] == h[i]);
        }
        assert forall|i: int| 0 <= i < r.len() implies #[trigger] r[i] == n || (h.contains(r[i]) && r[i].version != n.version) by {
            if i < r.len() - 1 {
                assert(r[i] == h[i]);
                if h.len() > 0 {
                    assert(h[i].version <= h[h.len() - 1].version);
                }
            }
        }
    }
}

/// A history node carrying the given version, value, parents and tombstone flag;
/// the timestamp is free.
pub open spec fn node_is(
    n: NodeModel,
    version: u64,
    value: Seq<u8>,
    parent: Option<u64>,
    parent2: Option<u64>,
    is_tombstone: bool,
) -> bool {
    n.version == version && n.value == value && n.parent_version == parent
        && n.parent2_version == parent2 && n.is_tombstone == is_tombstone
}

/// A history cut down to its newest `n` nodes.
pub open spec fn keep_last(h: Seq<NodeModel>, n: nat) -> Seq<NodeModel> {
    if h.len() > n {
        h.subrange(h.len() - n, h.len() as int)
    } else {
        h
    }
}

/// How many nodes `keep_last(h, n)` drops.
pub open spec fn excess(h: Seq<NodeModel>, n: nat) -> nat {
    if h.len() > n {
        (h.len() - n) as nat
    } else {
        0
    }
}

/// How many nodes cutting every history of `hs` to `n` drops in all.
pub open spec fn total_excess(hs: Map<Key, Seq<NodeModel>>, n: nat) -> nat
    decreases hs.dom().len(),
    via total_excess_decreases
{
    if hs.dom().finite() && hs.dom().len() > 0 {
        let k = choose|k: Key| hs.contains_key(k);
        excess(hs[k], n) + total_excess(hs.remove(k), n)
    } else {
        0
    }
}

#[via_fn]
proof fn total_excess_decreases(hs: Map<Key, Seq<NodeModel>>, n: nat) {
    if hs.dom().finite() && hs.dom().len() > 0 {
        lemma_some_key(hs);
        let k = choose|k: Key| hs.contains_key(k);
        assert(hs.remove(k).dom() =~= hs.dom().remove(k));
        assert(hs.dom().remove(k).len() < hs.dom().len());
    }
}

/// A finite map with keys has a key.
proof fn lemma_some_key(hs: Map<Key, Seq<NodeModel>>)
    requires
        hs.dom().finite(),
        hs.dom().len() > 0,
    ensures
        exists|k: Key| hs.contains_key(k),
{
    if !(exists|k: Key| hs.contains_key(k)) {
        assert(hs.dom() =~= Set::<Key>::empty());
    }
}

/// The total does not depend on which key is taken first.
pub proof fn lemma_total_excess_remove(hs: Map<Key, Seq<NodeModel>>, n: nat, k: Key)
    requires
        hs.dom().finite(),
        hs.contains_key(k),
    ensures
        total_excess(hs, n) == excess(hs[k], n) + total_excess(hs.remove(k), n),
    decreases hs.dom().len(),
{
    lemma_some_key(hs);
    let k0 = choose|k: Key| hs.contains_key(k);
    if k0 != k {
        lemma_total_excess_remove(hs.remove(k0), n, k);
        lemma_total_excess_remove(hs.remove(k), n, k0);
        assert(hs.remove(k0).remove(k) =~= hs.remove(k).remove(k0));
        assert(hs.remove(k0)[k] == hs[k]);
        assert(hs.remove(k)[k0] == hs[k0]);
    }
}

/// The primary keys that hold at least one cell.
pub open spec fn pks_of(cells: Map<Key, (Seq<u8>, u64)>) -> Set<Seq<char>> {
    Set::new(|p: Seq<char>| exists|k: Key| cells.contains_key(k) && k.0 == p)
}

/// The character sequences of a list of strings.
pub open spec fn strings_view(s: Seq<String>) -> Seq<Seq<char>> {
    s.map_values(|x: String| x@)
}

/// `row` lists exactly the cells of `pk` in `cells`, each column once.
pub open spec fn is_row_of(row: Row, pk: Seq<char>, cells: Map<Key, (Seq<u8>, u64)>) -> bool {
    &&& row.pk@ == pk
    &&& forall|a: int, b: int|
        0 <= a < b < row.cells@.len() ==> row.cells@[a].0@ != row.cells@[b].0@
    &&& forall|j: int|
        #![trigger row.cells@[j]]
        0 <= j < row.cells@.len() ==> cells.contains_key((pk, row.cells@[j].0@)) && cells[(
            pk,
            row.cells@[j].0@,
        )] == row.cells@[j].1@
    &&& forall|k: Key|
        #![trigger cells.contains_key(k)]
        cells.contains_key(k) && k.0 == pk ==> exists|j: int|
            0 <= j < row.cells@.len() && row.cells@[j].0@ == k.1
}

/// The stored record of one column: its cell and its history.
pub struct ColumnEntry {
    pub col: String,
    pub value: Vec<u8>,
    pub version: u64,
    pub history: Vec<DagNode>,
}

/// The columns of one primary key.
pub struct RowEntry {
    pub pk: String,
    pub columns: Vec<ColumnEntry>,
}

/// The key of a column record within its row.
pub open spec fn col_key() -> spec_fn(ColumnEntry) -> Seq<char> {
    |e: ColumnEntry| e.col@
}

/// The key of a row record.
pub open spec fn row_key() -> spec_fn(RowEntry) -> Seq<char> {
    |r: RowEntry| r.pk@
}

/// A column record whose newest history node backs its cell.
pub open spec fn entry_wf(e: ColumnEntry) -> bool {
    &&& e.history@.len() > 0
    &&& e.history@.last().version == e.version
    &&& e.history@.last().value@ == e.value@
    &&& forall|i: int, j: int|
        0 <= i < j < e.history@.len() ==> e.history@[i].version < e.history@[j].version
}

/// A row record with at least one column, columns unique and well formed.
pub open spec fn row_wf(r: RowEntry) -> bool {
    &&& r.columns@.len() > 0
    &&& keys_unique(r.columns@, col_key())
    &&& forall|j: int| 0 <= j < r.columns@.len() ==> entry_wf(#[trigger] r.columns@[j])
}

/// The index of the column record named `col`.
fn find_col(cols: &Vec<ColumnEntry>, col: &String) -> (r: Option<usize>)
    requires
        keys_unique(cols@, col_key()),
    ensures
        r is None <==> !keyed(cols@, col_key()).contains_key(col@),
        r matches Some(j) ==> j < cols@.len() && cols@[j as int].col@ == col@ && keyed(
            cols@,
            col_key(),
        )[col@] == cols@[j as int],
{
    let mut j: usize = 0;
    while j < cols.len()
        invariant
            keys_unique(cols@, col_key()),
            j <= cols@.len(),
            forall|x: int| 0 <= x < j ==> col_key()(cols@[x]) != col@,
        decreases cols.len() - j,
    {
        if cols[j].col == *col {
            proof {
                lemma_keyed_index(cols@, col_key(), j as int);
            }
            return Some(j);
        }
        j = j + 1;
    }
    proof {
        lemma_keyed_dom(cols@, col_key(), col@);
    }
    None
}

/// Column record `a` is `b` with its history cut to the newest `n` nodes.
pub open spec fn col_gced(a: ColumnEntry, b: ColumnEntry, n: nat) -> bool {
    &&& a.col == b.col
    &&& a.value == b.value
    &&& a.version == b.version
    &&& nodes_view(a.history@) == keep_last(nodes_view(b.history@), n)
    &&& entry_wf(a)
}

/// The keys of the records before place `(i, j)`, row by row.
pub open spec fn keys_before(rows: Seq<RowEntry>, i: int, j: int) -> Set<Key> {
    Set::new(
        |k: Key|
            exists|x: int, c: int|
                0 <= x < rows.len() && 0 <= c < rows[x].columns@.len() && (x < i || (x == i && c
                    < j)) && k == (rows[x].pk@, rows[x].columns@[c].col@),
    )
}

/// In-process store: a record per primary key, each holding a record per
/// column with the cell and the column's history. Single-threaded.
pub struct MemoryStorage {
    rows: Vec<RowEntry>,
}

impl MemoryStorage {
    /// Keys are unique at both levels and every record is well formed.
    pub closed spec fn wf(&self) -> bool {
        &&& keys_unique(self.rows@, row_key())
        &&& forall|i: int| 0 <= i < self.rows@.len() ==> row_wf(#[trigger] self.rows@[i])
    }

    /// The row records by primary key.
    closed spec fn rows_map(&self) -> Map<Seq<char>, RowEntry> {
        keyed(self.rows@, row_key())
    }

    /// The column records by `(pk, col)`.
    pub closed spec fn records(&self) -> Map<Key, ColumnEntry> {
        Map::new(
            |k: Key|
                self.rows_map().contains_key(k.0) && keyed(
                    self.rows_map()[k.0].columns@,
                    col_key(),
                ).contains_key(k.1),
            |k: Key| keyed(self.rows_map()[k.0].columns@, col_key())[k.1],
        )
    }

    /// The live cells by key.
    pub open spec fn cells(&self) -> Map<Key, (Seq<u8>, u64)> {
        self.records().map_values(|e: ColumnEntry| (e.value@, e.version))
    }

    /// The column histories by key.
    pub open spec fn histories(&self) -> Map<Key, Seq<NodeModel>> {
        self.records().map_values(|e: ColumnEntry| nodes_view(e.history@))
    }

    /// The history of a key, empty when the key holds no cell.
    pub open spec fn history_of(&self, k: Key) -> Seq<NodeModel> {
        if self.histories().contains_key(k) {
            self.histories()[k]
        } else {
            Seq::empty()
        }
    }

    /// Every live cell is backed by the newest node of its history.
    pub open spec fn heads_back_cells(&self) -> bool {
        &&& self.histories().dom() == self.cells().dom()
        &&& forall|k: Key|
            #![trigger self.cells()[k]]
            self.cells().contains_key(k) ==> {
                &&& self.histories()[k].len() > 0
                &&& self.histories()[k].last().version == self.cells()[k].1
                &&& self.histories()[k].last().value == self.cells()[k].0
                &&& ascending(self.histories()[k])
            }
    }

    /// Where the record of a stored key sits.
    proof fn lemma_locate(&self, k: Key) -> (ij: (int, int))
        requires
            self.wf(),
            self.records().contains_key(k),
        ensures
            0 <= ij.0 < self.rows@.len(),
            0 <= ij.1 < self.rows@[ij.0].columns@.len(),
            self.rows@[ij.0].pk@ == k.0,
            self.rows@[ij.0].columns@[ij.1].col@ == k.1,
            self.records()[k] == self.rows@[ij.0].columns@[ij.1],
    {
        lemma_keyed_dom(self.rows@, row_key(), k.0);
        let i = choose|i: int| 0 <= i < self.rows@.len() && row_key()(self.rows@[i]) == k.0;
        lemma_keyed_index(self.rows@, row_key(), i);
        let cols = self.rows@[i].columns@;
        assert(row_wf(self.rows@[i]));
        lemma_keyed_dom(cols, col_key(), k.1);
        let j = choose|j: int| 0 <= j < cols.len() && col_key()(cols[j]) == k.1;
        lemma_keyed_index(cols, col_key(), j);
        (i, j)
    }

    /// The record at a given place is stored under its key.
    proof fn lemma_at(&self, i: int, j: int)
        requires
            self.wf(),
            0 <= i < self.rows@.len(),
            0 <= j < self.rows@[i].columns@.len(),
        ensures
            self.records().contains_key((self.rows@[i].pk@, self.rows@[i].columns@[j].col@)),
            self.records()[(self.rows@[i].pk@, self.rows@[i].columns@[j].col@)]
                == self.rows@[i].columns@[j],
    {
        lemma_keyed_index(self.rows@, row_key(), i);
        assert(row_wf(self.rows@[i]));
        lemma_keyed_index(self.rows@[i].columns@, col_key(), j);
    }

    /// A well-formed store keeps each cell backed by its newest history node.
    pub proof fn lemma_heads(&self)
        requires
            self.wf(),
        ensures
            self.heads_back_cells(),
    {
        assert(self.histories().dom() =~= self.cells().dom());
        assert forall|k: Key| #[trigger] self.cells().contains_key(k) implies {
            &&& self.histories()[k].len() > 0
            &&& self.histories()[k].last().version == self.cells()[k].1
            &&& self.histories()[k].last().value == self.cells()[k].0
            &&& ascending(self.histories()[k])
        } by {
            let (i, j) = self.lemma_locate(k);
            assert(row_wf(self.rows@[i]));
            assert(entry_wf(self.rows@[i].columns@[j]));
        }
    }

    /// A primary key names a row record exactly when it holds a cell.
    proof fn lemma_pks(&self, p: Seq<char>)
        requires
            self.wf(),
        ensures
            self.rows_map().contains_key(p) <==> pks_of(self.cells()).contains(p),
    {
        if self.rows_map().contains_key(p) {
            lemma_keyed_dom(self.rows@, row_key(), p);
            let i = choose|i: int| 0 <= i < self.rows@.len() && row_key()(self.rows@[i]) == p;
            assert(row_wf(self.rows@[i]));
            self.lemma_at(i, 0);
            assert(self.cells().contains_key((p, self.rows@[i].columns@[0].col@)));
        }
        if pks_of(self.cells()).contains(p) {
            let k = choose|k: Key| self.cells().contains_key(k) && k.0 == p;
            assert(self.records().contains_key(k));
        }
    }

    /// An empty store.
    pub fn new() -> (r: MemoryStorage)
        ensures
            r.wf(),
            r.cells() == Map::<Key, (Seq<u8>, u64)>::empty(),
            r.histories() == Map::<Key, Seq<NodeModel>>::empty(),
    {
        let r = MemoryStorage { rows: Vec::new() };
        assert(r.cells() =~= Map::<Key, (Seq<u8>, u64)>::empty());
        assert(r.histories() =~= Map::<Key, Seq<NodeModel>>::empty());
        r
    }

    /// The index of the row record of `pk`.
    fn find_row(&self, pk: &String) -> (r: Option<usize>)
        requires
            self.wf(),
        ensures
            r is None <==> !self.rows_map().contains_key(pk@),
            r matches Some(i) ==> i < self.rows@.len() && self.rows@[i as int].pk@ == pk@
                && self.rows_map()[pk@] == self.rows@[i as int],
    {
        let mut i: usize = 0;
        while i < self.rows.len()
            invariant
                self.wf(),
                i <= self.rows@.len(),
                forall|x: int| 0 <= x < i ==> row_key()(self.rows@[x]) != pk@,
            decreases self.rows.len() - i,
        {
            if self.rows[i].pk == *pk {
                proof {
                    lemma_keyed_index(self.rows@, row_key(), i as int);
                }
                return Some(i);
            }
            i = i + 1;
        }
        proof {
            lemma_keyed_dom(self.rows@, row_key(), pk@);
        }
        None
    }

    /// The place of the record of `(pk, col)`.
    fn find(&self, pk: &String, col: &String) -> (r: Option<(usize, usize)>)
        requires
            self.wf(),
        ensures
            r is None <==> !self.records().contains_key((pk@, col@)),
            r matches Some(ij) ==> ij.0 < self.rows@.len() && ij.1 < self.rows@[ij.0 as int].columns@.len()
                && self.records()[(pk@, col@)] == self.rows@[ij.0 as int].columns@[ij.1 as int],
    {
        match self.find_row(pk) {
            None => None,
            Some(i) => {
                proof {
                    assert(row_wf(self.rows@[i as int]));
                }
                match find_col(&self.rows[i].columns, col) {
                    None => None,
                    Some(j) => Some((i, j)),
                }
            },
        }
    }

    /// The cell at `(pk, col)`, if any.
    pub fn get_cell(&self, pk: &str, col: &str) -> (r: Option<Cell>)
        requires
            self.wf(),
        ensures
            r is Some <==> self.cells().contains_key((pk@, col@)),
            r matches Some(c) ==> c@ == self.cells()[(pk@, col@)],
    {
        let p = pk.to_owned();
        let c = col.to_owned();
        match self.find(&p, &c) {
            None => None,
            Some((i, j)) => {
                let e = &self.rows[i].columns[j];
                Some(Cell { value: copy_bytes(&e.value), version: e.version })
            },
        }
    }

    /// The history of `(pk, col)`, oldest first; empty when absent.
    pub fn get_dag_history(&self, pk: &str, col: &str) -> (r: Vec<DagNode>)
        requires
            self.wf(),
        ensures
            nodes_view(r@) == self.history_of((pk@, col@)),
    {
        let p = pk.to_owned();
        let c = col.to_owned();
        match self.find(&p, &c) {
            None => Vec::new(),
            Some((i, j)) => copy_nodes(&self.rows[i].columns[j].history),
        }
    }

    /// The cells of `pk`, or `None` when it holds none.
    pub fn get_row(&self, pk: &str) -> (r: Option<Row>)
        requires
            self.wf(),
        ensures
            r is None <==> !pks_of(self.cells()).contains(pk@),
            r matches Some(row) ==> is_row_of(row, pk@, self.cells()),
    {
        let p = pk.to_owned();
        proof {
            self.lemma_pks(pk@);
        }
        match self.find_row(&p) {
            None => None,
            Some(i) => {
                let cols = &self.rows[i].columns;
                let mut out: Vec<(String, Cell)> = Vec::new();
                let mut j: usize = 0;
                while j < cols.len()
                    invariant
                        i < self.rows@.len(),
                        cols@ == self.rows@[i as int].columns@,
                        j <= cols@.len(),
                        out@.len() == j,
                        forall|x: int|
                            #![trigger out@[x]]
                            0 <= x < j ==> out@[x].0@ == cols@[x].col@ && out@[x].1@ == (
                                cols@[x].value@,
                                cols@[x].version,
                            ),
                    decreases cols.len() - j,
                {
                    let e = &cols[j];
                    out.push((e.col.clone(), Cell { value: copy_bytes(&e.value), version: e.version }));
                    j = j + 1;
                }
                let row = Row { pk: p, cells: out };
                proof {
                    assert(row_wf(self.rows@[i as int]));
                    assert forall|a: int, b: int|
                        0 <= a < b < row.cells@.len() implies row.cells@[a].0@ != row.cells@[b].0@ by {
                        assert(col_key()(cols@[a]) != col_key()(cols@[b]));
                    }
                    assert forall|x: int|
                        #![trigger row.cells@[x]]
                        0 <= x < row.cells@.len() implies self.cells().contains_key((pk@, row.cells@[x].0@))
                            && self.cells()[(pk@, row.cells@[x].0@)] == row.cells@[x].1@ by {
                        self.lemma_at(i as int, x);
                    }
                    assert forall|k: Key|
                        #![trigger self.cells().contains_key(k)]
                        self.cells().contains_key(k) && k.0 == pk@ implies exists|x: int|
                            0 <= x < row.cells@.len() && row.cells@[x].0@ == k.1 by {
                        let (a, b) = self.lemma_locate(k);
                        lemma_keyed_index(self.rows@, row_key(), a);
                        assert(a == i);
                        assert(row.cells@[b].0@ == k.1);
                    }
                }
                Some(row)
            },
        }
    }

    /// Every primary key that holds a cell, each once, in the order of first storage.
    pub fn all_pks(&self) -> (r: Vec<String>)
        requires
            self.wf(),
        ensures
            strings_view(r@).no_duplicates(),
            strings_view(r@).to_set() == pks_of(self.cells()),
    {
        let mut out: Vec<String> = Vec::new();
        let mut i: usize = 0;
        while i < self.rows.len()
            invariant
                self.wf(),
                i <= self.rows@.len(),
                out@.len() == i,
                forall|x: int| #![trigger out@[x]] 0 <= x < i ==> out@[x]@ == self.rows@[x].pk@,
            decreases self.rows.len() - i,
        {
            out.push(self.rows[i].pk.clone());
            i = i + 1;
        }
        proof {
            let sv = strings_view(out@);
            assert forall|a: int, b: int| 0 <= a < sv.len() && 0 <= b < sv.len() && a != b implies sv[a] != sv[b] by {
                assert(sv[a] == row_key()(self.rows@[a]) && sv[b] == row_key()(self.rows@[b]));
            }
            assert forall|p: Seq<char>| sv.to_set().contains(p) <==> pks_of(self.cells()).contains(p) by {
                self.lemma_pks(p);
                lemma_keyed_dom(self.rows@, row_key(), p);
                if sv.to_set().contains(p) {
                    let x = choose|x: int| 0 <= x < sv.len() && sv[x] == p;
                    assert(row_key()(self.rows@[x]) == p);
                }
                if self.rows_map().contains_key(p) {
                    let x = choose|x: int| 0 <= x < self.rows@.len() && row_key()(self.rows@[x]) == p;
                    assert(sv[x] == p);
                }
            }
            assert(sv.to_set() =~= pks_of(self.cells()));
        }
        out
    }

    /// How many primary keys hold a cell.
    pub fn row_count(&self) -> (r: usize)
        requires
            self.wf(),
        ensures
            r == pks_of(self.cells()).len(),
    {
        let pks = self.all_pks();
        proof {
            strings_view(pks@).unique_seq_to_set();
        }
        pks.len()
    }

    /// Erases every cell and every history node of `pk`.
    pub fn delete_row(&mut self, pk: &str)
        requires
            old(self).wf(),
        ensures
            final(self).wf(),
            final(self).cells() == old(self).cells().remove_keys(Set::new(|k: Key| k.0 == pk@)),
            final(self).histories() == old(self).histories().remove_keys(
                Set::new(|k: Key| k.0 == pk@),
            ),
    {
        let p = pk.to_owned();
        let ghost gone = Set::new(|k: Key| k.0 == pk@);
        match self.find_row(&p) {
            None => {
                proof {
                    assert(self.cells() =~= old(self).cells().remove_keys(gone));
                    assert(self.histories() =~= old(self).histories().remove_keys(gone));
                }
            },
            Some(i) => {
                proof {
                    lemma_keyed_remove(self.rows@, row_key(), i as int);
                }
                self.rows.remove(i);
                proof {
                    assert(self.rows@ == old(self).rows@.remove(i as int));
                    assert forall|x: int| 0 <= x < self.rows@.len() implies row_wf(#[trigger] self.rows@[x]) by {
                        let x0 = if x < i { x } else { x + 1 };
                        assert(self.rows@[x] == old(self).rows@[x0]);
                    }
                    assert(self.rows_map() == old(self).rows_map().remove(pk@));
                    assert(self.records() =~= old(self).records().remove_keys(gone));
                    assert(self.cells() =~= old(self).cells().remove_keys(gone));
                    assert(self.histories() =~= old(self).histories().remove_keys(gone));
                }
            },
        }
    }

    /// Cuts every history to its newest `keep` nodes and returns how many
    /// nodes were dropped (saturating). Cells are untouched.
    pub fn gc_all(&mut self, keep: usize) -> (r: usize)
        requires
            old(self).wf(),
            keep >= 1,
        ensures
            final(self).wf(),
            final(self).cells() == old(self).cells(),
            final(self).histories() == old(self).histories().map_values(
                |h: Seq<NodeModel>| keep_last(h, keep as nat),
            ),
            r as int == min(total_excess(old(self).histories(), keep as nat) as int, usize::MAX as int),
    {
        let ghost old_rows = self.rows@;
        let ghost hs = old(self).histories();
        let ghost kn = keep as nat;
        let ghost mut done: Map<Key, Seq<NodeModel>> = Map::empty();
        let mut removed: usize = 0;
        let mut i: usize = 0;
        proof {
            assert(done.dom() =~= keys_before(old_rows, 0, 0));
        }
        while i < self.rows.len()
            invariant
                old(self).wf(),
                old_rows == old(self).rows@,
                hs == old(self).histories(),
                kn == keep as nat,
                keep >= 1,
                i <= old_rows.len(),
                self.rows@.len() == old_rows.len(),
                forall|x: int|
                    #![trigger self.rows@[x]]
                    0 <= x < i ==> self.rows@[x].pk == old_rows[x].pk
                        && self.rows@[x].columns@.len() == old_rows[x].columns@.len() && forall|
                        c: int,
                    |
                        #![trigger self.rows@[x].columns@[c]]
                        0 <= c < old_rows[x].columns@.len() ==> col_gced(
                            self.rows@[x].columns@[c],
                            old_rows[x].columns@[c],
                            kn,
                        ),
                forall|x: int| #![trigger self.rows@[x]] i <= x < old_rows.len() ==> self.rows@[x] == old_rows[x],
                done.dom().finite(),
                done.dom() == keys_before(old_rows, i as int, 0),
                forall|k: Key| #[trigger] done.contains_key(k) ==> hs.contains_key(k) && done[k] == hs[k],
                removed as int == min(total_excess(done, kn) as int, usize::MAX as int),
            decreases old_rows.len() - i,
        {
            let mut j: usize = 0;
            let ghost row0 = old_rows[i as int];
            proof {
                assert(row_wf(row0));
                assert(keys_before(old_rows, i as int, 0) =~= keys_before(old_rows, i as int, 0));
            }
            while j < self.rows[i].columns.len()
                invariant
                    old(self).wf(),
                    old_rows == old(self).rows@,
                    hs == old(self).histories(),
                    kn == keep as nat,
                    keep >= 1,
                    i < old_rows.len(),
                    row0 == old_rows[i as int],
                    row_wf(row0),
                    j <= row0.columns@.len(),
                    self.rows@.len() == old_rows.len(),
                    forall|x: int|
                        #![trigger self.rows@[x]]
                        0 <= x < i ==> self.rows@[x].pk == old_rows[x].pk
                            && self.rows@[x].columns@.len() == old_rows[x].columns@.len() && forall|
                            c: int,
                        |
                            #![trigger self.rows@[x].columns@[c]]
                            0 <= c < old_rows[x].columns@.len() ==> col_gced(
                                self.rows@[x].columns@[c],
                                old_rows[x].columns@[c],
                                kn,
                            ),
                    forall|x: int| #![trigger self.rows@[x]] i < x < old_rows.len() ==> self.rows@[x] == old_rows[x],
                    self.rows@[i as int].pk == row0.pk,
                    self.rows@[i as int].columns@.len() == row0.columns@.len(),
                    forall|c: int|
                        #![trigger self.rows@[i as int].columns@[c]]
                        0 <= c < j ==> col_gced(self.rows@[i as int].columns@[c], row0.columns@[c], kn),
                    forall|c: int|
                        #![trigger self.rows@[i as int].columns@[c]]
                        j <= c < row0.columns@.len() ==> self.rows@[i as int].columns@[c] == row0.columns@[c],
                    done.dom().finite(),
                    done.dom() == keys_before(old_rows, i as int, j as int),
                    forall|k: Key| #[trigger] done.contains_key(k) ==> hs.contains_key(k) && done[k] == hs[k],
                    removed as int == min(total_excess(done, kn) as int, usize::MAX as int),
                decreases row0.columns@.len() - j,
            {
                let ghost e0 = row0.columns@[j as int];
                let ghost k: Key = (row0.pk@, e0.col@);
                proof {
                    assert(entry_wf(e0));
                    old(self).lemma_at(i as int, j as int);
                    assert(hs.contains_key(k) && hs[k] == nodes_view(e0.history@));
                    if done.contains_key(k) {
                        let (x, c) = choose|x: int, c: int|
                            0 <= x < old_rows.len() && 0 <= c < old_rows[x].columns@.len() && (x < i
                                || (x == i && c < j)) && k == (old_rows[x].pk@, old_rows[x].columns@[c].col@);
                        if x != i {
                            assert(row_key()(old_rows[x]) != row_key()(old_rows[i as int]));
                        } else {
                            assert(col_key()(row0.columns@[c]) != col_key()(row0.columns@[j as int]));
                        }
                    }
                    let nd = done.insert(k, hs[k]);
                    assert(nd.remove(k) =~= done);
                    lemma_total_excess_remove(nd, kn, k);
                    assert(nd.dom() =~= keys_before(old_rows, i as int, j + 1));
                    done = nd;
                }
                let len = self.rows[i].columns[j].history.len();
                if len > keep {
                    let cut = len - keep;
                    let tail = self.rows[i].columns[j].history.split_off(cut);
                    self.rows[i].columns[j].history = tail;
                    removed = if removed > usize::MAX - cut {
                        usize::MAX
                    } else {
                        removed + cut
                    };
                }
                proof {
                    assert(nodes_view(self.rows@[i as int].columns@[j as int].history@) =~= keep_last(nodes_view(e0.history@), kn));
                }
                j = j + 1;
            }
            proof {
                assert(keys_before(old_rows, i as int, row0.columns@.len() as int) =~= keys_before(old_rows, i + 1, 0));
            }
            i = i + 1;
        }
        proof {
            let n = old_rows.len() as int;
            assert forall|a: int, b: int| 0 <= a < b < self.rows@.len() implies row_key()(self.rows@[a]) != row_key()(self.rows@[b]) by {
                assert(row_key()(old_rows[a]) != row_key()(old_rows[b]));
            }
            assert forall|x: int| 0 <= x < self.rows@.len() implies row_wf(#[trigger] self.rows@[x]) by {
                assert(row_wf(old_rows[x]));
                let cs = self.rows@[x].columns@;
                assert forall|a: int, b: int| 0 <= a < b < cs.len() implies col_key()(cs[a]) != col_key()(cs[b]) by {
                    assert(col_key()(old_rows[x].columns@[a]) != col_key()(old_rows[x].columns@[b]));
                    assert(col_gced(cs[a], old_rows[x].columns@[a], kn));
                    assert(col_gced(cs[b], old_rows[x].columns@[b], kn));
                }
                assert forall|c: int| 0 <= c < cs.len() implies entry_wf(#[trigger] cs[c]) by {
                    assert(col_gced(cs[c], old_rows[x].columns@[c], kn));
                }
            }
            assert(self.wf());
            assert forall|k: Key| self.records().contains_key(k) == old(self).records().contains_key(k) by {
                if self.records().contains_key(k) {
                    let (x, c) = self.lemma_locate(k);
                    assert(col_gced(self.rows@[x].columns@[c], old_rows[x].columns@[c], kn));
                    old(self).lemma_at(x, c);
                }
                if old(self).records().contains_key(k) {
                    let (x, c) = old(self).lemma_locate(k);
                    assert(col_gced(self.rows@[x].columns@[c], old_rows[x].columns@[c], kn));
                    self.lemma_at(x, c);
                }
            }
            assert forall|k: Key| #[trigger] self.records().contains_key(k) implies self.cells()[k]
                == old(self).cells()[k] && self.histories()[k] == keep_last(hs[k], kn) by {
                let (x, c) = self.lemma_locate(k);
                assert(col_gced(self.rows@[x].columns@[c], old_rows[x].columns@[c], kn));
                old(self).lemma_at(x, c);
            }
            assert(self.cells() =~= old(self).cells());
            assert(self.histories() =~= hs.map_values(|h: Seq<NodeModel>| keep_last(h, keep as nat)));
            assert forall|k: Key| hs.contains_key(k) implies #[trigger] done.contains_key(k) by {
                let (x, c) = old(self).lemma_locate(k);
                assert(keys_before(old_rows, n, 0).contains(k));
            }
            assert(done =~= hs);
        }
        removed
    }

    /// Every cell of the store, as a changeset.
    pub fn export(&self) -> (r: Changeset)
        requires
            self.wf(),
        ensures
            r.wf(),
            r.cells() == self.cells(),
    {
        let ghost rows = self.rows@;
        let mut out = Changeset::new();
        let mut i: usize = 0;
        proof {
            assert(out.cells() =~= self.cells().restrict(keys_before(rows, 0, 0)));
        }
        while i < self.rows.len()
            invariant
                self.wf(),
                rows == self.rows@,
                i <= rows.len(),
                out.wf(),
                out.cells() == self.cells().restrict(keys_before(rows, i as int, 0)),
            decreases rows.len() - i,
        {
            let row = &self.rows[i];
            let mut j: usize = 0;
            proof {
                assert(row_wf(rows[i as int]));
            }
            while j < row.columns.len()
                invariant
                    self.wf(),
                    rows == self.rows@,
                    i < rows.len(),
                    *row == rows[i as int],
                    row_wf(*row),
                    j <= row.columns@.len(),
                    out.wf(),
                    out.cells() == self.cells().restrict(keys_before(rows, i as int, j as int)),
                decreases row.columns@.len() - j,
            {
                let e = &row.columns[j];
                let ghost k: Key = (row.pk@, e.col@);
                proof {
                    self.lemma_at(i as int, j as int);
                    if keys_before(rows, i as int, j as int).contains(k) {
                        let (x, c) = choose|x: int, c: int|
                            0 <= x < rows.len() && 0 <= c < rows[x].columns@.len() && (x < i
                                || (x == i && c < j)) && k == (rows[x].pk@, rows[x].columns@[c].col@);
                        if x != i {
                            assert(row_key()(rows[x]) != row_key()(rows[i as int]));
                        } else {
                            assert(col_key()(row.columns@[c]) != col_key()(row.columns@[j as int]));
                        }
                    }
                }
                out.push_new(row.pk.clone(), e.col.clone(), copy_bytes(&e.value), e.version);
                proof {
                    assert(keys_before(rows, i as int, j + 1) =~= keys_before(rows, i as int, j as int).insert(k));
                    assert(out.cells() =~= self.cells().restrict(keys_before(rows, i as int, j + 1)));
                }
                j = j + 1;
            }
            proof {
                assert(keys_before(rows, i as int, row.columns@.len() as int) =~= keys_before(rows, i + 1, 0));
            }
            i = i + 1;
        }
        proof {
            assert forall|k: Key| #[trigger] self.cells().contains_key(k) implies keys_before(rows, rows.len() as int, 0).contains(k) by {
                let (x, c) = self.lemma_locate(k);
            }
            assert(out.cells() =~= self.cells());
        }
        out
    }

    /// Writes the cell of `(pk, col)` and appends `node` to its history.
    pub fn write(&mut self, pk: &str, col: &str, value: Vec<u8>, node: DagNode)
        requires
            old(self).wf(),
            node.value@ == value@,
            old(self).cells().contains_key((pk@, col@)) ==> node.version >= old(self).cells()[(
                pk@,
                col@,
            )].1,
        ensures
            final(self).wf(),
            final(self).cells() == old(self).cells().insert((pk@, col@), (value@, node.version)),
            final(self).histories() == old(self).histories().insert(
                (pk@, col@),
                append_node(old(self).history_of((pk@, col@)), node@),
            ),
            ascending(final(self).history_of((pk@, col@))),
    {
        let p = pk.to_owned();
        let c = col.to_owned();
        let ghost k: Key = (pk@, col@);
        let ghost old_hist = old(self).history_of(k);
        let ghost nv = node@;
        let version = node.version;
        let ghost new_rec: ColumnEntry;
        match self.find_row(&p) {
            None => {
                let mut history: Vec<DagNode> = Vec::new();
                history.push(node);
                let e = ColumnEntry { col: c, value, version, history };
                proof {
                    new_rec = e;
                }
                let mut columns: Vec<ColumnEntry> = Vec::new();
                columns.push(e);
                let r = RowEntry { pk: p, columns };
                proof {
                    assert(nodes_view(e.history@) =~= append_node(old_hist, nv));
                    assert(keyed(Seq::<ColumnEntry>::empty(), col_key()) =~= Map::empty());
                    lemma_keyed_push(Seq::<ColumnEntry>::empty(), col_key(), e);
                    assert(r.columns@ =~= Seq::<ColumnEntry>::empty().push(e));
                    lemma_keyed_push(self.rows@, row_key(), r);
                }
                self.rows.push(r);
                proof {
                    assert forall|x: int| 0 <= x < self.rows@.len() implies row_wf(#[trigger] self.rows@[x]) by {
                        if x < old(self).rows@.len() {
                            assert(self.rows@[x] == old(self).rows@[x]);
                        }
                    }
                    assert(self.records() =~= old(self).records().insert(k, e));
                }
            },
            Some(i) => {
                let mut r = self.rows.remove(i);
                let ghost old_row = r;
                proof {
                    assert(r == old(self).rows@[i as int]);
                    assert(row_wf(r));
                }
                match find_col(&r.columns, &c) {
                    None => {
                        let mut history: Vec<DagNode> = Vec::new();
                        history.push(node);
                        let e = ColumnEntry { col: c, value, version, history };
                        proof {
                            new_rec = e;
                            assert(!old(self).records().contains_key(k));
                            assert(nodes_view(e.history@) =~= append_node(old_hist, nv));
                            lemma_keyed_push(r.columns@, col_key(), e);
                        }
                        r.columns.push(e);
                        proof {
                            assert forall|x: int| 0 <= x < r.columns@.len() implies entry_wf(#[trigger] r.columns@[x]) by {
                                if x < old_row.columns@.len() {
                                    assert(r.columns@[x] == old_row.columns@[x]);
                                }
                            }
                        }
                    },
                    Some(j) => {
                        let mut e = r.columns.remove(j);
                        let ghost old_e = e;
                        proof {
                            assert(e == old_row.columns@[j as int]);
                            assert(entry_wf(e));
                            assert(old(self).records()[k] == old_e);
                            assert(old_hist == nodes_view(old_e.history@));
                        }
                        let n = e.history.len();
                        if e.history[n - 1].version == version {
                            e.history.pop();
                            e.history.push(node);
                            assert(nodes_view(e.history@) =~= nodes_view(old_e.history@).drop_last().push(nv));
                        } else {
                            e.history.push(node);
                            assert(nodes_view(e.history@) =~= nodes_view(old_e.history@).push(nv));
                        }
                        e.value = value;
                        e.version = version;
                        proof {
                            new_rec = e;
                            lemma_keyed_update(old_row.columns@, col_key(), j as int, e);
                        }
                        r.columns.insert(j, e);
                        proof {
                            assert(r.columns@ =~= old_row.columns@.update(j as int, e));
                            assert forall|x: int| 0 <= x < r.columns@.len() implies entry_wf(#[trigger] r.columns@[x]) by {
                                if x != j {
                                    assert(r.columns@[x] == old_row.columns@[x]);
                                }
                            }
                        }
                    },
                }
                proof {
                    assert(keyed(r.columns@, col_key()) == keyed(old_row.columns@, col_key()).insert(col@, new_rec));
                    lemma_keyed_update(old(self).rows@, row_key(), i as int, r);
                }
                self.rows.insert(i, r);
                proof {
                    assert(self.rows@ =~= old(self).rows@.update(i as int, r));
                    assert forall|x: int| 0 <= x < self.rows@.len() implies row_wf(#[trigger] self.rows@[x]) by {
                        if x != i {
                            assert(self.rows@[x] == old(self).rows@[x]);
                        }
                    }
                    assert(self.rows_map() == old(self).rows_map().insert(pk@, r));
                    assert(self.records() =~= old(self).records().insert(k, new_rec));
                }
            },
        }
        proof {
            assert(self.cells() =~= old(self).cells().insert(k, (value@, version)));
            assert(self.histories() =~= old(self).histories().insert(k, append_node(old_hist, nv)));
            self.lemma_heads();
            assert(self.cells().contains_key(k));
        }
    }
}

} // verus!
