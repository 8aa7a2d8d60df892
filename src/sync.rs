//! Changesets, head exchange and the pairwise and mesh sync sessions.
use vstd::prelude::*;

use vstd::math::min;
use vstd::utf8::encode_utf8;

use crate::keyed::{
    keyed, keys_unique, lemma_keyed_dom, lemma_keyed_index, lemma_keyed_len, lemma_keyed_push,
    lemma_keyed_update,
};
use crate::error::Error;
use crate::merge::{
    is_inserted, is_updated, lemma_count_zero, lemma_merge_keeps_keys, lemma_nothing_written,
    lookup, merge_cells, merge_fails, outcome, report_of, writes, writes_nothing, MergeReport,
    TieBreakPolicy,
};
use crate::storage::{pks_of, Key};
use crate::table::CrrTable;

verus! {

/// One incoming cell of a changeset.
#[derive(Debug)]
pub struct ChangeCell {
    pub pk: String,
    pub col: String,
    pub value: Vec<u8>,
    pub version: u64,
}

impl View for ChangeCell {
    type V = (Key, (Seq<u8>, u64));

    open spec fn view(&self) -> (Key, (Seq<u8>, u64)) {
        ((self.pk@, self.col@), (self.value@, self.version))
    }
}

/// The key of a changeset entry.
pub open spec fn entry_key() -> spec_fn((Key, (Seq<u8>, u64))) -> Key {
    |e: (Key, (Seq<u8>, u64))| e.0
}

/// The cells that a sequence of changeset entries carries, by key.
pub open spec fn cell_map(s: Seq<(Key, (Seq<u8>, u64))>) -> Map<Key, (Seq<u8>, u64)> {
    keyed(s, entry_key()).map_values(|e: (Key, (Seq<u8>, u64))| e.1)
}

/// Whether entry `i` is the first of its primary key in `s`.
pub open spec fn first_of_pk(s: Seq<(Key, (Seq<u8>, u64))>, i: int) -> bool {
    forall|j: int| 0 <= j < i ==> s[j].0.0 != s[i].0.0
}

/// Estimated wire size of the entries: each cell's column name, value and an
/// eight-byte version, plus each primary key once, names counted in UTF-8 bytes.
pub open spec fn size_estimate(s: Seq<(Key, (Seq<u8>, u64))>) -> nat
    decreases s.len(),
{
    if s.len() == 0 {
        0
    } else {
        let e = s.last();
        size_estimate(s.drop_last()) + encode_utf8(e.0.1).len() + e.1.0.len() + 8 + if first_of_pk(
            s,
            s.len() - 1,
        ) {
            encode_utf8(e.0.0).len()
        } else {
            0
        }
    }
}

/// The estimate of a prefix one longer.
pub proof fn lemma_size_step(s: Seq<(Key, (Seq<u8>, u64))>, i: int)
    requires
        0 <= i < s.len(),
    ensures
        size_estimate(s.take(i + 1)) == size_estimate(s.take(i)) + encode_utf8(s[i].0.1).len()
            + s[i].1.0.len() + 8 + if first_of_pk(s, i) {
            encode_utf8(s[i].0.0).len()
        } else {
            0
        },
{
    let p = s.take(i + 1);
    assert(p.drop_last() =~= s.take(i));
    assert(p.last() == s[i]);
    assert forall|j: int| 0 <= j < i implies p[j] == s[j] by {}
    assert(first_of_pk(p, i) == first_of_pk(s, i));
}

/// Length of a string in UTF-8 bytes.
pub fn utf8_len(s: &String) -> (r: usize)
    ensures
        r == encode_utf8(s@).len(),
{
    let t: &str = s.as_str();
    let b: &[u8] = t.as_bytes();
    b.len()
}

/// The versions of a map of cells.
pub open spec fn versions_of(cells: Map<Key, (Seq<u8>, u64)>) -> Map<Key, u64> {
    cells.map_values(|c: (Seq<u8>, u64)| c.1)
}

/// Whether the advertised heads name primary key `p`.
pub open spec fn pk_known(heads: Map<Key, u64>, p: Seq<char>) -> bool {
    exists|k: Key| heads.contains_key(k) && k.0 == p
}

/// The advertised version of `k`, 0 when not advertised.
pub open spec fn head_of(heads: Map<Key, u64>, k: Key) -> u64 {
    if heads.contains_key(k) {
        heads[k]
    } else {
        0
    }
}

/// Whether a cell at `version` is sent to a peer advertising `heads`: its
/// primary key is unknown there, or its version is strictly newer.
pub open spec fn sends(heads: Map<Key, u64>, k: Key, version: u64) -> bool {
    !pk_known(heads, k.0) || version > head_of(heads, k)
}

/// The cells of `cells` that a peer advertising `heads` lacks.
pub open spec fn delta(cells: Map<Key, (Seq<u8>, u64)>, heads: Map<Key, u64>) -> Map<
    Key,
    (Seq<u8>, u64),
> {
    Map::new(
        |k: Key| cells.contains_key(k) && sends(heads, k, cells[k].1),
        |k: Key| cells[k],
    )
}

/// The key of an advertised head.
pub open spec fn head_key() -> spec_fn((Key, u64)) -> Key {
    |e: (Key, u64)| e.0
}

/// `a + b`, or `usize::MAX` where that does not fit.
pub fn sat_add(a: usize, b: usize) -> (r: usize)
    ensures
        r as int == min(a as int + b as int, usize::MAX as int),
{
    if a > usize::MAX - b {
        usize::MAX
    } else {
        a + b
    }
}

/// A bundle of cells that a peer pushes to another, at most one per `(pk, col)`,
/// in the order they were added.
#[derive(Debug)]
pub struct Changeset {
    cells: Vec<ChangeCell>,
}

impl View for Changeset {
    type V = Seq<(Key, (Seq<u8>, u64))>;

    closed spec fn view(&self) -> Seq<(Key, (Seq<u8>, u64))> {
        self.cells@.map_values(|c: ChangeCell| c@)
    }
}

impl Changeset {
    /// At most one entry per key.
    pub open spec fn wf(&self) -> bool {
        keys_unique(self@, entry_key())
    }

    /// The cells carried, by key.
    pub open spec fn cells(&self) -> Map<Key, (Seq<u8>, u64)> {
        cell_map(self@)
    }

    /// An empty changeset.
    pub fn new() -> (r: Changeset)
        ensures
            r@ == Seq::<(Key, (Seq<u8>, u64))>::empty(),
            r.wf(),
            r.cells() == Map::<Key, (Seq<u8>, u64)>::empty(),
    {
        let r = Changeset { cells: Vec::new() };
        assert(r@ =~= Seq::<(Key, (Seq<u8>, u64))>::empty());
        assert(r.cells() =~= Map::<Key, (Seq<u8>, u64)>::empty());
        r
    }

    /// Entry `i`.
    pub fn cell(&self, i: usize) -> (r: &ChangeCell)
        requires
            i < self@.len(),
        ensures
            r@ == self@[i as int],
    {
        &self.cells[i]
    }

    /// Adds the cell of `(pk, col)`, replacing the one it already carries.
    pub fn insert(&mut self, pk: &str, col: &str, value: Vec<u8>, version: u64)
        requires
            old(self).wf(),
        ensures
            final(self).wf(),
            final(self).cells() == old(self).cells().insert((pk@, col@), (value@, version)),
    {
        let c = ChangeCell { pk: pk.to_owned(), col: col.to_owned(), value, version };
        let ghost k: Key = (pk@, col@);
        let ghost cv = c@;
        let ghost s = self@;
        let mut i: usize = 0;
        while i < self.cells.len()
            invariant
                self@ == s,
                s == old(self)@,
                keys_unique(s, entry_key()),
                c@.0 == k,
                k == (pk@, col@),
                cv == c@,
                cv.1 == (value@, version),
                i <= s.len(),
                forall|j: int| 0 <= j < i ==> entry_key()(s[j]) != k,
            decreases self.cells.len() - i,
        {
            if self.cells[i].pk == c.pk && self.cells[i].col == c.col {
                proof {
                    assert(s[i as int] == self.cells@[i as int]@);
                    lemma_keyed_update(s, entry_key(), i as int, cv);
                }
                self.cells.set(i, c);
                proof {
                    assert(self@ =~= s.update(i as int, cv));
                    assert(keyed(self@, entry_key()) == keyed(s, entry_key()).insert(k, cv));
                    assert(self.cells() =~= cell_map(s).insert(k, cv.1));
                }
                return;
            }
            i = i + 1;
        }
        proof {
            lemma_keyed_dom(s, entry_key(), k);
            lemma_keyed_push(s, entry_key(), c@);
        }
        self.cells.push(c);
        proof {
            assert(self@ =~= s.push(c@));
            assert(self.cells() =~= cell_map(s).insert(k, c@.1));
        }
    }

    /// Adds the cell of a `(pk, col)` that the changeset does not carry yet.
    pub fn push_new(&mut self, pk: String, col: String, value: Vec<u8>, version: u64)
        requires
            old(self).wf(),
            !old(self).cells().contains_key((pk@, col@)),
        ensures
            final(self).wf(),
            final(self).cells() == old(self).cells().insert((pk@, col@), (value@, version)),
    {
        let c = ChangeCell { pk, col, value, version };
        proof {
            lemma_keyed_push(self@, entry_key(), c@);
        }
        let ghost s = self@;
        self.cells.push(c);
        proof {
            assert(self@ =~= s.push(c@));
            assert(self.cells() =~= cell_map(s).insert(c@.0, c@.1));
        }
    }

    /// Whether entry `i` is the first of its primary key.
    fn is_first_of_pk(&self, i: usize) -> (r: bool)
        requires
            i < self@.len(),
        ensures
            r == first_of_pk(self@, i as int),
    {
        let mut j: usize = 0;
        while j < i
            invariant
                i < self@.len(),
                j <= i,
                forall|x: int| 0 <= x < j ==> self@[x].0.0 != self@[i as int].0.0,
            decreases i - j,
        {
            if self.cells[j].pk == self.cells[i].pk {
                assert(self@[j as int].0.0 == self@[i as int].0.0);
                return false;
            }
            j = j + 1;
        }
        true
    }

    /// Number of distinct primary keys carried.
    pub fn len(&self) -> (r: usize)
        ensures
            r == pks_of(self.cells()).len(),
    {
        let ghost s = self@;
        let ghost mut firsts: Seq<Seq<char>> = Seq::empty();
        let mut n: usize = 0;
        let mut i: usize = 0;
        while i < self.cells.len()
            invariant
                s == self@,
                i <= s.len(),
                n == firsts.len(),
                n <= i,
                firsts.no_duplicates(),
                forall|p: Seq<char>|
                    firsts.contains(p) <==> exists|j: int| 0 <= j < i && #[trigger] s[j].0.0 == p,
            decreases s.len() - i,
        {
            if self.is_first_of_pk(i) {
                proof {
                    let old_f = firsts;
                    let q = s[i as int].0.0;
                    assert(!old_f.contains(q));
                    firsts = old_f.push(q);
                    assert forall|p: Seq<char>|
                        firsts.contains(p) implies exists|j: int| 0 <= j < i + 1 && #[trigger] s[j].0.0 == p by {
                        let x = choose|x: int| 0 <= x < firsts.len() && firsts[x] == p;
                        if x < old_f.len() {
                            assert(old_f[x] == p);
                            assert(old_f.contains(p));
                        } else {
                            assert(s[i as int].0.0 == p);
                        }
                    }
                    assert forall|p: Seq<char>|
                        (exists|j: int| 0 <= j < i + 1 && #[trigger] s[j].0.0 == p) implies firsts.contains(p) by {
                        let j = choose|j: int| 0 <= j < i + 1 && #[trigger] s[j].0.0 == p;
                        if j < i {
                            assert(old_f.contains(p));
                            let x = choose|x: int| 0 <= x < old_f.len() && old_f[x] == p;
                            assert(firsts[x] == p);
                        } else {
                            assert(firsts[old_f.len() as int] == p);
                        }
                    }
                    assert forall|a: int, b: int| 0 <= a < firsts.len() && 0 <= b < firsts.len() && a != b implies firsts[a] != firsts[b] by {
                        if a < old_f.len() && b < old_f.len() {
                        } else if a < old_f.len() {
                            assert(old_f.contains(old_f[a]));
                        } else {
                            assert(old_f.contains(old_f[b]));
                        }
                    }
                }
                n = n + 1;
            } else {
                proof {
                    let j = choose|j: int| 0 <= j < i && s[j].0.0 == s[i as int].0.0;
                    assert(firsts.contains(s[j].0.0));
                }
            }
            i = i + 1;
        }
        proof {
            assert forall|p: Seq<char>| firsts.to_set().contains(p) <==> pks_of(self.cells()).contains(p) by {
                if firsts.contains(p) {
                    let j = choose|j: int| 0 <= j < s.len() && s[j].0.0 == p;
                    lemma_keyed_dom(s, entry_key(), s[j].0);
                    assert(self.cells().contains_key(s[j].0));
                }
                if pks_of(self.cells()).contains(p) {
                    let k = choose|k: Key| self.cells().contains_key(k) && k.0 == p;
                    lemma_keyed_dom(s, entry_key(), k);
                    let j = choose|j: int| 0 <= j < s.len() && entry_key()(s[j]) == k;
                    assert(s[j].0.0 == p);
                }
            }
            assert(firsts.to_set() =~= pks_of(self.cells()));
            firsts.unique_seq_to_set();
        }
        n
    }

    /// Whether no cell is carried.
    pub fn is_empty(&self) -> (r: bool)
        ensures
            r == (self.cells().dom() == Set::<Key>::empty()),
    {
        proof {
            if self@.len() > 0 {
                lemma_keyed_dom(self@, entry_key(), self@[0].0);
                assert(self.cells().contains_key(self@[0].0));
            } else {
                assert(self.cells().dom() =~= Set::<Key>::empty());
            }
        }
        self.cells.len() == 0
    }

    /// Number of cells carried.
    pub fn column_count(&self) -> (r: usize)
        requires
            self.wf(),
        ensures
            r == self.cells().len(),
            r == self@.len(),
            self.cells().dom().finite(),
    {
        proof {
            lemma_keyed_len(self@, entry_key());
            assert(self.cells().dom() =~= keyed(self@, entry_key()).dom());
        }
        self.cells.len()
    }

    /// Estimated wire size in bytes (saturating).
    pub fn estimate_bytes(&self) -> (r: usize)
        ensures
            r as int == min(size_estimate(self@) as int, usize::MAX as int),
    {
        let ghost s = self@;
        let mut total: usize = 0;
        let mut i: usize = 0;
        while i < self.cells.len()
            invariant
                s == self@,
                i <= s.len(),
                total as int == min(size_estimate(s.take(i as int)) as int, usize::MAX as int),
            decreases s.len() - i,
        {
            let c = &self.cells[i];
            let first = self.is_first_of_pk(i);
            let pk_bytes: usize = if first { utf8_len(&c.pk) } else { 0 };
            let col_bytes: usize = utf8_len(&c.col);
            let t0 = sat_add(total, col_bytes);
            let t1 = sat_add(t0, c.value.len());
            let t2 = sat_add(t1, 8);
            let t = sat_add(t2, pk_bytes);
            proof {
                assert(s[i as int] == c@);
                lemma_size_step(s, i as int);
            }
            total = t;
            i = i + 1;
        }
        proof {
            assert(s.take(s.len() as int) =~= s);
        }
        total
    }
}

/// A peer's advertised versions: `(pk, col) -> version` for all its cells.
#[derive(Debug)]
pub struct HeadExchange {
    pub peer_id: String,
    heads: Vec<(String, String, u64)>,
}

impl View for HeadExchange {
    type V = Seq<(Key, u64)>;

    closed spec fn view(&self) -> Seq<(Key, u64)> {
        self.heads@.map_values(|h: (String, String, u64)| ((h.0@, h.1@), h.2))
    }
}

impl HeadExchange {
    /// The advertising peer's name.
    pub closed spec fn peer(&self) -> Seq<char> {
        self.peer_id@
    }

    /// One head per key.
    pub open spec fn wf(&self) -> bool {
        keys_unique(self@, head_key())
    }

    /// The advertised versions.
    pub open spec fn versions(&self) -> Map<Key, u64> {
        keyed(self@, head_key()).map_values(|e: (Key, u64)| e.1)
    }

    /// The heads of every cell of `table`.
    pub fn from_table(peer_id: &str, table: &CrrTable) -> (r: HeadExchange)
        requires
            table.wf(),
        ensures
            r.wf(),
            r.peer() == peer_id@,
            r.versions() == versions_of(table.cells()),
    {
        let all = table.changeset();
        let n = all.column_count();
        let ghost s = all@;
        let mut heads: Vec<(String, String, u64)> = Vec::new();
        let mut i: usize = 0;
        while i < n
            invariant
                s == all@,
                all.wf(),
                n == s.len(),
                i <= n,
                heads@.len() == i,
                forall|j: int|
                    #![trigger heads@[j]]
                    0 <= j < i ==> ((heads@[j].0@, heads@[j].1@), heads@[j].2) == (s[j].0, s[j].1.1),
            decreases n - i,
        {
            let c = all.cell(i);
            heads.push((c.pk.clone(), c.col.clone(), c.version));
            i = i + 1;
        }
        let r = HeadExchange { peer_id: peer_id.to_owned(), heads };
        proof {
            let hv = r@;
            assert forall|a: int, b: int| 0 <= a < b < hv.len() implies head_key()(hv[a]) != head_key()(hv[b]) by {
                assert(entry_key()(s[a]) != entry_key()(s[b]));
            }
            assert forall|k: Key| r.versions().contains_key(k) <==> all.cells().contains_key(k) by {
                lemma_keyed_dom(hv, head_key(), k);
                lemma_keyed_dom(s, entry_key(), k);
                if exists|j: int| 0 <= j < hv.len() && head_key()(hv[j]) == k {
                    let j = choose|j: int| 0 <= j < hv.len() && head_key()(hv[j]) == k;
                    assert(entry_key()(s[j]) == k);
                }
                if exists|j: int| 0 <= j < s.len() && entry_key()(s[j]) == k {
                    let j = choose|j: int| 0 <= j < s.len() && entry_key()(s[j]) == k;
                    assert(head_key()(hv[j]) == k);
                }
            }
            assert forall|k: Key| #[trigger] r.versions().contains_key(k) implies r.versions()[k] == all.cells()[k].1 by {
                lemma_keyed_dom(hv, head_key(), k);
                let j = choose|j: int| 0 <= j < hv.len() && head_key()(hv[j]) == k;
                lemma_keyed_index(hv, head_key(), j);
                lemma_keyed_index(s, entry_key(), j);
            }
            assert(r.versions() =~= versions_of(table.cells()));
        }
        r
    }

    /// Whether some head names primary key `pk`.
    pub fn knows_pk(&self, pk: &String) -> (r: bool)
        ensures
            r == pk_known(self.versions(), pk@),
    {
        let mut i: usize = 0;
        while i < self.heads.len()
            invariant
                i <= self@.len(),
                forall|j: int| 0 <= j < i ==> #[trigger] self@[j].0.0 != pk@,
            decreases self.heads.len() - i,
        {
            if self.heads[i].0 == *pk {
                proof {
                    lemma_keyed_dom(self@, head_key(), self@[i as int].0);
                    assert(self.versions().contains_key(self@[i as int].0));
                }
                return true;
            }
            i = i + 1;
        }
        proof {
            if pk_known(self.versions(), pk@) {
                let k = choose|k: Key| self.versions().contains_key(k) && k.0 == pk@;
                lemma_keyed_dom(self@, head_key(), k);
                let j = choose|j: int| 0 <= j < self@.len() && head_key()(self@[j]) == k;
                assert(self@[j].0.0 == pk@);
            }
        }
        false
    }

    /// The advertised version of `(pk, col)`, 0 when absent.
    pub fn version_of(&self, pk: &String, col: &String) -> (r: u64)
        requires
            self.wf(),
        ensures
            r == head_of(self.versions(), (pk@, col@)),
    {
        let mut i: usize = 0;
        while i < self.heads.len()
            invariant
                self.wf(),
                i <= self@.len(),
                forall|j: int| 0 <= j < i ==> head_key()(#[trigger] self@[j]) != (pk@, col@),
            decreases self.heads.len() - i,
        {
            if self.heads[i].0 == *pk && self.heads[i].1 == *col {
                proof {
                    lemma_keyed_index(self@, head_key(), i as int);
                }
                return self.heads[i].2;
            }
            i = i + 1;
        }
        proof {
            lemma_keyed_dom(self@, head_key(), (pk@, col@));
        }
        0
    }
}

impl Changeset {
    /// The cells of `sender` that a peer advertising `receiver_heads` lacks:
    /// those of a primary key it does not know, and those strictly newer than
    /// its advertised version.
    pub fn compute(sender: &CrrTable, receiver_heads: &HeadExchange) -> (r: Changeset)
        requires
            sender.wf(),
            receiver_heads.wf(),
        ensures
            r.wf(),
            r.cells() == delta(sender.cells(), receiver_heads.versions()),
    {
        let all = sender.changeset();
        let n = all.column_count();
        let ghost s = all@;
        let ghost hs = receiver_heads.versions();
        let mut out = Changeset::new();
        let mut i: usize = 0;
        proof {
            assert(cell_map(s.take(0)) =~= Map::<Key, (Seq<u8>, u64)>::empty());
            assert(out.cells() =~= delta(cell_map(s.take(0)), hs));
        }
        while i < n
            invariant
                s == all@,
                all.wf(),
                all.cells() == sender.cells(),
                hs == receiver_heads.versions(),
                receiver_heads.wf(),
                n == s.len(),
                i <= n,
                out.wf(),
                out.cells() == delta(cell_map(s.take(i as int)), hs),
            decreases n - i,
        {
            let c = all.cell(i);
            let ghost k = s[i as int].0;
            let ghost pre = cell_map(s.take(i as int));
            proof {
                crate::keyed::lemma_keyed_take(s, entry_key(), i as int);
                crate::keyed::lemma_unique_take(s, entry_key(), i as int);
                if pre.contains_key(k) {
                    lemma_keyed_dom(s.take(i as int), entry_key(), k);
                    let j = choose|j: int| 0 <= j < i && entry_key()(s.take(i as int)[j]) == k;
                    assert(s.take(i as int)[j] == s[j]);
                }
                assert(cell_map(s.take(i + 1)) == pre.insert(k, s[i as int].1));
            }
            let send = !receiver_heads.knows_pk(&c.pk) || c.version > receiver_heads.version_of(&c.pk, &c.col);
            if send {
                out.push_new(c.pk.clone(), c.col.clone(), crate::storage::copy_bytes(c.value.as_slice()), c.version);
            }
            proof {
                assert(out.cells() =~= delta(cell_map(s.take(i + 1)), hs));
            }
            i = i + 1;
        }
        proof {
            assert(s.take(n as int) =~= s);
        }
        out
    }
}

/// Two tables advertise the same version for every key (0 standing for absent).
pub open spec fn heads_agree(a: Map<Key, (Seq<u8>, u64)>, b: Map<Key, (Seq<u8>, u64)>) -> bool {
    forall|k: Key| #[trigger] head_of(versions_of(a), k) == head_of(versions_of(b), k)
}

/// No two tables hold one key at one version with different values.
pub open spec fn consistent(ts: Seq<CrrTable>) -> bool {
    forall|i: int, j: int, k: Key|
        0 <= i < ts.len() && 0 <= j < ts.len() && #[trigger] ts[i].cells().contains_key(k)
            && #[trigger] ts[j].cells().contains_key(k) && ts[i].cells()[k].1 == ts[j].cells()[k].1
            ==> ts[i].cells()[k].0 == ts[j].cells()[k].0
}

/// Every cell of every table has a version of at least 1.
pub open spec fn versioned(ts: Seq<CrrTable>) -> bool {
    forall|i: int, k: Key|
        0 <= i < ts.len() && #[trigger] ts[i].cells().contains_key(k) ==> ts[i].cells()[k].1 >= 1
}

/// Every cell of `m` is the cell of the same key in one of the tables `ts`.
pub open spec fn derived_from(m: Map<Key, (Seq<u8>, u64)>, ts: Seq<CrrTable>) -> bool {
    forall|k: Key|
        #[trigger] m.contains_key(k) ==> exists|z: int|
            0 <= z < ts.len() && ts[z].cells().contains_key(k) && ts[z].cells()[k] == m[k]
}

/// A session between peers whose cells come from consistent tables cannot
/// fail, meets no tie, and only copies cells: afterwards both advertise, for
/// every key, the greater of the two versions they held.
pub proof fn lemma_consistent_session(
    a: Map<Key, (Seq<u8>, u64)>,
    b: Map<Key, (Seq<u8>, u64)>,
    policy: TieBreakPolicy,
    ts: Seq<CrrTable>,
)
    requires
        derived_from(a, ts),
        derived_from(b, ts),
        consistent(ts),
    ensures
        !session_fails(a, b, policy),
        derived_from(after_session(a, b, policy), ts),
        derived_from(after_session(b, a, policy), ts),
        forall|k: Key|
            #![trigger hd(after_session(a, b, policy), k)]
            hd(after_session(a, b, policy), k) == hd(after_session(b, a, policy), k) && hd(
                after_session(a, b, policy),
                k,
            ) == (if hd(a, k) >= hd(b, k) {
                hd(a, k)
            } else {
                hd(b, k)
            }),
{
    assert forall|k: Key| !crate::laws::tie_at(a, b, k) by {
        if a.contains_key(k) && b.contains_key(k) && a[k].1 == b[k].1 {
            let z1 = choose|z: int| 0 <= z < ts.len() && ts[z].cells().contains_key(k) && ts[z].cells()[k] == a[k];
            let z2 = choose|z: int| 0 <= z < ts.len() && ts[z].cells().contains_key(k) && ts[z].cells()[k] == b[k];
            assert(ts[z1].cells()[k].1 == ts[z2].cells()[k].1);
        }
    }
    assert forall|k: Key| !crate::laws::tie_at(b, a, k) by {
        assert(!crate::laws::tie_at(a, b, k));
    }
    assert forall|k: Key| #[trigger] a.contains_key(k) implies !crate::merge::overflows(
        lookup(b, k), a[k].0, a[k].1, policy) by {
        assert(!crate::laws::tie_at(a, b, k));
    }
    assert forall|k: Key| #[trigger] b.contains_key(k) implies !crate::merge::overflows(
        lookup(a, k), b[k].0, b[k].1, policy) by {
        assert(!crate::laws::tie_at(a, b, k));
    }
    let ra = after_session(a, b, policy);
    let rb = after_session(b, a, policy);
    assert forall|k: Key| #[trigger] ra.contains_key(k) implies exists|z: int|
        0 <= z < ts.len() && ts[z].cells().contains_key(k) && ts[z].cells()[k] == ra[k] by {
        crate::laws::lemma_session_agrees(a, b, policy, k);
        if lookup(ra, k) == lookup(a, k) {
            assert(a.contains_key(k) && a[k] == ra[k]);
        } else {
            assert(b.contains_key(k) && b[k] == ra[k]);
        }
    }
    assert forall|k: Key| #[trigger] rb.contains_key(k) implies exists|z: int|
        0 <= z < ts.len() && ts[z].cells().contains_key(k) && ts[z].cells()[k] == rb[k] by {
        crate::laws::lemma_session_agrees(b, a, policy, k);
        if lookup(rb, k) == lookup(b, k) {
            assert(b.contains_key(k) && b[k] == rb[k]);
        } else {
            assert(a.contains_key(k) && a[k] == rb[k]);
        }
    }
    assert forall|k: Key|
        #![trigger hd(after_session(a, b, policy), k)]
        hd(ra, k) == hd(rb, k) && hd(ra, k) == (if hd(a, k) >= hd(b, k) {
            hd(a, k)
        } else {
            hd(b, k)
        }) by {
        crate::laws::lemma_session_agrees(a, b, policy, k);
        crate::laws::lemma_session_agrees(b, a, policy, k);
    }
}

/// A session between two peers holding the same cells, all of version at
/// least 1, writes nothing on either side.
pub proof fn lemma_identical_session(
    a: Map<Key, (Seq<u8>, u64)>,
    policy: TieBreakPolicy,
)
    requires
        forall|k: Key| #[trigger] a.contains_key(k) ==> a[k].1 >= 1,
    ensures
        writes_nothing(a, a, policy),
{
    assert forall|k: Key| #[trigger] a.contains_key(k) implies !writes(
        outcome(lookup(a, k), a[k].0, a[k].1, policy),
    ) by {
        assert(a.contains_key(k));
    }
}

/// A report of a merge that writes nothing counts no inserted or updated cell.
pub proof fn lemma_report_zero(
    rep: MergeReport,
    local: Map<Key, (Seq<u8>, u64)>,
    cs: Changeset,
    policy: TieBreakPolicy,
)
    requires
        cs.wf(),
        report_of(rep, local, cs@, policy),
        writes_nothing(local, cs.cells(), policy),
    ensures
        rep.inserted == 0,
        rep.updated == 0,
{
    let s = cs@;
    assert forall|j: int| 0 <= j < s.len() implies !writes(
        outcome(lookup(local, #[trigger] s[j].0), s[j].1.0, s[j].1.1, policy),
    ) by {
        lemma_keyed_index(s, entry_key(), j);
        assert(cs.cells().contains_key(s[j].0));
    }
    crate::laws::lemma_quiet_counts(local, s, policy);
}

/// Tables that advertise the same versions and whose cells come from
/// consistent, versioned tables hold the same cells.
pub proof fn lemma_agreeing_heads_same_cells(
    m1: Map<Key, (Seq<u8>, u64)>,
    m2: Map<Key, (Seq<u8>, u64)>,
    ts: Seq<CrrTable>,
)
    requires
        heads_agree(m1, m2),
        derived_from(m1, ts),
        derived_from(m2, ts),
        consistent(ts),
        versioned(ts),
    ensures
        m1 == m2,
{
    assert forall|k: Key| m1.contains_key(k) == m2.contains_key(k) by {
        assert(head_of(versions_of(m1), k) == head_of(versions_of(m2), k));
        if m1.contains_key(k) {
            let z = choose|z: int| 0 <= z < ts.len() && ts[z].cells().contains_key(k) && ts[z].cells()[k] == m1[k];
            assert(ts[z].cells()[k].1 >= 1);
        }
        if m2.contains_key(k) {
            let z = choose|z: int| 0 <= z < ts.len() && ts[z].cells().contains_key(k) && ts[z].cells()[k] == m2[k];
            assert(ts[z].cells()[k].1 >= 1);
        }
    }
    assert forall|k: Key| #[trigger] m1.contains_key(k) implies m1[k] == m2[k] by {
        assert(head_of(versions_of(m1), k) == head_of(versions_of(m2), k));
        let z1 = choose|z: int| 0 <= z < ts.len() && ts[z].cells().contains_key(k) && ts[z].cells()[k] == m1[k];
        let z2 = choose|z: int| 0 <= z < ts.len() && ts[z].cells().contains_key(k) && ts[z].cells()[k] == m2[k];
        assert(ts[z1].cells()[k].1 == ts[z2].cells()[k].1);
    }
    assert(m1 =~= m2);
}

/// The advertised version of `k` in `m`, 0 when absent.
pub open spec fn hd(m: Map<Key, (Seq<u8>, u64)>, k: Key) -> u64 {
    head_of(versions_of(m), k)
}

/// The greatest version of `k` over the tables `ts` (0 when none has it).
pub open spec fn max_head(ts: Seq<CrrTable>, k: Key) -> u64
    decreases ts.len(),
{
    if ts.len() == 0 {
        0
    } else {
        let a = max_head(ts.drop_last(), k);
        let b = hd(ts.last().cells(), k);
        if a >= b {
            a
        } else {
            b
        }
    }
}

/// Every table's version of `k` is at most the greatest.
pub proof fn lemma_max_head_upper(ts: Seq<CrrTable>, k: Key, z: int)
    requires
        0 <= z < ts.len(),
    ensures
        hd(ts[z].cells(), k) <= max_head(ts, k),
    decreases ts.len(),
{
    if z < ts.len() - 1 {
        assert(ts.drop_last()[z] == ts[z]);
        lemma_max_head_upper(ts.drop_last(), k, z);
    }
}

/// A bound on every table's version of `k` bounds the greatest.
pub proof fn lemma_max_head_least(ts: Seq<CrrTable>, k: Key, h: u64)
    requires
        forall|z: int| 0 <= z < ts.len() ==> hd(#[trigger] ts[z].cells(), k) <= h,
    ensures
        max_head(ts, k) <= h,
    decreases ts.len(),
{
    if ts.len() > 0 {
        let t = ts.drop_last();
        assert forall|z: int| 0 <= z < t.len() implies hd(#[trigger] t[z].cells(), k) <= h by {
            assert(t[z] == ts[z]);
        }
        lemma_max_head_least(t, k, h);
        assert(hd(ts[ts.len() - 1].cells(), k) <= h);
    }
}

/// A merge report without inserted or updated cells means no incoming cell
/// was written.
pub proof fn lemma_quiet_report(
    rep: MergeReport,
    local: Map<Key, (Seq<u8>, u64)>,
    cs: Changeset,
    policy: TieBreakPolicy,
)
    requires
        cs.wf(),
        report_of(rep, local, cs@, policy),
        rep.inserted == 0,
        rep.updated == 0,
    ensures
        writes_nothing(local, cs.cells(), policy),
{
    let s = cs@;
    lemma_count_zero(local, s, policy, is_inserted());
    lemma_count_zero(local, s, policy, is_updated());
    assert forall|k: Key| #[trigger] cs.cells().contains_key(k) implies !writes(
        outcome(lookup(local, k), cs.cells()[k].0, cs.cells()[k].1, policy),
    ) by {
        lemma_keyed_dom(s, entry_key(), k);
        let j = choose|j: int| 0 <= j < s.len() && entry_key()(s[j]) == k;
        lemma_keyed_index(s, entry_key(), j);
        assert(!is_inserted()(outcome(lookup(local, s[j].0), s[j].1.0, s[j].1.1, policy)));
        assert(!is_updated()(outcome(lookup(local, s[j].0), s[j].1.0, s[j].1.1, policy)));
    }
}

/// When neither side of a session writes, under a policy that lets one side of
/// a tie win, the two peers already held the same cells.
pub proof fn lemma_quiet_session(
    a: Map<Key, (Seq<u8>, u64)>,
    b: Map<Key, (Seq<u8>, u64)>,
    policy: TieBreakPolicy,
)
    requires
        policy != TieBreakPolicy::PreferExisting,
        writes_nothing(b, a, policy),
        writes_nothing(a, b, policy),
    ensures
        a == b,
{
    assert forall|k: Key| #[trigger] a.contains_key(k) implies b.contains_key(k) && b[k] == a[k] by {
        lemma_quiet_key(a, b, policy, k);
    }
    assert forall|k: Key| #[trigger] b.contains_key(k) implies a.contains_key(k) by {
        lemma_quiet_key(b, a, policy, k);
    }
    assert(a =~= b);
}

/// One key of `lemma_quiet_session`.
proof fn lemma_quiet_key(
    a: Map<Key, (Seq<u8>, u64)>,
    b: Map<Key, (Seq<u8>, u64)>,
    policy: TieBreakPolicy,
    k: Key,
)
    requires
        policy != TieBreakPolicy::PreferExisting,
        writes_nothing(b, a, policy),
        writes_nothing(a, b, policy),
        a.contains_key(k),
    ensures
        b.contains_key(k) && b[k] == a[k],
{
    let da = a;
    let db = b;
    if !b.contains_key(k) {
        assert(da.contains_key(k));
    } else {
        assert(versions_of(b).contains_key(k));
        assert(versions_of(a).contains_key(k));
        assert(pk_known(versions_of(a), k.0));
        assert(pk_known(versions_of(b), k.0));
        if a[k].1 >= b[k].1 {
            assert(da.contains_key(k));
        }
        if b[k].1 >= a[k].1 {
            assert(db.contains_key(k));
        }
        if a[k].0 != b[k].0 {
            crate::merge::lemma_lex_total(a[k].0, b[k].0);
        }
        assert(a[k] == (a[k].0, a[k].1));
    }
}

/// The outcome of a pairwise session.
#[derive(Debug)]
pub struct SyncResult {
    /// What B's merge of A's changeset did.
    pub a_to_b: MergeReport,
    /// What A's merge of B's changeset did.
    pub b_to_a: MergeReport,
    /// Estimated bytes of both changesets.
    pub bytes_transferred: usize,
}

impl SyncResult {
    /// Whether either merge wrote a cell.
    pub fn changed(&self) -> (r: bool)
        ensures
            r == (self.a_to_b.inserted + self.a_to_b.updated + self.b_to_a.inserted
                + self.b_to_a.updated > 0),
    {
        self.a_to_b.inserted > 0 || self.a_to_b.updated > 0 || self.b_to_a.inserted > 0
            || self.b_to_a.updated > 0
    }

    /// Cells written by both merges.
    pub fn total_changes(&self) -> (r: usize)
        requires
            self.a_to_b.inserted + self.a_to_b.updated + self.b_to_a.inserted + self.b_to_a.updated
                <= usize::MAX,
        ensures
            r == self.a_to_b.inserted + self.a_to_b.updated + self.b_to_a.inserted
                + self.b_to_a.updated,
    {
        self.a_to_b.inserted + self.a_to_b.updated + self.b_to_a.inserted + self.b_to_a.updated
    }

    /// Conflicts met by both merges.
    pub fn total_conflicts(&self) -> (r: usize)
        requires
            self.a_to_b.conflicts + self.b_to_a.conflicts <= usize::MAX,
        ensures
            r == self.a_to_b.conflicts + self.b_to_a.conflicts,
    {
        self.a_to_b.conflicts + self.b_to_a.conflicts
    }
}

/// A pairwise session under one tiebreak policy.
#[derive(Debug, Clone, Copy)]
pub struct SyncSession {
    pub policy: TieBreakPolicy,
}

/// The cells of a peer after a session with a peer holding `remote`: each side
/// merges every cell of the other, so cells at equal versions meet the tiebreak.
pub open spec fn after_session(
    local: Map<Key, (Seq<u8>, u64)>,
    remote: Map<Key, (Seq<u8>, u64)>,
    policy: TieBreakPolicy,
) -> Map<Key, (Seq<u8>, u64)> {
    merge_cells(local, remote, policy)
}

/// Whether a session between peers holding `a` and `b` fails: one of the two
/// merges would push a version past `u64::MAX`.
pub open spec fn session_fails(
    a: Map<Key, (Seq<u8>, u64)>,
    b: Map<Key, (Seq<u8>, u64)>,
    policy: TieBreakPolicy,
) -> bool {
    merge_fails(b, a, policy) || merge_fails(
        a,
        b,
        policy,
    )
}

impl SyncSession {
    /// A session under `policy`.
    pub fn new(policy: TieBreakPolicy) -> (r: SyncSession)
        ensures
            r.policy == policy,
    {
        SyncSession { policy }
    }

    /// Each peer sends its whole changeset; B merges A's, then A merges B's.
    /// Fails, changing neither peer, exactly when one of the merges would fail.
    pub fn sync(&self, peer_a: &mut CrrTable, peer_b: &mut CrrTable) -> (r: Result<SyncResult, Error>)
        requires
            old(peer_a).wf(),
            old(peer_b).wf(),
        ensures
            final(peer_a).wf(),
            final(peer_b).wf(),
            r is Err <==> session_fails(old(peer_a).cells(), old(peer_b).cells(), self.policy),
            r is Err ==> final(peer_a).cells() == old(peer_a).cells() && final(peer_a).histories()
                == old(peer_a).histories() && final(peer_b).cells() == old(peer_b).cells()
                && final(peer_b).histories() == old(peer_b).histories(),
            r is Ok ==> {
                &&& final(peer_a).cells() == after_session(old(peer_a).cells(), old(peer_b).cells(), self.policy)
                &&& final(peer_b).cells() == after_session(old(peer_b).cells(), old(peer_a).cells(), self.policy)
                &&& crate::table::merge_histories_ok(
                    &old(peer_a).store(),
                    &final(peer_a).store(),
                    old(peer_b).cells(),
                    self.policy,
                )
                &&& crate::table::merge_histories_ok(
                    &old(peer_b).store(),
                    &final(peer_b).store(),
                    old(peer_a).cells(),
                    self.policy,
                )
            },
            r matches Ok(res) ==> exists|ab: Changeset, ba: Changeset|
                #![trigger ab.cells(), ba.cells()]
                ab.wf() && ba.wf() && ab.cells() == old(peer_a).cells()
                    && ba.cells() == old(peer_b).cells()
                    && report_of(res.a_to_b, old(peer_b).cells(), ab@, self.policy)
                    && report_of(res.b_to_a, old(peer_a).cells(), ba@, self.policy)
                    && res.bytes_transferred as int == min(
                    (size_estimate(ab@) + size_estimate(ba@)) as int,
                    usize::MAX as int,
                ),
    {
        let cs_ab = peer_a.changeset();
        let cs_ba = peer_b.changeset();
        if !peer_b.can_merge(&cs_ab, self.policy) || !peer_a.can_merge(&cs_ba, self.policy) {
            return Err(Error::InvalidState("version overflow".to_owned()));
        }
        let report_b = match peer_b.merge(&cs_ab, self.policy) {
            Ok(rep) => rep,
            Err(e) => {
                return Err(e);
            },
        };
        let report_a = match peer_a.merge(&cs_ba, self.policy) {
            Ok(rep) => rep,
            Err(e) => {
                return Err(e);
            },
        };
        let bytes = sat_add(cs_ab.estimate_bytes(), cs_ba.estimate_bytes());
        let res = SyncResult { a_to_b: report_b, b_to_a: report_a, bytes_transferred: bytes };
        proof {
            assert(cs_ab.wf() && cs_ba.wf() && cs_ab.cells() == old(peer_a).cells()
                && cs_ba.cells() == old(peer_b).cells()
                && report_of(res.a_to_b, old(peer_b).cells(), cs_ab@, self.policy)
                && report_of(res.b_to_a, old(peer_a).cells(), cs_ba@, self.policy)
                && res.bytes_transferred as int == min(
                (size_estimate(cs_ab@) + size_estimate(cs_ba@)) as int,
                usize::MAX as int,
            ));
        }
        Ok(res)
    }
}

/// The cells of each table.
pub open spec fn cells_of(ts: Seq<CrrTable>) -> Seq<Map<Key, (Seq<u8>, u64)>> {
    ts.map_values(|t: CrrTable| t.cells())
}

/// The cells two peers hold after a session: both merged, or both unchanged
/// when the session fails.
pub open spec fn session_pair(
    a: Map<Key, (Seq<u8>, u64)>,
    b: Map<Key, (Seq<u8>, u64)>,
    policy: TieBreakPolicy,
) -> (Map<Key, (Seq<u8>, u64)>, Map<Key, (Seq<u8>, u64)>) {
    if session_fails(a, b, policy) {
        (a, b)
    } else {
        (after_session(a, b, policy), after_session(b, a, policy))
    }
}

/// The peers' cells after a session between peers `x` and `y`.
pub open spec fn pair_step(
    ms: Seq<Map<Key, (Seq<u8>, u64)>>,
    x: int,
    y: int,
    policy: TieBreakPolicy,
) -> Seq<Map<Key, (Seq<u8>, u64)>> {
    ms.update(x, session_pair(ms[x], ms[y], policy).0).update(y, session_pair(ms[x], ms[y], policy).1)
}

/// The peers' cells after sessions of peer `x` with peers `y`, `y + 1`, ... up to `n`.
pub open spec fn row_steps(
    ms: Seq<Map<Key, (Seq<u8>, u64)>>,
    x: int,
    y: int,
    n: int,
    policy: TieBreakPolicy,
) -> Seq<Map<Key, (Seq<u8>, u64)>>
    decreases n - y,
{
    if 0 <= x < y < n {
        row_steps(pair_step(ms, x, y, policy), x, y + 1, n, policy)
    } else {
        ms
    }
}

/// The peers' cells after the rows of sessions of peers `x`, `x + 1`, ... up to `n`.
pub open spec fn round_steps(
    ms: Seq<Map<Key, (Seq<u8>, u64)>>,
    x: int,
    n: int,
    policy: TieBreakPolicy,
) -> Seq<Map<Key, (Seq<u8>, u64)>>
    decreases n - x,
{
    if 0 <= x < n {
        round_steps(row_steps(ms, x, x + 1, n, policy), x + 1, n, policy)
    } else {
        ms
    }
}

/// The peers' cells after one round: a session for every pair `i < j`, in index order.
pub open spec fn mesh_round(ms: Seq<Map<Key, (Seq<u8>, u64)>>, policy: TieBreakPolicy) -> Seq<
    Map<Key, (Seq<u8>, u64)>,
> {
    round_steps(ms, 0, ms.len() as int, policy)
}

/// The peers' cells after `r` rounds.
pub open spec fn mesh_rounds(
    ms: Seq<Map<Key, (Seq<u8>, u64)>>,
    policy: TieBreakPolicy,
    r: nat,
) -> Seq<Map<Key, (Seq<u8>, u64)>>
    decreases r,
{
    if r == 0 {
        ms
    } else {
        mesh_round(mesh_rounds(ms, policy, (r - 1) as nat), policy)
    }
}

/// After peer `x` has met every later peer in turn, it advertises the greatest
/// version of every key any peer held at the round's start, and so does the
/// last peer.
proof fn lemma_row_done(peers: Seq<CrrTable>, start: Seq<CrrTable>, x: int)
    requires
        peers.len() == start.len(),
        0 <= x < peers.len(),
        forall|z: int, k: Key|
            0 <= z < peers.len() ==> hd(start[z].cells(), k) <= #[trigger] hd(peers[z].cells(), k),
        forall|z: int, k: Key|
            0 <= z < peers.len() ==> #[trigger] hd(peers[z].cells(), k) <= max_head(start, k),
        x >= 1 ==> forall|k: Key| #[trigger] hd(peers[peers.len() - 1].cells(), k) == max_head(start, k),
        forall|w: int, k: Key|
            x < w < peers.len() ==> #[trigger] hd(peers[w].cells(), k) <= hd(peers[x].cells(), k),
        peers.len() > x + 1 ==> forall|k: Key| #[trigger] hd(peers[peers.len() - 1].cells(), k) == hd(peers[x].cells(), k),
    ensures
        forall|k: Key| #[trigger] hd(peers[x].cells(), k) == max_head(start, k),
        forall|k: Key| #[trigger] hd(peers[peers.len() - 1].cells(), k) == max_head(start, k),
{
    let n = peers.len();
    assert forall|k: Key| #[trigger] hd(peers[x].cells(), k) == max_head(start, k) by {
        if x == 0 {
            assert forall|z: int| 0 <= z < start.len() implies hd(#[trigger] start[z].cells(), k) <= hd(peers[0].cells(), k) by {
                if z > 0 {
                    assert(hd(start[z].cells(), k) <= hd(peers[z].cells(), k));
                }
            }
            lemma_max_head_least(start, k, hd(peers[0].cells(), k));
        } else if x < n - 1 {
            assert(hd(peers[n - 1].cells(), k) <= hd(peers[x].cells(), k));
        }
    }
    assert forall|k: Key| #[trigger] hd(peers[n - 1].cells(), k) == max_head(start, k) by {
        if x == 0 && n >= 2 {
            assert(hd(peers[n - 1].cells(), k) == hd(peers[x].cells(), k));
        }
        assert(hd(peers[x].cells(), k) == max_head(start, k));
    }
}

/// Unfolds one row of a round.
pub proof fn lemma_round_unfold(ms: Seq<Map<Key, (Seq<u8>, u64)>>, x: int, n: int, policy: TieBreakPolicy)
    requires
        0 <= x < n,
    ensures
        round_steps(ms, x, n, policy) == round_steps(row_steps(ms, x, x + 1, n, policy), x + 1, n, policy),
{
}

/// Unfolds one session of a row.
pub proof fn lemma_row_unfold(ms: Seq<Map<Key, (Seq<u8>, u64)>>, x: int, y: int, n: int, policy: TieBreakPolicy)
    requires
        0 <= x < y < n,
    ensures
        row_steps(ms, x, y, n, policy) == row_steps(pair_step(ms, x, y, policy), x, y + 1, n, policy),
{
}

/// A set of peers kept in step by repeated pairwise sessions.
pub struct MeshSync {
    pub peers: Vec<CrrTable>,
    pub policy: TieBreakPolicy,
}

/// The most rounds `sync_all` runs.
pub const MAX_ROUNDS: usize = 100;

impl MeshSync {
    /// Every peer is well formed.
    pub open spec fn wf(&self) -> bool {
        forall|i: int| 0 <= i < self.peers@.len() ==> (#[trigger] self.peers@[i]).wf()
    }

    /// A mesh with no peers.
    pub fn new(policy: TieBreakPolicy) -> (r: MeshSync)
        ensures
            r.peers@.len() == 0,
            r.policy == policy,
    {
        MeshSync { peers: Vec::new(), policy }
    }

    /// Adds a peer at the end.
    pub fn add_peer(&mut self, peer: CrrTable)
        ensures
            final(self).peers@ == old(self).peers@.push(peer),
            final(self).policy == old(self).policy,
    {
        self.peers.push(peer);
    }

    /// Whether every peer holds the same cells.
    pub fn is_converged(&self) -> (r: bool)
        requires
            self.wf(),
        ensures
            r == forall|i: int, j: int|
                0 <= i < self.peers@.len() && 0 <= j < self.peers@.len() ==> (
                #[trigger] self.peers@[i]).cells() == (#[trigger] self.peers@[j]).cells(),
    {
        let n = self.peers.len();
        if n < 2 {
            proof {
                assert forall|i: int, j: int|
                    0 <= i < n && 0 <= j < n implies (#[trigger] self.peers@[i]).cells() == (
                    #[trigger] self.peers@[j]).cells() by {
                    assert(i == j);
                }
            }
            return true;
        }
        let mut z: usize = 1;
        while z < n
            invariant
                self.wf(),
                n == self.peers@.len(),
                1 <= z <= n,
                forall|w: int| 0 <= w < z ==> (#[trigger] self.peers@[w]).cells() == self.peers@[0].cells(),
            decreases n - z,
        {
            if !self.peers[0].same_cells(&self.peers[z]) {
                return false;
            }
            z = z + 1;
        }
        proof {
            assert forall|i: int, j: int|
                0 <= i < n && 0 <= j < n implies (#[trigger] self.peers@[i]).cells() == (
                #[trigger] self.peers@[j]).cells() by {
                assert(self.peers@[i].cells() == self.peers@[0].cells());
                assert(self.peers@[j].cells() == self.peers@[0].cells());
            }
        }
        true
    }

    /// One row of a round: sessions of peer `x` with each later peer in turn.
    #[verifier::rlimit(100)]
    #[verifier::spinoff_prover]
    fn sync_row(
        &mut self,
        session: &SyncSession,
        x: usize,
        n: usize,
        rounds: usize,
        quiet_in: bool,
        start_g: Ghost<Seq<CrrTable>>,
        orig_g: Ghost<Seq<CrrTable>>,
        nice_g: Ghost<bool>,
        agreed_g: Ghost<bool>,
    ) -> (quiet: bool)
        requires
            x < n,
            old(self).wf(),
            old(self).peers@.len() == n,
            session.policy == old(self).policy,
            start_g@.len() == n,
            x <= n,
            nice_g@ == (consistent(orig_g@) && versioned(orig_g@)),
            nice_g@ ==> forall|z: int| 0 <= z < n ==> derived_from(#[trigger] old(self).peers@[z].cells(), orig_g@),
            forall|z: int, k: Key|
                        0 <= z < n ==> hd(start_g@[z].cells(), k) <= #[trigger] hd(old(self).peers@[z].cells(), k),
            nice_g@ ==> forall|z: int, k: Key|
                        0 <= z < n ==> #[trigger] hd(old(self).peers@[z].cells(), k) <= max_head(start_g@, k),
            nice_g@ ==> forall|z: int, k: Key|
                        0 <= z < x ==> #[trigger] hd(old(self).peers@[z].cells(), k) == max_head(start_g@, k),
            nice_g@ && x >= 1 ==> forall|k: Key| #[trigger] hd(old(self).peers@[n - 1].cells(), k) == max_head(start_g@, k),
            agreed_g@ == (rounds >= 2 && nice_g@),
            agreed_g@ ==> forall|i: int, j: int| 0 <= i < n && 0 <= j < n ==> #[trigger] start_g@[i].cells() == #[trigger] start_g@[j].cells(),
            agreed_g@ ==> quiet_in,
            cells_of(start_g@) == mesh_rounds(cells_of(orig_g@), old(self).policy, (rounds - 1) as nat),
            rounds >= 1,
            round_steps(cells_of(old(self).peers@), x as int, n as int, old(self).policy) == mesh_round(
                        cells_of(start_g@),
                        old(self).policy,
            ),
            forall|z: int, k: Key|
                        0 <= z < n && #[trigger] orig_g@[z].cells().contains_key(k) ==> old(self).peers@[z].cells().contains_key(k)
                            && old(self).peers@[z].cells()[k].1 >= orig_g@[z].cells()[k].1,
            quiet_in ==> forall|z: int| 0 <= z < n ==> (#[trigger] old(self).peers@[z]).cells() == start_g@[z].cells(),
            quiet_in && old(self).policy != TieBreakPolicy::PreferExisting ==> forall|i: int, j: int|
                        0 <= i < j < n && i < x ==> (#[trigger] old(self).peers@[i]).cells() == (#[trigger] old(self).peers@[j]).cells(),
        ensures
            final(self).policy == old(self).policy,
            final(self).wf(),
            final(self).peers@.len() == n,
            session.policy == final(self).policy,
            start_g@.len() == n,
            (x + 1) <= n,
            nice_g@ == (consistent(orig_g@) && versioned(orig_g@)),
            nice_g@ ==> forall|z: int| 0 <= z < n ==> derived_from(#[trigger] final(self).peers@[z].cells(), orig_g@),
            forall|z: int, k: Key|
                        0 <= z < n ==> hd(start_g@[z].cells(), k) <= #[trigger] hd(final(self).peers@[z].cells(), k),
            nice_g@ ==> forall|z: int, k: Key|
                        0 <= z < n ==> #[trigger] hd(final(self).peers@[z].cells(), k) <= max_head(start_g@, k),
            nice_g@ ==> forall|z: int, k: Key|
                        0 <= z < (x + 1) ==> #[trigger] hd(final(self).peers@[z].cells(), k) == max_head(start_g@, k),
            nice_g@ && (x + 1) >= 1 ==> forall|k: Key| #[trigger] hd(final(self).peers@[n - 1].cells(), k) == max_head(start_g@, k),
            agreed_g@ == (rounds >= 2 && nice_g@),
            agreed_g@ ==> forall|i: int, j: int| 0 <= i < n && 0 <= j < n ==> #[trigger] start_g@[i].cells() == #[trigger] start_g@[j].cells(),
            agreed_g@ ==> quiet,
            cells_of(start_g@) == mesh_rounds(cells_of(orig_g@), final(self).policy, (rounds - 1) as nat),
            rounds >= 1,
            round_steps(cells_of(final(self).peers@), (x + 1) as int, n as int, final(self).policy) == mesh_round(
                        cells_of(start_g@),
                        final(self).policy,
            ),
            forall|z: int, k: Key|
                        0 <= z < n && #[trigger] orig_g@[z].cells().contains_key(k) ==> final(self).peers@[z].cells().contains_key(k)
                            && final(self).peers@[z].cells()[k].1 >= orig_g@[z].cells()[k].1,
            quiet ==> forall|z: int| 0 <= z < n ==> (#[trigger] final(self).peers@[z]).cells() == start_g@[z].cells(),
            quiet && final(self).policy != TieBreakPolicy::PreferExisting ==> forall|i: int, j: int|
                        0 <= i < j < n && i < (x + 1) ==> (#[trigger] final(self).peers@[i]).cells() == (#[trigger] final(self).peers@[j]).cells(),
    {
        let mut quiet = quiet_in;
        let mut y: usize = x + 1;
        proof {
            lemma_round_unfold(cells_of(self.peers@), x as int, n as int, self.policy);
        }
        while y < n
            invariant
                self.wf(),
                self.peers@.len() == n,
                self.policy == old(self).policy,
                session.policy == self.policy,
                start_g@.len() == n,
                x < n,
                x + 1 <= y <= n,
                nice_g@ == (consistent(orig_g@) && versioned(orig_g@)),
                nice_g@ ==> forall|z: int| 0 <= z < n ==> derived_from(#[trigger] self.peers@[z].cells(), orig_g@),
                forall|z: int, k: Key|
                    0 <= z < n ==> hd(start_g@[z].cells(), k) <= #[trigger] hd(self.peers@[z].cells(), k),
                nice_g@ ==> forall|z: int, k: Key|
                    0 <= z < n ==> #[trigger] hd(self.peers@[z].cells(), k) <= max_head(start_g@, k),
                nice_g@ ==> forall|z: int, k: Key|
                    0 <= z < x ==> #[trigger] hd(self.peers@[z].cells(), k) == max_head(start_g@, k),
                nice_g@ && x >= 1 ==> forall|k: Key| #[trigger] hd(self.peers@[n - 1].cells(), k) == max_head(start_g@, k),
                nice_g@ ==> forall|w: int, k: Key|
                    x < w < y ==> #[trigger] hd(self.peers@[w].cells(), k) <= hd(self.peers@[x as int].cells(), k),
                nice_g@ && y > x + 1 ==> forall|k: Key| #[trigger] hd(self.peers@[y - 1].cells(), k) == hd(self.peers@[x as int].cells(), k),
                agreed_g@ == (rounds >= 2 && nice_g@),
                agreed_g@ ==> forall|i: int, j: int| 0 <= i < n && 0 <= j < n ==> #[trigger] start_g@[i].cells() == #[trigger] start_g@[j].cells(),
                agreed_g@ ==> quiet,
                cells_of(start_g@) == mesh_rounds(cells_of(orig_g@), self.policy, (rounds - 1) as nat),
                rounds >= 1,
                round_steps(
                    row_steps(cells_of(self.peers@), x as int, y as int, n as int, self.policy),
                    x + 1,
                    n as int,
                    self.policy,
                ) == mesh_round(cells_of(start_g@), self.policy),
                forall|z: int, k: Key|
                    0 <= z < n && #[trigger] orig_g@[z].cells().contains_key(k) ==> self.peers@[z].cells().contains_key(k)
                        && self.peers@[z].cells()[k].1 >= orig_g@[z].cells()[k].1,
                quiet ==> forall|z: int| 0 <= z < n ==> (#[trigger] self.peers@[z]).cells() == start_g@[z].cells(),
                quiet && self.policy != TieBreakPolicy::PreferExisting ==> forall|i: int, j: int|
                    0 <= i < j < n && (i < x || (i == x && j < y)) ==> (#[trigger] self.peers@[i]).cells() == (#[trigger] self.peers@[j]).cells(),
            decreases n - y,
        {
            let ghost before = self.peers@;
            let mut a = CrrTable::open_in_memory();
            let mut b = CrrTable::open_in_memory();
            std::mem::swap(&mut a, &mut self.peers[x]);
            std::mem::swap(&mut b, &mut self.peers[y]);
            proof {
                assert(a == before[x as int]);
                assert(b == before[y as int]);
            }
            let ghost a0 = a.cells();
            let ghost b0 = b.cells();
            let res = session.sync(&mut a, &mut b);
            let ghost a1 = a;
            let ghost b1 = b;
            std::mem::swap(&mut a, &mut self.peers[x]);
            std::mem::swap(&mut b, &mut self.peers[y]);
            proof {
                assert(self.peers@ == before.update(x as int, a1).update(y as int, b1));
                assert(self.peers@[x as int] == a1);
                assert(self.peers@[y as int] == b1);
                assert(self.wf()) by {
                    assert forall|z: int| 0 <= z < self.peers@.len() implies (#[trigger] self.peers@[z]).wf() by {
                        if z != x && z != y {
                            assert(self.peers@[z] == before[z]);
                        }
                    }
                }
                if res is Ok {
                    lemma_merge_keeps_keys(a0, b0, self.policy);
                    lemma_merge_keeps_keys(b0, a0, self.policy);
                }
                assert forall|z: int, k: Key|
                    0 <= z < n && #[trigger] orig_g@[z].cells().contains_key(k) implies self.peers@[z].cells().contains_key(k)
                        && self.peers@[z].cells()[k].1 >= orig_g@[z].cells()[k].1 by {
                    if z != x && z != y {
                        assert(self.peers@[z] == before[z]);
                    } else if z == x {
                        assert(before[z].cells().contains_key(k));
                        assert(a0.contains_key(k));
                    } else {
                        assert(before[z].cells().contains_key(k));
                        assert(b0.contains_key(k));
                    }
                }
            }
            proof {
                let cb = cells_of(before);
                assert(cb[x as int] == a0);
                assert(cb[y as int] == b0);
                assert(session_pair(a0, b0, self.policy) == (a1.cells(), b1.cells()));
                assert(cells_of(self.peers@) =~= pair_step(cb, x as int, y as int, self.policy));
                lemma_row_unfold(cb, x as int, y as int, n as int, self.policy);
            }
            proof {
                assert forall|z: int| 0 <= z < n && z != x && z != y implies #[trigger] self.peers@[z] == before[z] by {}
                if nice_g@ {
                    lemma_consistent_session(a0, b0, self.policy, orig_g@);
                    assert(res is Ok);
                    assert forall|z: int| 0 <= z < n implies derived_from(#[trigger] self.peers@[z].cells(), orig_g@) by {
                        if z != x && z != y {
                            assert(self.peers@[z] == before[z]);
                        }
                    }
                    assert forall|k: Key| hd(a1.cells(), k) == hd(b1.cells(), k) && hd(a1.cells(), k) == (if hd(a0, k) >= hd(b0, k) {
                        hd(a0, k)
                    } else {
                        hd(b0, k)
                    }) by {
                        assert(hd(after_session(a0, b0, self.policy), k) == hd(after_session(b0, a0, self.policy), k));
                    }
                    assert forall|z: int, k: Key| 0 <= z < n implies #[trigger] hd(self.peers@[z].cells(), k) <= max_head(start_g@, k) by {
                        if z != x && z != y {
                            assert(self.peers@[z] == before[z]);
                        } else {
                            assert(hd(before[x as int].cells(), k) <= max_head(start_g@, k));
                            assert(hd(before[y as int].cells(), k) <= max_head(start_g@, k));
                        }
                    }
                    assert forall|z: int, k: Key| 0 <= z < x implies #[trigger] hd(self.peers@[z].cells(), k) == max_head(start_g@, k) by {
                        assert(self.peers@[z] == before[z]);
                    }
                    if x >= 1 {
                        assert forall|k: Key| #[trigger] hd(self.peers@[n - 1].cells(), k) == max_head(start_g@, k) by {
                            if y == n - 1 {
                                assert(hd(before[(n - 1) as int].cells(), k) == max_head(start_g@, k));
                                assert(hd(before[x as int].cells(), k) <= max_head(start_g@, k));
                            } else {
                                assert(self.peers@[n - 1] == before[n - 1]);
                            }
                        }
                    }
                    assert forall|w: int, k: Key| x < w < y + 1 implies #[trigger] hd(self.peers@[w].cells(), k) <= hd(self.peers@[x as int].cells(), k) by {
                        if w < y {
                            assert(self.peers@[w] == before[w]);
                            assert(hd(before[w].cells(), k) <= hd(before[x as int].cells(), k));
                        }
                    }
                }
                assert forall|z: int, k: Key| 0 <= z < n implies hd(start_g@[z].cells(), k) <= #[trigger] hd(self.peers@[z].cells(), k) by {
                    if z != x && z != y {
                        assert(self.peers@[z] == before[z]);
                    } else if res is Ok {
                        lemma_merge_keeps_keys(a0, b0, self.policy);
                        lemma_merge_keeps_keys(b0, a0, self.policy);
                        assert(hd(start_g@[z].cells(), k) <= hd(before[z].cells(), k));
                        if before[z].cells().contains_key(k) {
                            assert(self.peers@[z].cells().contains_key(k));
                        }
                    }
                }
                if agreed_g@ {
                    assert(a0 == start_g@[x as int].cells());
                    assert(b0 == start_g@[y as int].cells());
                    assert(a0 == b0);
                    assert forall|k: Key| #[trigger] a0.contains_key(k) implies a0[k].1 >= 1 by {
                        let z = choose|z: int| 0 <= z < orig_g@.len() && orig_g@[z].cells().contains_key(k) && orig_g@[z].cells()[k] == a0[k];
                    }
                    lemma_identical_session(a0, self.policy);
                    lemma_nothing_written(a0, a0, self.policy);
                    assert(res is Ok);
                    let rep = res.unwrap();
                    let (ab, ba) = choose|ab: Changeset, ba: Changeset|
                        #![trigger ab.cells(), ba.cells()]
                        ab.wf() && ba.wf() && ab.cells() == a0
                            && ba.cells() == b0
                            && report_of(rep.a_to_b, b0, ab@, self.policy)
                            && report_of(rep.b_to_a, a0, ba@, self.policy)
                            && rep.bytes_transferred as int == min(
                            (size_estimate(ab@) + size_estimate(ba@)) as int,
                            usize::MAX as int,
                        );
                    lemma_report_zero(rep.a_to_b, b0, ab, self.policy);
                    lemma_report_zero(rep.b_to_a, a0, ba, self.policy);
                }
            }
            let changed = match &res {
                Ok(r) => r.changed(),
                Err(_) => true,
            };
            if changed {
                quiet = false;
            } else {
                proof {
                    let rep = res.unwrap();
                    let (ab, ba) = choose|ab: Changeset, ba: Changeset|
                        #![trigger ab.cells(), ba.cells()]
                        ab.wf() && ba.wf() && ab.cells() == a0
                            && ba.cells() == b0
                            && report_of(rep.a_to_b, b0, ab@, self.policy)
                            && report_of(rep.b_to_a, a0, ba@, self.policy)
                            && rep.bytes_transferred as int == min(
                            (size_estimate(ab@) + size_estimate(ba@)) as int,
                            usize::MAX as int,
                        );
                    lemma_quiet_report(rep.a_to_b, b0, ab, self.policy);
                    lemma_quiet_report(rep.b_to_a, a0, ba, self.policy);
                    lemma_nothing_written(b0, a0, self.policy);
                    lemma_nothing_written(a0, b0, self.policy);
                    if quiet {
                        assert(a1.cells() == a0);
                        assert(b1.cells() == b0);
                        assert forall|z: int| 0 <= z < n implies (#[trigger] self.peers@[z]).cells() == start_g@[z].cells() by {
                            if z != x && z != y {
                                assert(self.peers@[z] == before[z]);
                            }
                        }
                        if self.policy != TieBreakPolicy::PreferExisting {
                            lemma_quiet_session(a0, b0, self.policy);
                            assert forall|i: int, j: int|
                                0 <= i < j < n && (i < x || (i == x && j < y + 1)) implies (#[trigger] self.peers@[i]).cells() == (#[trigger] self.peers@[j]).cells() by {
                                if !(i == x && j == y) {
                                    assert(self.peers@[i].cells() == before[i].cells());
                                    assert(self.peers@[j].cells() == before[j].cells());
                                }
                            }
                        }
                    }
                }
            }
            y = y + 1;
        }
        proof {
            assert(row_steps(cells_of(self.peers@), x as int, n as int, n as int, self.policy) == cells_of(self.peers@));
            if nice_g@ {
                lemma_row_done(self.peers@, start_g@, x as int);
            }
        }
        quiet
    }

    /// Runs rounds of sessions over every pair `i < j` in index order until a
    /// round writes nothing, at most `MAX_ROUNDS` rounds, and returns how many
    /// ran: the peers end with exactly the cells that many rounds produce. No
    /// peer loses a key or sees a version go down. Under a policy that lets one
    /// side of a tie win, stopping early means every peer holds the same cells,
    /// among them every key any peer started with, at no lower version. Peers
    /// that start with versions of at least 1 and never one key at one version
    /// with two values are done within two rounds, holding cells some peer
    /// started with.
    #[verifier::rlimit(100)]
    #[verifier::spinoff_prover]
    pub fn sync_all(&mut self) -> (r: usize)
        requires
            old(self).wf(),
        ensures
            final(self).wf(),
            final(self).policy == old(self).policy,
            final(self).peers@.len() == old(self).peers@.len(),
            1 <= r <= MAX_ROUNDS,
            consistent(old(self).peers@) && versioned(old(self).peers@) ==> r <= 2,
            r < MAX_ROUNDS && consistent(old(self).peers@) && versioned(old(self).peers@) ==> forall|i: int|
                0 <= i < final(self).peers@.len() ==> derived_from(#[trigger] final(self).peers@[i].cells(), old(self).peers@),
            cells_of(final(self).peers@) == mesh_rounds(cells_of(old(self).peers@), old(self).policy, r as nat),
            r < MAX_ROUNDS ==> mesh_rounds(cells_of(old(self).peers@), old(self).policy, r as nat)
                == mesh_rounds(cells_of(old(self).peers@), old(self).policy, (r - 1) as nat),
            forall|z: int, k: Key|
                0 <= z < old(self).peers@.len() && #[trigger] old(self).peers@[z].cells().contains_key(k)
                    ==> final(self).peers@[z].cells().contains_key(k) && final(self).peers@[z].cells()[k].1
                    >= old(self).peers@[z].cells()[k].1,
            r < MAX_ROUNDS && old(self).policy != TieBreakPolicy::PreferExisting ==> forall|
                i: int,
                j: int,
            |
                0 <= i < final(self).peers@.len() && 0 <= j < final(self).peers@.len()
                    ==> (#[trigger] final(self).peers@[i]).cells() == (
                #[trigger] final(self).peers@[j]).cells(),
            r < MAX_ROUNDS && old(self).policy != TieBreakPolicy::PreferExisting ==> forall|
                i: int,
                z: int,
                k: Key,
            |
                0 <= i < final(self).peers@.len() && 0 <= z < old(self).peers@.len()
                    && #[trigger] old(self).peers@[z].cells().contains_key(k) ==> (
                #[trigger] final(self).peers@[i]).cells().contains_key(k) && final(self).peers@[i].cells()[k].1
                    >= old(self).peers@[z].cells()[k].1,
    {
        let ghost orig = self.peers@;
        let ghost nice = consistent(orig) && versioned(orig);
        proof {
            assert forall|z: int| 0 <= z < orig.len() implies derived_from(#[trigger] self.peers@[z].cells(), orig) by {
                assert forall|k: Key| #[trigger] self.peers@[z].cells().contains_key(k) implies exists|w: int|
                    0 <= w < orig.len() && orig[w].cells().contains_key(k) && orig[w].cells()[k] == self.peers@[z].cells()[k] by {
                    assert(orig[z] == self.peers@[z]);
                }
            }
        }
        let n = self.peers.len();
        let session = SyncSession::new(self.policy);
        let mut rounds: usize = 0;
        while rounds < MAX_ROUNDS
            invariant
                self.wf(),
                self.peers@.len() == n,
                n == old(self).peers@.len(),
                orig == old(self).peers@,
                self.policy == old(self).policy,
                session.policy == self.policy,
                rounds <= MAX_ROUNDS,
                nice == (consistent(orig) && versioned(orig)),
                nice ==> forall|z: int| 0 <= z < n ==> derived_from(#[trigger] self.peers@[z].cells(), orig),
                rounds >= 1 && nice ==> forall|i: int, j: int|
                    0 <= i < n && 0 <= j < n ==> heads_agree(
                        #[trigger] self.peers@[i].cells(),
                        #[trigger] self.peers@[j].cells(),
                    ),
                nice ==> rounds <= 1,
                cells_of(self.peers@) == mesh_rounds(cells_of(orig), self.policy, rounds as nat),
                forall|z: int, k: Key|
                    0 <= z < n && #[trigger] orig[z].cells().contains_key(k) ==> self.peers@[z].cells().contains_key(k)
                        && self.peers@[z].cells()[k].1 >= orig[z].cells()[k].1,
            decreases MAX_ROUNDS - rounds,
        {
            let ghost agreed = rounds >= 1 && nice;
            rounds = rounds + 1;
            let ghost start = self.peers@;
            let mut quiet = true;
            let mut x: usize = 0;
            proof {
                assert(cells_of(start).len() == n);
                assert forall|z: int, k: Key| 0 <= z < n implies hd(start[z].cells(), k) <= #[trigger] hd(self.peers@[z].cells(), k)
                    && hd(self.peers@[z].cells(), k) <= max_head(start, k) by {
                    lemma_max_head_upper(start, k, z);
                }
                if agreed {
                    assert forall|i: int, j: int| 0 <= i < n && 0 <= j < n implies #[trigger] start[i].cells() == #[trigger] start[j].cells() by {
                        lemma_agreeing_heads_same_cells(start[i].cells(), start[j].cells(), orig);
                    }
                }
            }
            while x < n
                invariant
                    self.wf(),
                    self.peers@.len() == n,
                    n == old(self).peers@.len(),
                    orig == old(self).peers@,
                    self.policy == old(self).policy,
                    session.policy == self.policy,
                    start.len() == n,
                    x <= n,
                    nice == (consistent(orig) && versioned(orig)),
                    nice ==> forall|z: int| 0 <= z < n ==> derived_from(#[trigger] self.peers@[z].cells(), orig),
                    forall|z: int, k: Key|
                        0 <= z < n ==> hd(start[z].cells(), k) <= #[trigger] hd(self.peers@[z].cells(), k),
                    nice ==> forall|z: int, k: Key|
                        0 <= z < n ==> #[trigger] hd(self.peers@[z].cells(), k) <= max_head(start, k),
                    nice ==> forall|z: int, k: Key|
                        0 <= z < x ==> #[trigger] hd(self.peers@[z].cells(), k) == max_head(start, k),
                    nice && x >= 1 ==> forall|k: Key| #[trigger] hd(self.peers@[n - 1].cells(), k) == max_head(start, k),
                    agreed == (rounds >= 2 && nice),
                    agreed ==> forall|i: int, j: int| 0 <= i < n && 0 <= j < n ==> #[trigger] start[i].cells() == #[trigger] start[j].cells(),
                    agreed ==> quiet,
                    cells_of(start) == mesh_rounds(cells_of(orig), self.policy, (rounds - 1) as nat),
                    rounds >= 1,
                    round_steps(cells_of(self.peers@), x as int, n as int, self.policy) == mesh_round(
                        cells_of(start),
                        self.policy,
                    ),
                    forall|z: int, k: Key|
                        0 <= z < n && #[trigger] orig[z].cells().contains_key(k) ==> self.peers@[z].cells().contains_key(k)
                            && self.peers@[z].cells()[k].1 >= orig[z].cells()[k].1,
                    quiet ==> forall|z: int| 0 <= z < n ==> (#[trigger] self.peers@[z]).cells() == start[z].cells(),
                    quiet && self.policy != TieBreakPolicy::PreferExisting ==> forall|i: int, j: int|
                        0 <= i < j < n && i < x ==> (#[trigger] self.peers@[i]).cells() == (#[trigger] self.peers@[j]).cells(),
                decreases n - x,
            {
                quiet = self.sync_row(&session, x, n, rounds, quiet, Ghost(start), Ghost(orig), Ghost(nice), Ghost(agreed));
                x = x + 1;
            }
            proof {
                if nice {
                    assert forall|i: int, j: int| 0 <= i < n && 0 <= j < n implies heads_agree(
                        #[trigger] self.peers@[i].cells(),
                        #[trigger] self.peers@[j].cells(),
                    ) by {
                        assert forall|k: Key| #[trigger] head_of(versions_of(self.peers@[i].cells()), k) == head_of(versions_of(self.peers@[j].cells()), k) by {
                            assert(hd(self.peers@[i].cells(), k) == max_head(start, k));
                            assert(hd(self.peers@[j].cells(), k) == max_head(start, k));
                        }
                    }
                }
                assert(round_steps(cells_of(self.peers@), n as int, n as int, self.policy) == cells_of(self.peers@));
                assert(cells_of(self.peers@) == mesh_rounds(cells_of(orig), self.policy, rounds as nat));
                if quiet {
                    assert(cells_of(self.peers@) =~= cells_of(start));
                }
            }
            if quiet {
                proof {
                    if self.policy != TieBreakPolicy::PreferExisting {
                        assert forall|i: int, j: int|
                            0 <= i < n && 0 <= j < n implies (#[trigger] self.peers@[i]).cells() == (#[trigger] self.peers@[j]).cells() by {
                            if i < j {
                                assert(self.peers@[i].cells() == self.peers@[j].cells());
                            } else if j < i {
                                assert(self.peers@[j].cells() == self.peers@[i].cells());
                            }
                        }
                        assert forall|i: int, z: int, k: Key|
                            0 <= i < n && 0 <= z < n && #[trigger] orig[z].cells().contains_key(k) implies (
                            #[trigger] self.peers@[i]).cells().contains_key(k) && self.peers@[i].cells()[k].1 >= orig[z].cells()[k].1 by {
                            assert(self.peers@[i].cells() == self.peers@[z].cells());
                        }
                    }
                }
                return rounds;
            }
        }
        rounds
    }
}

} // verus!
