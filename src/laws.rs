//! Laws of the merge, the local writes, GC and sync, proved over the models
//! that the operations' contracts use.
use vstd::prelude::*;

use crate::keyed::lemma_keyed_index;
use crate::merge::{
    accepts_incoming, count_where, is_inserted, is_updated, writes, writes_nothing, MergeReport,
    lookup, merge_cells, merge_fails, merged, outcome, overflows, report_of, CellOutcome,
    TieBreakPolicy,
};
use crate::row::{apply_updates, next_version};
use crate::storage::{keep_last, Key, MemoryStorage, NodeModel};
use crate::table::merge_histories_ok;
use crate::sync::{after_session, delta, entry_key, head_of, pk_known, versions_of, Changeset};

verus! {

/// The version of a cell, 0 when absent.
pub open spec fn version_or_zero(c: Option<(Seq<u8>, u64)>) -> u64 {
    match c {
        Some(x) => x.1,
        None => 0,
    }
}

/// Each local update of a column writes exactly one version past the current
/// one (1 for a new column), and fails only at `u64::MAX`.
pub proof fn lemma_update_bumps_version(
    m: Map<Key, (Seq<u8>, u64)>,
    pk: Seq<char>,
    col: Seq<char>,
    value: Seq<u8>,
)
    ensures
        apply_updates(m, pk, seq![(col, value)]).1 <==> (m.contains_key((pk, col)) && m[(pk, col)].1
            == u64::MAX),
        !apply_updates(m, pk, seq![(col, value)]).1 ==> {
            &&& apply_updates(m, pk, seq![(col, value)]).0[(pk, col)] == (value, next_version(
                m,
                (pk, col),
            ) as u64)
            &&& next_version(m, (pk, col)) == version_or_zero(lookup(m, (pk, col))) + 1
        },
{
    let w = seq![(col, value)];
    assert(w.drop_last() =~= Seq::<(Seq<char>, Seq<u8>)>::empty());
    assert(apply_updates(m, pk, w.drop_last()) == (m, false));
    assert(w.last() == (col, value));
}

/// The cells after `n` single-column updates of `col` under `pk` with the
/// values `vals` in order, and whether one of them stopped at `u64::MAX`.
pub open spec fn repeated_updates(
    m: Map<Key, (Seq<u8>, u64)>,
    pk: Seq<char>,
    col: Seq<char>,
    vals: Seq<Seq<u8>>,
) -> (Map<Key, (Seq<u8>, u64)>, bool)
    decreases vals.len(),
{
    if vals.len() == 0 {
        (m, false)
    } else {
        let prev = repeated_updates(m, pk, col, vals.drop_last());
        if prev.1 {
            prev
        } else {
            apply_updates(prev.0, pk, seq![(col, vals.last())])
        }
    }
}

/// A run of local updates of one column raises its version by exactly one per
/// update: after `n` updates it stands `n` above where it started (0 for a new
/// column), with the last value written.
pub proof fn lemma_updates_count_versions(
    m: Map<Key, (Seq<u8>, u64)>,
    pk: Seq<char>,
    col: Seq<char>,
    vals: Seq<Seq<u8>>,
)
    requires
        version_or_zero(lookup(m, (pk, col))) + vals.len() <= u64::MAX,
    ensures
        !repeated_updates(m, pk, col, vals).1,
        vals.len() > 0 ==> repeated_updates(m, pk, col, vals).0[(pk, col)] == (
            vals.last(),
            (version_or_zero(lookup(m, (pk, col))) + vals.len()) as u64,
        ),
        vals.len() == 0 ==> repeated_updates(m, pk, col, vals).0 == m,
    decreases vals.len(),
{
    if vals.len() > 0 {
        let t = vals.drop_last();
        lemma_updates_count_versions(m, pk, col, t);
        let prev = repeated_updates(m, pk, col, t);
        lemma_update_bumps_version(prev.0, pk, col, vals.last());
        if t.len() > 0 {
            assert(lookup(prev.0, (pk, col)) == Some(prev.0[(pk, col)]));
        }
    }
}

/// Merging one cell stores the greater of the two versions, or one past the
/// incoming version when a tie is won by the incoming value.
pub proof fn lemma_merge_version(
    local: Option<(Seq<u8>, u64)>,
    value: Seq<u8>,
    version: u64,
    policy: TieBreakPolicy,
)
    requires
        !overflows(local, value, version, policy),
    ensures
        merged(local, value, version, policy).1 == if outcome(local, value, version, policy)
            == CellOutcome::ConflictWon {
            version + 1
        } else if version_or_zero(local) >= version {
            version_or_zero(local) as int
        } else {
            version as int
        },
{
}

/// Merging two changesets with no key in common gives the same cells in either
/// order, and each fails in one order exactly when it fails in the other.
pub proof fn lemma_merge_commutes(
    t: Map<Key, (Seq<u8>, u64)>,
    c1: Map<Key, (Seq<u8>, u64)>,
    c2: Map<Key, (Seq<u8>, u64)>,
    policy: TieBreakPolicy,
)
    requires
        c1.dom().disjoint(c2.dom()),
    ensures
        merge_cells(merge_cells(t, c1, policy), c2, policy) == merge_cells(
            merge_cells(t, c2, policy),
            c1,
            policy,
        ),
        merge_fails(merge_cells(t, c1, policy), c2, policy) == merge_fails(t, c2, policy),
        merge_fails(merge_cells(t, c2, policy), c1, policy) == merge_fails(t, c1, policy),
{
    let t1 = merge_cells(t, c1, policy);
    let t2 = merge_cells(t, c2, policy);
    assert forall|k: Key| c2.contains_key(k) implies lookup(t1, k) == lookup(t, k) by {
        assert(!c1.contains_key(k));
    }
    assert forall|k: Key| c1.contains_key(k) implies lookup(t2, k) == lookup(t, k) by {
        assert(!c2.contains_key(k));
    }
    assert(merge_cells(t1, c2, policy) =~= merge_cells(t2, c1, policy));
    if merge_fails(t1, c2, policy) {
        let k = choose|k: Key| c2.contains_key(k) && overflows(lookup(t1, k), c2[k].0, c2[k].1, policy);
    }
    if merge_fails(t, c2, policy) {
        let k = choose|k: Key| c2.contains_key(k) && overflows(lookup(t, k), c2[k].0, c2[k].1, policy);
    }
    if merge_fails(t2, c1, policy) {
        let k = choose|k: Key| c1.contains_key(k) && overflows(lookup(t2, k), c1[k].0, c1[k].1, policy);
    }
    if merge_fails(t, c1, policy) {
        let k = choose|k: Key| c1.contains_key(k) && overflows(lookup(t, k), c1[k].0, c1[k].1, policy);
    }
}

/// At table level: the stored version of a merged key is the greater of the
/// two versions (a local cell at version 0 counting as absent), or one past the
/// incoming version when a tie with differing values is won by the incoming one.
pub proof fn lemma_merge_stored_version(
    t: Map<Key, (Seq<u8>, u64)>,
    c: Map<Key, (Seq<u8>, u64)>,
    policy: TieBreakPolicy,
    k: Key,
)
    requires
        c.contains_key(k),
        !merge_fails(t, c, policy),
    ensures
        merge_cells(t, c, policy)[k].1 == if t.contains_key(k) && t[k].1 > 0 && t[k].1 == c[k].1
            && t[k].0 != c[k].0 && accepts_incoming(t[k].0, c[k].0, policy) {
            c[k].1 + 1
        } else if version_or_zero(lookup(t, k)) >= c[k].1 {
            version_or_zero(lookup(t, k)) as int
        } else {
            c[k].1 as int
        },
{
    assert(!overflows(lookup(t, k), c[k].0, c[k].1, policy));
}

/// A second merge of a changeset whose versions are at least 1 writes no cell.
pub proof fn lemma_second_merge_writes_nothing(
    t: Map<Key, (Seq<u8>, u64)>,
    c: Map<Key, (Seq<u8>, u64)>,
    policy: TieBreakPolicy,
)
    requires
        !merge_fails(t, c, policy),
        forall|k: Key| #[trigger] c.contains_key(k) ==> c[k].1 >= 1,
    ensures
        writes_nothing(merge_cells(t, c, policy), c, policy),
{
    let t1 = merge_cells(t, c, policy);
    assert forall|k: Key| #[trigger] c.contains_key(k) implies !writes(
        outcome(lookup(t1, k), c[k].0, c[k].1, policy),
    ) by {
        assert(!overflows(lookup(t, k), c[k].0, c[k].1, policy));
        assert(lookup(t1, k) == Some(merged(lookup(t, k), c[k].0, c[k].1, policy)));
    }
}

/// So the report of that second merge counts no inserted or updated cell, and
/// the histories it leaves are the ones it found.
pub proof fn lemma_second_merge_quiet(
    rep: MergeReport,
    s1: MemoryStorage,
    s2: MemoryStorage,
    t: Map<Key, (Seq<u8>, u64)>,
    cs: Changeset,
    policy: TieBreakPolicy,
)
    requires
        cs.wf(),
        !merge_fails(t, cs.cells(), policy),
        forall|k: Key| #[trigger] cs.cells().contains_key(k) ==> cs.cells()[k].1 >= 1,
        s1.cells() == merge_cells(t, cs.cells(), policy),
        report_of(rep, s1.cells(), cs@, policy),
        merge_histories_ok(&s1, &s2, cs.cells(), policy),
    ensures
        rep.inserted == 0,
        rep.updated == 0,
        forall|k: Key| #[trigger] s2.history_of(k) == s1.history_of(k),
{
    lemma_second_merge_writes_nothing(t, cs.cells(), policy);
    let s = cs@;
    assert forall|j: int| 0 <= j < s.len() implies !writes(
        outcome(lookup(s1.cells(), #[trigger] s[j].0), s[j].1.0, s[j].1.1, policy),
    ) by {
        lemma_keyed_index(s, entry_key(), j);
        assert(cs.cells().contains_key(s[j].0));
    }
    lemma_quiet_counts(s1.cells(), s, policy);
    assert forall|k: Key| #[trigger] s2.history_of(k) == s1.history_of(k) by {
        if cs.cells().contains_key(k) {
            assert(!writes(outcome(lookup(s1.cells(), k), cs.cells()[k].0, cs.cells()[k].1, policy)));
        }
    }
}

/// Incoming cells none of which is written count nothing as inserted or updated.
pub proof fn lemma_quiet_counts(
    local: Map<Key, (Seq<u8>, u64)>,
    s: Seq<(Key, (Seq<u8>, u64))>,
    policy: TieBreakPolicy,
)
    requires
        forall|j: int|
            0 <= j < s.len() ==> !writes(outcome(lookup(local, #[trigger] s[j].0), s[j].1.0, s[j].1.1, policy)),
    ensures
        count_where(local, s, policy, is_inserted()) == 0,
        count_where(local, s, policy, is_updated()) == 0,
    decreases s.len(),
{
    if s.len() > 0 {
        let t = s.drop_last();
        assert forall|j: int|
            0 <= j < t.len() implies !writes(outcome(lookup(local, #[trigger] t[j].0), t[j].1.0, t[j].1.1, policy)) by {
            assert(t[j] == s[j]);
        }
        lemma_quiet_counts(local, t, policy);
        assert(s[s.len() - 1] == s.last());
    }
}

/// Merging a changeset a second time changes nothing and cannot fail.
pub proof fn lemma_merge_idempotent(
    t: Map<Key, (Seq<u8>, u64)>,
    c: Map<Key, (Seq<u8>, u64)>,
    policy: TieBreakPolicy,
)
    requires
        !merge_fails(t, c, policy),
    ensures
        !merge_fails(merge_cells(t, c, policy), c, policy),
        merge_cells(merge_cells(t, c, policy), c, policy) == merge_cells(t, c, policy),
{
    let t1 = merge_cells(t, c, policy);
    assert forall|k: Key| c.contains_key(k) implies {
        &&& merged(lookup(t1, k), c[k].0, c[k].1, policy) == t1[k]
        &&& !overflows(lookup(t1, k), c[k].0, c[k].1, policy)
    } by {
        assert(!overflows(lookup(t, k), c[k].0, c[k].1, policy));
        assert(lookup(t1, k) == Some(merged(lookup(t, k), c[k].0, c[k].1, policy)));
    }
    assert(merge_cells(t1, c, policy) =~= t1);
}

/// Cutting a history to at least one node keeps its newest node.
pub proof fn lemma_gc_keeps_head(h: Seq<NodeModel>, n: nat)
    requires
        n >= 1,
        h.len() > 0,
    ensures
        keep_last(h, n).len() > 0,
        keep_last(h, n).last() == h.last(),
{
}

/// Two peers hold key `k` at one version with different values.
pub open spec fn tie_at(a: Map<Key, (Seq<u8>, u64)>, b: Map<Key, (Seq<u8>, u64)>, k: Key) -> bool {
    a.contains_key(k) && b.contains_key(k) && a[k].1 == b[k].1 && a[k].0 != b[k].0
}

/// Without a tie at `k`, a session leaves both peers with the same cell at
/// `k`: the newer of the two (0 standing for absent), so both advertise the
/// greater version.
pub proof fn lemma_session_agrees(
    a: Map<Key, (Seq<u8>, u64)>,
    b: Map<Key, (Seq<u8>, u64)>,
    policy: TieBreakPolicy,
    k: Key,
)
    requires
        !tie_at(a, b, k),
    ensures
        lookup(after_session(a, b, policy), k) == lookup(after_session(b, a, policy), k),
        lookup(after_session(a, b, policy), k) == lookup(a, k) || lookup(after_session(a, b, policy), k)
            == lookup(b, k),
        head_of(versions_of(a), k) > head_of(versions_of(b), k) ==> lookup(
            after_session(a, b, policy),
            k,
        ) == lookup(a, k),
        head_of(versions_of(b), k) > head_of(versions_of(a), k) ==> lookup(
            after_session(a, b, policy),
            k,
        ) == lookup(b, k),
        head_of(versions_of(after_session(a, b, policy)), k) == if head_of(versions_of(a), k)
            >= head_of(versions_of(b), k) {
            head_of(versions_of(a), k)
        } else {
            head_of(versions_of(b), k)
        },
{
    let ra = after_session(a, b, policy);
    let rb = after_session(b, a, policy);
    let da = a;
    let db = b;
    if a.contains_key(k) {
        assert(versions_of(a).contains_key(k));
        assert(pk_known(versions_of(a), k.0));
    }
    if b.contains_key(k) {
        assert(versions_of(b).contains_key(k));
        assert(pk_known(versions_of(b), k.0));
    }
    if a.contains_key(k) && b.contains_key(k) {
        if a[k].1 >= b[k].1 {
            assert(da.contains_key(k));
        }
        if b[k].1 >= a[k].1 {
            assert(db.contains_key(k));
        }
    } else if a.contains_key(k) {
        assert(da.contains_key(k));
    } else if b.contains_key(k) {
        assert(db.contains_key(k));
    }
    assert(versions_of(ra).contains_key(k) == ra.contains_key(k));
}

/// A cell newer than the other peer's copy (a tombstone written locally, say)
/// is the cell both peers hold after a session, in either direction. GC on
/// either side leaves cells untouched, so it cannot undo this.
pub proof fn lemma_newer_cell_adopted(
    a: Map<Key, (Seq<u8>, u64)>,
    b: Map<Key, (Seq<u8>, u64)>,
    policy: TieBreakPolicy,
    k: Key,
)
    requires
        a.contains_key(k),
        a[k].1 > head_of(versions_of(b), k),
    ensures
        lookup(after_session(a, b, policy), k) == Some(a[k]),
        lookup(after_session(b, a, policy), k) == Some(a[k]),
{
    assert(head_of(versions_of(a), k) == a[k].1);
    lemma_session_agrees(a, b, policy, k);
}

/// Merging a table's full changeset into an empty table gives the same cells.
pub proof fn lemma_round_trip(t: Map<Key, (Seq<u8>, u64)>, policy: TieBreakPolicy)
    ensures
        !merge_fails(Map::empty(), t, policy),
        merge_cells(Map::empty(), t, policy) == t,
{
    assert(merge_cells(Map::empty(), t, policy) =~= t);
}

} // verus!
