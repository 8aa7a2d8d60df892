//! Per-cell merge rules: version comparison and tiebreak policies.
use vstd::prelude::*;

use crate::storage::{Cell, Key};

verus! {

/// How a conflict between equal versions holding different values is settled.
#[derive(Debug, Clone, Copy, PartialEq, Eq, Structural)]
pub enum TieBreakPolicy {
    /// Keep the local value.
    PreferExisting,
    /// Take the incoming value.
    PreferIncoming,
    /// Take the incoming value when it is byte-lexicographically smaller.
    LexicographicMin,
}

/// Byte-lexicographic strict order on byte strings.
pub open spec fn lex_lt(a: Seq<u8>, b: Seq<u8>) -> bool
    decreases a.len(),
{
    if b.len() == 0 {
        false
    } else if a.len() == 0 {
        true
    } else if a[0] != b[0] {
        a[0] < b[0]
    } else {
        lex_lt(a.drop_first(), b.drop_first())
    }
}

/// Two different byte strings are ordered one way or the other.
pub proof fn lemma_lex_total(a: Seq<u8>, b: Seq<u8>)
    requires
        a != b,
    ensures
        lex_lt(a, b) || lex_lt(b, a),
    decreases a.len(),
{
    if a.len() > 0 && b.len() > 0 && a[0] == b[0] {
        assert(a.drop_first() != b.drop_first()) by {
            if a.drop_first() == b.drop_first() {
                assert(a =~= seq![a[0]] + a.drop_first());
                assert(b =~= seq![b[0]] + b.drop_first());
            }
        }
        lemma_lex_total(a.drop_first(), b.drop_first());
    } else if a.len() == 0 && b.len() == 0 {
        assert(a =~= b);
    }
}

/// Whether the incoming value replaces the local one in a tie under `policy`.
pub open spec fn accepts_incoming(local: Seq<u8>, remote: Seq<u8>, policy: TieBreakPolicy) -> bool {
    match policy {
        TieBreakPolicy::PreferExisting => false,
        TieBreakPolicy::PreferIncoming => true,
        TieBreakPolicy::LexicographicMin => lex_lt(remote, local),
    }
}

/// Outcome of comparing a local version with a remote one.
#[derive(Debug, Clone, Copy, PartialEq, Eq, Structural)]
pub enum MergeDecision {
    Accept,
    Reject,
    Conflict,
}

/// Compares versions: a strictly newer remote is accepted, an older one rejected,
/// an equal one is a conflict.
pub fn resolve_versions(local_version: u64, remote_version: u64) -> (r: MergeDecision)
    ensures
        (r == MergeDecision::Accept) == (local_version < remote_version),
        (r == MergeDecision::Reject) == (local_version > remote_version),
        (r == MergeDecision::Conflict) == (local_version == remote_version),
{
    if local_version < remote_version {
        MergeDecision::Accept
    } else if local_version > remote_version {
        MergeDecision::Reject
    } else {
        MergeDecision::Conflict
    }
}

/// Byte-lexicographic comparison `a < b`.
pub fn bytes_lt(a: &[u8], b: &[u8]) -> (r: bool)
    ensures
        r == lex_lt(a@, b@),
{
    let mut i: usize = 0;
    assert(a@.subrange(0, a@.len() as int) =~= a@);
    assert(b@.subrange(0, b@.len() as int) =~= b@);
    while i < a.len() && i < b.len()
        invariant
            i <= a@.len(),
            i <= b@.len(),
            forall|j: int| 0 <= j < i ==> a@[j] == b@[j],
            lex_lt(a@, b@) == lex_lt(a@.subrange(i as int, a@.len() as int), b@.subrange(i as int, b@.len() as int)),
        decreases a.len() - i,
    {
        if a[i] != b[i] {
            return a[i] < b[i];
        }
        assert(a@.subrange(i as int, a@.len() as int).drop_first() =~= a@.subrange(i + 1, a@.len() as int));
        assert(b@.subrange(i as int, b@.len() as int).drop_first() =~= b@.subrange(i + 1, b@.len() as int));
        i = i + 1;
    }
    i < b.len()
}

/// Byte equality of two byte strings.
pub fn bytes_eq(a: &[u8], b: &[u8]) -> (r: bool)
    ensures
        r == (a@ == b@),
{
    if a.len() != b.len() {
        return false;
    }
    let mut i: usize = 0;
    while i < a.len()
        invariant
            a@.len() == b@.len(),
            i <= a@.len(),
            forall|j: int| 0 <= j < i ==> a@[j] == b@[j],
        decreases a.len() - i,
    {
        if a[i] != b[i] {
            return false;
        }
        i = i + 1;
    }
    assert(a@ =~= b@);
    true
}

/// Decides a tie between differing values: `true` when the incoming value wins.
pub fn resolve_conflict(local_value: &[u8], remote_value: &[u8], policy: TieBreakPolicy) -> (r: bool)
    ensures
        r == accepts_incoming(local_value@, remote_value@, policy),
{
    match policy {
        TieBreakPolicy::PreferExisting => false,
        TieBreakPolicy::PreferIncoming => true,
        TieBreakPolicy::LexicographicMin => bytes_lt(remote_value, local_value),
    }
}

/// What merging one incoming cell does to the local cell.
#[derive(Debug, Clone, Copy, PartialEq, Eq, Structural)]
pub enum CellOutcome {
    /// No local cell (or one at version 0): the incoming cell is written.
    Inserted,
    /// The incoming version is newer: the incoming cell is written.
    Updated,
    /// The incoming version is older, or equal with an equal value: nothing changes.
    Skipped,
    /// Equal versions, differing values, the local value stays.
    ConflictKept,
    /// Equal versions, differing values, the incoming value is written one version up.
    ConflictWon,
}

/// The outcome of merging the incoming `(value, version)` into `local`.
pub open spec fn outcome(
    local: Option<(Seq<u8>, u64)>,
    value: Seq<u8>,
    version: u64,
    policy: TieBreakPolicy,
) -> CellOutcome {
    match local {
        None => CellOutcome::Inserted,
        Some(l) => if l.1 == 0 {
            CellOutcome::Inserted
        } else if l.1 < version {
            CellOutcome::Updated
        } else if l.1 > version {
            CellOutcome::Skipped
        } else if l.0 == value {
            CellOutcome::Skipped
        } else if accepts_incoming(l.0, value, policy) {
            CellOutcome::ConflictWon
        } else {
            CellOutcome::ConflictKept
        },
    }
}

/// Whether an outcome writes the cell.
pub open spec fn writes(o: CellOutcome) -> bool {
    o == CellOutcome::Inserted || o == CellOutcome::Updated || o == CellOutcome::ConflictWon
}

/// The cell after merging the incoming `(value, version)` into `local`.
pub open spec fn merged(
    local: Option<(Seq<u8>, u64)>,
    value: Seq<u8>,
    version: u64,
    policy: TieBreakPolicy,
) -> (Seq<u8>, u64) {
    match outcome(local, value, version, policy) {
        CellOutcome::Inserted => (value, version),
        CellOutcome::Updated => (value, version),
        CellOutcome::ConflictWon => (value, (version + 1) as u64),
        _ => local.unwrap(),
    }
}

/// A tie won by the incoming cell whose version leaves no room for the bump.
pub open spec fn overflows(
    local: Option<(Seq<u8>, u64)>,
    value: Seq<u8>,
    version: u64,
    policy: TieBreakPolicy,
) -> bool {
    outcome(local, value, version, policy) == CellOutcome::ConflictWon && version == u64::MAX
}

/// The cell of `k` in `m`, if any.
pub open spec fn lookup(m: Map<Key, (Seq<u8>, u64)>, k: Key) -> Option<(Seq<u8>, u64)> {
    if m.contains_key(k) {
        Some(m[k])
    } else {
        None
    }
}

/// The cells after merging the incoming cells `cs` into `local`: every key of
/// `cs` is merged on its own, every other key is left as it is.
pub open spec fn merge_cells(
    local: Map<Key, (Seq<u8>, u64)>,
    cs: Map<Key, (Seq<u8>, u64)>,
    policy: TieBreakPolicy,
) -> Map<Key, (Seq<u8>, u64)> {
    Map::new(
        |k: Key| local.contains_key(k) || cs.contains_key(k),
        |k: Key|
            if cs.contains_key(k) {
                merged(lookup(local, k), cs[k].0, cs[k].1, policy)
            } else {
                local[k]
            },
    )
}

/// Whether some incoming cell would overflow its version.
pub open spec fn merge_fails(
    local: Map<Key, (Seq<u8>, u64)>,
    cs: Map<Key, (Seq<u8>, u64)>,
    policy: TieBreakPolicy,
) -> bool {
    exists|k: Key| cs.contains_key(k) && overflows(lookup(local, k), cs[k].0, cs[k].1, policy)
}

/// How many incoming cells of `s` have an outcome satisfying `f`.
pub open spec fn count_where(
    local: Map<Key, (Seq<u8>, u64)>,
    s: Seq<(Key, (Seq<u8>, u64))>,
    policy: TieBreakPolicy,
    f: spec_fn(CellOutcome) -> bool,
) -> nat
    decreases s.len(),
{
    if s.len() == 0 {
        0
    } else {
        count_where(local, s.drop_last(), policy, f) + if f(
            outcome(lookup(local, s.last().0), s.last().1.0, s.last().1.1, policy),
        ) {
            1nat
        } else {
            0nat
        }
    }
}

/// Outcomes counted as inserted.
pub open spec fn is_inserted() -> spec_fn(CellOutcome) -> bool {
    |o: CellOutcome| o == CellOutcome::Inserted
}

/// Outcomes counted as updated: a newer version, or a tie won.
pub open spec fn is_updated() -> spec_fn(CellOutcome) -> bool {
    |o: CellOutcome| o == CellOutcome::Updated || o == CellOutcome::ConflictWon
}

/// Outcomes counted as skipped.
pub open spec fn is_skipped() -> spec_fn(CellOutcome) -> bool {
    |o: CellOutcome| o == CellOutcome::Skipped
}

/// Outcomes counted as conflicts: ties with differing values.
pub open spec fn is_conflict() -> spec_fn(CellOutcome) -> bool {
    |o: CellOutcome| o == CellOutcome::ConflictKept || o == CellOutcome::ConflictWon
}

/// The report owed for merging the incoming cells `s` into `local`.
pub open spec fn report_of(
    r: MergeReport,
    local: Map<Key, (Seq<u8>, u64)>,
    s: Seq<(Key, (Seq<u8>, u64))>,
    policy: TieBreakPolicy,
) -> bool {
    &&& r.inserted == count_where(local, s, policy, is_inserted())
    &&& r.updated == count_where(local, s, policy, is_updated())
    &&& r.skipped == count_where(local, s, policy, is_skipped())
    &&& r.conflicts == count_where(local, s, policy, is_conflict())
}

/// A count over a prefix one longer.
pub proof fn lemma_count_step(
    local: Map<Key, (Seq<u8>, u64)>,
    s: Seq<(Key, (Seq<u8>, u64))>,
    i: int,
    policy: TieBreakPolicy,
    f: spec_fn(CellOutcome) -> bool,
)
    requires
        0 <= i < s.len(),
    ensures
        count_where(local, s.take(i + 1), policy, f) == count_where(local, s.take(i), policy, f)
            + if f(outcome(lookup(local, s[i].0), s[i].1.0, s[i].1.1, policy)) {
            1nat
        } else {
            0nat
        },
{
    assert(s.take(i + 1).drop_last() =~= s.take(i));
    assert(s.take(i + 1).last() == s[i]);
}

/// A count of zero means no incoming cell has the counted outcome.
pub proof fn lemma_count_zero(
    local: Map<Key, (Seq<u8>, u64)>,
    s: Seq<(Key, (Seq<u8>, u64))>,
    policy: TieBreakPolicy,
    f: spec_fn(CellOutcome) -> bool,
)
    requires
        count_where(local, s, policy, f) == 0,
    ensures
        forall|j: int|
            0 <= j < s.len() ==> !f(outcome(lookup(local, #[trigger] s[j].0), s[j].1.0, s[j].1.1, policy)),
    decreases s.len(),
{
    if s.len() > 0 {
        let t = s.drop_last();
        lemma_count_zero(local, t, policy, f);
        assert forall|j: int|
            0 <= j < s.len() implies !f(outcome(lookup(local, #[trigger] s[j].0), s[j].1.0, s[j].1.1, policy)) by {
            if j < s.len() - 1 {
                assert(t[j] == s[j]);
            }
        }
    }
}

/// A merge that does not fail keeps every local key, at no lower version.
pub proof fn lemma_merge_keeps_keys(
    local: Map<Key, (Seq<u8>, u64)>,
    cs: Map<Key, (Seq<u8>, u64)>,
    policy: TieBreakPolicy,
)
    requires
        !merge_fails(local, cs, policy),
    ensures
        forall|k: Key|
            #[trigger] local.contains_key(k) ==> merge_cells(local, cs, policy).contains_key(k)
                && merge_cells(local, cs, policy)[k].1 >= local[k].1,
{
    assert forall|k: Key| #[trigger] local.contains_key(k) implies merge_cells(local, cs, policy).contains_key(k)
        && merge_cells(local, cs, policy)[k].1 >= local[k].1 by {
        if cs.contains_key(k) {
            assert(!overflows(lookup(local, k), cs[k].0, cs[k].1, policy));
        }
    }
}

/// Incoming cells none of which is written leave the local cells as they are.
pub open spec fn writes_nothing(
    local: Map<Key, (Seq<u8>, u64)>,
    cs: Map<Key, (Seq<u8>, u64)>,
    policy: TieBreakPolicy,
) -> bool {
    forall|k: Key|
        #[trigger] cs.contains_key(k) ==> !writes(outcome(lookup(local, k), cs[k].0, cs[k].1, policy))
}

/// A merge that writes nothing changes nothing.
pub proof fn lemma_nothing_written(
    local: Map<Key, (Seq<u8>, u64)>,
    cs: Map<Key, (Seq<u8>, u64)>,
    policy: TieBreakPolicy,
)
    requires
        writes_nothing(local, cs, policy),
    ensures
        merge_cells(local, cs, policy) == local,
        !merge_fails(local, cs, policy),
{
    assert forall|k: Key| cs.contains_key(k) implies local.contains_key(k) by {
        assert(!writes(outcome(lookup(local, k), cs[k].0, cs[k].1, policy)));
    }
    assert(merge_cells(local, cs, policy) =~= local);
}

/// A count over a prefix is at most its length.
pub proof fn lemma_count_bound(
    local: Map<Key, (Seq<u8>, u64)>,
    s: Seq<(Key, (Seq<u8>, u64))>,
    policy: TieBreakPolicy,
    f: spec_fn(CellOutcome) -> bool,
)
    ensures
        count_where(local, s, policy, f) <= s.len(),
    decreases s.len(),
{
    if s.len() > 0 {
        lemma_count_bound(local, s.drop_last(), policy, f);
    }
}

/// Decides the outcome of one incoming cell against the local one.
pub fn decide(local: &Option<Cell>, value: &[u8], version: u64, policy: TieBreakPolicy) -> (r:
    CellOutcome)
    ensures
        r == outcome(
            match local {
                Some(c) => Some(c@),
                None => None,
            },
            value@,
            version,
            policy,
        ),
{
    match local {
        None => CellOutcome::Inserted,
        Some(c) => {
            if c.version == 0 {
                CellOutcome::Inserted
            } else {
                match resolve_versions(c.version, version) {
                    MergeDecision::Accept => CellOutcome::Updated,
                    MergeDecision::Reject => CellOutcome::Skipped,
                    MergeDecision::Conflict => {
                        if bytes_eq(c.value.as_slice(), value) {
                            CellOutcome::Skipped
                        } else if resolve_conflict(c.value.as_slice(), value, policy) {
                            CellOutcome::ConflictWon
                        } else {
                            CellOutcome::ConflictKept
                        }
                    },
                }
            }
        },
    }
}

/// Counts of what a merge did.
#[derive(Debug, Clone, Copy, PartialEq, Eq, Structural)]
pub struct MergeReport {
    pub inserted: usize,
    pub updated: usize,
    pub skipped: usize,
    pub conflicts: usize,
}

impl MergeReport {
    /// An all-zero report.
    pub fn new() -> (r: MergeReport)
        ensures
            r.inserted == 0 && r.updated == 0 && r.skipped == 0 && r.conflicts == 0,
    {
        MergeReport { inserted: 0, updated: 0, skipped: 0, conflicts: 0 }
    }

    /// Cells written: inserted plus updated.
    pub fn total_changes(&self) -> (r: usize)
        requires
            self.inserted + self.updated <= usize::MAX,
        ensures
            r == self.inserted + self.updated,
    {
        self.inserted + self.updated
    }
}

} // verus!
