//! A per-column version DAG with text values: history, missing-version
//! detection, presentation-only reconstruction and depth-bounded GC.
use vstd::prelude::*;

use crate::keyed::{
    keyed, keys_unique, lemma_keyed_dom, lemma_keyed_index, lemma_keyed_len, lemma_keyed_push,
    lemma_keyed_take, lemma_keyed_update,
};
use crate::storage::now_millis;
use vstd::string::StringExecFns;

verus! {

/// One version of a value with the versions it was derived from.
#[derive(Debug)]
pub struct DagNode {
    pub version: u64,
    pub parent_versions: Vec<u64>,
    pub value: String,
    pub timestamp: u64,
    pub is_tombstone: bool,
}

/// What a node records: parents, value and tombstone flag.
pub type NodeFacts = (Seq<u64>, Seq<char>, bool);

/// The key of a node.
pub open spec fn version_key() -> spec_fn(DagNode) -> u64 {
    |n: DagNode| n.version
}

/// The facts a node records.
pub open spec fn facts(n: DagNode) -> NodeFacts {
    (n.parent_versions@, n.value@, n.is_tombstone)
}

/// Strictly increasing.
pub open spec fn sorted_strict(s: Seq<u64>) -> bool {
    forall|i: int, j: int| 0 <= i < j < s.len() ==> s[i] < s[j]
}

/// Parent versions that no node carries.
pub open spec fn missing_of(g: Map<u64, NodeFacts>) -> Set<u64> {
    Set::new(
        |p: u64| !g.contains_key(p) && exists|v: u64| g.contains_key(v) && g[v].0.contains(p),
    )
}

/// The versions reached from `head` by following parent links fewer than `d` times.
pub open spec fn within(g: Map<u64, NodeFacts>, head: u64, d: nat) -> Set<u64>
    decreases d,
{
    if d == 0 {
        Set::empty()
    } else if d == 1 {
        set![head]
    } else {
        step(g, within(g, head, (d - 1) as nat))
    }
}

/// One more step of parent links from `w`.
pub open spec fn step(g: Map<u64, NodeFacts>, w: Set<u64>) -> Set<u64> {
    w.union(Set::new(|p: u64| exists|v: u64| w.contains(v) && g.contains_key(v) && g[v].0.contains(p)))
}

/// Once a step adds nothing, further steps add nothing.
pub proof fn lemma_within_stable(g: Map<u64, NodeFacts>, head: u64, k: nat, m: nat)
    requires
        k >= 1,
        k <= m,
        within(g, head, k + 1) == within(g, head, k),
    ensures
        within(g, head, m) == within(g, head, k),
    decreases m - k,
{
    if m > k {
        lemma_within_stable(g, head, k, (m - 1) as nat);
        assert(within(g, head, m) == step(g, within(g, head, (m - 1) as nat)));
        assert(within(g, head, k + 1) == step(g, within(g, head, k)));
    }
}

/// `p` is the greatest version below `m`.
pub open spec fn is_pred(g: Map<u64, NodeFacts>, m: u64, p: u64) -> bool {
    g.contains_key(p) && p < m && forall|w: u64| g.contains_key(w) && w < m ==> w <= p
}

/// The value of the greatest version below `m`, if any.
pub open spec fn pred_value(g: Map<u64, NodeFacts>, m: u64) -> Option<Seq<char>> {
    if exists|v: u64| g.contains_key(v) && v < m {
        Some(g[choose|p: u64| is_pred(g, m, p)].1)
    } else {
        None
    }
}

/// `c` names `m` as a parent.
pub open spec fn is_child(g: Map<u64, NodeFacts>, m: u64, c: u64) -> bool {
    g.contains_key(c) && g[c].0.contains(m)
}

/// The versions reached only grow with the depth.
pub proof fn lemma_within_grows(g: Map<u64, NodeFacts>, head: u64, k: nat, m: nat)
    requires
        k <= m,
    ensures
        within(g, head, k).subset_of(within(g, head, m)),
    decreases m - k,
{
    if k < m {
        lemma_within_grows(g, head, k, (m - 1) as nat);
        if m >= 2 {
            assert(within(g, head, m) == step(g, within(g, head, (m - 1) as nat)));
        } else {
            assert(within(g, head, k) =~= Set::<u64>::empty());
        }
    }
}

/// Decimal digits of `n`.
pub open spec fn decimal(n: nat) -> Seq<char>
    decreases n,
{
    if n < 10 {
        seq![digit(n)]
    } else {
        decimal(n / 10).push(digit(n % 10))
    }
}

/// The character of a digit below ten.
pub open spec fn digit(d: nat) -> char {
    if d == 0 { '0' } else if d == 1 { '1' } else if d == 2 { '2' } else if d == 3 { '3' }
    else if d == 4 { '4' } else if d == 5 { '5' } else if d == 6 { '6' } else if d == 7 { '7' }
    else if d == 8 { '8' } else { '9' }
}

/// The note for a reconstructed version from a predecessor value and a child
/// value, whichever exist: between the two, or a coarser hint from one side.
pub open spec fn note_text(v: nat, before: Option<Seq<char>>, after: Option<Seq<char>>) -> Seq<char> {
    match (before, after) {
        (Some(b), Some(a)) => "[Reconstructed v"@ + decimal(v) + "] between '"@ + b + "' and '"@ + a
            + "'"@,
        (None, Some(a)) => "[Reconstructed v"@ + decimal(v) + "] Pre-cursor to '"@ + a + "'"@,
        (Some(b), None) => "[Reconstructed v"@ + decimal(v) + "] Successor of '"@ + b + "'"@,
        (None, None) => "[Reconstructed v"@ + decimal(v) + "]"@,
    }
}

/// The one-character string of a digit below ten.
fn digit_str(d: u64) -> (r: &'static str)
    requires
        d < 10,
    ensures
        r@ == seq![digit(d as nat)],
{
    proof {
        reveal_strlit("0");
        reveal_strlit("1");
        reveal_strlit("2");
        reveal_strlit("3");
        reveal_strlit("4");
        reveal_strlit("5");
        reveal_strlit("6");
        reveal_strlit("7");
        reveal_strlit("8");
        reveal_strlit("9");
    }
    if d == 0 { "0" } else if d == 1 { "1" } else if d == 2 { "2" } else if d == 3 { "3" }
    else if d == 4 { "4" } else if d == 5 { "5" } else if d == 6 { "6" } else if d == 7 { "7" }
    else if d == 8 { "8" } else { "9" }
}

/// The decimal digits of `n`.
pub fn decimal_string(n: u64) -> (r: String)
    ensures
        r@ == decimal(n as nat),
    decreases n,
{
    if n < 10 {
        digit_str(n).to_owned()
    } else {
        let high = decimal_string(n / 10);
        let r = high.concat(digit_str(n % 10));
        assert(r@ =~= decimal((n / 10) as nat).push(digit((n % 10) as nat)));
        r
    }
}

/// The note shown for a reconstructed version.
fn reconstructed_note(missing: u64, before: Option<&String>, after: Option<&String>) -> (r: String)
    ensures
        r@ == note_text(missing as nat, match before {
            Some(b) => Some(b@),
            None => None,
        }, match after {
            Some(a) => Some(a@),
            None => None,
        }),
{
    let head = "[Reconstructed v".to_owned().concat(decimal_string(missing).as_str());
    match (before, after) {
        (Some(b), Some(a)) => head.concat("] between '").concat(b.as_str()).concat("' and '").concat(
            a.as_str(),
        ).concat("'"),
        (None, Some(a)) => head.concat("] Pre-cursor to '").concat(a.as_str()).concat("'"),
        (Some(b), None) => head.concat("] Successor of '").concat(b.as_str()).concat("'"),
        (None, None) => head.concat("]"),
    }
}

/// Whether `x` is in `v`.
fn contains_u64(v: &Vec<u64>, x: u64) -> (r: bool)
    ensures
        r == v@.contains(x),
{
    let mut i: usize = 0;
    while i < v.len()
        invariant
            i <= v@.len(),
            forall|j: int| 0 <= j < i ==> v@[j] != x,
        decreases v.len() - i,
    {
        if v[i] == x {
            return true;
        }
        i = i + 1;
    }
    false
}

/// Inserts `x` into a strictly increasing vector, unless present.
fn insert_sorted(v: &mut Vec<u64>, x: u64)
    requires
        sorted_strict(old(v)@),
    ensures
        sorted_strict(final(v)@),
        final(v)@.to_set() == old(v)@.to_set().insert(x),
{
    let mut pos: usize = 0;
    while pos < v.len() && v[pos] < x
        invariant
            pos <= v@.len(),
            forall|j: int| 0 <= j < pos ==> v@[j] < x,
        decreases v.len() - pos,
    {
        pos = pos + 1;
    }
    if pos < v.len() && v[pos] == x {
        assert(v@.to_set().insert(x) =~= v@.to_set());
        return;
    }
    let ghost s = v@;
    v.insert(pos, x);
    proof {
        assert(v@ =~= s.take(pos as int).push(x) + s.skip(pos as int));
        assert forall|i: int, j: int| 0 <= i < j < v@.len() implies v@[i] < v@[j] by {
            if j < pos {
                assert(v@[i] == s[i] && v@[j] == s[j]);
            } else if j == pos {
                assert(v@[i] == s[i]);
            } else if i < pos {
                assert(v@[i] == s[i] && v@[j] == s[j - 1]);
                assert(s[j - 1] >= x);
            } else if i == pos {
                assert(v@[j] == s[j - 1]);
                assert(s[j - 1] >= s[pos as int]);
            } else {
                assert(v@[i] == s[i - 1] && v@[j] == s[j - 1]);
            }
        }
        assert forall|y: u64| v@.to_set().contains(y) <==> s.to_set().insert(x).contains(y) by {
            if v@.contains(y) {
                let i = choose|i: int| 0 <= i < v@.len() && v@[i] == y;
                if i < pos {
                    assert(s[i] == y);
                } else if i > pos {
                    assert(s[i - 1] == y);
                }
            }
            if s.contains(y) {
                let i = choose|i: int| 0 <= i < s.len() && s[i] == y;
                if i < pos {
                    assert(v@[i] == y);
                } else {
                    assert(v@[i + 1] == y);
                }
            }
            if y == x {
                assert(v@[pos as int] == x);
            }
        }
        assert(v@.to_set() =~= s.to_set().insert(x));
    }
}

/// The history of one text-valued column, keyed by version.
#[derive(Debug)]
pub struct VersionDag {
    nodes: Vec<DagNode>,
    head: Option<u64>,
}

impl VersionDag {
    /// Versions are unique; the head is the greatest version, `None` when empty.
    pub closed spec fn wf(&self) -> bool {
        &&& keys_unique(self.nodes@, version_key())
        &&& self.head is None <==> self.nodes@.len() == 0
        &&& self.head matches Some(h) ==> self.graph().contains_key(h) && forall|v: u64|
            #[trigger] self.graph().contains_key(v) ==> v <= h
    }

    /// The recorded facts by version.
    pub closed spec fn graph(&self) -> Map<u64, NodeFacts> {
        keyed(self.nodes@, version_key()).map_values(|n: DagNode| facts(n))
    }

    /// The greatest version.
    pub closed spec fn head_view(&self) -> Option<u64> {
        self.head
    }

    /// An empty history.
    pub fn new() -> (r: VersionDag)
        ensures
            r.wf(),
            r.graph() == Map::<u64, NodeFacts>::empty(),
            r.head_view() is None,
    {
        let r = VersionDag { nodes: Vec::new(), head: None };
        assert(r.graph() =~= Map::<u64, NodeFacts>::empty());
        r
    }

    /// Number of nodes.
    pub fn len(&self) -> (r: usize)
        requires
            self.wf(),
        ensures
            r == self.graph().len(),
    {
        proof {
            lemma_keyed_len(self.nodes@, version_key());
            assert(self.graph().dom() =~= keyed(self.nodes@, version_key()).dom());
        }
        self.nodes.len()
    }

    /// The head version.
    pub fn head(&self) -> (r: Option<u64>)
        ensures
            r == self.head_view(),
    {
        self.head
    }

    /// Records `value` at `version` with the given parents, replacing a node of
    /// the same version.
    pub fn add_node(&mut self, version: u64, value: String, parent_versions: Vec<u64>)
        requires
            old(self).wf(),
        ensures
            final(self).wf(),
            final(self).graph() == old(self).graph().insert(
                version,
                (parent_versions@, value@, false),
            ),
            final(self).head_view() == Some(
                match old(self).head_view() {
                    Some(h) => if h >= version { h } else { version },
                    None => version,
                },
            ),
    {
        self.add_node_with_tombstone(version, value, parent_versions, false);
    }

    /// Records a node with a tombstone flag, replacing a node of the same version.
    pub fn add_node_with_tombstone(
        &mut self,
        version: u64,
        value: String,
        parent_versions: Vec<u64>,
        is_tombstone: bool,
    )
        requires
            old(self).wf(),
        ensures
            final(self).wf(),
            final(self).graph() == old(self).graph().insert(
                version,
                (parent_versions@, value@, is_tombstone),
            ),
            final(self).head_view() == Some(
                match old(self).head_view() {
                    Some(h) => if h >= version { h } else { version },
                    None => version,
                },
            ),
    {
        let node = DagNode { version, parent_versions, value, timestamp: now_millis(), is_tombstone };
        let ghost nf = facts(node);
        let ghost s = self.nodes@;
        let mut i: usize = 0;
        while i < self.nodes.len() && self.nodes[i].version != version
            invariant
                self.nodes@ == s,
                keys_unique(s, version_key()),
                i <= s.len(),
                forall|j: int| 0 <= j < i ==> version_key()(s[j]) != version,
            decreases self.nodes.len() - i,
        {
            i = i + 1;
        }
        if i < self.nodes.len() {
            proof {
                lemma_keyed_update(s, version_key(), i as int, node);
            }
            self.nodes.set(i, node);
            proof {
                assert(self.nodes@ == s.update(i as int, node));
            }
        } else {
            proof {
                lemma_keyed_dom(s, version_key(), version);
                lemma_keyed_push(s, version_key(), node);
            }
            self.nodes.push(node);
        }
        self.head = Some(match self.head {
            Some(h) => if h >= version { h } else { version },
            None => version,
        });
        proof {
            assert(self.graph() =~= old(self).graph().insert(version, nf));
        }
    }

    /// The index of the node of version `v`.
    fn index_of(&self, v: u64) -> (r: Option<usize>)
        requires
            self.wf(),
        ensures
            r is None <==> !self.graph().contains_key(v),
            r matches Some(i) ==> i < self.nodes@.len() && self.nodes@[i as int].version == v
                && self.graph()[v] == facts(self.nodes@[i as int]),
    {
        let mut i: usize = 0;
        while i < self.nodes.len()
            invariant
                self.wf(),
                i <= self.nodes@.len(),
                forall|j: int| 0 <= j < i ==> version_key()(self.nodes@[j]) != v,
            decreases self.nodes.len() - i,
        {
            if self.nodes[i].version == v {
                proof {
                    lemma_keyed_index(self.nodes@, version_key(), i as int);
                }
                return Some(i);
            }
            i = i + 1;
        }
        proof {
            lemma_keyed_dom(self.nodes@, version_key(), v);
        }
        None
    }

    /// A presentation-only note for a missing version `missing`, from the value
    /// of the greatest version below it and the value of a node naming it as a
    /// parent, whichever exist; `None` when neither does. Never data.
    pub fn reconstruct_missing_version(&self, missing: u64) -> (r: Option<String>)
        requires
            self.wf(),
        ensures
            r is None <==> !(exists|c: u64| is_child(self.graph(), missing, c)) && pred_value(
                self.graph(),
                missing,
            ) is None,
            r matches Some(s) ==> if exists|c: u64| is_child(self.graph(), missing, c) {
                exists|c: u64|
                    is_child(self.graph(), missing, c) && s@ == note_text(
                        missing as nat,
                        pred_value(self.graph(), missing),
                        Some(self.graph()[c].1),
                    )
            } else {
                s@ == note_text(missing as nat, pred_value(self.graph(), missing), None)
            },
    {
        let ghost g = self.graph();
        let mut child: Option<usize> = None;
        let mut i: usize = 0;
        while i < self.nodes.len() && child.is_none()
            invariant
                self.wf(),
                g == self.graph(),
                i <= self.nodes@.len(),
                child is None ==> forall|j: int| 0 <= j < i ==> !self.nodes@[j].parent_versions@.contains(missing),
                child matches Some(c) ==> c < self.nodes@.len() && self.nodes@[c as int].parent_versions@.contains(missing),
            decreases self.nodes.len() - i + if child is None { 1int } else { 0int },
        {
            if contains_u64(&self.nodes[i].parent_versions, missing) {
                child = Some(i);
            }
            i = i + 1;
        }
        proof {
            if child is None && exists|c: u64| is_child(g, missing, c) {
                let c = choose|c: u64| is_child(g, missing, c);
                lemma_keyed_dom(self.nodes@, version_key(), c);
                let j = choose|j: int| 0 <= j < self.nodes@.len() && version_key()(self.nodes@[j]) == c;
                lemma_keyed_index(self.nodes@, version_key(), j);
            }
        }
        let mut best: Option<usize> = None;
        let mut j: usize = 0;
        while j < self.nodes.len()
            invariant
                self.wf(),
                g == self.graph(),
                j <= self.nodes@.len(),
                best matches Some(b) ==> b < self.nodes@.len() && self.nodes@[b as int].version < missing
                    && forall|x: int| 0 <= x < j && self.nodes@[x].version < missing ==> self.nodes@[x].version <= self.nodes@[b as int].version,
                best is None ==> forall|x: int| 0 <= x < j ==> self.nodes@[x].version >= missing,
            decreases self.nodes.len() - j,
        {
            let v = self.nodes[j].version;
            if v < missing {
                match best {
                    None => {
                        best = Some(j);
                    },
                    Some(b) => {
                        if v > self.nodes[b].version {
                            best = Some(j);
                        }
                    },
                }
            }
            j = j + 1;
        }
        proof {
            if let Some(ci) = child {
                lemma_keyed_index(self.nodes@, version_key(), ci as int);
                let c = self.nodes@[ci as int].version;
                assert(is_child(g, missing, c));
            }
            match best {
                Some(b) => {
                    let p = self.nodes@[b as int].version;
                    lemma_keyed_index(self.nodes@, version_key(), b as int);
                    assert forall|w: u64| g.contains_key(w) && w < missing implies w <= p by {
                        lemma_keyed_dom(self.nodes@, version_key(), w);
                        let x = choose|x: int| 0 <= x < self.nodes@.len() && version_key()(self.nodes@[x]) == w;
                    }
                    assert(is_pred(g, missing, p));
                    let q = choose|q: u64| is_pred(g, missing, q);
                    assert(q == p);
                    assert(pred_value(g, missing) == Some(self.nodes@[b as int].value@));
                },
                None => {
                    assert forall|w: u64| g.contains_key(w) implies !(w < missing) by {
                        lemma_keyed_dom(self.nodes@, version_key(), w);
                        let x = choose|x: int| 0 <= x < self.nodes@.len() && version_key()(self.nodes@[x]) == w;
                    }
                },
            }
        }
        let before: Option<&String> = match best {
            Some(b) => Some(&self.nodes[b].value),
            None => None,
        };
        match (best, child) {
            (None, None) => None,
            _ => {
                let after: Option<&String> = match child {
                    Some(ci) => Some(&self.nodes[ci].value),
                    None => None,
                };
                Some(reconstructed_note(missing, before, after))
            },
        }
    }

    /// Every present or missing version in increasing order, with the node's
    /// value (`false`) or a reconstruction note (`true`).
    pub fn get_reconstructed_timeline(&self) -> (r: Vec<(u64, String, bool)>)
        requires
            self.wf(),
        ensures
            forall|i: int, j: int| 0 <= i < j < r@.len() ==> r@[i].0 < r@[j].0,
            forall|v: u64|
                self.graph().contains_key(v) || missing_of(self.graph()).contains(v) <==> exists|i: int|
                    0 <= i < r@.len() && r@[i].0 == v,
            forall|i: int|
                #![trigger r@[i]]
                0 <= i < r@.len() ==> if self.graph().contains_key(r@[i].0) {
                    r@[i].1@ == self.graph()[r@[i].0].1 && !r@[i].2
                } else {
                    r@[i].2
                },
    {
        let ghost g = self.graph();
        let mut versions = self.find_missing_versions();
        let mut i: usize = 0;
        while i < self.nodes.len()
            invariant
                self.wf(),
                g == self.graph(),
                i <= self.nodes@.len(),
                sorted_strict(versions@),
                forall|v: u64|
                    #![trigger versions@.to_set().contains(v)]
                    versions@.to_set().contains(v) <==> (missing_of(g).contains(v) || exists|j: int|
                        0 <= j < i && self.nodes@[j].version == v),
            decreases self.nodes.len() - i,
        {
            insert_sorted(&mut versions, self.nodes[i].version);
            proof {
                assert forall|v: u64| #![trigger versions@.to_set().contains(v)] versions@.to_set().contains(v) <==> (missing_of(g).contains(v) || exists|j: int|
                        0 <= j < i + 1 && self.nodes@[j].version == v) by {
                    if v == self.nodes@[i as int].version {
                        assert(self.nodes@[i as int].version == v);
                    }
                }
            }
            i = i + 1;
        }
        proof {
            assert forall|v: u64| versions@.contains(v) <==> (g.contains_key(v) || missing_of(g).contains(v)) by {
                assert(versions@.to_set().contains(v) == versions@.contains(v));
                lemma_keyed_dom(self.nodes@, version_key(), v);
            }
        }
        let mut out: Vec<(u64, String, bool)> = Vec::new();
        let mut k: usize = 0;
        while k < versions.len()
            invariant
                self.wf(),
                g == self.graph(),
                forall|v: u64| versions@.contains(v) <==> (g.contains_key(v) || missing_of(g).contains(v)),
                k <= versions@.len(),
                out@.len() == k,
                forall|a: int| #![trigger out@[a]] 0 <= a < k ==> out@[a].0 == versions@[a] && if g.contains_key(out@[a].0) {
                    out@[a].1@ == g[out@[a].0].1 && !out@[a].2
                } else {
                    out@[a].2
                },
            decreases versions.len() - k,
        {
            let v = versions[k];
            match self.index_of(v) {
                Some(x) => {
                    out.push((v, self.nodes[x].value.clone(), false));
                },
                None => {
                    let note = match self.reconstruct_missing_version(v) {
                        Some(n) => n,
                        None => String::new(),
                    };
                    out.push((v, note, true));
                },
            }
            k = k + 1;
        }
        proof {
            assert forall|i: int, j: int| 0 <= i < j < out@.len() implies out@[i].0 < out@[j].0 by {
                assert(out@[i].0 == versions@[i] && out@[j].0 == versions@[j]);
            }
            assert forall|v: u64| g.contains_key(v) || missing_of(g).contains(v) <==> exists|i: int|
                    0 <= i < out@.len() && out@[i].0 == v by {
                if g.contains_key(v) || missing_of(g).contains(v) {
                    assert(versions@.contains(v));
                    let x = choose|x: int| 0 <= x < versions@.len() && versions@[x] == v;
                    assert(out@[x].0 == v);
                }
                if exists|i: int| 0 <= i < out@.len() && out@[i].0 == v {
                    let i = choose|i: int| 0 <= i < out@.len() && out@[i].0 == v;
                    assert(out@[i].0 == versions@[i]);
                    assert(versions@.contains(v));
                }
            }
        }
        out
    }

    /// One more step of parent links from the versions in `reach`; `true` when
    /// some version was added.
    fn expand(&self, reach: &Vec<u64>) -> (r: (Vec<u64>, bool))
        requires
            self.wf(),
            reach@.no_duplicates(),
        ensures
            r.0@.no_duplicates(),
            r.0@.to_set() == step(self.graph(), reach@.to_set()),
            !r.1 ==> r.0@ == reach@,
    {
        let ghost g = self.graph();
        let ghost w = reach@.to_set();
        let mut next: Vec<u64> = Vec::new();
        let mut i: usize = 0;
        while i < reach.len()
            invariant
                i <= reach@.len(),
                next@ == reach@.take(i as int),
            decreases reach.len() - i,
        {
            next.push(reach[i]);
            i = i + 1;
        }
        proof {
            assert(reach@.take(reach@.len() as int) =~= reach@);
        }
        let mut grew = false;
        let mut x: usize = 0;
        while x < reach.len()
            invariant
                self.wf(),
                g == self.graph(),
                w == reach@.to_set(),
                reach@.no_duplicates(),
                x <= reach@.len(),
                next@.no_duplicates(),
                !grew ==> next@ == reach@,
                forall|p: u64|
                    #![trigger next@.to_set().contains(p)]
                    next@.to_set().contains(p) <==> (w.contains(p) || exists|y: int|
                        0 <= y < x && g.contains_key(reach@[y]) && g[reach@[y]].0.contains(p)),
            decreases reach.len() - x,
        {
            let v = reach[x];
            let ghost before_x = next@;
            match self.index_of(v) {
                None => {},
                Some(n) => {
                    let ps = &self.nodes[n].parent_versions;
                    let mut j: usize = 0;
                    while j < ps.len()
                        invariant
                            self.wf(),
                            g == self.graph(),
                            w == reach@.to_set(),
                            x < reach@.len(),
                            n < self.nodes@.len(),
                            g.contains_key(reach@[x as int]),
                            g[reach@[x as int]].0 == ps@,
                            *ps == self.nodes@[n as int].parent_versions,
                            j <= ps@.len(),
                            next@.no_duplicates(),
                            !grew ==> next@ == reach@,
                            forall|p: u64|
                                #![trigger next@.to_set().contains(p)]
                                next@.to_set().contains(p) <==> (w.contains(p) || (exists|y: int|
                                    0 <= y < x && g.contains_key(reach@[y]) && g[reach@[y]].0.contains(p))
                                    || exists|z: int| 0 <= z < j && ps@[z] == p),
                        decreases ps.len() - j,
                    {
                        let p = ps[j];
                        let ghost before = next@;
                        let present = contains_u64(&next, p);
                        if !present {
                            next.push(p);
                            grew = true;
                            proof {
                                assert(next@[before.len() as int] == p);
                                assert forall|a: int, b: int| 0 <= a < next@.len() && 0 <= b < next@.len() && a != b implies next@[a] != next@[b] by {
                                    if a < before.len() && b < before.len() {
                                    } else if a < before.len() {
                                        assert(before.contains(before[a]));
                                    } else {
                                        assert(before.contains(before[b]));
                                    }
                                }
                            }
                        }
                        proof {
                            assert forall|q: u64| #![trigger next@.to_set().contains(q)] next@.to_set().contains(q) <==> (w.contains(q) || (exists|y: int|
                                    0 <= y < x && g.contains_key(reach@[y]) && g[reach@[y]].0.contains(q))
                                    || exists|z: int| 0 <= z < j + 1 && ps@[z] == q) by {
                                let old_rhs = w.contains(q) || (exists|y: int|
                                    0 <= y < x && g.contains_key(reach@[y]) && g[reach@[y]].0.contains(q))
                                    || exists|z: int| 0 <= z < j && ps@[z] == q;
                                assert(before.to_set().contains(q) == old_rhs);
                                if next@.contains(q) {
                                    let a = choose|a: int| 0 <= a < next@.len() && next@[a] == q;
                                    if a < before.len() {
                                        assert(before[a] == q);
                                        assert(before.contains(q));
                                        if exists|z: int| 0 <= z < j && ps@[z] == q {
                                            let z = choose|z: int| 0 <= z < j && ps@[z] == q;
                                            assert(0 <= z < j + 1 && ps@[z] == q);
                                        }
                                    } else {
                                        assert(q == p);
                                        assert(ps@[j as int] == q);
                                    }
                                }
                                if old_rhs {
                                    assert(before.contains(q));
                                    let a = choose|a: int| 0 <= a < before.len() && before[a] == q;
                                    assert(next@[a] == q);
                                    assert(next@.contains(q));
                                }
                                if exists|z: int| 0 <= z < j + 1 && ps@[z] == q {
                                    let z = choose|z: int| 0 <= z < j + 1 && ps@[z] == q;
                                    if z < j {
                                        assert(old_rhs);
                                        let a = choose|a: int| 0 <= a < before.len() && before[a] == q;
                                        assert(next@[a] == q);
                                    } else {
                                        assert(q == p);
                                        if present {
                                            assert(next@ == before);
                                        } else {
                                            assert(next@[before.len() as int] == p);
                                        }
                                    }
                                    assert(next@.contains(q));
                                }
                            }
                        }
                        j = j + 1;
                    }
                },
            }
            proof {
                assert forall|q: u64| #![trigger next@.to_set().contains(q)] next@.to_set().contains(q) <==> (w.contains(q) || exists|y: int|
                        0 <= y < x + 1 && g.contains_key(reach@[y]) && g[reach@[y]].0.contains(q)) by {
                    if exists|y: int| 0 <= y < x + 1 && g.contains_key(reach@[y]) && g[reach@[y]].0.contains(q) {
                        let y = choose|y: int| 0 <= y < x + 1 && g.contains_key(reach@[y]) && g[reach@[y]].0.contains(q);
                        if y == x {
                            assert(g[reach@[x as int]].0.contains(q));
                        }
                    }
                }
            }
            x = x + 1;
        }
        proof {
            assert forall|p: u64| next@.to_set().contains(p) <==> step(g, w).contains(p) by {
                if exists|y: int| 0 <= y < reach@.len() && g.contains_key(reach@[y]) && g[reach@[y]].0.contains(p) {
                    let y = choose|y: int| 0 <= y < reach@.len() && g.contains_key(reach@[y]) && g[reach@[y]].0.contains(p);
                    assert(w.contains(reach@[y]));
                }
                if exists|v: u64| w.contains(v) && g.contains_key(v) && g[v].0.contains(p) {
                    let v = choose|v: u64| w.contains(v) && g.contains_key(v) && g[v].0.contains(p);
                    let y = choose|y: int| 0 <= y < reach@.len() && reach@[y] == v;
                    assert(g.contains_key(reach@[y]) && g[reach@[y]].0.contains(p));
                }
            }
            assert(next@.to_set() =~= step(g, w));
        }
        (next, grew)
    }

    /// Keeps the nodes reached from the head by fewer than `depth` parent steps
    /// (the head itself for `depth` 1) and drops the rest; returns how many were
    /// dropped. Nothing changes for `depth` 0 or an empty history.
    pub fn gc_depth_based(&mut self, depth: usize) -> (r: usize)
        requires
            old(self).wf(),
        ensures
            final(self).wf(),
            final(self).head_view() == old(self).head_view(),
            (depth == 0 || old(self).head_view() is None) ==> r == 0 && final(self).graph()
                == old(self).graph(),
            (depth > 0 && old(self).head_view() is Some) ==> {
                &&& final(self).graph() == old(self).graph().restrict(
                    within(old(self).graph(), old(self).head_view().unwrap(), depth as nat),
                )
                &&& r == old(self).graph().len() - final(self).graph().len()
            },
    {
        if depth == 0 {
            return 0;
        }
        let h = match self.head {
            None => {
                return 0;
            },
            Some(h) => h,
        };
        let ghost g = self.graph();
        let mut reach: Vec<u64> = Vec::new();
        reach.push(h);
        proof {
            assert forall|x: u64| reach@.to_set().contains(x) <==> within(g, h, 1).contains(x) by {
                if x == h {
                    assert(reach@[0] == h);
                }
            }
            assert(reach@.to_set() =~= within(g, h, 1));
        }
        let mut k: usize = 1;
        let mut done = false;
        while k < depth && !done
            invariant
                self.wf(),
                g == self.graph(),
                self.head == Some(h),
                1 <= k <= depth,
                reach@.no_duplicates(),
                reach@.to_set() == within(g, h, k as nat),
                done ==> within(g, h, depth as nat) == within(g, h, k as nat),
            decreases depth - k + if done { 0int } else { 1int },
        {
            let (next, grew) = self.expand(&reach);
            if !grew {
                proof {
                    assert(within(g, h, (k + 1) as nat) == step(g, within(g, h, k as nat)));
                    lemma_within_stable(g, h, k as nat, depth as nat);
                }
                done = true;
            } else {
                reach = next;
                k = k + 1;
            }
        }
        let ghost wd = within(g, h, depth as nat);
        proof {
            assert(reach@.to_set() == wd);
            assert(within(g, h, 1).contains(h));
            lemma_within_grows(g, h, 1, depth as nat);
        }
        let ghost s = self.nodes@;
        let old_len = self.nodes.len();
        let mut rest: Vec<DagNode> = Vec::new();
        std::mem::swap(&mut self.nodes, &mut rest);
        let mut kept: Vec<DagNode> = Vec::new();
        // Move the nodes out from the back, keeping their order in `back`.
        let mut back: Vec<DagNode> = Vec::new();
        while rest.len() > 0
            invariant
                rest@ == s.take(rest@.len() as int),
                rest@.len() <= s.len(),
                back@.len() == s.len() - rest@.len(),
                forall|j: int| 0 <= j < back@.len() ==> #[trigger] back@[j] == s[s.len() - 1 - j],
            decreases rest.len(),
        {
            let e = rest.pop().unwrap();
            back.push(e);
        }
        proof {
            assert(keyed(kept@, version_key()) =~= keyed(s.take(0), version_key()).restrict(wd));
        }
        while back.len() > 0
            invariant
                keys_unique(s, version_key()),
                back@.len() <= s.len(),
                forall|j: int| 0 <= j < back@.len() ==> #[trigger] back@[j] == s[s.len() - 1 - j],
                reach@.to_set() == wd,
                keys_unique(kept@, version_key()),
                keyed(kept@, version_key()) == keyed(s.take(s.len() - back@.len()), version_key()).restrict(wd),
            decreases back.len(),
        {
            let ghost i = s.len() - back@.len();
            let e = back.pop().unwrap();
            proof {
                assert(e == s[i]);
                lemma_keyed_take(s, version_key(), i);
                crate::keyed::lemma_unique_take(s, version_key(), i + 1);
            }
            if contains_u64(&reach, e.version) {
                proof {
                    if keyed(kept@, version_key()).contains_key(e.version) {
                        lemma_keyed_dom(s.take(i), version_key(), e.version);
                        let x = choose|x: int| 0 <= x < i && version_key()(s.take(i)[x]) == e.version;
                        assert(s.take(i)[x] == s[x]);
                        assert(version_key()(s[x]) != version_key()(s[i]));
                    }
                    lemma_keyed_push(kept@, version_key(), e);
                    assert(keyed(kept@.push(e), version_key()) =~= keyed(s.take(i + 1), version_key()).restrict(wd));
                }
                kept.push(e);
            } else {
                proof {
                    assert(keyed(kept@, version_key()) =~= keyed(s.take(i + 1), version_key()).restrict(wd));
                }
            }
        }
        proof {
            assert(s.take(s.len() as int) =~= s);
        }
        self.nodes = kept;
        proof {
            assert(self.graph() =~= g.restrict(wd));
            lemma_keyed_len(s, version_key());
            lemma_keyed_len(self.nodes@, version_key());
            assert(g.dom() =~= keyed(s, version_key()).dom());
            assert(self.graph().dom() =~= keyed(self.nodes@, version_key()).dom());
            assert(g.contains_key(h));
            assert(self.graph().contains_key(h));
            assert forall|v: u64| #[trigger] self.graph().contains_key(v) implies v <= h by {
                assert(g.contains_key(v));
            }
            vstd::set_lib::lemma_len_subset(self.graph().dom(), g.dom());
        }
        old_len - self.nodes.len()
    }

    /// Whether a node carries `v`.
    fn has_version(&self, v: u64) -> (r: bool)
        ensures
            r == self.graph().contains_key(v),
    {
        let mut i: usize = 0;
        while i < self.nodes.len()
            invariant
                i <= self.nodes@.len(),
                forall|j: int| 0 <= j < i ==> version_key()(self.nodes@[j]) != v,
            decreases self.nodes.len() - i,
        {
            if self.nodes[i].version == v {
                proof {
                    lemma_keyed_dom(self.nodes@, version_key(), v);
                }
                return true;
            }
            i = i + 1;
        }
        proof {
            lemma_keyed_dom(self.nodes@, version_key(), v);
        }
        false
    }

    /// Parent versions that no node carries, each once, in increasing order.
    /// A hint for diagnostics: pruned history shows up here too.
    pub fn find_missing_versions(&self) -> (r: Vec<u64>)
        requires
            self.wf(),
        ensures
            sorted_strict(r@),
            r@.to_set() == missing_of(self.graph()),
    {
        let mut out: Vec<u64> = Vec::new();
        let ghost g = self.graph();
        let mut i: usize = 0;
        while i < self.nodes.len()
            invariant
                self.wf(),
                g == self.graph(),
                i <= self.nodes@.len(),
                sorted_strict(out@),
                forall|p: u64|
                    #![trigger out@.to_set().contains(p)]
                    out@.to_set().contains(p) <==> (!g.contains_key(p) && exists|j: int|
                        0 <= j < i && self.nodes@[j].parent_versions@.contains(p)),
            decreases self.nodes.len() - i,
        {
            let ps = &self.nodes[i].parent_versions;
            let mut j: usize = 0;
            while j < ps.len()
                invariant
                    self.wf(),
                    g == self.graph(),
                    i < self.nodes@.len(),
                    *ps == self.nodes@[i as int].parent_versions,
                    j <= ps@.len(),
                    sorted_strict(out@),
                    forall|p: u64|
                        #![trigger out@.to_set().contains(p)]
                        out@.to_set().contains(p) <==> (!g.contains_key(p) && (exists|x: int|
                            0 <= x < i && self.nodes@[x].parent_versions@.contains(p)) || (!g.contains_key(p) && exists|y: int| 0 <= y < j && ps@[y] == p)),
                decreases ps.len() - j,
            {
                let p = ps[j];
                if !self.has_version(p) {
                    insert_sorted(&mut out, p);
                }
                proof {
                    assert forall|q: u64| #![trigger out@.to_set().contains(q)] out@.to_set().contains(q) <==> (!g.contains_key(q) && (exists|x: int|
                            0 <= x < i && self.nodes@[x].parent_versions@.contains(q)) || (!g.contains_key(q) && exists|y: int| 0 <= y < j + 1 && ps@[y] == q)) by {
                        if q == p && !g.contains_key(q) {
                            assert(ps@[j as int] == q);
                        }
                    }
                }
                j = j + 1;
            }
            proof {
                assert forall|q: u64| #![trigger out@.to_set().contains(q)] out@.to_set().contains(q) <==> (!g.contains_key(q) && exists|x: int|
                        0 <= x < i + 1 && self.nodes@[x].parent_versions@.contains(q)) by {
                    if !g.contains_key(q) && (exists|y: int| 0 <= y < ps@.len() && ps@[y] == q) {
                        let y = choose|y: int| 0 <= y < ps@.len() && ps@[y] == q;
                        assert(self.nodes@[i as int].parent_versions@.contains(q));
                    }
                    if !g.contains_key(q) && self.nodes@[i as int].parent_versions@.contains(q) {
                        let y = choose|y: int| 0 <= y < ps@.len() && ps@[y] == q;
                        assert(exists|y: int| 0 <= y < ps@.len() && ps@[y] == q);
                    }
                }
            }
            i = i + 1;
        }
        proof {
            assert forall|p: u64| out@.to_set().contains(p) <==> missing_of(g).contains(p) by {
                if out@.to_set().contains(p) {
                    let j = choose|j: int| 0 <= j < self.nodes@.len() && self.nodes@[j].parent_versions@.contains(p);
                    lemma_keyed_index(self.nodes@, version_key(), j);
                    assert(g.contains_key(self.nodes@[j].version));
                    assert(g[self.nodes@[j].version].0.contains(p));
                }
                if missing_of(g).contains(p) {
                    let v = choose|v: u64| g.contains_key(v) && g[v].0.contains(p);
                    lemma_keyed_dom(self.nodes@, version_key(), v);
                    let j = choose|j: int| 0 <= j < self.nodes@.len() && version_key()(self.nodes@[j]) == v;
                    lemma_keyed_index(self.nodes@, version_key(), j);
                    assert(self.nodes@[j].parent_versions@.contains(p));
                }
            }
            assert(out@.to_set() =~= missing_of(g));
        }
        out
    }
}

} // verus!
