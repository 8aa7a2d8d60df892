//! Per-peer vector clocks and a sequence-numbered change log.
use vstd::prelude::*;

use crate::keyed::{
    keyed, keys_unique, lemma_keyed_dom, lemma_keyed_index, lemma_keyed_push, lemma_keyed_update,
};

verus! {

/// The key of a clock entry.
pub open spec fn peer_key() -> spec_fn((Seq<char>, u64)) -> Seq<char> {
    |e: (Seq<char>, u64)| e.0
}

/// The greatest version seen from each peer.
#[derive(Debug, Clone)]
pub struct VectorClock {
    clocks: Vec<(String, u64)>,
}

impl View for VectorClock {
    type V = Map<Seq<char>, u64>;

    closed spec fn view(&self) -> Map<Seq<char>, u64> {
        keyed(self.entries(), peer_key()).map_values(|e: (Seq<char>, u64)| e.1)
    }
}

impl VectorClock {
    /// The entries as `(peer, version)`.
    closed spec fn entries(&self) -> Seq<(Seq<char>, u64)> {
        self.clocks@.map_values(|e: (String, u64)| (e.0@, e.1))
    }

    /// One entry per peer.
    pub closed spec fn wf(&self) -> bool {
        keys_unique(self.entries(), peer_key())
    }

    /// The version recorded for `p`, 0 when none.
    pub open spec fn at(&self, p: Seq<char>) -> u64 {
        if self@.contains_key(p) {
            self@[p]
        } else {
            0
        }
    }

    /// A clock with no entries.
    pub fn new() -> (r: VectorClock)
        ensures
            r.wf(),
            r@ == Map::<Seq<char>, u64>::empty(),
    {
        let r = VectorClock { clocks: Vec::new() };
        assert(r.entries() =~= Seq::<(Seq<char>, u64)>::empty());
        assert(r@ =~= Map::<Seq<char>, u64>::empty());
        r
    }

    /// Raises the entry of `peer_id` to `version` if that is greater (creating it).
    pub fn update(&mut self, peer_id: &str, version: u64)
        requires
            old(self).wf(),
        ensures
            final(self).wf(),
            final(self)@ == old(self)@.insert(
                peer_id@,
                if version > old(self).at(peer_id@) {
                    version
                } else {
                    old(self).at(peer_id@)
                },
            ),
    {
        let p = peer_id.to_owned();
        let ghost s = self.entries();
        let ghost k = peer_id@;
        let mut i: usize = 0;
        while i < self.clocks.len()
            invariant
                self.entries() == s,
                s == old(self).entries(),
                keys_unique(s, peer_key()),
                p@ == k,
                k == peer_id@,
                i <= s.len(),
                forall|j: int| 0 <= j < i ==> peer_key()(s[j]) != k,
            decreases self.clocks.len() - i,
        {
            if self.clocks[i].0 == p {
                let current = self.clocks[i].1;
                let v = if version > current { version } else { current };
                proof {
                    assert(s[i as int] == (k, current));
                    lemma_keyed_index(s, peer_key(), i as int);
                    assert(old(self)@.contains_key(k));
                    assert(old(self)@[k] == current);
                    assert(old(self).at(k) == current);
                    lemma_keyed_update(s, peer_key(), i as int, (k, v));
                }
                self.clocks.set(i, (p, v));
                proof {
                    assert(self.entries() =~= s.update(i as int, (k, v)));
                    assert(self@ =~= old(self)@.insert(k, v));
                }
                return;
            }
            i = i + 1;
        }
        proof {
            lemma_keyed_dom(s, peer_key(), k);
            lemma_keyed_push(s, peer_key(), (k, version));
        }
        self.clocks.push((p, version));
        proof {
            assert(self.entries() =~= s.push((k, version)));
            assert(self@ =~= old(self)@.insert(k, version));
        }
    }

    /// The version recorded for `peer_id`, 0 when none.
    pub fn get(&self, peer_id: &str) -> (r: u64)
        requires
            self.wf(),
        ensures
            r == self.at(peer_id@),
    {
        let p = peer_id.to_owned();
        let ghost s = self.entries();
        let mut i: usize = 0;
        while i < self.clocks.len()
            invariant
                self.entries() == s,
                keys_unique(s, peer_key()),
                p@ == peer_id@,
                i <= s.len(),
                forall|j: int| 0 <= j < i ==> peer_key()(s[j]) != peer_id@,
            decreases self.clocks.len() - i,
        {
            if self.clocks[i].0 == p {
                proof {
                    lemma_keyed_index(s, peer_key(), i as int);
                }
                return self.clocks[i].1;
            }
            i = i + 1;
        }
        proof {
            lemma_keyed_dom(s, peer_key(), peer_id@);
        }
        0
    }
}

/// A peer's log of local changes, numbered from 1.
#[derive(Debug, Clone)]
pub struct DeltaTracker {
    changelog: Vec<(u64, String, String, String)>,
    next_seq: u64,
    pub vector_clock: VectorClock,
    pub peer_id: String,
}

impl DeltaTracker {
    /// Every logged number is below the next one, in increasing order.
    pub closed spec fn wf(&self) -> bool {
        &&& forall|i: int, j: int|
            0 <= i < j < self.changelog@.len() ==> self.changelog@[i].0 < self.changelog@[j].0
        &&& forall|i: int| 0 <= i < self.changelog@.len() ==> self.changelog@[i].0 < self.next_seq
    }

    /// The tracking peer's name.
    pub closed spec fn peer(&self) -> Seq<char> {
        self.peer_id@
    }

    /// The peer's vector clock.
    pub closed spec fn clock(&self) -> VectorClock {
        self.vector_clock
    }

    /// The number the next change gets.
    pub closed spec fn next(&self) -> u64 {
        self.next_seq
    }

    /// The logged changes by number: `(pk, column, value)`.
    pub closed spec fn log(&self) -> Map<u64, (Seq<char>, Seq<char>, Seq<char>)> {
        Map::new(
            |n: u64| exists|i: int| 0 <= i < self.changelog@.len() && self.changelog@[i].0 == n,
            |n: u64|
                {
                    let i = choose|i: int| 0 <= i < self.changelog@.len() && self.changelog@[i].0 == n;
                    (self.changelog@[i].1@, self.changelog@[i].2@, self.changelog@[i].3@)
                },
        )
    }

    /// An empty log for `peer_id`.
    pub fn new(peer_id: String) -> (r: DeltaTracker)
        ensures
            r.wf(),
            r.next() == 1,
            r.log() == Map::<u64, (Seq<char>, Seq<char>, Seq<char>)>::empty(),
            r.peer() == peer_id@,
            r.clock().wf(),
            r.clock()@ == Map::<Seq<char>, u64>::empty(),
    {
        let r = DeltaTracker {
            changelog: Vec::new(),
            next_seq: 1,
            vector_clock: VectorClock::new(),
            peer_id,
        };
        assert(r.log() =~= Map::<u64, (Seq<char>, Seq<char>, Seq<char>)>::empty());
        r
    }

    /// The number the next change gets.
    pub fn next_seq(&self) -> (r: u64)
        ensures
            r == self.next(),
    {
        self.next_seq
    }

    /// Logs a change under the next number and returns that number.
    pub fn record_change(&mut self, pk: &str, column: &str, value: &str) -> (r: u64)
        requires
            old(self).wf(),
            old(self).next() < u64::MAX,
        ensures
            final(self).wf(),
            r == old(self).next(),
            final(self).next() == old(self).next() + 1,
            final(self).log() == old(self).log().insert(r, (pk@, column@, value@)),
    {
        let seq = self.next_seq;
        let ghost s = self.changelog@;
        self.changelog.push((seq, pk.to_owned(), column.to_owned(), value.to_owned()));
        self.next_seq = seq + 1;
        proof {
            let t = self.changelog@;
            assert forall|n: u64| #[trigger] self.log().contains_key(n) == old(self).log().insert(seq, (pk@, column@, value@)).contains_key(n) by {
                if exists|i: int| 0 <= i < t.len() && t[i].0 == n {
                    let i = choose|i: int| 0 <= i < t.len() && t[i].0 == n;
                    if i < s.len() {
                        assert(s[i].0 == n);
                    }
                }
                if exists|i: int| 0 <= i < s.len() && s[i].0 == n {
                    let i = choose|i: int| 0 <= i < s.len() && s[i].0 == n;
                    assert(t[i].0 == n);
                }
                if n == seq {
                    assert(t[s.len() as int].0 == n);
                }
            }
            assert forall|n: u64| #[trigger] self.log().contains_key(n) implies self.log()[n] == old(self).log().insert(seq, (pk@, column@, value@))[n] by {
                let i = choose|i: int| 0 <= i < t.len() && t[i].0 == n;
                if n == seq {
                    if i < s.len() {
                        assert(s[i].0 < seq);
                    }
                    assert(i == s.len());
                } else {
                    assert(i < s.len());
                    let i0 = choose|i0: int| 0 <= i0 < s.len() && s[i0].0 == n;
                    if i0 != i {
                        if i0 < i {
                            assert(s[i0].0 < s[i].0);
                        } else {
                            assert(s[i].0 < s[i0].0);
                        }
                    }
                }
            }
            assert(self.log() =~= old(self).log().insert(seq, (pk@, column@, value@)));
        }
        seq
    }
}

} // verus!
