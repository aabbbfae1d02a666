use vstd::prelude::*;

use crate::addr::PeerAddr;
use crate::server::Client;

verus! {

/// Whether no address occurs twice among the keys of `s`.
pub open spec fn keys_unique(s: Seq<(PeerAddr, Client)>) -> bool {
    forall|i: int, j: int| 0 <= i < j < s.len() ==> s[i].0 != s[j].0
}

/// Whether `k` occurs among the keys of `s`.
pub open spec fn has_key(s: Seq<(PeerAddr, Client)>, k: PeerAddr) -> bool {
    exists|i: int| 0 <= i < s.len() && s[i].0 == k
}

/// A position at which `k` occurs among the keys of `s`, where it occurs.
pub open spec fn key_index(s: Seq<(PeerAddr, Client)>, k: PeerAddr) -> int {
    choose|i: int| 0 <= i < s.len() && s[i].0 == k
}

/// The map that a list of entries with distinct keys stands for.
pub open spec fn entries_map(s: Seq<(PeerAddr, Client)>) -> Map<PeerAddr, Client> {
    Map::new(|k: PeerAddr| has_key(s, k), |k: PeerAddr| s[key_index(s, k)].1)
}

proof fn lemma_entries_map_at(s: Seq<(PeerAddr, Client)>, i: int)
    requires
        keys_unique(s),
        0 <= i < s.len(),
    ensures
        entries_map(s).contains_key(s[i].0),
        entries_map(s)[s[i].0] == s[i].1,
{
    assert(has_key(s, s[i].0));
    let j = key_index(s, s[i].0);
    assert(0 <= j < s.len() && s[j].0 == s[i].0);
    if j != i {
        if j < i {
            assert(s[j].0 != s[i].0);
        } else {
            assert(s[i].0 != s[j].0);
        }
    }
}

/// The clients of the server, each under the address of its connection.
///
/// Its view is a map from addresses to clients.
pub struct PeerMap {
    entries: Vec<(PeerAddr, Client)>,
}

impl View for PeerMap {
    type V = Map<PeerAddr, Client>;

    closed spec fn view(&self) -> Map<PeerAddr, Client> {
        entries_map(self.entries@)
    }
}

impl PeerMap {
    /// No address is registered twice.
    pub closed spec fn wf(&self) -> bool {
        keys_unique(self.entries@)
    }

    /// A map with no client in it.
    pub fn new() -> (m: Self)
        ensures
            m.wf(),
            m@ == Map::<PeerAddr, Client>::empty(),
    {
        let m = PeerMap { entries: Vec::new() };
        assert(m@ =~= Map::<PeerAddr, Client>::empty());
        m
    }

    /// The position of `k` among the entries, if it is registered.
    fn find(&self, k: PeerAddr) -> (r: Option<usize>)
        requires
            self.wf(),
        ensures
            match r {
                Some(i) => i < self.entries@.len() && self.entries@[i as int].0 == k,
                None => !self@.contains_key(k),
            },
    {
        let mut i: usize = 0;
        while i < self.entries.len()
            invariant
                i <= self.entries@.len(),
                forall|j: int| 0 <= j < i ==> self.entries@[j].0 != k,
            decreases self.entries@.len() - i,
        {
            if self.entries[i].0 == k {
                return Some(i);
            }
            i = i + 1;
        }
        None
    }

    /// Whether a client is registered under `k`.
    pub fn contains_key(&self, k: PeerAddr) -> (r: bool)
        requires
            self.wf(),
        ensures
            r == self@.contains_key(k),
    {
        match self.find(k) {
            Some(i) => {
                proof {
                    lemma_entries_map_at(self.entries@, i as int);
                }
                true
            },
            None => false,
        }
    }

    /// The client registered under `k`, if any.
    pub fn get(&self, k: PeerAddr) -> (r: Option<Client>)
        requires
            self.wf(),
        ensures
            r == (if self@.contains_key(k) { Some(self@[k]) } else { None::<Client> }),
    {
        match self.find(k) {
            Some(i) => {
                proof {
                    lemma_entries_map_at(self.entries@, i as int);
                }
                Some(self.entries[i].1)
            },
            None => None,
        }
    }

    /// Registers `c` under `k`, in place of any client registered there before.
    pub fn insert(&mut self, k: PeerAddr, c: Client)
        requires
            old(self).wf(),
        ensures
            final(self).wf(),
            final(self)@ == old(self)@.insert(k, c),
    {
        let ghost s0 = self.entries@;
        match self.find(k) {
            Some(i) => {
                self.entries.set(i, (k, c));
                let ghost s1 = self.entries@;
                proof {
                    assert(s1 == s0.update(i as int, (k, c)));
                    assert(keys_unique(s1));
                    assert forall|k2: PeerAddr| #[trigger] has_key(s1, k2) == (has_key(s0, k2) || k2 == k) by {
                        if has_key(s0, k2) {
                            let j = key_index(s0, k2);
                            assert(s1[j].0 == k2);
                        }
                        if has_key(s1, k2) {
                            let j = key_index(s1, k2);
                            if j != i {
                                assert(s0[j].0 == k2);
                            }
                        }
                        if k2 == k {
                            assert(s1[i as int].0 == k);
                        }
                    }
                    assert forall|k2: PeerAddr| #[trigger] entries_map(s1).contains_key(k2) implies
                        entries_map(s1)[k2] == entries_map(s0).insert(k, c)[k2] by {
                        let j = key_index(s1, k2);
                        lemma_entries_map_at(s1, j);
                        if j != i {
                            lemma_entries_map_at(s0, j);
                        }
                    }
                    assert(entries_map(s1) =~= entries_map(s0).insert(k, c));
                }
            },
            None => {
                self.entries.push((k, c));
                let ghost s1 = self.entries@;
                proof {
                    assert(s1 == s0.push((k, c)));
                    assert(!has_key(s0, k));
                    assert(keys_unique(s1)) by {
                        assert forall|a: int, b: int| 0 <= a < b < s1.len() implies s1[a].0 != s1[b].0 by {
                            if b == s0.len() {
                                assert(s0[a].0 != k);
                            }
                        }
                    }
                    assert forall|k2: PeerAddr| #[trigger] has_key(s1, k2) == (has_key(s0, k2) || k2 == k) by {
                        if has_key(s0, k2) {
                            let j = key_index(s0, k2);
                            assert(s1[j].0 == k2);
                        }
                        if has_key(s1, k2) {
                            let j = key_index(s1, k2);
                            if j < s0.len() {
                                assert(s0[j].0 == k2);
                            }
                        }
                        if k2 == k {
                            assert(s1[s0.len() as int].0 == k);
                        }
                    }
                    assert forall|k2: PeerAddr| #[trigger] entries_map(s1).contains_key(k2) implies
                        entries_map(s1)[k2] == entries_map(s0).insert(k, c)[k2] by {
                        let j = key_index(s1, k2);
                        lemma_entries_map_at(s1, j);
                        if j < s0.len() {
                            lemma_entries_map_at(s0, j);
                        }
                    }
                    assert(entries_map(s1) =~= entries_map(s0).insert(k, c));
                }
            },
        }
    }

    /// Unregisters whatever client is registered under `k`.
    pub fn remove(&mut self, k: PeerAddr)
        requires
            old(self).wf(),
        ensures
            final(self).wf(),
            final(self)@ == old(self)@.remove(k),
    {
        let ghost s0 = self.entries@;
        match self.find(k) {
            Some(i) => {
                self.entries.remove(i);
                let ghost s1 = self.entries@;
                proof {
                    assert(s1 == s0.remove(i as int));
                    assert(keys_unique(s1)) by {
                        assert forall|a: int, b: int| 0 <= a < b < s1.len() implies s1[a].0 != s1[b].0 by {
                            let a0 = if a < i { a } else { a + 1 };
                            let b0 = if b < i { b } else { b + 1 };
                            assert(s1[a] == s0[a0]);
                            assert(s1[b] == s0[b0]);
                        }
                    }
                    assert forall|k2: PeerAddr| #[trigger] has_key(s1, k2) == (has_key(s0, k2) && k2 != k) by {
                        if has_key(s0, k2) && k2 != k {
                            let j = key_index(s0, k2);
                            if j < i {
                                assert(s1[j].0 == k2);
                            } else {
                                assert(j != i);
                                assert(s1[j - 1].0 == k2);
                            }
                        }
                        if has_key(s1, k2) {
                            let j = key_index(s1, k2);
                            let j0 = if j < i { j } else { j + 1 };
                            assert(s0[j0].0 == k2);
                            if k2 == k {
                                assert(j0 != i);
                                if j0 < i {
                                    assert(s0[j0].0 != s0[i as int].0);
                                } else {
                                    assert(s0[i as int].0 != s0[j0].0);
                                }
                            }
                        }
                    }
                    assert forall|k2: PeerAddr| #[trigger] entries_map(s1).contains_key(k2) implies
                        entries_map(s1)[k2] == entries_map(s0).remove(k)[k2] by {
                        let j = key_index(s1, k2);
                        lemma_entries_map_at(s1, j);
                        let j0 = if j < i { j } else { j + 1 };
                        assert(s1[j] == s0[j0]);
                        lemma_entries_map_at(s0, j0);
                    }
                    assert(entries_map(s1) =~= entries_map(s0).remove(k));
                }
            },
            None => {
                assert(entries_map(s0) =~= entries_map(s0).remove(k));
            },
        }
    }
}

} // verus!
