use vstd::prelude::*;

use crate::types::{Addr, Bytes32};

verus! {

/// The map described by an association list, later entries overriding earlier ones.
pub open spec fn addr_alist_map<V>(s: Seq<(Addr, V)>) -> Map<Addr, V>
    decreases s.len(),
{
    if s.len() == 0 {
        Map::empty()
    } else {
        addr_alist_map(s.drop_last()).insert(s.last().0, s.last().1)
    }
}

pub open spec fn addr_keys_distinct<V>(s: Seq<(Addr, V)>) -> bool {
    forall|i: int, j: int|
        0 <= i < j < s.len() ==> (#[trigger] s[i]).0 != (#[trigger] s[j]).0
}

proof fn lemma_addr_alist_index<V>(s: Seq<(Addr, V)>, i: int)
    requires
        addr_keys_distinct(s),
        0 <= i < s.len(),
    ensures
        addr_alist_map(s).contains_key(s[i].0),
        addr_alist_map(s)[s[i].0] == s[i].1,
    decreases s.len(),
{
    if i < s.len() - 1 {
        lemma_addr_alist_index(s.drop_last(), i);
    }
}

proof fn lemma_addr_alist_absent<V>(s: Seq<(Addr, V)>, k: Addr)
    requires
        forall|i: int| 0 <= i < s.len() ==> (#[trigger] s[i]).0 != k,
    ensures
        !addr_alist_map(s).contains_key(k),
    decreases s.len(),
{
    if s.len() > 0 {
        lemma_addr_alist_absent(s.drop_last(), k);
    }
}

proof fn lemma_addr_alist_remove<V>(s: Seq<(Addr, V)>, i: int)
    requires
        addr_keys_distinct(s),
        0 <= i < s.len(),
    ensures
        addr_keys_distinct(s.remove(i)),
        addr_alist_map(s.remove(i)) == addr_alist_map(s).remove(s[i].0),
    decreases s.len(),
{
    let k = s[i].0;
    if i == s.len() - 1 {
        assert(s.remove(i) =~= s.drop_last());
        lemma_addr_alist_absent(s.drop_last(), k);
        assert(addr_alist_map(s.drop_last()) =~= addr_alist_map(s.drop_last()).insert(
            k,
            s[i].1,
        ).remove(k));
    } else {
        lemma_addr_alist_remove(s.drop_last(), i);
        assert(s.remove(i).drop_last() =~= s.drop_last().remove(i));
        assert(s.remove(i).last() == s.last());
        assert(addr_alist_map(s.remove(i)) == addr_alist_map(s.drop_last().remove(i)).insert(
            s.last().0,
            s.last().1,
        ));
        assert(s.last().0 != k);
        assert(addr_alist_map(s.drop_last()).remove(k).insert(s.last().0, s.last().1)
            =~= addr_alist_map(s.drop_last()).insert(s.last().0, s.last().1).remove(k));
    }
}

proof fn lemma_addr_push_fresh<V>(s: Seq<(Addr, V)>, key: Addr, value: V)
    requires
        addr_keys_distinct(s),
        !addr_alist_map(s).contains_key(key),
    ensures
        addr_keys_distinct(s.push((key, value))),
        addr_alist_map(s.push((key, value))) == addr_alist_map(s).insert(key, value),
{
    assert forall|j: int| 0 <= j < s.len() implies (#[trigger] s[j]).0 != key by {
        if s[j].0 == key {
            lemma_addr_alist_index(s, j);
        }
    }
    let p = s.push((key, value));
    assert(p.drop_last() =~= s);
    assert forall|i: int, j: int| 0 <= i < j < p.len() implies (#[trigger] p[i]).0 != (
    #[trigger] p[j]).0 by {
        if j == p.len() - 1 {
            assert(p[i] == s[i]);
        }
    }
}

/// A map from addresses to values, stored as a list of entries with distinct keys.
pub struct AddrMap<V> {
    pub entries: Vec<(Addr, V)>,
}

impl<V> AddrMap<V> {
    pub open spec fn view(&self) -> Map<Addr, V> {
        addr_alist_map(self.entries@)
    }

    pub open spec fn wf(&self) -> bool {
        addr_keys_distinct(self.entries@)
    }

    pub fn new() -> (r: Self)
        ensures
            r.wf(),
            r@ == Map::<Addr, V>::empty(),
    {
        AddrMap { entries: Vec::new() }
    }

    fn position(&self, key: Addr) -> (r: Option<usize>)
        requires
            self.wf(),
        ensures
            match r {
                Some(i) => 0 <= i < self.entries@.len() && self.entries@[i as int].0 == key
                    && self@.contains_key(key) && self@[key] == self.entries@[i as int].1,
                None => !self@.contains_key(key),
            },
    {
        let n = self.entries.len();
        let mut i: usize = 0;
        while i < n
            invariant
                self.wf(),
                n == self.entries@.len(),
                i <= n,
                forall|j: int| 0 <= j < i ==> (#[trigger] self.entries@[j]).0 != key,
            decreases n - i,
        {
            if self.entries[i].0 == key {
                proof {
                    lemma_addr_alist_index(self.entries@, i as int);
                }
                return Some(i);
            }
            i = i + 1;
        }
        proof {
            lemma_addr_alist_absent(self.entries@, key);
        }
        None
    }

    pub fn contains_key(&self, key: Addr) -> (r: bool)
        requires
            self.wf(),
        ensures
            r == self@.contains_key(key),
    {
        self.position(key).is_some()
    }

    pub fn get(&self, key: Addr) -> (r: Option<&V>)
        requires
            self.wf(),
        ensures
            match r {
                Some(v) => self@.contains_key(key) && *v == self@[key],
                None => !self@.contains_key(key),
            },
    {
        match self.position(key) {
            Some(i) => Some(&self.entries[i].1),
            None => None,
        }
    }

    pub fn insert(&mut self, key: Addr, value: V)
        requires
            old(self).wf(),
        ensures
            final(self).wf(),
            final(self)@ == old(self)@.insert(key, value),
    {
        match self.position(key) {
            Some(i) => {
                proof {
                    lemma_addr_alist_remove(self.entries@, i as int);
                }
                let _ = self.entries.remove(i);
                proof {
                    lemma_addr_push_fresh(self.entries@, key, value);
                }
                self.entries.push((key, value));
                proof {
                    assert(self@ =~= old(self)@.insert(key, value));
                }
            },
            None => {
                proof {
                    lemma_addr_push_fresh(self.entries@, key, value);
                }
                self.entries.push((key, value));
                proof {
                    assert(self@ =~= old(self)@.insert(key, value));
                }
            },
        }
    }

    pub fn remove(&mut self, key: Addr)
        requires
            old(self).wf(),
        ensures
            final(self).wf(),
            final(self)@ == old(self)@.remove(key),
    {
        match self.position(key) {
            Some(i) => {
                proof {
                    lemma_addr_alist_remove(self.entries@, i as int);
                }
                let _ = self.entries.remove(i);
            },
            None => {
                proof {
                    assert(self@ =~= old(self)@.remove(key));
                }
            },
        }
    }
}

/// The map described by an association list keyed by 32-byte hashes.
pub open spec fn tx_alist_map<V>(s: Seq<(Bytes32, V)>) -> Map<Bytes32, V>
    decreases s.len(),
{
    if s.len() == 0 {
        Map::empty()
    } else {
        tx_alist_map(s.drop_last()).insert(s.last().0, s.last().1)
    }
}

pub open spec fn tx_keys_distinct<V>(s: Seq<(Bytes32, V)>) -> bool {
    forall|i: int, j: int|
        0 <= i < j < s.len() ==> (#[trigger] s[i]).0 != (#[trigger] s[j]).0
}

proof fn lemma_tx_alist_index<V>(s: Seq<(Bytes32, V)>, i: int)
    requires
        tx_keys_distinct(s),
        0 <= i < s.len(),
    ensures
        tx_alist_map(s).contains_key(s[i].0),
        tx_alist_map(s)[s[i].0] == s[i].1,
    decreases s.len(),
{
    if i < s.len() - 1 {
        lemma_tx_alist_index(s.drop_last(), i);
    }
}

proof fn lemma_tx_alist_absent<V>(s: Seq<(Bytes32, V)>, k: Bytes32)
    requires
        forall|i: int| 0 <= i < s.len() ==> (#[trigger] s[i]).0 != k,
    ensures
        !tx_alist_map(s).contains_key(k),
    decreases s.len(),
{
    if s.len() > 0 {
        lemma_tx_alist_absent(s.drop_last(), k);
    }
}

proof fn lemma_tx_alist_remove<V>(s: Seq<(Bytes32, V)>, i: int)
    requires
        tx_keys_distinct(s),
        0 <= i < s.len(),
    ensures
        tx_keys_distinct(s.remove(i)),
        tx_alist_map(s.remove(i)) == tx_alist_map(s).remove(s[i].0),
    decreases s.len(),
{
    let k = s[i].0;
    if i == s.len() - 1 {
        assert(s.remove(i) =~= s.drop_last());
        lemma_tx_alist_absent(s.drop_last(), k);
        assert(tx_alist_map(s.drop_last()) =~= tx_alist_map(s.drop_last()).insert(
            k,
            s[i].1,
        ).remove(k));
    } else {
        lemma_tx_alist_remove(s.drop_last(), i);
        assert(s.remove(i).drop_last() =~= s.drop_last().remove(i));
        assert(s.remove(i).last() == s.last());
        assert(tx_alist_map(s.remove(i)) == tx_alist_map(s.drop_last().remove(i)).insert(
            s.last().0,
            s.last().1,
        ));
        assert(s.last().0 != k);
        assert(tx_alist_map(s.drop_last()).remove(k).insert(s.last().0, s.last().1)
            =~= tx_alist_map(s.drop_last()).insert(s.last().0, s.last().1).remove(k));
    }
}

proof fn lemma_tx_push_fresh<V>(s: Seq<(Bytes32, V)>, key: Bytes32, value: V)
    requires
        tx_keys_distinct(s),
        !tx_alist_map(s).contains_key(key),
    ensures
        tx_keys_distinct(s.push((key, value))),
        tx_alist_map(s.push((key, value))) == tx_alist_map(s).insert(key, value),
{
    assert forall|j: int| 0 <= j < s.len() implies (#[trigger] s[j]).0 != key by {
        if s[j].0 == key {
            lemma_tx_alist_index(s, j);
        }
    }
    let p = s.push((key, value));
    assert(p.drop_last() =~= s);
    assert forall|i: int, j: int| 0 <= i < j < p.len() implies (#[trigger] p[i]).0 != (
    #[trigger] p[j]).0 by {
        if j == p.len() - 1 {
            assert(p[i] == s[i]);
        }
    }
}

/// A map from transaction hashes to values, stored as entries with distinct keys.
pub struct TxMap<V> {
    pub entries: Vec<(Bytes32, V)>,
}

impl<V> TxMap<V> {
    pub open spec fn view(&self) -> Map<Bytes32, V> {
        tx_alist_map(self.entries@)
    }

    pub open spec fn wf(&self) -> bool {
        tx_keys_distinct(self.entries@)
    }

    pub fn new() -> (r: Self)
        ensures
            r.wf(),
            r@ == Map::<Bytes32, V>::empty(),
    {
        TxMap { entries: Vec::new() }
    }

    fn position(&self, key: Bytes32) -> (r: Option<usize>)
        requires
            self.wf(),
        ensures
            match r {
                Some(i) => 0 <= i < self.entries@.len() && self.entries@[i as int].0 == key
                    && self@.contains_key(key) && self@[key] == self.entries@[i as int].1,
                None => !self@.contains_key(key),
            },
    {
        let n = self.entries.len();
        let mut i: usize = 0;
        while i < n
            invariant
                self.wf(),
                n == self.entries@.len(),
                i <= n,
                forall|j: int| 0 <= j < i ==> (#[trigger] self.entries@[j]).0 != key,
            decreases n - i,
        {
            if self.entries[i].0 == key {
                proof {
                    lemma_tx_alist_index(self.entries@, i as int);
                }
                return Some(i);
            }
            i = i + 1;
        }
        proof {
            lemma_tx_alist_absent(self.entries@, key);
        }
        None
    }

    pub fn contains_key(&self, key: Bytes32) -> (r: bool)
        requires
            self.wf(),
        ensures
            r == self@.contains_key(key),
    {
        self.position(key).is_some()
    }

    pub fn get(&self, key: Bytes32) -> (r: Option<&V>)
        requires
            self.wf(),
        ensures
            match r {
                Some(v) => self@.contains_key(key) && *v == self@[key],
                None => !self@.contains_key(key),
            },
    {
        match self.position(key) {
            Some(i) => Some(&self.entries[i].1),
            None => None,
        }
    }

    pub fn insert(&mut self, key: Bytes32, value: V)
        requires
            old(self).wf(),
        ensures
            final(self).wf(),
            final(self)@ == old(self)@.insert(key, value),
    {
        match self.position(key) {
            Some(i) => {
                proof {
                    lemma_tx_alist_remove(self.entries@, i as int);
                }
                let _ = self.entries.remove(i);
                proof {
                    lemma_tx_push_fresh(self.entries@, key, value);
                }
                self.entries.push((key, value));
                proof {
                    assert(self@ =~= old(self)@.insert(key, value));
                }
            },
            None => {
                proof {
                    lemma_tx_push_fresh(self.entries@, key, value);
                }
                self.entries.push((key, value));
                proof {
                    assert(self@ =~= old(self)@.insert(key, value));
                }
            },
        }
    }

    pub fn remove(&mut self, key: Bytes32)
        requires
            old(self).wf(),
        ensures
            final(self).wf(),
            final(self)@ == old(self)@.remove(key),
    {
        match self.position(key) {
            Some(i) => {
                proof {
                    lemma_tx_alist_remove(self.entries@, i as int);
                }
                let _ = self.entries.remove(i);
            },
            None => {
                proof {
                    assert(self@ =~= old(self)@.remove(key));
                }
            },
        }
    }

    /// Removes an entry and hands its value back.
    pub fn take(&mut self, key: Bytes32) -> (r: Option<V>)
        requires
            old(self).wf(),
        ensures
            final(self).wf(),
            final(self)@ == old(self)@.remove(key),
            match r {
                Some(v) => old(self)@.contains_key(key) && v == old(self)@[key],
                None => !old(self)@.contains_key(key),
            },
    {
        match self.position(key) {
            Some(i) => {
                proof {
                    lemma_tx_alist_remove(self.entries@, i as int);
                }
                let e = self.entries.remove(i);
                Some(e.1)
            },
            None => {
                proof {
                    assert(self@ =~= old(self)@.remove(key));
                }
                None
            },
        }
    }

    pub fn len(&self) -> (r: usize)
        ensures
            r == self.entries@.len(),
    {
        self.entries.len()
    }

    /// Each stored entry is reflected in the map view.
    pub proof fn lemma_entry_in_view(&self, i: int)
        requires
            self.wf(),
            0 <= i < self.entries@.len(),
        ensures
            self@.contains_key(self.entries@[i].0),
            self@[self.entries@[i].0] == self.entries@[i].1,
    {
        lemma_tx_alist_index(self.entries@, i);
    }

    /// Each key of the map view is held by exactly one stored entry.
    pub proof fn lemma_view_in_entries(&self, k: Bytes32)
        requires
            self.wf(),
            self@.contains_key(k),
        ensures
            exists|i: int|
                0 <= i < self.entries@.len() && #[trigger] self.entries@[i] == (k, self@[k]),
    {
        if forall|i: int| 0 <= i < self.entries@.len() ==> (#[trigger] self.entries@[i]).0 != k {
            lemma_tx_alist_absent(self.entries@, k);
        } else {
            let i = choose|i: int|
                0 <= i < self.entries@.len() && (#[trigger] self.entries@[i]).0 == k;
            lemma_tx_alist_index(self.entries@, i);
        }
    }
}

} // verus!
