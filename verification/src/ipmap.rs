//! A hash map from IP addresses.

use std::collections::HashMap;
use vstd::prelude::*;

use crate::addr::IpAddr;

verus! {

/// A map from IP addresses, with one hash map for each address family.
pub struct IpMap<V> {
    v4: HashMap<u32, V>,
    v6: HashMap<u128, V>,
}

impl<V> View for IpMap<V> {
    type V = Map<IpAddr, V>;

    closed spec fn view(&self) -> Map<IpAddr, V> {
        Map::new(
            |ip: IpAddr|
                match ip {
                    IpAddr::V4(a) => self.v4@.contains_key(a),
                    IpAddr::V6(a) => self.v6@.contains_key(a),
                },
            |ip: IpAddr|
                match ip {
                    IpAddr::V4(a) => self.v4@[a],
                    IpAddr::V6(a) => self.v6@[a],
                },
        )
    }
}

/// The keys of `m`, in no particular order.
fn collect_keys<K: Copy + Eq + std::hash::Hash, V>(m: &HashMap<K, V>) -> (keys: Vec<K>)
    requires
        vstd::std_specs::hash::obeys_key_model::<K>(),
    ensures
        keys@.to_set() == m@.dom(),
{
    let mut keys: Vec<K> = Vec::new();
    for k in it: m.keys()
        invariant
            it.seq().unref().to_set() == m@.dom(),
            keys@ == it.seq().unref().take(it.index() as int),
            it.index() == it.seq().len() ==> keys@ == it.seq().unref(),
    {
        keys.push(*k);
        assert(it.seq().unref().take(it.index() + 1) =~= it.seq().unref().take(
            it.index() as int,
        ).push(*k));
    }
    keys
}

impl<V: Copy> IpMap<V> {
    pub fn new() -> (m: Self)
        ensures
            m@ == Map::<IpAddr, V>::empty(),
    {
        let m = IpMap { v4: HashMap::new(), v6: HashMap::new() };
        assert(m@ =~= Map::<IpAddr, V>::empty());
        m
    }

    /// The value at `ip`.
    pub fn get(&self, ip: IpAddr) -> (r: Option<V>)
        ensures
            r == (if self@.contains_key(ip) {
                Some(self@[ip])
            } else {
                None
            }),
    {
        let found = match ip {
            IpAddr::V4(a) => self.v4.get(&a),
            IpAddr::V6(a) => self.v6.get(&a),
        };
        match found {
            Some(v) => Some(*v),
            None => None,
        }
    }

    /// Sets the value at `ip`.
    pub fn insert(&mut self, ip: IpAddr, v: V)
        ensures
            final(self)@ == old(self)@.insert(ip, v),
    {
        match ip {
            IpAddr::V4(a) => {
                self.v4.insert(a, v);
            },
            IpAddr::V6(a) => {
                self.v6.insert(a, v);
            },
        }
        assert(self@ =~= old(self)@.insert(ip, v));
    }

    /// Forgets the value at `ip`.
    pub fn remove(&mut self, ip: IpAddr)
        ensures
            final(self)@ == old(self)@.remove(ip),
    {
        match ip {
            IpAddr::V4(a) => {
                self.v4.remove(&a);
            },
            IpAddr::V6(a) => {
                self.v6.remove(&a);
            },
        }
        assert(self@ =~= old(self)@.remove(ip));
    }

    /// The addresses that have a value, in no particular order.
    pub fn keys(&self) -> (keys: Vec<IpAddr>)
        ensures
            forall|ip: IpAddr| keys@.contains(ip) <==> self@.contains_key(ip),
    {
        let v4: Vec<u32> = collect_keys(&self.v4);
        let v6: Vec<u128> = collect_keys(&self.v6);
        let mut keys: Vec<IpAddr> = Vec::new();
        let mut i: usize = 0;
        while i < v4.len()
            invariant
                i <= v4@.len(),
                keys@.len() == i,
                forall|k: int| 0 <= k < i ==> keys@[k] == IpAddr::V4(v4@[k]),
            decreases v4@.len() - i,
        {
            keys.push(IpAddr::V4(v4[i]));
            i = i + 1;
        }
        let mut j: usize = 0;
        while j < v6.len()
            invariant
                j <= v6@.len(),
                keys@.len() == v4@.len() + j,
                forall|k: int| 0 <= k < v4@.len() ==> keys@[k] == IpAddr::V4(v4@[k]),
                forall|k: int| 0 <= k < j ==> keys@[v4@.len() + k] == IpAddr::V6(v6@[k]),
            decreases v6@.len() - j,
        {
            keys.push(IpAddr::V6(v6[j]));
            j = j + 1;
        }
        assert forall|ip: IpAddr| keys@.contains(ip) <==> self@.contains_key(ip) by {
            match ip {
                IpAddr::V4(a) => {
                    assert(v4@.to_set().contains(a) <==> self.v4@.contains_key(a));
                    if v4@.contains(a) {
                        let k = v4@.index_of(a);
                        assert(keys@[k] == ip);
                    }
                    if keys@.contains(ip) {
                        let k = keys@.index_of(ip);
                        assert(k < v4@.len()) by {
                            if k >= v4@.len() {
                                assert(keys@[v4@.len() + (k - v4@.len())] == IpAddr::V6(
                                    v6@[k - v4@.len()],
                                ));
                            }
                        }
                        assert(v4@[k] == a);
                    }
                },
                IpAddr::V6(a) => {
                    assert(v6@.to_set().contains(a) <==> self.v6@.contains_key(a));
                    if v6@.contains(a) {
                        let k = v6@.index_of(a);
                        assert(keys@[v4@.len() + k] == ip);
                    }
                    if keys@.contains(ip) {
                        let k = keys@.index_of(ip);
                        if k >= v4@.len() {
                            assert(keys@[v4@.len() + (k - v4@.len())] == IpAddr::V6(
                                v6@[k - v4@.len()],
                            ));
                        }
                        assert(v6@[k - v4@.len()] == a);
                    }
                },
            }
        }
        keys
    }
}

} // verus!
