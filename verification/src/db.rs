//! Keyed storage of the contract: byte-string keys to values.
use crate::address::Address;
use crate::digits::{bytes_equal, copy_bytes};
use vstd::prelude::*;

verus! {

/// The map that a sequence of writes leaves: a later write of a key hides
/// the earlier ones.
pub open spec fn written<V>(writes: Seq<(Vec<u8>, V)>) -> Map<Seq<u8>, V>
    decreases writes.len(),
{
    if writes.len() == 0 {
        Map::empty()
    } else {
        written(writes.drop_last()).insert(writes.last().0@, writes.last().1)
    }
}

/// A named table from byte-string keys to values.
pub struct Store<V> {
    prefix: String,
    writes: Vec<(Vec<u8>, V)>,
}

impl<V> View for Store<V> {
    type V = Map<Seq<u8>, V>;

    closed spec fn view(&self) -> Map<Seq<u8>, V> {
        written(self.writes@)
    }
}

impl<V> Store<V> {
    /// The table's name.
    pub closed spec fn name(&self) -> Seq<char> {
        self.prefix@
    }

    /// An empty table named `s`.
    pub fn new(s: &str) -> (r: Store<V>)
        ensures
            r@ == Map::<Seq<u8>, V>::empty(),
            r.name() == s@,
    {
        Store { prefix: s.to_owned(), writes: Vec::new() }
    }

    /// The value stored under `key`.
    pub fn get(&self, key: &[u8]) -> (r: Option<&V>)
        ensures
            match r {
                Some(v) => self@.contains_key(key@) && *v == self@[key@],
                None => !self@.contains_key(key@),
            },
    {
        let n = self.writes.len();
        let mut i: usize = n;
        proof {
            assert(self.writes@.take(n as int) =~= self.writes@);
        }
        while i > 0
            invariant
                i <= n,
                n == self.writes.len(),
                written(self.writes@.take(i as int)).contains_key(key@) == self@.contains_key(key@),
                written(self.writes@.take(i as int)).contains_key(key@) ==> written(
                    self.writes@.take(i as int),
                )[key@] == self@[key@],
            decreases i,
        {
            let j = i - 1;
            let ghost prefix = self.writes@.take(i as int);
            proof {
                assert(prefix.drop_last() =~= self.writes@.take(j as int));
                assert(prefix.last() == self.writes@[j as int]);
            }
            if bytes_equal(self.writes[j].0.as_slice(), key) {
                return Some(&self.writes[j].1);
            }
            i = j;
        }
        None
    }

    /// Whether a value is stored under `key`.
    pub fn contains_key(&self, key: &[u8]) -> (r: bool)
        ensures
            r == self@.contains_key(key@),
    {
        match self.get(key) {
            Some(_) => true,
            None => false,
        }
    }

    /// A table named `s` holding what the writes `entries` leave, in order.
    pub fn from_entries(s: &str, entries: Vec<(Vec<u8>, V)>) -> (r: Store<V>)
        ensures
            r@ == written(entries@),
            r.name() == s@,
    {
        Store { prefix: s.to_owned(), writes: entries }
    }

    /// The writes that made the table, in order: replaying them gives it back.
    pub fn into_entries(self) -> (r: Vec<(Vec<u8>, V)>)
        ensures
            written(r@) == self@,
    {
        self.writes
    }

    /// Stores `val` under `key`, replacing what was there.
    pub fn insert(&mut self, key: &[u8], val: V)
        ensures
            final(self)@ == old(self)@.insert(key@, val),
            final(self).name() == old(self).name(),
    {
        let k = copy_bytes(key);
        self.writes.push((k, val));
        proof {
            assert(self.writes@.drop_last() =~= old(self).writes@);
        }
    }
}

/// The contract's single values, each unset until first written.
pub struct Globals {
    pub(crate) chain_id: Option<u64>,
    pub(crate) owner: Option<Address>,
    pub(crate) pairs_count: Option<u64>,
}

impl Globals {
    /// No value written yet.
    pub(crate) fn new() -> (r: Globals)
        ensures
            r.chain_id is None,
            r.owner is None,
            r.pairs_count is None,
    {
        Globals { chain_id: None, owner: None, pairs_count: None }
    }
}

} // verus!
