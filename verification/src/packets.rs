//! The packets that wait to be played, ordered by extended sequence number.

use std::collections::BTreeMap;
use vstd::prelude::*;
use vstd::set_lib::*;

verus! {

broadcast use {
    vstd::std_specs::btree::group_btree_axioms,
    vstd::map_lib::group_map_properties,
};

/// `k` is the smallest key of `m`.
pub open spec fn is_first_key(m: Map<u64, Seq<u8>>, k: u64) -> bool {
    &&& m.contains_key(k)
    &&& forall|j: u64| #[trigger] m.contains_key(j) ==> k <= j
}

/// `k` is the largest key of `m`.
pub open spec fn is_last_key(m: Map<u64, Seq<u8>>, k: u64) -> bool {
    &&& m.contains_key(k)
    &&& forall|j: u64| #[trigger] m.contains_key(j) ==> j <= k
}

/// The smallest key of a finite map that is not empty.
pub open spec fn first_key(m: Map<u64, Seq<u8>>) -> u64 {
    choose|k: u64| is_first_key(m, k)
}

/// The largest key of a finite map that is not empty.
pub open spec fn last_key(m: Map<u64, Seq<u8>>) -> u64 {
    choose|k: u64| is_last_key(m, k)
}

/// The entries of `m` whose key is at least `to`.
pub open spec fn from_key(m: Map<u64, Seq<u8>>, to: u64) -> Map<u64, Seq<u8>> {
    m.restrict(Set::new(|k: u64| to <= k))
}

/// How many keys of `m` are smaller than `to`.
pub open spec fn count_below(m: Map<u64, Seq<u8>>, to: u64) -> nat {
    m.dom().filter(|k: u64| k < to).len()
}

/// A finite map that is not empty has a smallest and a largest key.
pub proof fn lemma_extreme_keys(m: Map<u64, Seq<u8>>)
    requires
        m.dom().finite(),
        !m.is_empty(),
    ensures
        is_first_key(m, first_key(m)),
        is_last_key(m, last_key(m)),
        first_key(m) <= last_key(m),
{
    let le = |a: u64, b: u64| a <= b;
    let lo = m.dom().find_unique_minimal(le);
    let hi = m.dom().find_unique_maximal(le);
    assert(m.dom().len() > 0) by {
        if m.dom().len() == 0 {
            m.dom().lemma_len0_is_empty();
            assert(m =~= Map::empty());
        }
    }
    m.dom().find_unique_minimal_ensures(le);
    m.dom().find_unique_maximal_ensures(le);
    assert(is_first_key(m, lo)) by {
        assert forall|j: u64| #[trigger] m.contains_key(j) implies lo <= j by {
            assert(m.dom().contains(j) && le(j, lo) ==> le(lo, j));
        }
    }
    assert(is_last_key(m, hi)) by {
        assert forall|j: u64| #[trigger] m.contains_key(j) implies j <= hi by {
            assert(m.dom().contains(j) && le(hi, j) ==> le(j, hi));
        }
    }
}

/// Keys from `ns` on that lie below `to` are at most `to - ns` many.
pub proof fn lemma_count_below_bound(m: Map<u64, Seq<u8>>, ns: u64, to: u64)
    requires
        m.dom().finite(),
        ns <= to,
        forall|k: u64| #[trigger] m.contains_key(k) ==> ns <= k,
    ensures
        count_below(m, to) <= to - ns,
{
    let below = m.dom().filter(|k: u64| k < to);
    range_set_properties(ns, to);
    assert(below.subset_of(Set::range(ns, to)));
    lemma_len_subset(below, Set::range(ns, to));
}

/// The keys below `to` and those from `to` on make up the whole map.
pub proof fn lemma_count_split(m: Map<u64, Seq<u8>>, to: u64)
    requires
        m.dom().finite(),
    ensures
        m.dom().len() == count_below(m, to) + from_key(m, to).dom().len(),
        from_key(m, to).dom().finite(),
{
    let below = m.dom().filter(|k: u64| k < to);
    let rest = from_key(m, to).dom();
    assert(rest =~= m.dom().intersect(Set::new(|k: u64| to <= k)));
    assert(below + rest =~= m.dom());
    assert(below.disjoint(rest));
    lemma_set_disjoint_lens(below, rest);
}

/// Calls `BTreeMap::first_key_value` and keeps the key: the smallest key of the map, or `None`
/// where the map is empty.
#[verifier::external_body]
fn map_first_key(m: &BTreeMap<u64, Vec<u8>>) -> (r: Option<u64>)
    ensures
        match r {
            Some(k) => m@.contains_key(k) && forall|j: u64| #[trigger] m@.contains_key(j) ==> k <= j,
            None => m@.is_empty(),
        },
{
    m.first_key_value().map(|entry| *entry.0)
}

/// Calls `BTreeMap::last_key_value` and keeps the key: the largest key of the map, or `None`
/// where the map is empty.
#[verifier::external_body]
fn map_last_key(m: &BTreeMap<u64, Vec<u8>>) -> (r: Option<u64>)
    ensures
        match r {
            Some(k) => m@.contains_key(k) && forall|j: u64| #[trigger] m@.contains_key(j) ==> j <= k,
            None => m@.is_empty(),
        },
{
    m.last_key_value().map(|entry| *entry.0)
}

/// Calls `BTreeMap::split_off`: the entries with a key of at least `to` move to the result, the
/// others stay.
#[verifier::external_body]
fn map_split_off(m: &mut BTreeMap<u64, Vec<u8>>, to: u64) -> (r: BTreeMap<u64, Vec<u8>>)
    ensures
        r@ == old(m)@.restrict(Set::new(|k: u64| to <= k)),
        final(m)@ == old(m)@.restrict(Set::new(|k: u64| k < to)),
{
    m.split_off(&to)
}

/// Payloads by extended sequence number.
pub struct PacketStore {
    map: BTreeMap<u64, Vec<u8>>,
}

impl View for PacketStore {
    type V = Map<u64, Seq<u8>>;

    closed spec fn view(&self) -> Map<u64, Seq<u8>> {
        self.map@.map_values(|p: Vec<u8>| p@)
    }
}

impl PacketStore {
    /// A store without packets.
    pub fn new() -> (r: Self)
        ensures
            r@ == Map::<u64, Seq<u8>>::empty(),
            r@.dom().finite(),
    {
        let r = PacketStore { map: BTreeMap::new() };
        assert(r@ =~= Map::<u64, Seq<u8>>::empty());
        r
    }

    /// The store holds finitely many packets.
    pub proof fn lemma_finite(&self)
        ensures
            self@.dom().finite(),
    {
        assert(self@.dom() =~= self.map@.dom());
    }

    /// How many packets wait.
    pub fn len(&self) -> (n: usize)
        ensures
            n == self@.dom().len(),
    {
        assert(self@.dom() =~= self.map@.dom());
        self.map.len()
    }

    /// Whether no packet waits.
    pub fn is_empty(&self) -> (b: bool)
        ensures
            b == self@.is_empty(),
    {
        proof {
            assert(self@.dom() =~= self.map@.dom());
            if self.map@.is_empty() {
                assert(self@ =~= Map::<u64, Seq<u8>>::empty());
            } else {
                assert(!(self.map@ =~= Map::<u64, Vec<u8>>::empty()));
            }
        }
        self.map.is_empty()
    }

    /// Stores a payload; one that was there under the same number is replaced.
    pub fn insert(&mut self, k: u64, payload: Vec<u8>)
        ensures
            final(self)@ == old(self)@.insert(k, payload@),
    {
        self.map.insert(k, payload);
        assert(self@ =~= old(self)@.insert(k, payload@));
    }

    /// Takes the payload with the number `k` out.
    pub fn take(&mut self, k: u64) -> (r: Option<Vec<u8>>)
        ensures
            match r {
                Some(p) => old(self)@.contains_key(k) && p@ == old(self)@[k] && final(self)@
                    == old(self)@.remove(k),
                None => !old(self)@.contains_key(k) && final(self)@ == old(self)@,
            },
    {
        let r = self.map.remove(&k);
        proof {
            if r is Some {
                assert(self@ =~= old(self)@.remove(k));
            } else {
                assert(self@ =~= old(self)@);
            }
        }
        r
    }

    /// A copy of the payload with the number `k`.
    pub fn copy_of(&self, k: u64) -> (r: Option<Vec<u8>>)
        ensures
            match r {
                Some(p) => self@.contains_key(k) && p@ == self@[k],
                None => !self@.contains_key(k),
            },
    {
        match self.map.get(&k) {
            Some(p) => {
                let c = p.clone();
                assert(c@ =~= p@);
                Some(c)
            },
            None => None,
        }
    }

    /// The smallest number.
    pub fn first(&self) -> (r: Option<u64>)
        ensures
            match r {
                Some(k) => is_first_key(self@, k) && k == first_key(self@) && !self@.is_empty(),
                None => self@.is_empty(),
            },
    {
        let r = map_first_key(&self.map);
        proof {
            assert(self@.dom() =~= self.map@.dom());
            match r {
                Some(k) => {
                    assert forall|j: u64| #[trigger] self@.contains_key(j) implies k <= j by {
                        assert(self.map@.contains_key(j));
                    }
                    assert(is_first_key(self@, k));
                },
                None => {
                    assert(self@ =~= Map::<u64, Seq<u8>>::empty());
                },
            }
        }
        r
    }

    /// The largest number.
    pub fn last(&self) -> (r: Option<u64>)
        ensures
            match r {
                Some(k) => is_last_key(self@, k) && k == last_key(self@) && !self@.is_empty(),
                None => self@.is_empty(),
            },
    {
        let r = map_last_key(&self.map);
        proof {
            assert(self@.dom() =~= self.map@.dom());
            match r {
                Some(k) => {
                    assert forall|j: u64| #[trigger] self@.contains_key(j) implies j <= k by {
                        assert(self.map@.contains_key(j));
                    }
                    assert(is_last_key(self@, k));
                },
                None => {
                    assert(self@ =~= Map::<u64, Seq<u8>>::empty());
                },
            }
        }
        r
    }

    /// Drops every packet with a number smaller than `to` and counts them.
    pub fn drop_below(&mut self, to: u64) -> (n: usize)
        ensures
            final(self)@ == from_key(old(self)@, to),
            n == count_below(old(self)@, to),
    {
        proof {
            self.lemma_finite();
            lemma_count_split(self@, to);
        }
        let before: usize = self.len();
        let kept = map_split_off(&mut self.map, to);
        self.map = kept;
        assert(self@ =~= from_key(old(self)@, to));
        let after: usize = self.len();
        before - after
    }
}

} // verus!
