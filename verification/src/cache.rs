//! A small cache whose entries expire after a time to live and are invalidated when the
//! fingerprint they were stored with no longer matches.
use vstd::prelude::*;
use crate::text::str_eq;

verus! {

/// One cached value, keyed by a string.
pub struct CacheEntry<V> {
    pub key: String,
    pub value: V,
    /// The time (in milliseconds on the caller's clock) from which the entry is stale.
    pub expires_at: u64,
    /// What the value was computed from, as modification times.
    pub fingerprint: Vec<Option<i128>>,
}

/// What the cache holds for a key: the value, its expiry and its fingerprint.
pub type Slot<V> = (V, u64, Seq<Option<i128>>);

/// The entries as a map; a later entry for a key replaces an earlier one.
pub open spec fn to_map<V>(s: Seq<CacheEntry<V>>) -> Map<Seq<char>, Slot<V>>
    decreases s.len(),
{
    if s.len() == 0 {
        Map::empty()
    } else {
        let e = s.last();
        to_map(s.drop_last()).insert(e.key@, (e.value, e.expires_at, e.fingerprint@))
    }
}

/// The entries whose key differs from `k`.
pub open spec fn without<V>(s: Seq<CacheEntry<V>>, k: Seq<char>) -> Seq<CacheEntry<V>>
    decreases s.len(),
{
    if s.len() == 0 {
        seq![]
    } else {
        let rest = without(s.drop_last(), k);
        if s.last().key@ == k {
            rest
        } else {
            rest.push(s.last())
        }
    }
}

proof fn lemma_without<V>(s: Seq<CacheEntry<V>>, k: Seq<char>)
    ensures
        to_map(without(s, k)) =~= to_map(s).remove(k),
    decreases s.len(),
{
    if s.len() > 0 {
        lemma_without(s.drop_last(), k);
        let e = s.last();
        if e.key@ != k {
            let w = without(s.drop_last(), k);
            assert(w.push(e).drop_last() =~= w);
        }
    }
}

/// A cache from string keys to values with a time to live.
pub struct ExpiringCache<V> {
    entries: Vec<CacheEntry<V>>,
    ttl_ms: u64,
}

impl<V> ExpiringCache<V> {
    /// What the cache holds.
    pub closed spec fn view(&self) -> Map<Seq<char>, Slot<V>> {
        to_map(self.entries@)
    }

    /// How long a stored value stays fresh.
    pub closed spec fn ttl(&self) -> u64 {
        self.ttl_ms
    }

    /// An empty cache whose entries stay fresh for `ttl_ms` milliseconds.
    pub fn new(ttl_ms: u64) -> (r: Self)
        ensures
            r.view() == Map::<Seq<char>, Slot<V>>::empty(),
            r.ttl() == ttl_ms,
    {
        ExpiringCache { entries: Vec::new(), ttl_ms }
    }

    pub fn ttl_ms(&self) -> (r: u64)
        ensures
            r == self.ttl(),
    {
        self.ttl_ms
    }

    /// The value stored under `key`, while it is fresh at `now` and was stored with the same
    /// fingerprint.
    pub fn get(&self, key: &str, now: u64, fingerprint: &Vec<Option<i128>>) -> (r: Option<&V>)
        ensures
            match r {
                Some(v) => lookup(self.view(), key@, now, fingerprint@) == Some(*v),
                None => lookup(self.view(), key@, now, fingerprint@) is None,
            },
    {
        let mut i = self.entries.len();
        assert(self.entries@.take(i as int) =~= self.entries@);
        while i > 0
            invariant
                i <= self.entries@.len(),
                to_map(self.entries@).contains_key(key@) == to_map(self.entries@.take(i as int)).contains_key(key@),
                to_map(self.entries@).contains_key(key@) ==> to_map(self.entries@)[key@] == to_map(
                    self.entries@.take(i as int),
                )[key@],
            decreases i,
        {
            assert(self.entries@.take(i as int).drop_last() =~= self.entries@.take(i - 1));
            let e = &self.entries[i - 1];
            if str_eq(e.key.as_str(), key) {
                if now < e.expires_at && same_fingerprint(&e.fingerprint, fingerprint) {
                    return Some(&e.value);
                }
                return None;
            }
            i = i - 1;
        }
        None
    }

    /// Stores `value` under `key`, fresh until `now + ttl`, with the given fingerprint.
    pub fn insert(&mut self, key: String, value: V, now: u64, fingerprint: Vec<Option<i128>>)
        requires
            now + old(self).ttl() <= u64::MAX,
        ensures
            final(self).view() == old(self).view().insert(
                key@,
                (value, (now + old(self).ttl()) as u64, fingerprint@),
            ),
            final(self).ttl() == old(self).ttl(),
    {
        let ghost all = self.entries@;
        let k = key.as_str();
        let mut i: usize = 0;
        let ghost mut j: int = 0;
        assert(self.entries@ =~= without(all.take(0), key@) + all.skip(0));
        while i < self.entries.len()
            invariant
                0 <= j <= all.len(),
                k@ == key@,
                i == without(all.take(j), key@).len(),
                self.entries@ =~= without(all.take(j), key@) + all.skip(j),
                self.ttl_ms == old(self).ttl_ms,
            decreases self.entries.len() - i,
        {
            assert(all.take(j + 1).drop_last() =~= all.take(j));
            assert(self.entries@[i as int] == all[j]);
            let ghost w = without(all.take(j), key@);
            assert(all.take(j + 1).last() == all[j]);
            assert(k@ == key@);
            if str_eq(self.entries[i].key.as_str(), k) {
                self.entries.remove(i);
                assert(without(all.take(j + 1), key@) == w);
                assert(self.entries@ =~= w + all.skip(j + 1));
            } else {
                i = i + 1;
                assert(without(all.take(j + 1), key@) == w.push(all[j]));
                assert(self.entries@ =~= w.push(all[j]) + all.skip(j + 1));
            }
            proof {
                j = j + 1;
            }
            assert(self.entries@ =~= without(all.take(j), key@) + all.skip(j));
        }
        assert(all.take(j) =~= all);
        proof {
            lemma_without(all, key@);
        }
        let expires_at = now + self.ttl_ms;
        let e = CacheEntry { key, value, expires_at, fingerprint };
        let ghost kept_before = self.entries@;
        let ghost slot = (e.value, e.expires_at, e.fingerprint@);
        let ghost ek = e.key@;
        self.entries.push(e);
        assert(self.entries@.drop_last() =~= kept_before);
        assert(to_map(self.entries@) =~= to_map(all).remove(ek).insert(ek, slot));
        assert(to_map(all).remove(ek).insert(ek, slot) =~= to_map(all).insert(ek, slot));
    }
}

fn same_fingerprint(a: &Vec<Option<i128>>, b: &Vec<Option<i128>>) -> (r: bool)
    ensures
        r == (a@ == b@),
{
    if a.len() != b.len() {
        return false;
    }
    let mut i: usize = 0;
    while i < a.len()
        invariant
            a@.len() == b@.len(),
            i <= a@.len(),
            forall|j: int| 0 <= j < i ==> a@[j] == b@[j],
        decreases a.len() - i,
    {
        let same = match (a[i], b[i]) {
            (Some(x), Some(y)) => x == y,
            (None, None) => true,
            _ => false,
        };
        if !same {
            return false;
        }
        i = i + 1;
    }
    assert(a@ =~= b@);
    true
}

/// What a lookup finds: the value, while it is fresh at `now` and stored with the same
/// fingerprint.
pub open spec fn lookup<V>(m: Map<Seq<char>, Slot<V>>, key: Seq<char>, now: u64, fp: Seq<Option<i128>>) -> Option<V> {
    if m.contains_key(key) && now < m[key].1 && m[key].2 == fp {
        Some(m[key].0)
    } else {
        None
    }
}

/// The cache after `v`, computed when the clock read `t`, is stored under `key`: fresh for
/// `ttl` from then, unless that time is past the clock's range, when nothing is stored.
pub open spec fn stored<V>(m: Map<Seq<char>, Slot<V>>, key: Seq<char>, v: V, t: u64, ttl: u64, fp: Seq<Option<i128>>) -> Map<Seq<char>, Slot<V>> {
    if t + ttl <= u64::MAX {
        m.insert(key, (v, (t + ttl) as u64, fp))
    } else {
        m
    }
}

/// A value stored at `now` is read back, under the fingerprint it was stored with, until its
/// time to live has passed; after that, or under another fingerprint, nothing is read; and
/// storing under one key leaves what the other keys read unchanged.
pub proof fn lemma_read_after_write<V>(
    m: Map<Seq<char>, Slot<V>>,
    key: Seq<char>,
    value: V,
    now: u64,
    ttl: u64,
    fp: Seq<Option<i128>>,
    later: u64,
    other_fp: Seq<Option<i128>>,
    other_key: Seq<char>,
)
    requires
        now + ttl <= u64::MAX,
    ensures
        now <= later < now + ttl ==> lookup(m.insert(key, (value, (now + ttl) as u64, fp)), key, later, fp) == Some(value),
        later >= now + ttl ==> lookup(m.insert(key, (value, (now + ttl) as u64, fp)), key, later, fp) is None,
        other_fp != fp ==> lookup(m.insert(key, (value, (now + ttl) as u64, fp)), key, later, other_fp) is None,
        other_key != key ==> lookup(m.insert(key, (value, (now + ttl) as u64, fp)), other_key, later, other_fp)
            == lookup(m, other_key, later, other_fp),
{
}

} // verus!
