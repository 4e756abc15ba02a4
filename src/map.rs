//! The map itself: typed operations on entries keyed by a tuple of components.
use vstd::prelude::*;
use crate::bytes::{extend_bytes, is_prefix, lex_lt};
use crate::codec::{decode_uint, encode_uint, le_bytes, le_value};
use crate::hashing::Hasher;
use crate::keys::{all_reversible, comps_view, decode_spec, key_suffix, prefix_hash, prefix_hash_spec, KeySchema, KeySlot};
use crate::store::{entries_view, is_listing, is_next_key, is_under, keys_under, lex_le, no_key_after, PrefixIterator, RawStore};

verus! {

/// The bytes stored for the value `v`.
pub open spec fn encoded_value(v: u64) -> Seq<u8> {
    le_bytes(v as nat, 8)
}

/// The value that stored bytes hold: `None` when they are too short to be one.
pub open spec fn value_of(b: Seq<u8>) -> Option<u64> {
    if b.len() >= 8 {
        Some(le_value(b.subrange(0, 8)) as u64)
    } else {
        None
    }
}

/// The value stored under `k`, if there is one that decodes.
pub open spec fn stored(m: Map<Seq<u8>, Seq<u8>>, k: Seq<u8>) -> Option<u64> {
    if m.contains_key(k) {
        value_of(m[k])
    } else {
        None
    }
}

/// `m` with `v` written under `k`, or with `k` removed when `v` is `None`.
pub open spec fn with_value(m: Map<Seq<u8>, Seq<u8>>, k: Seq<u8>, v: Option<u64>) -> Map<Seq<u8>, Seq<u8>> {
    match v {
        Some(x) => m.insert(k, encoded_value(x)),
        None => m.remove(k),
    }
}

/// The bytes stored for `v`.
pub fn encode_value(v: u64) -> (r: Vec<u8>)
    ensures
        r@ == encoded_value(v),
{
    encode_uint(v, 8)
}

/// The value held by the stored bytes `b`.
pub fn decode_value(b: &[u8]) -> (r: Option<u64>)
    ensures
        r == value_of(b@),
{
    let r = decode_uint(b, 8);
    proof {
        if b@.len() >= 8 {
            crate::codec::lemma_le_value_bound(b@.subrange(0, 8));
            reveal(vstd::arithmetic::power::pow);
            reveal_with_fuel(vstd::arithmetic::power::pow, 9);
        }
    }
    r
}

/// What iteration yields for one stored entry whose key has `plen` bytes of prefix
/// before the components of `slots`: the components and the value, when both decode.
pub open spec fn decode_entry(slots: Seq<KeySlot>, plen: int, e: (Seq<u8>, Seq<u8>)) -> Option<(Seq<Seq<u8>>, u64)> {
    match decode_spec(slots, e.0.subrange(plen, e.0.len() as int)) {
        Some((cs, _)) => match value_of(e.1) {
            Some(v) => Some((cs, v)),
            None => None,
        },
        None => None,
    }
}

/// What iteration yields for the entries `es`, in order, leaving out those that do
/// not decode.
pub open spec fn decode_entries(slots: Seq<KeySlot>, plen: int, es: Seq<(Seq<u8>, Seq<u8>)>) -> Seq<(Seq<Seq<u8>>, u64)>
    decreases es.len(),
{
    if es.len() == 0 {
        Seq::empty()
    } else {
        let front = decode_entries(slots, plen, es.drop_last());
        match decode_entry(slots, plen, es.last()) {
            Some(x) => front.push(x),
            None => front,
        }
    }
}

/// The values of the entries `es` that decode, in order.
pub open spec fn decode_values(es: Seq<(Seq<u8>, Seq<u8>)>) -> Seq<u64>
    decreases es.len(),
{
    if es.len() == 0 {
        Seq::empty()
    } else {
        let front = decode_values(es.drop_last());
        match value_of(es.last().1) {
            Some(v) => front.push(v),
            None => front,
        }
    }
}

/// The bytes of each yielded item.
pub open spec fn items_view(items: Seq<(Vec<Vec<u8>>, u64)>) -> Seq<(Seq<Seq<u8>>, u64)> {
    items.map_values(|e: (Vec<Vec<u8>>, u64)| (comps_view(e.0@), e.1))
}

/// The keys of the first `n` entries of `es`.
pub open spec fn first_keys(es: Seq<(Seq<u8>, Seq<u8>)>, n: int) -> Set<Seq<u8>> {
    Set::new(|k: Seq<u8>| exists|i: int| 0 <= i < n && (#[trigger] es[i]).0 == k)
}

/// How many keys of `m` start with `p`, given the listing `es` of those strictly under it.
pub open spec fn prefix_count(m: Map<Seq<u8>, Seq<u8>>, p: Seq<u8>, es: Seq<(Seq<u8>, Seq<u8>)>) -> int {
    es.len() + if m.contains_key(p) { 1int } else { 0int }
}

/// How many of `total` keys a removal bounded by `limit` takes.
pub open spec fn removal_count(limit: Option<u32>, total: int) -> int {
    match limit {
        Some(l) => if l < total { l as int } else { total },
        None => total,
    }
}

/// The first `n` keys of `m` that start with `p`, in store order: `p` itself when it
/// is held (it comes first), then those of the listing `es`.
pub open spec fn removed_keys(m: Map<Seq<u8>, Seq<u8>>, p: Seq<u8>, es: Seq<(Seq<u8>, Seq<u8>)>, n: int) -> Set<Seq<u8>> {
    if m.contains_key(p) && n > 0 {
        first_keys(es, n - 1).insert(p)
    } else {
        first_keys(es, n)
    }
}

proof fn lemma_removed_keys(m: Map<Seq<u8>, Seq<u8>>, p: Seq<u8>, es: Seq<(Seq<u8>, Seq<u8>)>, n: int)
    requires
        is_listing(m, p, es),
        0 <= n <= prefix_count(m, p, es),
    ensures
        forall|k: Seq<u8>| #[trigger] removed_keys(m, p, es, n).contains(k) ==> is_prefix(p, k),
        n == prefix_count(m, p, es) <==> forall|k: Seq<u8>| is_prefix(p, k)
            ==> !#[trigger] m.remove_keys(removed_keys(m, p, es, n)).contains_key(k),
{
    let gone = removed_keys(m, p, es, n);
    let f = m.remove_keys(gone);
    assert forall|k: Seq<u8>| #[trigger] gone.contains(k) implies is_prefix(p, k) by {
        if k == p {
            assert(p.subrange(0, p.len() as int) =~= p);
        } else {
            let c = if m.contains_key(p) && n > 0 { n - 1 } else { n };
            let j = choose|j: int| 0 <= j < c && (#[trigger] es[j]).0 == k;
        }
    }
    if n == prefix_count(m, p, es) {
        assert forall|k: Seq<u8>| is_prefix(p, k) implies !#[trigger] f.contains_key(k) by {
            if m.contains_key(k) {
                if k == p {
                } else {
                    if k.len() == p.len() {
                        assert(k =~= k.subrange(0, p.len() as int));
                    }
                    assert(is_under(p, k));
                    let j = choose|j: int| 0 <= j < es.len() && (#[trigger] es[j]).0 == k;
                    assert(gone.contains(k));
                }
            }
        }
    } else {
        if m.contains_key(p) && n == 0 {
            assert(p.subrange(0, p.len() as int) =~= p);
            assert(f.contains_key(p));
        } else {
            let c = if m.contains_key(p) { n - 1 } else { n };
            let k = es[c].0;
            assert(is_under(p, k));
            assert(k != p) by {
                crate::bytes::lemma_prefix_lt(p, k);
                crate::bytes::lemma_lex_irreflexive(p);
            }
            assert(!first_keys(es, c).contains(k)) by {
                if first_keys(es, c).contains(k) {
                    let j = choose|j: int| 0 <= j < c && (#[trigger] es[j]).0 == k;
                    assert(crate::bytes::lex_lt(es[j].0, es[c].0));
                    crate::bytes::lemma_lex_irreflexive(k);
                }
            }
            assert(f.contains_key(k));
        }
    }
}

/// After `translate`, the entry under `k` (held before, as `m0[k]`) is as `f` decided:
/// untouched when it does not decode, else rewritten or removed by what `f` gave
/// for its components and value.
pub open spec fn translated_entry<F: Fn(Vec<Vec<u8>>, u64) -> Option<u64>>(
    f: F,
    slots: Seq<KeySlot>,
    plen: int,
    m0: Map<Seq<u8>, Seq<u8>>,
    m1: Map<Seq<u8>, Seq<u8>>,
    k: Seq<u8>,
) -> bool {
    match decode_entry(slots, plen, (k, m0[k])) {
        None => m1.contains_key(k) && m1[k] == m0[k],
        Some((cs, v)) => exists|c: Vec<Vec<u8>>, out: Option<u64>|
            comps_view(c@) == cs && #[trigger] f.ensures((c, v), out) && match out {
                Some(x) => m1.contains_key(k) && m1[k] == encoded_value(x),
                None => !m1.contains_key(k),
            },
    }
}

/// `m` with the bytes under `x` and `y` exchanged; a missing side removes the other.
pub open spec fn swapped(m: Map<Seq<u8>, Seq<u8>>, x: Seq<u8>, y: Seq<u8>) -> Map<Seq<u8>, Seq<u8>> {
    let mid = if m.contains_key(y) { m.insert(x, m[y]) } else { m.remove(x) };
    if m.contains_key(x) { mid.insert(y, m[x]) } else { mid.remove(y) }
}

/// The value found under `old_key` of `m`, and `m` with `old_key` removed and that
/// value, when there is one, written under `new_key`.
pub open spec fn migrated(m: Map<Seq<u8>, Seq<u8>>, old_key: Seq<u8>, new_key: Seq<u8>) -> (Option<u64>, Map<Seq<u8>, Seq<u8>>) {
    let v = stored(m, old_key);
    match v {
        Some(x) => (v, m.remove(old_key).insert(new_key, encoded_value(x))),
        None => (v, m.remove(old_key)),
    }
}

/// How a map presents a missing value to its callers.
#[derive(Clone, Copy, Debug, PartialEq, Eq, Structural)]
pub enum QueryKind {
    /// A missing value is `None`.
    OptionQuery,
    /// A missing value reads as the given default.
    ValueQuery(u64),
}

/// Why `try_get` found no value.
#[derive(Clone, Copy, Debug, PartialEq, Eq, Structural)]
pub enum GetError {
    /// Nothing is stored under the key.
    NotFound,
    /// The stored bytes do not decode to a value.
    Corrupt,
}

/// How much of a prefix `remove_prefix` removed.
#[derive(Clone, Copy, Debug, PartialEq, Eq, Structural)]
pub enum KillOutcome {
    /// Every entry under the prefix is gone; this many were removed.
    AllRemoved(u32),
    /// The limit was reached with entries left; this many were removed.
    SomeRemaining(u32),
}

/// A map whose entries live in a store under a namespace, keyed by a tuple of
/// encoded components.
#[derive(Debug)]
pub struct StorageNMap {
    pub module_prefix: Vec<u8>,
    pub storage_prefix: Vec<u8>,
    pub schema: KeySchema,
    pub query: QueryKind,
}

impl StorageNMap {
    /// The namespace prefix of every key of the map.
    pub open spec fn prefix_spec(&self) -> Seq<u8> {
        prefix_hash_spec(self.module_prefix@, self.storage_prefix@)
    }

    /// The store key of the (full or leading) components `comps`.
    pub open spec fn key_spec(&self, comps: Seq<Vec<u8>>) -> Seq<u8> {
        self.prefix_spec() + key_suffix(self.schema.hashers(), comps_view(comps))
    }

    /// What callers see for the stored value `v`.
    pub open spec fn to_query(&self, v: Option<u64>) -> Option<u64> {
        match self.query {
            QueryKind::OptionQuery => v,
            QueryKind::ValueQuery(d) => match v {
                Some(x) => Some(x),
                None => Some(d),
            },
        }
    }

    /// The value that a query of callers stands for.
    pub open spec fn to_optional(&self, q: Option<u64>) -> Option<u64> {
        q
    }

    pub fn from_optional_value_to_query(&self, v: Option<u64>) -> (r: Option<u64>)
        ensures
            r == self.to_query(v),
    {
        match self.query {
            QueryKind::OptionQuery => v,
            QueryKind::ValueQuery(d) => match v {
                Some(x) => Some(x),
                None => Some(d),
            },
        }
    }

    pub fn from_query_to_optional_value(&self, q: Option<u64>) -> (r: Option<u64>)
        ensures
            r == self.to_optional(q),
    {
        q
    }

    /// `twox_128(module_prefix) ++ twox_128(storage_prefix)`.
    pub fn prefix_hash(&self) -> (r: Vec<u8>)
        ensures
            r@ == self.prefix_spec(),
    {
        prefix_hash(self.module_prefix.as_slice(), self.storage_prefix.as_slice())
    }

    /// The store key shared by every entry whose leading components are `comps`.
    pub fn storage_n_map_partial_key(&self, comps: &Vec<Vec<u8>>) -> (r: Vec<u8>)
        requires
            comps@.len() < self.schema.slots@.len(),
        ensures
            r@ == self.key_spec(comps@),
    {
        let mut r = self.prefix_hash();
        let k = self.schema.partial_key(comps);
        extend_bytes(&mut r, k.as_slice());
        r
    }

    /// The store key of the entry with the components `comps`.
    pub fn storage_n_map_final_key(&self, comps: &Vec<Vec<u8>>) -> (r: Vec<u8>)
        requires
            comps@.len() == self.schema.slots@.len(),
        ensures
            r@ == self.key_spec(comps@),
    {
        let mut r = self.prefix_hash();
        let k = self.schema.partial_key(comps);
        extend_bytes(&mut r, k.as_slice());
        r
    }

    /// The store key of the entry with the components `comps`.
    pub fn hashed_key_for(&self, comps: &Vec<Vec<u8>>) -> (r: Vec<u8>)
        requires
            comps@.len() == self.schema.slots@.len(),
        ensures
            r@ == self.key_spec(comps@),
    {
        self.storage_n_map_final_key(comps)
    }

    /// Whether an entry is stored under the components `key`.
    pub fn contains_key(&self, store: &RawStore, key: &Vec<Vec<u8>>) -> (r: bool)
        requires
            store.wf(),
            key@.len() == self.schema.slots@.len(),
        ensures
            r == store@.contains_key(self.key_spec(key@)),
    {
        let k = self.storage_n_map_final_key(key);
        store.contains(k.as_slice())
    }

    fn read(&self, store: &RawStore, k: &[u8]) -> (r: Option<u64>)
        requires
            store.wf(),
        ensures
            r == stored(store@, k@),
    {
        match store.get(k) {
            Some(b) => decode_value(b.as_slice()),
            None => None,
        }
    }

    fn write(&self, store: &mut RawStore, k: &[u8], v: Option<u64>)
        requires
            old(store).wf(),
        ensures
            final(store).wf(),
            final(store)@ == with_value(old(store)@, k@, v),
    {
        match v {
            Some(x) => {
                let b = encode_value(x);
                store.put(k, b.as_slice());
            },
            None => store.clear(k),
        }
    }

    /// What callers see under the components `key`; bytes that do not decode read as
    /// a missing value.
    pub fn get(&self, store: &RawStore, key: &Vec<Vec<u8>>) -> (r: Option<u64>)
        requires
            store.wf(),
            key@.len() == self.schema.slots@.len(),
        ensures
            r == self.to_query(stored(store@, self.key_spec(key@))),
    {
        let k = self.storage_n_map_final_key(key);
        let v = self.read(store, k.as_slice());
        self.from_optional_value_to_query(v)
    }

    /// The value under the components `key`, telling a missing entry from one whose
    /// bytes do not decode.
    pub fn try_get(&self, store: &RawStore, key: &Vec<Vec<u8>>) -> (r: Result<u64, GetError>)
        requires
            store.wf(),
            key@.len() == self.schema.slots@.len(),
        ensures
            ({
                let k = self.key_spec(key@);
                match r {
                    Ok(v) => store@.contains_key(k) && value_of(store@[k]) == Some(v),
                    Err(GetError::NotFound) => !store@.contains_key(k),
                    Err(GetError::Corrupt) => store@.contains_key(k) && value_of(store@[k]) is None,
                }
            }),
    {
        let k = self.storage_n_map_final_key(key);
        match store.get(k.as_slice()) {
            Some(b) => match decode_value(b.as_slice()) {
                Some(v) => Ok(v),
                None => Err(GetError::Corrupt),
            },
            None => Err(GetError::NotFound),
        }
    }

    /// Removes the entry under the components `key` and gives what callers saw there.
    pub fn take(&self, store: &mut RawStore, key: &Vec<Vec<u8>>) -> (r: Option<u64>)
        requires
            old(store).wf(),
            key@.len() == self.schema.slots@.len(),
        ensures
            final(store).wf(),
            r == self.to_query(stored(old(store)@, self.key_spec(key@))),
            final(store)@ == old(store)@.remove(self.key_spec(key@)),
    {
        let k = self.storage_n_map_final_key(key);
        let v = self.read(store, k.as_slice());
        store.clear(k.as_slice());
        self.from_optional_value_to_query(v)
    }

    /// Stores `value` under the components `key`.
    pub fn insert(&self, store: &mut RawStore, key: &Vec<Vec<u8>>, value: u64)
        requires
            old(store).wf(),
            key@.len() == self.schema.slots@.len(),
        ensures
            final(store).wf(),
            final(store)@ == old(store)@.insert(self.key_spec(key@), encoded_value(value)),
    {
        let k = self.storage_n_map_final_key(key);
        self.write(store, k.as_slice(), Some(value));
    }

    /// Removes the entry under the components `key`, if any.
    pub fn remove(&self, store: &mut RawStore, key: &Vec<Vec<u8>>)
        requires
            old(store).wf(),
            key@.len() == self.schema.slots@.len(),
        ensures
            final(store).wf(),
            final(store)@ == old(store)@.remove(self.key_spec(key@)),
    {
        let k = self.storage_n_map_final_key(key);
        store.clear(k.as_slice());
    }

    /// Exchanges the stored bytes under `key1` of this map and `key2` of `other`; a
    /// missing side removes the other side's entry.
    pub fn swap(&self, other: &StorageNMap, store: &mut RawStore, key1: &Vec<Vec<u8>>, key2: &Vec<Vec<u8>>)
        requires
            old(store).wf(),
            key1@.len() == self.schema.slots@.len(),
            key2@.len() == other.schema.slots@.len(),
        ensures
            final(store).wf(),
            final(store)@ == swapped(old(store)@, self.key_spec(key1@), other.key_spec(key2@)),
    {
        let x = self.storage_n_map_final_key(key1);
        let y = other.storage_n_map_final_key(key2);
        let v1 = store.get(x.as_slice());
        match store.get(y.as_slice()) {
            Some(v) => store.put(x.as_slice(), v.as_slice()),
            None => store.clear(x.as_slice()),
        }
        match v1 {
            Some(v) => store.put(y.as_slice(), v.as_slice()),
            None => store.clear(y.as_slice()),
        }
    }

    fn decode_listing(&self, raw: &Vec<(Vec<u8>, Vec<u8>)>, plen: usize, first: usize) -> (r: Vec<(Vec<Vec<u8>>, u64)>)
        requires
            all_reversible(self.schema.slots@),
            first <= self.schema.slots@.len(),
            forall|i: int| 0 <= i < raw@.len() ==> plen <= (#[trigger] raw@[i]).0@.len(),
        ensures
            items_view(r@) == decode_entries(
                self.schema.slots@.subrange(first as int, self.schema.slots@.len() as int),
                plen as int,
                entries_view(raw@),
            ),
    {
        let ghost slots = self.schema.slots@.subrange(first as int, self.schema.slots@.len() as int);
        let ghost es = entries_view(raw@);
        let mut r: Vec<(Vec<Vec<u8>>, u64)> = Vec::new();
        let mut i: usize = 0;
        while i < raw.len()
            invariant
                all_reversible(self.schema.slots@),
                first <= self.schema.slots@.len(),
                slots == self.schema.slots@.subrange(first as int, self.schema.slots@.len() as int),
                es == entries_view(raw@),
                forall|j: int| 0 <= j < raw@.len() ==> plen <= (#[trigger] raw@[j]).0@.len(),
                0 <= i <= raw@.len(),
                items_view(r@) == decode_entries(slots, plen as int, es.subrange(0, i as int)),
            decreases raw@.len() - i,
        {
            proof {
                assert(es.subrange(0, i + 1).drop_last() =~= es.subrange(0, i as int));
                assert(es.subrange(0, i + 1).last() == es[i as int]);
                assert(plen <= raw@[i as int].0@.len());
            }
            let key = &raw[i].0;
            let tail = vstd::slice::slice_subrange(key.as_slice(), plen, key.len());
            let ghost before = items_view(r@);
            match self.schema.decode_partial_key(first, tail) {
                Ok(cs) => match decode_value(raw[i].1.as_slice()) {
                    Some(v) => {
                        r.push((cs, v));
                        assert(items_view(r@) =~= before.push((comps_view(cs@), v)));
                    },
                    None => {},
                },
                Err(_) => {},
            }
            i = i + 1;
        }
        assert(es.subrange(0, raw@.len() as int) =~= es);
        r
    }

    fn values_of_listing(&self, raw: &Vec<(Vec<u8>, Vec<u8>)>) -> (r: Vec<u64>)
        ensures
            r@ == decode_values(entries_view(raw@)),
    {
        let ghost es = entries_view(raw@);
        let mut r: Vec<u64> = Vec::new();
        let mut i: usize = 0;
        while i < raw.len()
            invariant
                es == entries_view(raw@),
                0 <= i <= raw@.len(),
                r@ == decode_values(es.subrange(0, i as int)),
            decreases raw@.len() - i,
        {
            proof {
                assert(es.subrange(0, i + 1).drop_last() =~= es.subrange(0, i as int));
                assert(es.subrange(0, i + 1).last() == es[i as int]);
            }
            match decode_value(raw[i].1.as_slice()) {
                Some(v) => r.push(v),
                None => {},
            }
            i = i + 1;
        }
        assert(es.subrange(0, raw@.len() as int) =~= es);
        r
    }

    /// Every entry of the map with its components and value, in store order. Entries
    /// whose key or value does not decode are passed over.
    pub fn iter(&self, store: &mut RawStore) -> (r: Vec<(Vec<Vec<u8>>, u64)>)
        requires
            old(store).wf(),
            all_reversible(self.schema.slots@),
        ensures
            final(store).wf(),
            final(store)@ == old(store)@,
            exists|es: Seq<(Seq<u8>, Seq<u8>)>| #[trigger] is_listing(old(store)@, self.prefix_spec(), es)
                && items_view(r@) == decode_entries(self.schema.slots@, 32, es),
    {
        let prefix = self.prefix_hash();
        let raw = store.scan_prefix(prefix.as_slice(), false);
        assert(self.schema.slots@.subrange(0, self.schema.slots@.len() as int) =~= self.schema.slots@);
        assert forall|i: int| 0 <= i < raw@.len() implies 32 <= (#[trigger] raw@[i]).0@.len() by {
            assert(entries_view(raw@)[i].0 == raw@[i].0@);
        }
        let r = self.decode_listing(&raw, prefix.len(), 0);
        assert(is_listing(old(store)@, self.prefix_spec(), entries_view(raw@)));
        r
    }

    /// As `iter`, removing every entry under the map's prefix, decoded or not.
    pub fn drain(&self, store: &mut RawStore) -> (r: Vec<(Vec<Vec<u8>>, u64)>)
        requires
            old(store).wf(),
            all_reversible(self.schema.slots@),
        ensures
            final(store).wf(),
            final(store)@ == old(store)@.remove_keys(keys_under(self.prefix_spec())),
            exists|es: Seq<(Seq<u8>, Seq<u8>)>| #[trigger] is_listing(old(store)@, self.prefix_spec(), es)
                && items_view(r@) == decode_entries(self.schema.slots@, 32, es),
    {
        let prefix = self.prefix_hash();
        let raw = store.scan_prefix(prefix.as_slice(), true);
        assert(self.schema.slots@.subrange(0, self.schema.slots@.len() as int) =~= self.schema.slots@);
        assert forall|i: int| 0 <= i < raw@.len() implies 32 <= (#[trigger] raw@[i]).0@.len() by {
            assert(entries_view(raw@)[i].0 == raw@[i].0@);
        }
        let r = self.decode_listing(&raw, prefix.len(), 0);
        assert(is_listing(old(store)@, self.prefix_spec(), entries_view(raw@)));
        r
    }

    /// The values of the map that decode, in store order.
    pub fn iter_values(&self, store: &mut RawStore) -> (r: Vec<u64>)
        requires
            old(store).wf(),
        ensures
            final(store).wf(),
            final(store)@ == old(store)@,
            exists|es: Seq<(Seq<u8>, Seq<u8>)>| #[trigger] is_listing(old(store)@, self.prefix_spec(), es)
                && r@ == decode_values(es),
    {
        let prefix = self.prefix_hash();
        let raw = store.scan_prefix(prefix.as_slice(), false);
        let r = self.values_of_listing(&raw);
        assert(is_listing(old(store)@, self.prefix_spec(), entries_view(raw@)));
        r
    }

    /// The remaining components and values of the entries whose leading components
    /// are `partial`, in store order.
    pub fn iter_prefix(&self, store: &mut RawStore, partial: &Vec<Vec<u8>>) -> (r: Vec<(Vec<Vec<u8>>, u64)>)
        requires
            old(store).wf(),
            all_reversible(self.schema.slots@),
            partial@.len() < self.schema.slots@.len(),
        ensures
            final(store).wf(),
            final(store)@ == old(store)@,
            exists|es: Seq<(Seq<u8>, Seq<u8>)>| #[trigger] is_listing(old(store)@, self.key_spec(partial@), es)
                && items_view(r@) == decode_entries(
                    self.schema.slots@.subrange(partial@.len() as int, self.schema.slots@.len() as int),
                    self.key_spec(partial@).len() as int,
                    es,
                ),
    {
        let prefix = self.storage_n_map_partial_key(partial);
        let raw = store.scan_prefix(prefix.as_slice(), false);
        assert forall|i: int| 0 <= i < raw@.len() implies prefix@.len() <= (#[trigger] raw@[i]).0@.len() by {
            assert(entries_view(raw@)[i].0 == raw@[i].0@);
        }
        let r = self.decode_listing(&raw, prefix.len(), partial.len());
        assert(is_listing(old(store)@, self.key_spec(partial@), entries_view(raw@)));
        r
    }

    /// As `iter_prefix`, removing every entry under the partial key, decoded or not.
    pub fn drain_prefix(&self, store: &mut RawStore, partial: &Vec<Vec<u8>>) -> (r: Vec<(Vec<Vec<u8>>, u64)>)
        requires
            old(store).wf(),
            all_reversible(self.schema.slots@),
            partial@.len() < self.schema.slots@.len(),
        ensures
            final(store).wf(),
            final(store)@ == old(store)@.remove_keys(keys_under(self.key_spec(partial@))),
            exists|es: Seq<(Seq<u8>, Seq<u8>)>| #[trigger] is_listing(old(store)@, self.key_spec(partial@), es)
                && items_view(r@) == decode_entries(
                    self.schema.slots@.subrange(partial@.len() as int, self.schema.slots@.len() as int),
                    self.key_spec(partial@).len() as int,
                    es,
                ),
    {
        let prefix = self.storage_n_map_partial_key(partial);
        let raw = store.scan_prefix(prefix.as_slice(), true);
        assert forall|i: int| 0 <= i < raw@.len() implies prefix@.len() <= (#[trigger] raw@[i]).0@.len() by {
            assert(entries_view(raw@)[i].0 == raw@[i].0@);
        }
        let r = self.decode_listing(&raw, prefix.len(), partial.len());
        assert(is_listing(old(store)@, self.key_spec(partial@), entries_view(raw@)));
        r
    }

    /// The values that decode of the entries whose leading components are `partial`,
    /// in store order. Works for any hashers.
    pub fn iter_prefix_values(&self, store: &mut RawStore, partial: &Vec<Vec<u8>>) -> (r: Vec<u64>)
        requires
            old(store).wf(),
            partial@.len() < self.schema.slots@.len(),
        ensures
            final(store).wf(),
            final(store)@ == old(store)@,
            exists|es: Seq<(Seq<u8>, Seq<u8>)>| #[trigger] is_listing(old(store)@, self.key_spec(partial@), es)
                && r@ == decode_values(es),
    {
        let prefix = self.storage_n_map_partial_key(partial);
        let raw = store.scan_prefix(prefix.as_slice(), false);
        let r = self.values_of_listing(&raw);
        assert(is_listing(old(store)@, self.key_spec(partial@), entries_view(raw@)));
        r
    }

    /// Removes the entries whose keys start with the partial key of `partial` (that
    /// key itself included), in store order, stopping after `limit` of them when one
    /// is given.
    pub fn remove_prefix(&self, store: &mut RawStore, partial: &Vec<Vec<u8>>, limit: Option<u32>) -> (r: KillOutcome)
        requires
            old(store).wf(),
            old(store).size() < u32::MAX,
            partial@.len() < self.schema.slots@.len(),
        ensures
            final(store).wf(),
            exists|es: Seq<(Seq<u8>, Seq<u8>)>| #[trigger] is_listing(old(store)@, self.key_spec(partial@), es) && ({
                let p = self.key_spec(partial@);
                let total = prefix_count(old(store)@, p, es);
                let n = removal_count(limit, total);
                &&& final(store)@ == old(store)@.remove_keys(removed_keys(old(store)@, p, es, n))
                &&& r == if n == total { KillOutcome::AllRemoved(n as u32) } else { KillOutcome::SomeRemaining(n as u32) }
            }),
            forall|k: Seq<u8>| !is_prefix(self.key_spec(partial@), k) ==> (#[trigger] final(store)@.contains_key(k)
                == old(store)@.contains_key(k) && (old(store)@.contains_key(k) ==> final(store)@[k] == old(store)@[k])),
            r is AllRemoved <==> forall|k: Seq<u8>| is_prefix(self.key_spec(partial@), k) ==> !#[trigger] final(store)@.contains_key(k),
            limit is None ==> r is AllRemoved,
    {
        let prefix = self.storage_n_map_partial_key(partial);
        let raw = store.scan_prefix(prefix.as_slice(), false);
        let ghost m0 = store@;
        let ghost es = entries_view(raw@);
        let ghost p = prefix@;
        let had = store.contains(prefix.as_slice());
        let total: usize = if had { raw.len() + 1 } else { raw.len() };
        let n: usize = match limit {
            Some(l) => if (l as usize) < total { l as usize } else { total },
            None => total,
        };
        let mut skip: usize = 0;
        if had && n > 0 {
            store.clear(prefix.as_slice());
            skip = 1;
        }
        let ghost base = store@;
        let mut i: usize = 0;
        proof {
            assert(base =~= base.remove_keys(first_keys(es, 0)));
        }
        while i < n - skip
            invariant
                store.wf(),
                skip <= n,
                n - skip <= raw@.len(),
                es == entries_view(raw@),
                0 <= i <= n - skip,
                store@ == base.remove_keys(first_keys(es, i as int)),
            decreases n - skip - i,
        {
            store.clear(raw[i].0.as_slice());
            proof {
                assert(es[i as int].0 == raw@[i as int].0@);
                assert(store@ =~= base.remove_keys(first_keys(es, i + 1))) by {
                    assert forall|k: Seq<u8>| first_keys(es, i + 1).contains(k)
                        <==> (first_keys(es, i as int).contains(k) || k == es[i as int].0) by {
                        if first_keys(es, i + 1).contains(k) {
                            let j = choose|j: int| 0 <= j < i + 1 && (#[trigger] es[j]).0 == k;
                            if j < i {
                                assert(first_keys(es, i as int).contains(k));
                            }
                        }
                        if first_keys(es, i as int).contains(k) {
                            let j = choose|j: int| 0 <= j < i && (#[trigger] es[j]).0 == k;
                            assert(first_keys(es, i + 1).contains(k));
                        }
                    }
                }
            }
            i = i + 1;
        }
        proof {
            let gone = removed_keys(m0, p, es, n as int);
            assert(is_listing(m0, p, es));
            assert(prefix_count(m0, p, es) == total);
            assert(store@ =~= m0.remove_keys(gone));
            lemma_removed_keys(m0, p, es, n as int);
        }
        if n == total {
            KillOutcome::AllRemoved(n as u32)
        } else {
            KillOutcome::SomeRemaining(n as u32)
        }
    }

    /// Reads the value under the components `key`, hands it to `f`, and writes back
    /// the value that `f` gives (removing the entry for `None`), unless `f` fails:
    /// then nothing is written.
    pub fn try_mutate_exists<R, E, F: FnOnce(Option<u64>) -> Result<(Option<u64>, R), E>>(
        &self,
        store: &mut RawStore,
        key: &Vec<Vec<u8>>,
        f: F,
    ) -> (r: Result<R, E>)
        requires
            old(store).wf(),
            key@.len() == self.schema.slots@.len(),
            f.requires((stored(old(store)@, self.key_spec(key@)),)),
        ensures
            final(store).wf(),
            exists|out: Result<(Option<u64>, R), E>|
                #[trigger] f.ensures((stored(old(store)@, self.key_spec(key@)),), out) && match out {
                    Ok((v, x)) => r == Ok::<R, E>(x) && final(store)@ == with_value(old(store)@, self.key_spec(key@), v),
                    Err(e) => r == Err::<R, E>(e) && final(store)@ == old(store)@,
                },
    {
        let k = self.storage_n_map_final_key(key);
        let v = self.read(store, k.as_slice());
        let out = f(v);
        match out {
            Ok((nv, x)) => {
                self.write(store, k.as_slice(), nv);
                Ok(x)
            },
            Err(e) => Err(e),
        }
    }

    /// As `try_mutate_exists`, for an `f` that cannot fail.
    pub fn mutate_exists<R, F: FnOnce(Option<u64>) -> (Option<u64>, R)>(
        &self,
        store: &mut RawStore,
        key: &Vec<Vec<u8>>,
        f: F,
    ) -> (r: R)
        requires
            old(store).wf(),
            key@.len() == self.schema.slots@.len(),
            f.requires((stored(old(store)@, self.key_spec(key@)),)),
        ensures
            final(store).wf(),
            exists|v: Option<u64>| #[trigger] f.ensures((stored(old(store)@, self.key_spec(key@)),), (v, r))
                && final(store)@ == with_value(old(store)@, self.key_spec(key@), v),
    {
        let k = self.storage_n_map_final_key(key);
        let v = self.read(store, k.as_slice());
        let (nv, x) = f(v);
        self.write(store, k.as_slice(), nv);
        x
    }

    /// As `try_mutate_exists`, with `f` seeing and giving the value as callers see it.
    pub fn try_mutate<R, E, F: FnOnce(Option<u64>) -> Result<(Option<u64>, R), E>>(
        &self,
        store: &mut RawStore,
        key: &Vec<Vec<u8>>,
        f: F,
    ) -> (r: Result<R, E>)
        requires
            old(store).wf(),
            key@.len() == self.schema.slots@.len(),
            f.requires((self.to_query(stored(old(store)@, self.key_spec(key@))),)),
        ensures
            final(store).wf(),
            exists|out: Result<(Option<u64>, R), E>|
                #[trigger] f.ensures((self.to_query(stored(old(store)@, self.key_spec(key@))),), out) && match out {
                    Ok((q, x)) => r == Ok::<R, E>(x)
                        && final(store)@ == with_value(old(store)@, self.key_spec(key@), self.to_optional(q)),
                    Err(e) => r == Err::<R, E>(e) && final(store)@ == old(store)@,
                },
    {
        let k = self.storage_n_map_final_key(key);
        let v = self.read(store, k.as_slice());
        let q = self.from_optional_value_to_query(v);
        let out = f(q);
        match out {
            Ok((nq, x)) => {
                let nv = self.from_query_to_optional_value(nq);
                self.write(store, k.as_slice(), nv);
                Ok(x)
            },
            Err(e) => Err(e),
        }
    }

    /// As `try_mutate`, for an `f` that cannot fail.
    pub fn mutate<R, F: FnOnce(Option<u64>) -> (Option<u64>, R)>(
        &self,
        store: &mut RawStore,
        key: &Vec<Vec<u8>>,
        f: F,
    ) -> (r: R)
        requires
            old(store).wf(),
            key@.len() == self.schema.slots@.len(),
            f.requires((self.to_query(stored(old(store)@, self.key_spec(key@))),)),
        ensures
            final(store).wf(),
            exists|q: Option<u64>| #[trigger] f.ensures((self.to_query(stored(old(store)@, self.key_spec(key@))),), (q, r))
                && final(store)@ == with_value(old(store)@, self.key_spec(key@), self.to_optional(q)),
    {
        let k = self.storage_n_map_final_key(key);
        let v = self.read(store, k.as_slice());
        let q = self.from_optional_value_to_query(v);
        let (nq, x) = f(q);
        let nv = self.from_query_to_optional_value(nq);
        self.write(store, k.as_slice(), nv);
        x
    }

    /// Rewrites every entry of the map in one pass: for each entry whose components
    /// and value decode, `f` gives the new value, or `None` to remove the entry.
    /// Entries that do not decode are left as they are.
    pub fn translate<F: Fn(Vec<Vec<u8>>, u64) -> Option<u64>>(&self, store: &mut RawStore, f: F)
        requires
            old(store).wf(),
            all_reversible(self.schema.slots@),
            forall|c: Vec<Vec<u8>>, v: u64| #[trigger] f.requires((c, v)),
        ensures
            final(store).wf(),
            forall|k: Seq<u8>| #[trigger] old(store)@.contains_key(k) && is_under(self.prefix_spec(), k)
                ==> translated_entry(f, self.schema.slots@, 32, old(store)@, final(store)@, k),
            forall|k: Seq<u8>| !(old(store)@.contains_key(k) && is_under(self.prefix_spec(), k))
                ==> (#[trigger] final(store)@.contains_key(k) == old(store)@.contains_key(k)
                    && (old(store)@.contains_key(k) ==> final(store)@[k] == old(store)@[k])),
    {
        let prefix = self.prefix_hash();
        let raw = store.scan_prefix(prefix.as_slice(), false);
        let ghost m0 = store@;
        let ghost es = entries_view(raw@);
        let ghost slots = self.schema.slots@;
        let mut i: usize = 0;
        proof {
            assert(slots.subrange(0, slots.len() as int) =~= slots);
        }
        while i < raw.len()
            invariant
                store.wf(),
                all_reversible(self.schema.slots@),
                slots == self.schema.slots@,
                slots.subrange(0, slots.len() as int) == slots,
                forall|c: Vec<Vec<u8>>, v: u64| #[trigger] f.requires((c, v)),
                es == entries_view(raw@),
                is_listing(m0, prefix@, es),
                prefix@ == self.prefix_spec(),
                0 <= i <= raw@.len(),
                forall|j: int| 0 <= j < i ==> translated_entry(f, slots, 32, m0, store@, (#[trigger] es[j]).0),
                forall|k: Seq<u8>| !(#[trigger] first_keys(es, i as int).contains(k))
                    ==> (store@.contains_key(k) == m0.contains_key(k) && (m0.contains_key(k) ==> store@[k] == m0[k])),
            decreases raw@.len() - i,
        {
            let ghost before = store@;
            let ghost k = es[i as int].0;
            proof {
                assert(es[i as int] == (raw@[i as int].0@, raw@[i as int].1@));
                assert(is_under(prefix@, k));
                assert(!first_keys(es, i as int).contains(k)) by {
                    if first_keys(es, i as int).contains(k) {
                        let j = choose|j: int| 0 <= j < i && (#[trigger] es[j]).0 == k;
                        crate::bytes::lemma_lex_irreflexive(k);
                    }
                }
                assert(m0[k] == es[i as int].1);
            }
            let key = &raw[i].0;
            let tail = vstd::slice::slice_subrange(key.as_slice(), prefix.len(), key.len());
            assert(tail@ == k.subrange(32, k.len() as int));
            match self.schema.decode_partial_key(0, tail) {
                Ok(cs) => match decode_value(raw[i].1.as_slice()) {
                    Some(v) => {
                        let ghost c = cs;
                        let out = f(cs, v);
                        self.write(store, key.as_slice(), out);
                        assert(translated_entry(f, slots, 32, m0, store@, k)) by {
                            assert(value_of(m0[k]) == Some(v));
                            assert(decode_spec(slots, k.subrange(32, k.len() as int)) matches Some((d, _)) && d == comps_view(c@));
                            assert(f.ensures((c, v), out));
                            let d = decode_entry(slots, 32, (k, m0[k]));
                            assert(d matches Some((cs2, v2)) && cs2 == comps_view(c@) && v2 == v);
                            assert(match d {
                                None => store@.contains_key(k) && store@[k] == m0[k],
                                Some((cs3, v3)) => exists|c3: Vec<Vec<u8>>, out3: Option<u64>|
                                    comps_view(c3@) == cs3 && #[trigger] f.ensures((c3, v3), out3) && match out3 {
                                        Some(x) => store@.contains_key(k) && store@[k] == encoded_value(x),
                                        None => !store@.contains_key(k),
                                    },
                            });
                        }
                    },
                    None => {},
                },
                Err(_) => {},
            }
            proof {
                // only the entry under `k` changed
                assert forall|k2: Seq<u8>| k2 != k implies store@.contains_key(k2) == before.contains_key(k2)
                    && (before.contains_key(k2) ==> store@[k2] == before[k2]) by {}
                assert forall|j: int| 0 <= j < i + 1 implies translated_entry(f, slots, 32, m0, store@, (#[trigger] es[j]).0) by {
                    if j < i {
                        assert(es[j].0 != k) by {
                            assert(crate::bytes::lex_lt(es[j].0, es[i as int].0));
                            crate::bytes::lemma_lex_irreflexive(k);
                        }
                        assert(translated_entry(f, slots, 32, m0, before, es[j].0));
                    }
                }
                assert forall|k2: Seq<u8>| !(#[trigger] first_keys(es, i + 1).contains(k2)) implies
                    (store@.contains_key(k2) == m0.contains_key(k2) && (m0.contains_key(k2) ==> store@[k2] == m0[k2])) by {
                    if first_keys(es, i as int).contains(k2) {
                        let j = choose|j: int| 0 <= j < i && (#[trigger] es[j]).0 == k2;
                        assert(first_keys(es, i + 1).contains(k2));
                    }
                    if k2 == k {
                        assert(first_keys(es, i + 1).contains(k2));
                    }
                }
            }
            i = i + 1;
        }
        proof {
            assert forall|k: Seq<u8>| #[trigger] m0.contains_key(k) && is_under(self.prefix_spec(), k)
                implies translated_entry(f, slots, 32, m0, store@, k) by {
                let j = choose|j: int| 0 <= j < es.len() && (#[trigger] es[j]).0 == k;
            }
            assert forall|k: Seq<u8>| !(m0.contains_key(k) && is_under(self.prefix_spec(), k))
                implies (#[trigger] store@.contains_key(k) == m0.contains_key(k)
                    && (m0.contains_key(k) ==> store@[k] == m0[k])) by {
                if first_keys(es, raw@.len() as int).contains(k) {
                    let j = choose|j: int| 0 <= j < raw@.len() && (#[trigger] es[j]).0 == k;
                }
            }
        }
    }

    /// Moves the value stored under the key that the hashers `hs` make of `key` to
    /// the map's own key for it, and gives it. The old entry is removed whether or
    /// not its bytes decode.
    pub fn migrate_keys(&self, store: &mut RawStore, key: &Vec<Vec<u8>>, hs: &Vec<Hasher>) -> (r: Option<u64>)
        requires
            old(store).wf(),
            key@.len() == self.schema.slots@.len(),
            key@.len() <= hs@.len(),
        ensures
            final(store).wf(),
            (r, final(store)@) == migrated(old(store)@, self.prefix_spec() + key_suffix(hs@, comps_view(key@)), self.key_spec(key@)),
    {
        let mut old_key = self.prefix_hash();
        let suffix = self.schema.migrate_key(key, hs);
        extend_bytes(&mut old_key, suffix.as_slice());
        let v = self.read(store, old_key.as_slice());
        store.clear(old_key.as_slice());
        match v {
            Some(x) => {
                let k = self.storage_n_map_final_key(key);
                self.write(store, k.as_slice(), Some(x));
                Some(x)
            },
            None => None,
        }
    }
}

/// A lazy walk over the entries of a map under a prefix, in store order, decoding
/// each; entries that do not decode are passed over. In drain mode every entry the
/// walk passes is removed, decoded or not.
#[derive(Debug)]
pub struct NMapIterator {
    pub cursor: PrefixIterator,
    /// The number of leading components fixed by the prefix.
    pub first: usize,
}

impl StorageNMap {
    /// A lazy walk over every entry of the map.
    pub fn iterator(&self, drain: bool) -> (r: NMapIterator)
        ensures
            r.cursor.prefix@ == self.prefix_spec(),
            r.cursor.previous_key@ == self.prefix_spec(),
            r.cursor.drain == drain,
            r.first == 0,
    {
        let p = self.prefix_hash();
        NMapIterator { cursor: PrefixIterator::new(p.as_slice(), drain), first: 0 }
    }

    /// A lazy walk over the entries whose leading components are `partial`.
    pub fn prefix_iterator(&self, partial: &Vec<Vec<u8>>, drain: bool) -> (r: NMapIterator)
        requires
            partial@.len() < self.schema.slots@.len(),
        ensures
            r.cursor.prefix@ == self.key_spec(partial@),
            r.cursor.previous_key@ == self.key_spec(partial@),
            r.cursor.drain == drain,
            r.first == partial@.len(),
    {
        let p = self.storage_n_map_partial_key(partial);
        NMapIterator { cursor: PrefixIterator::new(p.as_slice(), drain), first: partial.len() }
    }
}

/// The slots whose components follow the first `first`.
pub open spec fn slots_from(map: StorageNMap, first: int) -> Seq<KeySlot> {
    map.schema.slots@.subrange(first, map.schema.slots@.len() as int)
}

impl NMapIterator {
    /// Walks on to the next entry under the prefix that decodes and yields its
    /// remaining components and value; `None` once no such entry is left. The
    /// cursor ends on the last key passed.
    pub fn next(&mut self, map: &StorageNMap, store: &mut RawStore) -> (r: Option<(Vec<Vec<u8>>, u64)>)
        requires
            old(store).wf(),
            all_reversible(map.schema.slots@),
            old(self).first <= map.schema.slots@.len(),
            is_prefix(old(self).cursor.prefix@, old(self).cursor.previous_key@),
        ensures
            final(store).wf(),
            final(self).first == old(self).first,
            final(self).cursor.prefix == old(self).cursor.prefix,
            final(self).cursor.drain == old(self).cursor.drain,
            is_prefix(old(self).cursor.prefix@, final(self).cursor.previous_key@),
            lex_le(old(self).cursor.previous_key@, final(self).cursor.previous_key@),
            forall|k: Seq<u8>| #[trigger] old(store)@.contains_key(k) && is_prefix(old(self).cursor.prefix@, k) && lex_lt(old(self).cursor.previous_key@, k) && lex_lt(k, final(self).cursor.previous_key@)
                        ==> decode_entry(slots_from(*map, old(self).first as int), old(self).cursor.prefix@.len() as int, (k, old(store)@[k])) is None,
            old(self).cursor.drain ==> final(store)@ == old(store)@.remove_keys(Set::new(|k: Seq<u8>| lex_lt(old(self).cursor.previous_key@, k) && lex_le(k, final(self).cursor.previous_key@))),
            !old(self).cursor.drain ==> final(store)@ == old(store)@,
            match r {
                        Some((cs, v)) => old(store)@.contains_key(final(self).cursor.previous_key@) && lex_lt(old(self).cursor.previous_key@, final(self).cursor.previous_key@)
                            && decode_entry(slots_from(*map, old(self).first as int), old(self).cursor.prefix@.len() as int, (final(self).cursor.previous_key@, old(store)@[final(self).cursor.previous_key@])) == Some((comps_view(cs@), v)),
                        None => (old(self).cursor.previous_key@ == final(self).cursor.previous_key@ || decode_entry(slots_from(*map, old(self).first as int), old(self).cursor.prefix@.len() as int, (final(self).cursor.previous_key@, old(store)@[final(self).cursor.previous_key@])) is None)
                            && forall|k: Seq<u8>| #[trigger] old(store)@.contains_key(k) && is_prefix(old(self).cursor.prefix@, k) ==> !lex_lt(final(self).cursor.previous_key@, k),
                    },
    {
        let ghost pre = *store;
        let ghost m0 = store@;
        let ghost p = self.cursor.prefix@;
        let ghost c = self.cursor.previous_key@;
        let ghost slots = slots_from(*map, self.first as int);
        let ghost mut visited: Seq<Seq<u8>> = Seq::empty();
        proof {
            assert forall|k: Seq<u8>| lex_lt(c, k) implies !lex_le(k, c) by {
                crate::bytes::lemma_lex_asymmetric(c, k);
                crate::bytes::lemma_lex_irreflexive(c);
            }
            assert(store@ =~= m0.remove_keys(Set::new(|k: Seq<u8>| lex_lt(c, k) && lex_le(k, c))));
        }
        loop
            invariant
                store.wf(),
                pre.wf(),
                m0 == pre@,
                m0 == old(store)@,
                all_reversible(map.schema.slots@),
                self.first == old(self).first,
                self.first <= map.schema.slots@.len(),
                slots == slots_from(*map, self.first as int),
                self.cursor.prefix == old(self).cursor.prefix,
                self.cursor.drain == old(self).cursor.drain,
                p == self.cursor.prefix@,
                c == old(self).cursor.previous_key@,
                is_prefix(p, c),
                is_prefix(p, self.cursor.previous_key@),
                lex_le(c, self.cursor.previous_key@),
                forall|k: Seq<u8>| #[trigger] m0.contains_key(k) && is_prefix(p, k) && lex_lt(c, k) && lex_le(k, self.cursor.previous_key@)
                    ==> decode_entry(slots, p.len() as int, (k, m0[k])) is None,
                self.cursor.drain ==> store@ == m0.remove_keys(Set::new(|k: Seq<u8>| lex_lt(c, k) && lex_le(k, self.cursor.previous_key@))),
                !self.cursor.drain ==> store@ == m0,
                visited.len() <= pre.size(),
                forall|i: int| 0 <= i < visited.len() ==> m0.contains_key(#[trigger] visited[i]) && lex_lt(c, visited[i])
                    && lex_le(visited[i], self.cursor.previous_key@),
                forall|i: int, j: int| 0 <= i < j < visited.len() ==> lex_lt(#[trigger] visited[i], #[trigger] visited[j]),
                visited.len() > 0 ==> visited.last() == self.cursor.previous_key@,
                visited.len() == 0 ==> self.cursor.previous_key@ == c,
            decreases pre.size() - visited.len(),
        {
            let ghost p0 = self.cursor.previous_key@;
            let ghost before = store@;
            proof {
                assert forall|k2: Seq<u8>| m0.contains_key(k2) && lex_lt(p0, k2) implies #[trigger] before.contains_key(k2)
                    && before[k2] == m0[k2] by {
                    crate::bytes::lemma_lex_asymmetric(p0, k2);
                    crate::bytes::lemma_lex_irreflexive(p0);
                }
                if p0 != p {
                    if p0.len() == p.len() {
                        assert(p0 =~= p0.subrange(0, p.len() as int));
                    }
                    crate::bytes::lemma_prefix_lt(p, p0);
                }
            }
            let e = self.cursor.next(store);
            let (k, raw_v) = match e {
                Some(e) => e,
                None => {
                    proof {
                        assert forall|k2: Seq<u8>| #[trigger] m0.contains_key(k2) && is_prefix(p, k2) implies !lex_lt(p0, k2) by {
                            if lex_lt(p0, k2) {
                                assert(before.contains_key(k2));
                                if !no_key_after(before, p0) {
                                    let kn = choose|kn: Seq<u8>| #[trigger] is_next_key(before, p0, kn) && !is_prefix(p, kn);
                                    if p0 != p {
                                        crate::bytes::lemma_lex_transitive(p, p0, kn);
                                    }
                                    if kn != k2 {
                                        crate::bytes::lemma_prefix_interval(p, kn, k2);
                                    }
                                }
                            }
                        }
                        assert forall|k2: Seq<u8>| #[trigger] m0.contains_key(k2) && is_prefix(p, k2) && lex_lt(c, k2) && lex_lt(k2, p0)
                            implies decode_entry(slots, p.len() as int, (k2, m0[k2])) is None by {}
                        if visited.len() > 0 {
                            let i = visited.len() - 1;
                            assert(m0.contains_key(visited[i]));
                            assert(lex_lt(c, p0));
                            assert(decode_entry(slots, p.len() as int, (p0, m0[p0])) is None);
                        }
                    }
                    return None;
                },
            };
            let ghost kk = k@;
            proof {
                assert(lex_lt(c, kk)) by {
                    if c != p0 {
                        crate::bytes::lemma_lex_transitive(c, p0, kk);
                    }
                }
                crate::bytes::lemma_lex_asymmetric(c, kk);
                crate::bytes::lemma_lex_irreflexive(c);
                crate::bytes::lemma_lex_asymmetric(p0, kk);
                crate::bytes::lemma_lex_irreflexive(p0);
                assert(m0.contains_key(kk) && m0[kk] == raw_v@);
                // nothing of the original store lies between the old cursor and `kk`
                assert forall|k2: Seq<u8>| m0.contains_key(k2) && lex_lt(p0, k2) && lex_lt(k2, kk) implies false by {
                    assert(before.contains_key(k2));
                    crate::bytes::lemma_lex_asymmetric(k2, kk);
                }
                if self.cursor.drain {
                    let s1 = Set::new(|k2: Seq<u8>| lex_lt(c, k2) && lex_le(k2, p0));
                    let s2 = Set::new(|k2: Seq<u8>| lex_lt(c, k2) && lex_le(k2, kk));
                    assert forall|k2: Seq<u8>| m0.contains_key(k2) implies (s2.contains(k2) <==> (s1.contains(k2) || k2 == kk)) by {
                        if s1.contains(k2) && k2 != p0 {
                            crate::bytes::lemma_lex_transitive(k2, p0, kk);
                        }
                        if s2.contains(k2) && !s1.contains(k2) && k2 != kk {
                            crate::bytes::lemma_lex_total(k2, p0);
                        }
                    }
                    assert(store@ =~= m0.remove_keys(s2));
                }
                assert forall|i: int, j: int| 0 <= i < j < visited.push(kk).len()
                    implies lex_lt(#[trigger] visited.push(kk)[i], #[trigger] visited.push(kk)[j]) by {
                    if j == visited.len() {
                        let vi = visited[i];
                        if vi != p0 {
                            crate::bytes::lemma_lex_transitive(vi, p0, kk);
                        }
                    }
                }
                assert forall|i: int| 0 <= i < visited.push(kk).len() implies m0.contains_key(#[trigger] visited.push(kk)[i])
                    && lex_lt(c, visited.push(kk)[i]) && lex_le(visited.push(kk)[i], kk) by {
                    if i < visited.len() {
                        let vi = visited[i];
                        if vi != p0 {
                            crate::bytes::lemma_lex_transitive(vi, p0, kk);
                        }
                    }
                }
                let ks = visited.push(kk);
                assert forall|i: int, j: int| 0 <= i < ks.len() && 0 <= j < ks.len() && i != j implies ks[i] != ks[j] by {
                    if i < j {
                        assert(lex_lt(ks[i], ks[j]));
                        crate::bytes::lemma_lex_irreflexive(ks[i]);
                    } else {
                        assert(lex_lt(ks[j], ks[i]));
                        crate::bytes::lemma_lex_irreflexive(ks[j]);
                    }
                }
                pre.lemma_distinct_keys_bound(ks);
                visited = ks;
                assert(p.len() <= kk.len());
            }
            let plen = self.cursor.prefix.len();
            let tail = vstd::slice::slice_subrange(k.as_slice(), plen, k.len());
            match map.schema.decode_partial_key(self.first, tail) {
                Ok(cs) => match decode_value(raw_v.as_slice()) {
                    Some(v) => {
                        proof {
                            assert forall|k2: Seq<u8>| #[trigger] m0.contains_key(k2) && is_prefix(p, k2) && lex_lt(c, k2) && lex_lt(k2, kk)
                                implies decode_entry(slots, p.len() as int, (k2, m0[k2])) is None by {
                                crate::bytes::lemma_lex_total(k2, p0);
                            }
                            assert(tail@ == kk.subrange(p.len() as int, kk.len() as int));
                            assert(value_of(m0[kk]) == Some(v));
                            let d = decode_entry(slots, p.len() as int, (kk, m0[kk]));
                            assert(decode_spec(slots, kk.subrange(p.len() as int, kk.len() as int)) matches Some((d2, _)) && d2 == comps_view(cs@));
                            assert(d == Some((comps_view(cs@), v)));
                        }
                        return Some((cs, v));
                    },
                    None => {},
                },
                Err(_) => {},
            }
            proof {
                assert forall|k2: Seq<u8>| #[trigger] m0.contains_key(k2) && is_prefix(p, k2) && lex_lt(c, k2) && lex_le(k2, kk)
                    implies decode_entry(slots, p.len() as int, (k2, m0[k2])) is None by {
                    crate::bytes::lemma_lex_total(k2, p0);
                }
            }
        }
    }
}

} // verus!
