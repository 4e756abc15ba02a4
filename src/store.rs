//! The flat, byte-keyed store that maps are laid over.
use vstd::prelude::*;
use crate::bytes::{bytes_eq, bytes_lt, copy_bytes, is_prefix, lex_lt, starts_with};

verus! {

/// A flat store of byte keys and byte values, walked in lexicographic key order.
pub struct RawStore {
    entries: Vec<(Vec<u8>, Vec<u8>)>,
}

/// `k` is the least key of `m` that comes after `after`.
pub open spec fn is_next_key(m: Map<Seq<u8>, Seq<u8>>, after: Seq<u8>, k: Seq<u8>) -> bool {
    &&& m.contains_key(k)
    &&& lex_lt(after, k)
    &&& forall|k2: Seq<u8>| #[trigger] m.contains_key(k2) && lex_lt(after, k2) ==> k == k2 || lex_lt(k, k2)
}

/// No key of `m` comes after `after`.
pub open spec fn no_key_after(m: Map<Seq<u8>, Seq<u8>>, after: Seq<u8>) -> bool {
    forall|k2: Seq<u8>| #[trigger] m.contains_key(k2) ==> !lex_lt(after, k2)
}

/// `k` lies strictly under `p`: it extends `p` by at least one byte.
pub open spec fn is_under(p: Seq<u8>, k: Seq<u8>) -> bool {
    is_prefix(p, k) && p.len() < k.len()
}

/// `a` comes before `b` or is `b`.
pub open spec fn lex_le(a: Seq<u8>, b: Seq<u8>) -> bool {
    a == b || lex_lt(a, b)
}

/// The keys strictly under `p`.
pub open spec fn keys_under(p: Seq<u8>) -> Set<Seq<u8>> {
    Set::new(|k: Seq<u8>| is_under(p, k))
}

/// `es` lists the entries of `m` whose keys lie strictly under `p`, each once, in
/// increasing key order.
pub open spec fn is_listing(m: Map<Seq<u8>, Seq<u8>>, p: Seq<u8>, es: Seq<(Seq<u8>, Seq<u8>)>) -> bool {
    &&& forall|i: int| 0 <= i < es.len() ==> is_under(p, (#[trigger] es[i]).0) && m.contains_key(es[i].0) && m[es[i].0] == es[i].1
    &&& forall|i: int, j: int| 0 <= i < j < es.len() ==> lex_lt((#[trigger] es[i]).0, (#[trigger] es[j]).0)
    &&& forall|k: Seq<u8>| #[trigger] m.contains_key(k) && is_under(p, k) ==> exists|i: int| 0 <= i < es.len() && (#[trigger] es[i]).0 == k
}

/// The bytes of each listed entry.
pub open spec fn entries_view(es: Seq<(Vec<u8>, Vec<u8>)>) -> Seq<(Seq<u8>, Seq<u8>)> {
    es.map_values(|e: (Vec<u8>, Vec<u8>)| (e.0@, e.1@))
}

impl RawStore {
    /// Each key is held once.
    pub closed spec fn wf(&self) -> bool {
        forall|i: int, j: int|
            0 <= i < self.entries@.len() && 0 <= j < self.entries@.len() && i != j
                ==> #[trigger] self.entries@[i].0@ != #[trigger] self.entries@[j].0@
    }

    closed spec fn has_key(&self, k: Seq<u8>) -> bool {
        exists|i: int| 0 <= i < self.entries@.len() && #[trigger] self.entries@[i].0@ == k
    }

    closed spec fn index_of(&self, k: Seq<u8>) -> int {
        choose|i: int| 0 <= i < self.entries@.len() && #[trigger] self.entries@[i].0@ == k
    }

    /// The number of entries held.
    pub closed spec fn size(&self) -> nat {
        self.entries@.len()
    }

    proof fn lemma_entry(&self, i: int)
        requires
            self.wf(),
            0 <= i < self.entries@.len(),
        ensures
            self@.contains_key(self.entries@[i].0@),
            self@[self.entries@[i].0@] == self.entries@[i].1@,
    {
        let k = self.entries@[i].0@;
        assert(self.has_key(k));
        let j = self.index_of(k);
        assert(self.entries@[j].0@ == k);
    }

    /// An empty store.
    pub fn new() -> (r: RawStore)
        ensures
            r.wf(),
            r@ == Map::<Seq<u8>, Seq<u8>>::empty(),
            r.size() == 0,
    {
        let r = RawStore { entries: Vec::new() };
        assert(r@ =~= Map::<Seq<u8>, Seq<u8>>::empty());
        r
    }

    /// The number of entries held.
    pub fn len(&self) -> (r: usize)
        ensures
            r == self.size(),
    {
        self.entries.len()
    }

    fn find(&self, key: &[u8]) -> (r: Option<usize>)
        requires
            self.wf(),
        ensures
            match r {
                Some(i) => i < self.entries@.len() && self.entries@[i as int].0@ == key@,
                None => !self.has_key(key@),
            },
    {
        let mut i: usize = 0;
        while i < self.entries.len()
            invariant
                0 <= i <= self.entries@.len(),
                forall|j: int| 0 <= j < i ==> self.entries@[j].0@ != key@,
            decreases self.entries@.len() - i,
        {
            if bytes_eq(self.entries[i].0.as_slice(), key) {
                return Some(i);
            }
            i = i + 1;
        }
        None
    }

    /// Whether an entry is stored under `key`.
    pub fn contains(&self, key: &[u8]) -> (r: bool)
        requires
            self.wf(),
        ensures
            r == self@.contains_key(key@),
    {
        match self.find(key) {
            Some(i) => {
                proof { self.lemma_entry(i as int); }
                true
            },
            None => false,
        }
    }

    /// The bytes stored under `key`.
    pub fn get(&self, key: &[u8]) -> (r: Option<Vec<u8>>)
        requires
            self.wf(),
        ensures
            match r {
                Some(v) => self@.contains_key(key@) && self@[key@] == v@,
                None => !self@.contains_key(key@),
            },
    {
        match self.find(key) {
            Some(i) => {
                proof { self.lemma_entry(i as int); }
                Some(copy_bytes(self.entries[i].1.as_slice()))
            },
            None => None,
        }
    }

    /// Stores `value` under `key`, replacing what was there.
    pub fn put(&mut self, key: &[u8], value: &[u8])
        requires
            old(self).wf(),
        ensures
            final(self).wf(),
            final(self)@ == old(self)@.insert(key@, value@),
            final(self).size() == old(self).size() + if old(self)@.contains_key(key@) { 0int } else { 1int },
    {
        let ghost pre = *self;
        let k = copy_bytes(key);
        let v = copy_bytes(value);
        match self.find(key) {
            Some(i) => {
                self.entries.set(i, (k, v));
                proof { pre.lemma_entry(i as int); }
            },
            None => {
                self.entries.push((k, v));
            },
        }
        proof {
            assert(self.wf());
            let target = pre@.insert(key@, value@);
            assert forall|k2: Seq<u8>| #[trigger] self@.dom().contains(k2) == target.dom().contains(k2)
                && (self@.dom().contains(k2) ==> self@[k2] == target[k2]) by {
                if k2 == key@ {
                    let n = if pre.has_key(key@) { pre.index_of(key@) } else { pre.entries@.len() as int };
                    self.lemma_entry(n);
                } else if pre.has_key(k2) {
                    let j = pre.index_of(k2);
                    pre.lemma_entry(j);
                    self.lemma_entry(j);
                } else if self.has_key(k2) {
                    let j = self.index_of(k2);
                    assert(pre.entries@[j].0@ == k2);
                }
            }
            assert(self@ =~= target);
        }
    }

    /// Removes the entry under `key`, if any.
    pub fn clear(&mut self, key: &[u8])
        requires
            old(self).wf(),
        ensures
            final(self).wf(),
            final(self)@ == old(self)@.remove(key@),
            final(self).size() == old(self).size() - if old(self)@.contains_key(key@) { 1int } else { 0int },
    {
        let ghost pre = *self;
        match self.find(key) {
            Some(i) => {
                self.entries.remove(i);
                proof {
                    pre.lemma_entry(i as int);
                    assert(self.wf());
                    let target = pre@.remove(key@);
                    assert forall|k2: Seq<u8>| #[trigger] self@.dom().contains(k2) == target.dom().contains(k2)
                        && (self@.dom().contains(k2) ==> self@[k2] == target[k2]) by {
                        if pre.has_key(k2) && k2 != key@ {
                            let j = pre.index_of(k2);
                            pre.lemma_entry(j);
                            let j2 = if j < i { j } else { j - 1 };
                            self.lemma_entry(j2);
                        } else if self.has_key(k2) {
                            let j = self.index_of(k2);
                            let j1 = if j < i { j } else { j + 1 };
                            assert(pre.entries@[j1].0@ == k2);
                        }
                    }
                    assert(self@ =~= target);
                }
            },
            None => {
                proof { assert(self@ =~= pre@.remove(key@)); }
            },
        }
    }

    /// The least stored key that comes after `after`.
    pub fn next_key(&self, after: &[u8]) -> (r: Option<Vec<u8>>)
        requires
            self.wf(),
        ensures
            match r {
                Some(k) => is_next_key(self@, after@, k@),
                None => no_key_after(self@, after@),
            },
    {
        let mut best: Option<usize> = None;
        let mut i: usize = 0;
        while i < self.entries.len()
            invariant
                self.wf(),
                0 <= i <= self.entries@.len(),
                match best {
                    Some(b) => b < i && lex_lt(after@, self.entries@[b as int].0@)
                        && forall|j: int| 0 <= j < i && lex_lt(after@, #[trigger] self.entries@[j].0@)
                            ==> self.entries@[b as int].0@ == self.entries@[j].0@
                                || lex_lt(self.entries@[b as int].0@, self.entries@[j].0@),
                    None => forall|j: int| 0 <= j < i ==> !lex_lt(after@, #[trigger] self.entries@[j].0@),
                },
            decreases self.entries@.len() - i,
        {
            let k = self.entries[i].0.as_slice();
            if bytes_lt(after, k) {
                match best {
                    Some(b) => {
                        if bytes_lt(k, self.entries[b].0.as_slice()) {
                            proof {
                                assert forall|j: int| 0 <= j < i + 1 && lex_lt(after@, #[trigger] self.entries@[j].0@)
                                    implies k@ == self.entries@[j].0@ || lex_lt(k@, self.entries@[j].0@) by {
                                    if j < i {
                                        let bk = self.entries@[b as int].0@;
                                        if bk != self.entries@[j].0@ {
                                            crate::bytes::lemma_lex_transitive(k@, bk, self.entries@[j].0@);
                                        }
                                    }
                                }
                            }
                            best = Some(i);
                        } else {
                            proof {
                                crate::bytes::lemma_lex_total(k@, self.entries@[b as int].0@);
                            }
                        }
                    },
                    None => {
                        best = Some(i);
                    },
                }
            }
            i = i + 1;
        }
        match best {
            Some(b) => {
                proof {
                    self.lemma_entry(b as int);
                    assert forall|k2: Seq<u8>| #[trigger] self@.contains_key(k2) && lex_lt(after@, k2)
                        implies self.entries@[b as int].0@ == k2 || lex_lt(self.entries@[b as int].0@, k2) by {
                        let j = self.index_of(k2);
                        assert(self.entries@[j].0@ == k2);
                    }
                }
                Some(copy_bytes(self.entries[b].0.as_slice()))
            },
            None => {
                proof {
                    assert forall|k2: Seq<u8>| #[trigger] self@.contains_key(k2) implies !lex_lt(after@, k2) by {
                        let j = self.index_of(k2);
                        assert(self.entries@[j].0@ == k2);
                    }
                }
                None
            },
        }
    }
}

impl RawStore {
    /// Distinct keys held by a store are no more than its entries.
    pub proof fn lemma_distinct_keys_bound(&self, ks: Seq<Seq<u8>>)
        requires
            self.wf(),
            ks.no_duplicates(),
            forall|i: int| 0 <= i < ks.len() ==> self@.contains_key(#[trigger] ks[i]),
        ensures
            ks.len() <= self.size(),
    {
        let es = self.entries@.map_values(|e: (Vec<u8>, Vec<u8>)| e.0@);
        assert forall|k: Seq<u8>| ks.to_set().contains(k) implies es.to_set().contains(k) by {
            let i = choose|i: int| 0 <= i < ks.len() && ks[i] == k;
            assert(self@.contains_key(ks[i]));
            assert(self.has_key(k));
            let j = self.index_of(k);
            assert(es[j] == k);
        }
        ks.unique_seq_to_set();
        es.lemma_cardinality_of_set();
        vstd::seq_lib::seq_to_set_is_finite(es);
        vstd::set_lib::lemma_len_subset(ks.to_set(), es.to_set());
    }

    /// The entries whose keys lie strictly under `prefix`, in key order. With `drain`
    /// each is removed as it is read.
    pub fn scan_prefix(&mut self, prefix: &[u8], drain: bool) -> (r: Vec<(Vec<u8>, Vec<u8>)>)
        requires
            old(self).wf(),
        ensures
            final(self).wf(),
            r@.len() <= old(self).size(),
            is_listing(old(self)@, prefix@, entries_view(r@)),
            drain ==> final(self)@ == old(self)@.remove_keys(keys_under(prefix@)),
            !drain ==> final(self)@ == old(self)@,
    {
        let ghost pre = *self;
        let ghost s0 = self@;
        let ghost p = prefix@;
        let mut r: Vec<(Vec<u8>, Vec<u8>)> = Vec::new();
        let mut it = PrefixIterator::new(prefix, drain);
        proof {
            assert forall|k: Seq<u8>| is_under(p, k) implies !lex_le(k, p) by {
                crate::bytes::lemma_prefix_lt(p, k);
                crate::bytes::lemma_lex_asymmetric(p, k);
                crate::bytes::lemma_lex_irreflexive(p);
            }
            assert(self@ =~= s0.remove_keys(Set::new(|k: Seq<u8>| is_under(p, k) && lex_le(k, it.previous_key@))));
        }
        loop
            invariant
                self.wf(),
                pre.wf(),
                s0 == pre@,
                p == prefix@,
                it.prefix@ == p,
                it.drain == drain,
                r@.len() <= pre.size(),
                it.previous_key@ == p || (is_under(p, it.previous_key@) && lex_lt(p, it.previous_key@)),
                forall|i: int| 0 <= i < r@.len() ==> is_under(p, (#[trigger] entries_view(r@)[i]).0)
                    && lex_le(entries_view(r@)[i].0, it.previous_key@)
                    && s0.contains_key(entries_view(r@)[i].0) && s0[entries_view(r@)[i].0] == entries_view(r@)[i].1,
                forall|i: int, j: int| 0 <= i < j < r@.len()
                    ==> lex_lt((#[trigger] entries_view(r@)[i]).0, (#[trigger] entries_view(r@)[j]).0),
                forall|k: Seq<u8>| #[trigger] s0.contains_key(k) && is_under(p, k) && lex_le(k, it.previous_key@)
                    ==> exists|i: int| 0 <= i < r@.len() && (#[trigger] entries_view(r@)[i]).0 == k,
                drain ==> self@ == s0.remove_keys(Set::new(|k: Seq<u8>| is_under(p, k) && lex_le(k, it.previous_key@))),
                !drain ==> self@ == s0,
            ensures
                is_listing(s0, p, entries_view(r@)),
                drain ==> self@ == s0.remove_keys(keys_under(p)),
            decreases pre.size() - r@.len(),
        {
            let ghost c = it.previous_key@;
            let ghost region = Set::new(|k: Seq<u8>| is_under(p, k) && lex_le(k, c));
            // a key of the original store after the cursor is still held
            assert forall|k2: Seq<u8>| s0.contains_key(k2) && lex_lt(c, k2) implies #[trigger] self@.contains_key(k2)
                && self@[k2] == s0[k2] by {
                crate::bytes::lemma_lex_asymmetric(c, k2);
                crate::bytes::lemma_lex_irreflexive(c);
            }
            let ghost mid = self@;
            let next = it.next(self);
            let (k, v) = match next {
                Some(e) => e,
                None => {
                    proof {
                        if !no_key_after(mid, c) {
                            let kn = choose|kn: Seq<u8>| #[trigger] is_next_key(mid, c, kn) && !is_prefix(p, kn);
                            if c != p {
                                crate::bytes::lemma_lex_transitive(p, c, kn);
                            }
                            assert forall|k2: Seq<u8>| #[trigger] s0.contains_key(k2) && is_under(p, k2)
                                implies lex_le(k2, c) by {
                                crate::bytes::lemma_lex_total(k2, c);
                                if lex_lt(c, k2) {
                                    assert(mid.contains_key(k2));
                                    if kn != k2 {
                                        crate::bytes::lemma_prefix_interval(p, kn, k2);
                                    }
                                }
                            }
                        } else {
                            assert forall|k2: Seq<u8>| #[trigger] s0.contains_key(k2) && is_under(p, k2)
                                implies lex_le(k2, c) by {
                                crate::bytes::lemma_lex_total(k2, c);
                                if lex_lt(c, k2) {
                                    assert(mid.contains_key(k2));
                                }
                            }
                        }
                        if drain {
                            assert(self@ =~= s0.remove_keys(keys_under(p)));
                        }
                        assert(is_listing(s0, p, entries_view(r@)));
                    }
                    break;
                },
            };
            proof {
                if c != p {
                    crate::bytes::lemma_lex_transitive(p, c, k@);
                }
                crate::bytes::lemma_lex_irreflexive(p);
                if k@.len() == p.len() {
                    assert(k@ =~= k@.subrange(0, p.len() as int));
                }
                assert(is_under(p, k@));
                crate::bytes::lemma_lex_asymmetric(c, k@);
                crate::bytes::lemma_lex_irreflexive(c);
                assert(s0.contains_key(k@));
            }
            let ghost old_list = entries_view(r@);
            r.push((k, v));
            proof {
                let kk = it.previous_key@;
                let list = entries_view(r@);
                assert(list =~= old_list.push((kk, s0[kk])));
                assert forall|i: int| 0 <= i < old_list.len() implies lex_lt(#[trigger] old_list[i].0, kk) by {
                    if old_list[i].0 != c {
                        crate::bytes::lemma_lex_transitive(old_list[i].0, c, kk);
                    }
                }
                assert forall|i: int| 0 <= i < list.len() implies is_under(p, (#[trigger] list[i]).0)
                    && lex_le(list[i].0, kk) && s0.contains_key(list[i].0) && s0[list[i].0] == list[i].1 by {
                    if i < old_list.len() {
                        assert(list[i] == old_list[i]);
                    }
                }
                assert forall|i: int, j: int| 0 <= i < j < list.len()
                    implies lex_lt((#[trigger] list[i]).0, (#[trigger] list[j]).0) by {
                    if j < old_list.len() {
                        assert(list[i] == old_list[i] && list[j] == old_list[j]);
                    } else {
                        assert(list[i] == old_list[i]);
                    }
                }
                // a key of the original store between the old cursor and the new one is the new one
                assert forall|k2: Seq<u8>| s0.contains_key(k2) && is_under(p, k2) && lex_lt(c, k2) && lex_le(k2, kk)
                    implies k2 == kk by {
                    assert(mid.contains_key(k2));
                    if k2 != kk {
                        crate::bytes::lemma_lex_asymmetric(k2, kk);
                    }
                }
                assert forall|k2: Seq<u8>| #[trigger] s0.contains_key(k2) && is_under(p, k2) && lex_le(k2, kk)
                    implies exists|i: int| 0 <= i < list.len() && (#[trigger] list[i]).0 == k2 by {
                    crate::bytes::lemma_lex_total(k2, c);
                    if lex_lt(c, k2) {
                        assert(list[old_list.len() as int].0 == k2);
                    } else {
                        let i = choose|i: int| 0 <= i < old_list.len() && (#[trigger] old_list[i]).0 == k2;
                        assert(list[i] == old_list[i]);
                    }
                }
                if drain {
                    let region2 = Set::new(|k2: Seq<u8>| is_under(p, k2) && lex_le(k2, kk));
                    assert forall|k2: Seq<u8>| region.contains(k2) implies region2.contains(k2) by {
                        if k2 != c {
                            crate::bytes::lemma_lex_transitive(k2, c, kk);
                        }
                    }
                    assert forall|k2: Seq<u8>| s0.contains_key(k2) && region2.contains(k2) && !region.contains(k2)
                        implies k2 == kk by {
                        crate::bytes::lemma_lex_total(k2, c);
                    }
                    assert(self@ =~= s0.remove_keys(region2));
                }
                let ks = list.map_values(|e: (Seq<u8>, Seq<u8>)| e.0);
                assert forall|i: int, j: int| 0 <= i < ks.len() && 0 <= j < ks.len() && i != j implies ks[i] != ks[j] by {
                    if i < j {
                        assert(lex_lt(list[i].0, list[j].0));
                        crate::bytes::lemma_lex_irreflexive(list[i].0);
                    } else {
                        assert(lex_lt(list[j].0, list[i].0));
                        crate::bytes::lemma_lex_irreflexive(list[j].0);
                    }
                }
                assert forall|i: int| 0 <= i < ks.len() implies pre@.contains_key(#[trigger] ks[i]) by {
                    assert(ks[i] == list[i].0);
                }
                pre.lemma_distinct_keys_bound(ks);
            }
        }
        r
    }
}

/// A lazy cursor over the entries under a prefix, in key order; in drain mode each
/// entry is removed as it is handed out.
#[derive(Debug)]
pub struct PrefixIterator {
    pub prefix: Vec<u8>,
    pub previous_key: Vec<u8>,
    pub drain: bool,
}

impl PrefixIterator {
    /// A cursor that starts at `prefix`.
    pub fn new(prefix: &[u8], drain: bool) -> (r: PrefixIterator)
        ensures
            r.prefix@ == prefix@,
            r.previous_key@ == prefix@,
            r.drain == drain,
    {
        PrefixIterator { prefix: copy_bytes(prefix), previous_key: copy_bytes(prefix), drain }
    }

    /// The entry with the least key after the cursor, when that key starts with the
    /// prefix; the cursor moves to it.
    pub fn next(&mut self, store: &mut RawStore) -> (r: Option<(Vec<u8>, Vec<u8>)>)
        requires
            old(store).wf(),
        ensures
            final(store).wf(),
            final(self).prefix == old(self).prefix,
            final(self).drain == old(self).drain,
            match r {
                Some((k, v)) => {
                    &&& is_next_key(old(store)@, old(self).previous_key@, k@)
                    &&& is_prefix(old(self).prefix@, k@)
                    &&& v@ == old(store)@[k@]
                    &&& final(self).previous_key@ == k@
                    &&& final(store)@ == if old(self).drain { old(store)@.remove(k@) } else { old(store)@ }
                },
                None => {
                    &&& no_key_after(old(store)@, old(self).previous_key@)
                        || exists|k: Seq<u8>| #[trigger] is_next_key(old(store)@, old(self).previous_key@, k)
                            && !is_prefix(old(self).prefix@, k)
                    &&& final(self).previous_key == old(self).previous_key
                    &&& final(store)@ == old(store)@
                },
            },
    {
        let k = match store.next_key(self.previous_key.as_slice()) {
            Some(k) => k,
            None => {
                return None;
            },
        };
        if !starts_with(k.as_slice(), self.prefix.as_slice()) {
            return None;
        }
        let v = match store.get(k.as_slice()) {
            Some(v) => v,
            None => {
                return None;
            },
        };
        if self.drain {
            store.clear(k.as_slice());
        }
        self.previous_key = copy_bytes(k.as_slice());
        Some((k, v))
    }
}

impl View for RawStore {
    type V = Map<Seq<u8>, Seq<u8>>;

    closed spec fn view(&self) -> Map<Seq<u8>, Seq<u8>> {
        Map::new(|k: Seq<u8>| self.has_key(k), |k: Seq<u8>| self.entries@[self.index_of(k)].1@)
    }
}

} // verus!
