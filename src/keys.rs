//! Key derivation: the namespace prefix, and the bytes made of a tuple of key components.
use vstd::prelude::*;
use crate::bytes::{copy_bytes, extend_bytes, is_prefix};
use crate::hashing::{hash_prefix_len, hash_spec, is_reversible_spec, twox_128, twox_128_of, Hasher};

verus! {

/// The namespace prefix of a map: `twox_128(module_prefix) ++ twox_128(storage_prefix)`.
pub open spec fn prefix_hash_spec(module_prefix: Seq<u8>, storage_prefix: Seq<u8>) -> Seq<u8> {
    twox_128_of(module_prefix)@ + twox_128_of(storage_prefix)@
}

/// The namespace prefix of a map named `storage_prefix` in the module `module_prefix`.
pub fn prefix_hash(module_prefix: &[u8], storage_prefix: &[u8]) -> (r: Vec<u8>)
    ensures
        r@ == prefix_hash_spec(module_prefix@, storage_prefix@),
        r@.len() == 32,
{
    let m = twox_128(module_prefix);
    let s = twox_128(storage_prefix);
    let mut r = copy_bytes(&m);
    extend_bytes(&mut r, &s);
    r
}

/// One key component: the hasher applied to it and the length of its encoding.
#[derive(Clone, Copy, Debug, PartialEq, Eq, Structural)]
pub struct KeySlot {
    pub hasher: Hasher,
    pub encoded_len: usize,
}

/// The bytes that the hashers `hs` make of the encoded components `comps`, in order.
pub open spec fn key_suffix(hs: Seq<Hasher>, comps: Seq<Seq<u8>>) -> Seq<u8>
    decreases comps.len(),
{
    if comps.len() == 0 || hs.len() == 0 {
        Seq::empty()
    } else {
        hash_spec(hs[0], comps[0]) + key_suffix(hs.drop_first(), comps.drop_first())
    }
}

/// The hashers of the slots.
pub open spec fn hashers_of(slots: Seq<KeySlot>) -> Seq<Hasher> {
    slots.map_values(|s: KeySlot| s.hasher)
}

/// Every slot's hasher can be reversed.
pub open spec fn all_reversible(slots: Seq<KeySlot>) -> bool {
    forall|i: int| 0 <= i < slots.len() ==> is_reversible_spec(#[trigger] slots[i].hasher)
}

/// `comps` has one component for each of the first `comps.len()` slots, of the slot's length.
pub open spec fn fits_slots(slots: Seq<KeySlot>, comps: Seq<Seq<u8>>) -> bool {
    &&& comps.len() <= slots.len()
    &&& forall|i: int| 0 <= i < comps.len() ==> (#[trigger] comps[i]).len() == slots[i].encoded_len
}

/// Reads one component per slot from the front of `raw`: each reversible hasher's
/// digest is skipped and the component's bytes taken. Gives the components and what
/// is left, or `None` when `raw` runs out.
pub open spec fn decode_spec(slots: Seq<KeySlot>, raw: Seq<u8>) -> Option<(Seq<Seq<u8>>, Seq<u8>)>
    decreases slots.len(),
{
    if slots.len() == 0 {
        Some((Seq::empty(), raw))
    } else {
        let start = hash_prefix_len(slots[0].hasher) as int;
        let end = start + slots[0].encoded_len;
        if raw.len() < end {
            None
        } else {
            match decode_spec(slots.drop_first(), raw.subrange(end, raw.len() as int)) {
                Some((cs, rest)) => Some((seq![raw.subrange(start, end)] + cs, rest)),
                None => None,
            }
        }
    }
}

proof fn lemma_key_suffix_push(hs: Seq<Hasher>, comps: Seq<Seq<u8>>, c: Seq<u8>)
    requires
        comps.len() < hs.len(),
    ensures
        key_suffix(hs, comps.push(c)) == key_suffix(hs, comps) + hash_spec(hs[comps.len() as int], c),
    decreases comps.len(),
{
    if comps.len() == 0 {
        assert(comps.push(c).drop_first() =~= Seq::<Seq<u8>>::empty());
        assert(key_suffix(hs.drop_first(), comps.push(c).drop_first()) == Seq::<u8>::empty());
        assert(comps.push(c)[0] == c);
        assert(key_suffix(hs, comps) == Seq::<u8>::empty());
        assert(key_suffix(hs, comps.push(c)) =~= key_suffix(hs, comps) + hash_spec(hs[0], c));
    } else {
        assert(comps.push(c).drop_first() =~= comps.drop_first().push(c));
        lemma_key_suffix_push(hs.drop_first(), comps.drop_first(), c);
        assert(key_suffix(hs, comps.push(c)) =~= key_suffix(hs, comps) + hash_spec(hs[comps.len() as int], c));
    }
}

/// The key bytes of the first `m` components extend those of fewer.
pub proof fn lemma_key_suffix_prefix(hs: Seq<Hasher>, comps: Seq<Seq<u8>>, m: int)
    requires
        0 <= m <= comps.len(),
    ensures
        is_prefix(key_suffix(hs, comps.subrange(0, m)), key_suffix(hs, comps)),
    decreases comps.len(),
{
    if m == 0 {
        assert(comps.subrange(0, 0).len() == 0);
        assert(key_suffix(hs, comps).subrange(0, 0) =~= Seq::<u8>::empty());
    } else if hs.len() == 0 {
        assert(key_suffix(hs, comps).subrange(0, 0) =~= Seq::<u8>::empty());
    } else {
        lemma_key_suffix_prefix(hs.drop_first(), comps.drop_first(), m - 1);
        assert(comps.subrange(0, m).drop_first() =~= comps.drop_first().subrange(0, m - 1));
        let a = hash_spec(hs[0], comps[0]);
        let p = key_suffix(hs.drop_first(), comps.drop_first().subrange(0, m - 1));
        let s = key_suffix(hs.drop_first(), comps.drop_first());
        assert((a + s).subrange(0, (a + p).len() as int) =~= a + s.subrange(0, p.len() as int));
    }
}

/// Decoding the key bytes of components that fit reversible slots gives them back,
/// with whatever followed.
pub proof fn lemma_decode_key_suffix(slots: Seq<KeySlot>, comps: Seq<Seq<u8>>, tail: Seq<u8>)
    requires
        all_reversible(slots),
        fits_slots(slots, comps),
        comps.len() == slots.len(),
    ensures
        decode_spec(slots, key_suffix(hashers_of(slots), comps) + tail) == Some((comps, tail)),
    decreases slots.len(),
{
    let hs = hashers_of(slots);
    let raw = key_suffix(hs, comps) + tail;
    if slots.len() == 0 {
        assert(comps =~= Seq::<Seq<u8>>::empty());
        assert(raw =~= tail);
    } else {
        let rest = slots.drop_first();
        assert(hashers_of(rest) =~= hs.drop_first());
        assert(is_reversible_spec(slots[0].hasher));
        assert forall|i: int| 0 <= i < rest.len() implies is_reversible_spec(#[trigger] rest[i].hasher) by {
            assert(rest[i] == slots[i + 1]);
        }
        assert forall|i: int| 0 <= i < comps.drop_first().len()
            implies (#[trigger] comps.drop_first()[i]).len() == rest[i].encoded_len by {
            assert(comps.drop_first()[i] == comps[i + 1]);
        }
        lemma_decode_key_suffix(rest, comps.drop_first(), tail);
        let h0 = hash_spec(hs[0], comps[0]);
        let start = hash_prefix_len(slots[0].hasher) as int;
        let end = start + slots[0].encoded_len;
        assert(h0.len() == end);
        assert(h0.subrange(start, end) =~= comps[0]);
        let later = key_suffix(hashers_of(rest), comps.drop_first()) + tail;
        assert(raw =~= h0 + later);
        assert(raw.subrange(end, raw.len() as int) =~= later);
        assert(raw.subrange(start, end) =~= comps[0]);
        assert(seq![comps[0]] + comps.drop_first() =~= comps);
    }
}

/// The bytes of each component.
pub open spec fn comps_view(comps: Seq<Vec<u8>>) -> Seq<Seq<u8>> {
    comps.map_values(|c: Vec<u8>| c@)
}

/// Why key bytes could not be read back into components.
#[derive(Clone, Copy, Debug, PartialEq, Eq, Structural)]
pub enum KeyDecodeError {
    /// The bytes ran out before the last component.
    Truncated,
}

/// The bytes that the hashers `hs` make of the components `comps`.
fn suffix_with(hs: &Vec<Hasher>, comps: &Vec<Vec<u8>>) -> (r: Vec<u8>)
    requires
        comps@.len() <= hs@.len(),
    ensures
        r@ == key_suffix(hs@, comps_view(comps@)),
{
    let mut r: Vec<u8> = Vec::new();
    let mut i: usize = 0;
    while i < comps.len()
        invariant
            comps@.len() <= hs@.len(),
            0 <= i <= comps@.len(),
            r@ == key_suffix(hs@, comps_view(comps@).subrange(0, i as int)),
        decreases comps@.len() - i,
    {
        let h = hs[i].hash(comps[i].as_slice());
        proof {
            let cv = comps_view(comps@);
            lemma_key_suffix_push(hs@, cv.subrange(0, i as int), cv[i as int]);
            assert(cv.subrange(0, i as int).push(cv[i as int]) =~= cv.subrange(0, i + 1));
        }
        extend_bytes(&mut r, h.as_slice());
        i = i + 1;
    }
    assert(comps_view(comps@).subrange(0, comps@.len() as int) =~= comps_view(comps@));
    r
}

/// The ordered key components of a map: each slot's hasher and encoded length.
#[derive(Debug)]
pub struct KeySchema {
    pub slots: Vec<KeySlot>,
}

impl KeySchema {
    /// The hashers of the slots, in order.
    pub open spec fn hashers(&self) -> Seq<Hasher> {
        hashers_of(self.slots@)
    }

    /// Whether every slot's hasher can be reversed, so that keys can be read back.
    pub fn is_reversible(&self) -> (r: bool)
        ensures
            r == all_reversible(self.slots@),
    {
        let mut i: usize = 0;
        while i < self.slots.len()
            invariant
                0 <= i <= self.slots@.len(),
                forall|j: int| 0 <= j < i ==> is_reversible_spec(#[trigger] self.slots@[j].hasher),
            decreases self.slots@.len() - i,
        {
            if !self.slots[i].hasher.is_reversible() {
                return false;
            }
            i = i + 1;
        }
        true
    }

    fn hasher_list(&self) -> (r: Vec<Hasher>)
        ensures
            r@ == self.hashers(),
    {
        let mut r: Vec<Hasher> = Vec::new();
        let mut i: usize = 0;
        while i < self.slots.len()
            invariant
                0 <= i <= self.slots@.len(),
                r@ =~= hashers_of(self.slots@.subrange(0, i as int)),
            decreases self.slots@.len() - i,
        {
            r.push(self.slots[i].hasher);
            i = i + 1;
        }
        assert(self.slots@.subrange(0, self.slots@.len() as int) =~= self.slots@);
        r
    }

    /// The key bytes of the leading components `comps`, with the schema's hashers.
    pub fn partial_key(&self, comps: &Vec<Vec<u8>>) -> (r: Vec<u8>)
        requires
            comps@.len() <= self.slots@.len(),
        ensures
            r@ == key_suffix(self.hashers(), comps_view(comps@)),
    {
        let hs = self.hasher_list();
        suffix_with(&hs, comps)
    }

    /// The key bytes of the components `comps`, hashed with `hs` in place of the
    /// schema's own hashers.
    pub fn migrate_key(&self, comps: &Vec<Vec<u8>>, hs: &Vec<Hasher>) -> (r: Vec<u8>)
        requires
            comps@.len() <= hs@.len(),
        ensures
            r@ == key_suffix(hs@, comps_view(comps@)),
    {
        suffix_with(hs, comps)
    }

    /// Reads the components of the slots from `first` on out of `raw`; gives them and
    /// where the bytes they took end.
    fn decode_from(&self, first: usize, raw: &[u8]) -> (r: Option<(Vec<Vec<u8>>, usize)>)
        requires
            first <= self.slots@.len(),
        ensures
            match r {
                Some((cs, end)) => end <= raw@.len() && decode_spec(self.slots@.subrange(first as int, self.slots@.len() as int), raw@)
                    == Some((comps_view(cs@), raw@.subrange(end as int, raw@.len() as int))),
                None => decode_spec(self.slots@.subrange(first as int, self.slots@.len() as int), raw@) is None,
            },
    {
        let ghost whole = decode_spec(self.slots@.subrange(first as int, self.slots@.len() as int), raw@);
        let mut cs: Vec<Vec<u8>> = Vec::new();
        let mut pos: usize = 0;
        let mut i: usize = first;
        proof {
            assert(raw@.subrange(0, raw@.len() as int) =~= raw@);
            assert(comps_view(cs@) =~= Seq::<Seq<u8>>::empty());
            match whole {
                Some((more, rest)) => {
                    assert(comps_view(cs@) + more =~= more);
                },
                None => {},
            }
        }
        while i < self.slots.len()
            invariant
                first <= i <= self.slots@.len(),
                pos <= raw@.len(),
                whole == decode_spec(self.slots@.subrange(first as int, self.slots@.len() as int), raw@),
                whole == match decode_spec(self.slots@.subrange(i as int, self.slots@.len() as int),
                    raw@.subrange(pos as int, raw@.len() as int)) {
                    Some((more, rest)) => Some((comps_view(cs@) + more, rest)),
                    None => None::<(Seq<Seq<u8>>, Seq<u8>)>,
                },
            decreases self.slots@.len() - i,
        {
            let slot = self.slots[i];
            let start: usize = if slot.hasher == Hasher::Twox64Concat {
                8
            } else if slot.hasher == Hasher::Blake2_128Concat {
                16
            } else {
                0
            };
            let ghost tail = raw@.subrange(pos as int, raw@.len() as int);
            let ghost here = self.slots@.subrange(i as int, self.slots@.len() as int);
            assert(here[0] == slot);
            assert(here.drop_first() =~= self.slots@.subrange(i + 1, self.slots@.len() as int));
            if raw.len() - pos < start || raw.len() - pos - start < slot.encoded_len {
                return None;
            }
            let end = pos + start + slot.encoded_len;
            let mut c: Vec<u8> = Vec::new();
            let mut j: usize = pos + start;
            while j < end
                invariant
                    pos + start <= j <= end <= raw@.len(),
                    c@ =~= raw@.subrange(pos + start, j as int),
                decreases end - j,
            {
                c.push(raw[j]);
                j = j + 1;
            }
            proof {
                assert(tail.subrange(start as int, (start + slot.encoded_len) as int) =~= c@);
                assert(tail.subrange((start + slot.encoded_len) as int, tail.len() as int)
                    =~= raw@.subrange(end as int, raw@.len() as int));
                assert(comps_view(cs@.push(c)) =~= comps_view(cs@).push(c@));
                match decode_spec(self.slots@.subrange(i + 1, self.slots@.len() as int), raw@.subrange(end as int, raw@.len() as int)) {
                    Some((more, rest)) => {
                        assert(comps_view(cs@) + (seq![c@] + more) =~= comps_view(cs@).push(c@) + more);
                    },
                    None => {},
                }
            }
            cs.push(c);
            pos = end;
            i = i + 1;
        }
        proof {
            assert(self.slots@.subrange(i as int, self.slots@.len() as int) =~= Seq::<KeySlot>::empty());
            assert(comps_view(cs@) + Seq::<Seq<u8>>::empty() =~= comps_view(cs@));
        }
        Some((cs, pos))
    }

    /// Reads every component back out of the key bytes `raw`, with the bytes left over.
    pub fn decode_final_key(&self, raw: &[u8]) -> (r: Result<(Vec<Vec<u8>>, Vec<u8>), KeyDecodeError>)
        requires
            all_reversible(self.slots@),
        ensures
            match r {
                Ok((cs, rest)) => decode_spec(self.slots@, raw@) == Some((comps_view(cs@), rest@)),
                Err(e) => e == KeyDecodeError::Truncated && decode_spec(self.slots@, raw@) is None,
            },
    {
        assert(self.slots@.subrange(0, self.slots@.len() as int) =~= self.slots@);
        match self.decode_from(0, raw) {
            Some((cs, end)) => {
                let mut rest: Vec<u8> = Vec::new();
                let mut j: usize = end;
                while j < raw.len()
                    invariant
                        end <= j <= raw@.len(),
                        rest@ =~= raw@.subrange(end as int, j as int),
                    decreases raw@.len() - j,
                {
                    rest.push(raw[j]);
                    j = j + 1;
                }
                Ok((cs, rest))
            },
            None => Err(KeyDecodeError::Truncated),
        }
    }

    /// Reads back the components that follow the first `m` out of `raw`, the key
    /// bytes after those of the first `m` components.
    pub fn decode_partial_key(&self, m: usize, raw: &[u8]) -> (r: Result<Vec<Vec<u8>>, KeyDecodeError>)
        requires
            all_reversible(self.slots@),
            m <= self.slots@.len(),
        ensures
            match r {
                Ok(cs) => decode_spec(self.slots@.subrange(m as int, self.slots@.len() as int), raw@) matches Some((d, _))
                    && d == comps_view(cs@),
                Err(e) => e == KeyDecodeError::Truncated
                    && decode_spec(self.slots@.subrange(m as int, self.slots@.len() as int), raw@) is None,
            },
    {
        match self.decode_from(m, raw) {
            Some((cs, _)) => Ok(cs),
            None => Err(KeyDecodeError::Truncated),
        }
    }
}

} // verus!
