//! Properties that relate several operations of a map.
use vstd::prelude::*;
use crate::bytes::is_prefix;
use crate::codec::{lemma_le_bytes_len, lemma_le_round_trip};
use crate::keys::{all_reversible, comps_view, decode_spec, fits_slots, lemma_decode_key_suffix, lemma_key_suffix_prefix};
use crate::map::{decode_entries, decode_entry, encoded_value, migrated, stored, swapped, value_of, StorageNMap};
use crate::keys::KeySlot;
use crate::store::{is_listing, is_under};

verus! {

/// Decoding the bytes stored for a value gives the value back.
pub proof fn law_value_round_trip(v: u64)
    ensures
        value_of(encoded_value(v)) == Some(v),
{
    reveal(vstd::arithmetic::power::pow);
    reveal_with_fuel(vstd::arithmetic::power::pow, 9);
    lemma_le_bytes_len(v as nat, 8);
    lemma_le_round_trip(v as nat, 8);
    assert(encoded_value(v).subrange(0, 8) =~= encoded_value(v));
}

/// For a map whose hashers are all reversible, reading back the final key of a tuple
/// of components that fit the slots gives the tuple, with nothing left over.
pub proof fn law_final_key_round_trip(map: StorageNMap, comps: Seq<Vec<u8>>)
    requires
        all_reversible(map.schema.slots@),
        comps.len() == map.schema.slots@.len(),
        fits_slots(map.schema.slots@, comps_view(comps)),
    ensures
        ({
            let k = map.key_spec(comps);
            decode_spec(map.schema.slots@, k.subrange(map.prefix_spec().len() as int, k.len() as int))
                == Some((comps_view(comps), Seq::<u8>::empty()))
        }),
{
    let hs = map.schema.hashers();
    let suffix = crate::keys::key_suffix(hs, comps_view(comps));
    let k = map.key_spec(comps);
    assert(k.subrange(map.prefix_spec().len() as int, k.len() as int) =~= suffix + Seq::<u8>::empty());
    lemma_decode_key_suffix(map.schema.slots@, comps_view(comps), Seq::<u8>::empty());
}

/// The final key of a tuple starts with the partial key of its first `m` components,
/// which starts with the map's namespace prefix.
pub proof fn law_prefix_containment(map: StorageNMap, comps: Seq<Vec<u8>>, m: int)
    requires
        comps.len() == map.schema.slots@.len(),
        0 <= m < comps.len(),
    ensures
        is_prefix(map.key_spec(comps.subrange(0, m)), map.key_spec(comps)),
        is_prefix(map.prefix_spec(), map.key_spec(comps.subrange(0, m))),
{
    let hs = map.schema.hashers();
    let p = map.prefix_spec();
    assert(comps_view(comps.subrange(0, m)) =~= comps_view(comps).subrange(0, m));
    lemma_key_suffix_prefix(hs, comps_view(comps), m);
    let a = crate::keys::key_suffix(hs, comps_view(comps).subrange(0, m));
    let b = crate::keys::key_suffix(hs, comps_view(comps));
    assert((p + b).subrange(0, (p + a).len() as int) =~= p + b.subrange(0, a.len() as int));
    assert((p + a).subrange(0, p.len() as int) =~= p);
}

/// Migrating a value that lies only under the legacy key moves it to the current key
/// and gives it; migrating again gives nothing and changes nothing.
pub proof fn law_migrate_once(m: Map<Seq<u8>, Seq<u8>>, old_key: Seq<u8>, new_key: Seq<u8>, v: u64)
    requires
        old_key != new_key,
        stored(m, old_key) == Some(v),
        !m.contains_key(new_key),
    ensures
        migrated(m, old_key, new_key).0 == Some(v),
        !migrated(m, old_key, new_key).1.contains_key(old_key),
        stored(migrated(m, old_key, new_key).1, new_key) == Some(v),
        migrated(migrated(m, old_key, new_key).1, old_key, new_key).0 is None,
        migrated(migrated(m, old_key, new_key).1, old_key, new_key).1 == migrated(m, old_key, new_key).1,
{
    law_value_round_trip(v);
    let m1 = migrated(m, old_key, new_key).1;
    assert(m1.remove(old_key) =~= m1);
}

/// Swapping a present entry with an absent one moves the bytes across; swapping two
/// absent keys changes nothing.
pub proof fn law_swap(m: Map<Seq<u8>, Seq<u8>>, x: Seq<u8>, y: Seq<u8>)
    requires
        x != y,
    ensures
        m.contains_key(x) && !m.contains_key(y) ==> !swapped(m, x, y).contains_key(x)
            && swapped(m, x, y).contains_key(y) && swapped(m, x, y)[y] == m[x],
        !m.contains_key(x) && !m.contains_key(y) ==> swapped(m, x, y) == m,
{
    if !m.contains_key(x) && !m.contains_key(y) {
        assert(m.remove(x).remove(y) =~= m);
    }
}

/// An entry that decodes is among what iteration yields for a listing that holds it.
proof fn lemma_decode_entries_contains(slots: Seq<KeySlot>, plen: int, es: Seq<(Seq<u8>, Seq<u8>)>, i: int)
    requires
        0 <= i < es.len(),
        decode_entry(slots, plen, es[i]) is Some,
    ensures
        decode_entries(slots, plen, es).contains(decode_entry(slots, plen, es[i])->Some_0),
    decreases es.len(),
{
    let x = decode_entry(slots, plen, es[i])->Some_0;
    let front = decode_entries(slots, plen, es.drop_last());
    if i == es.len() - 1 {
        assert(decode_entries(slots, plen, es) == front.push(x));
        assert(front.push(x)[front.len() as int] == x);
    } else {
        assert(es.drop_last()[i] == es[i]);
        lemma_decode_entries_contains(slots, plen, es.drop_last(), i);
        let j = choose|j: int| 0 <= j < front.len() && front[j] == x;
        match decode_entry(slots, plen, es.last()) {
            Some(y) => {
                assert(front.push(y)[j] == x);
            },
            None => {},
        }
    }
}

/// For a map whose hashers are all reversible, an entry written with `insert` (the
/// last write under its key) is among what `iter` yields, as its components and value.
pub proof fn law_inserted_entry_is_iterated(
    map: StorageNMap,
    m: Map<Seq<u8>, Seq<u8>>,
    comps: Seq<Vec<u8>>,
    v: u64,
    es: Seq<(Seq<u8>, Seq<u8>)>,
)
    requires
        all_reversible(map.schema.slots@),
        comps.len() == map.schema.slots@.len(),
        fits_slots(map.schema.slots@, comps_view(comps)),
        map.key_spec(comps).len() > map.prefix_spec().len(),
        m.contains_key(map.key_spec(comps)),
        m[map.key_spec(comps)] == encoded_value(v),
        is_listing(m, map.prefix_spec(), es),
    ensures
        decode_entries(map.schema.slots@, 32, es).contains((comps_view(comps), v)),
{
    let k = map.key_spec(comps);
    let p = map.prefix_spec();
    assert(k.subrange(0, p.len() as int) =~= p);
    assert(is_under(p, k));
    let i = choose|i: int| 0 <= i < es.len() && (#[trigger] es[i]).0 == k;
    law_final_key_round_trip(map, comps);
    law_value_round_trip(v);
    assert(p.len() == 32);
    assert(decode_entry(map.schema.slots@, 32, es[i]) == Some((comps_view(comps), v)));
    lemma_decode_entries_contains(map.schema.slots@, 32, es, i);
}

} // verus!
