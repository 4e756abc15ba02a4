use parity_scale_codec::Encode;
use storage_nmap::codec::{decode_uint, encode_uint};
use storage_nmap::hashing::Hasher;
use storage_nmap::keys::{KeyDecodeError, KeySchema, KeySlot};
use storage_nmap::map::{decode_value, encode_value, GetError, KillOutcome, QueryKind, StorageNMap};
use storage_nmap::store::RawStore;

fn nmap() -> StorageNMap {
    StorageNMap {
        module_prefix: b"Test".to_vec(),
        storage_prefix: b"NMap".to_vec(),
        schema: KeySchema {
            slots: vec![
                KeySlot { hasher: Hasher::Blake2_128Concat, encoded_len: 2 },
                KeySlot { hasher: Hasher::Twox64Concat, encoded_len: 4 },
            ],
        },
        query: QueryKind::OptionQuery,
    }
}

fn key(k1: u16, k2: u32) -> Vec<Vec<u8>> {
    vec![encode_uint(k1 as u64, 2), encode_uint(k2 as u64, 4)]
}

fn pair(comps: &[Vec<u8>]) -> (u16, u32) {
    (
        decode_uint(&comps[0], 2).unwrap() as u16,
        decode_uint(&comps[1], 4).unwrap() as u32,
    )
}

fn typed(items: Vec<(Vec<Vec<u8>>, u64)>) -> Vec<((u16, u32), u64)> {
    items.into_iter().map(|(c, v)| (pair(&c), v)).collect()
}

fn typed_suffix(items: Vec<(Vec<Vec<u8>>, u64)>) -> Vec<(u32, u64)> {
    items
        .into_iter()
        .map(|(c, v)| (decode_uint(&c[0], 4).unwrap() as u32, v))
        .collect()
}

fn key_before_prefix(mut prefix: Vec<u8>) -> Vec<u8> {
    let last = prefix.iter_mut().last().unwrap();
    assert!(*last != 0, "mock function not implemented for this prefix");
    *last -= 1;
    prefix
}

fn key_after_prefix(mut prefix: Vec<u8>) -> Vec<u8> {
    let last = prefix.iter_mut().last().unwrap();
    assert!(*last != 255, "mock function not implemented for this prefix");
    *last += 1;
    prefix
}

fn put_u64(store: &mut RawStore, k: &[u8], v: u64) {
    store.put(k, &encode_value(v));
}

fn get_u64(store: &RawStore, k: &[u8]) -> Option<u64> {
    store.get(k).and_then(|b| decode_value(&b))
}

#[test]
fn n_map_reversible_reversible_iteration() {
    let map = nmap();
    let mut store = RawStore::new();

    // All map iterator
    let prefix = map.prefix_hash();

    put_u64(&mut store, &key_before_prefix(prefix.clone()), 1u64);
    put_u64(&mut store, &key_after_prefix(prefix.clone()), 1u64);

    for i in 0..4 {
        map.insert(&mut store, &key(i as u16, i as u32), i as u64);
    }

    assert_eq!(
        typed(map.iter(&mut store)),
        vec![((3, 3), 3), ((0, 0), 0), ((2, 2), 2), ((1, 1), 1)],
    );

    assert_eq!(map.iter_values(&mut store), vec![3, 0, 2, 1],);

    assert_eq!(
        typed(map.drain(&mut store)),
        vec![((3, 3), 3), ((0, 0), 0), ((2, 2), 2), ((1, 1), 1)],
    );

    assert_eq!(typed(map.iter(&mut store)), vec![]);
    assert_eq!(get_u64(&store, &key_before_prefix(prefix.clone())), Some(1u64));
    assert_eq!(get_u64(&store, &key_after_prefix(prefix.clone())), Some(1u64));

    // Prefix iterator
    let k1: u16 = 3 << 8;
    let partial = vec![encode_uint(k1 as u64, 2)];
    let prefix = map.storage_n_map_partial_key(&partial);

    put_u64(&mut store, &key_before_prefix(prefix.clone()), 1u64);
    put_u64(&mut store, &key_after_prefix(prefix.clone()), 1u64);

    for i in 0..4 {
        map.insert(&mut store, &key(k1, i as u32), i as u64);
    }

    assert_eq!(
        typed_suffix(map.iter_prefix(&mut store, &partial)),
        vec![(1, 1), (2, 2), (0, 0), (3, 3)],
    );

    assert_eq!(map.iter_prefix_values(&mut store, &partial), vec![1, 2, 0, 3],);

    assert_eq!(
        typed_suffix(map.drain_prefix(&mut store, &partial)),
        vec![(1, 1), (2, 2), (0, 0), (3, 3)],
    );

    assert_eq!(typed_suffix(map.iter_prefix(&mut store, &partial)), vec![]);
    assert_eq!(get_u64(&store, &key_before_prefix(prefix.clone())), Some(1u64));
    assert_eq!(get_u64(&store, &key_after_prefix(prefix.clone())), Some(1u64));

    // Translate
    let prefix = map.prefix_hash();

    put_u64(&mut store, &key_before_prefix(prefix.clone()), 1u64);
    put_u64(&mut store, &key_after_prefix(prefix.clone()), 1u64);
    for i in 0..4 {
        map.insert(&mut store, &key(i as u16, i as u32), i as u64);
    }

    // Wrong key1
    store.put(&[prefix.clone(), vec![1, 2, 3]].concat(), &3u64.encode());

    // Wrong key2
    store.put(
        &[prefix.clone(), Hasher::Blake2_128Concat.hash(&1u16.encode())].concat(),
        &3u64.encode(),
    );

    // Wrong value
    store.put(
        &[
            prefix.clone(),
            Hasher::Blake2_128Concat.hash(&1u16.encode()),
            Hasher::Twox64Concat.hash(&2u32.encode()),
        ]
        .concat(),
        &vec![1u8].encode(),
    );

    map.translate(&mut store, |_k, v: u64| Some(v * 2));
    assert_eq!(
        typed(map.iter(&mut store)),
        vec![((3, 3), 6), ((0, 0), 0), ((2, 2), 4), ((1, 1), 2)],
    );
}

#[test]
fn value_encoding_matches_scale() {
    for v in [0u64, 1, 255, 256, 0x0102_0304_0506_0708, u64::MAX] {
        assert_eq!(encode_value(v), v.encode());
        assert_eq!(decode_value(&v.encode()), Some(v));
    }
    assert_eq!(encode_uint(0x1234, 2), 0x1234u16.encode());
    assert_eq!(encode_uint(7, 4), 7u32.encode());
    assert_eq!(decode_value(&[1, 2, 3]), None);
    assert_eq!(decode_uint(&[0x34, 0x12, 0xff], 2), Some(0x1234));
}

#[test]
fn hashers_wrap_the_component() {
    let c = vec![1u8, 0];
    let identity = Hasher::Identity.hash(&c);
    assert_eq!(identity, c);
    let t = Hasher::Twox64Concat.hash(&c);
    assert_eq!(t.len(), 10);
    assert_eq!(&t[8..], &c[..]);
    assert_ne!(&t[..8], &[0u8; 8][..]);
    let b = Hasher::Blake2_128Concat.hash(&c);
    assert_eq!(b.len(), 18);
    assert_eq!(&b[16..], &c[..]);
    assert_eq!(&b[..16], &Hasher::Blake2_128.hash(&c)[..]);
    assert_eq!(&t[..8], &Hasher::Twox128.hash(&c)[..8]);
    assert_eq!(Hasher::Twox128.hash(&c).len(), 16);
    assert!(Hasher::Twox64Concat.is_reversible());
    assert!(!Hasher::Twox128.is_reversible());
}

#[test]
fn prefix_hash_is_two_digests() {
    let map = nmap();
    let p = map.prefix_hash();
    assert_eq!(p.len(), 32);
    assert_eq!(&p[..16], &Hasher::Twox128.hash(b"Test")[..]);
    assert_eq!(&p[16..], &Hasher::Twox128.hash(b"NMap")[..]);
}

#[test]
fn final_key_round_trip() {
    let map = nmap();
    let k = key(513, 70000);
    let fk = map.storage_n_map_final_key(&k);
    assert_eq!(fk.len(), 32 + 18 + 12);
    let (comps, rest) = map.schema.decode_final_key(&fk[32..]).unwrap();
    assert_eq!(comps, k);
    assert!(rest.is_empty());
    assert_eq!(map.hashed_key_for(&k), fk);
}

#[test]
fn decode_truncated_key_fails() {
    let map = nmap();
    assert_eq!(map.schema.decode_final_key(&[1, 2, 3]), Err(KeyDecodeError::Truncated));
    let fk = map.storage_n_map_final_key(&key(1, 2));
    assert_eq!(map.schema.decode_final_key(&fk[32..fk.len() - 1]), Err(KeyDecodeError::Truncated));
    assert_eq!(map.schema.decode_partial_key(1, &fk[32 + 18..]), Ok(vec![encode_uint(2, 4)]));
}

#[test]
fn partial_key_prefix_containment() {
    let map = nmap();
    let k = key(9, 10);
    let fk = map.storage_n_map_final_key(&k);
    let pk = map.storage_n_map_partial_key(&vec![k[0].clone()]);
    let ns = map.prefix_hash();
    assert!(fk.starts_with(&pk));
    assert!(pk.starts_with(&ns));
    assert_eq!(map.storage_n_map_partial_key(&vec![]), ns);
}

#[test]
fn get_insert_remove_take() {
    let map = nmap();
    let mut store = RawStore::new();
    let k = key(1, 2);
    assert_eq!(map.get(&store, &k), None);
    assert!(!map.contains_key(&store, &k));
    map.insert(&mut store, &k, 42);
    assert!(map.contains_key(&store, &k));
    assert_eq!(map.get(&store, &k), Some(42));
    map.insert(&mut store, &k, 43);
    assert_eq!(map.get(&store, &k), Some(43));
    assert_eq!(map.take(&mut store, &k), Some(43));
    assert_eq!(map.get(&store, &k), None);
    map.insert(&mut store, &k, 5);
    map.remove(&mut store, &k);
    map.remove(&mut store, &k);
    assert!(!map.contains_key(&store, &k));
}

#[test]
fn try_get_tells_missing_from_corrupt() {
    let map = nmap();
    let mut store = RawStore::new();
    let k = key(1, 2);
    assert_eq!(map.try_get(&store, &k), Err(GetError::NotFound));
    store.put(&map.storage_n_map_final_key(&k), &[1, 2]);
    assert_eq!(map.try_get(&store, &k), Err(GetError::Corrupt));
    assert_eq!(map.get(&store, &k), None);
    map.insert(&mut store, &k, 7);
    assert_eq!(map.try_get(&store, &k), Ok(7));
}

#[test]
fn value_query_reads_default() {
    let mut map = nmap();
    map.query = QueryKind::ValueQuery(11);
    let mut store = RawStore::new();
    let k = key(1, 2);
    assert_eq!(map.get(&store, &k), Some(11));
    map.insert(&mut store, &k, 3);
    assert_eq!(map.get(&store, &k), Some(3));
    assert_eq!(map.take(&mut store, &k), Some(3));
    assert_eq!(map.take(&mut store, &k), Some(11));
}

#[test]
fn try_mutate_err_writes_nothing() {
    let map = nmap();
    let mut store = RawStore::new();
    let k = key(4, 4);
    map.insert(&mut store, &k, 10);
    let r: Result<(), &str> = map.try_mutate(&mut store, &k, |v| {
        let changed = v.map(|x| x + 100);
        assert_eq!(changed, Some(110));
        Err("no")
    });
    assert_eq!(r, Err("no"));
    assert_eq!(map.get(&store, &k), Some(10));
    let r: Result<u32, ()> = map.try_mutate(&mut store, &k, |v| Ok((v.map(|x| x + 1), 9)));
    assert_eq!(r, Ok(9));
    assert_eq!(map.get(&store, &k), Some(11));
    let r: Result<(), ()> = map.try_mutate_exists(&mut store, &k, |_| Ok((None, ())));
    assert_eq!(r, Ok(()));
    assert!(!map.contains_key(&store, &k));
}

#[test]
fn mutate_writes_or_removes() {
    let map = nmap();
    let mut store = RawStore::new();
    let k = key(5, 6);
    let seen = map.mutate(&mut store, &k, |v| (Some(v.unwrap_or(0) + 1), v));
    assert_eq!(seen, None);
    assert_eq!(map.get(&store, &k), Some(1));
    let seen = map.mutate_exists(&mut store, &k, |v| (None, v));
    assert_eq!(seen, Some(1));
    assert_eq!(map.get(&store, &k), None);
    let r: Result<(), u8> = map.try_mutate_exists(&mut store, &k, |_| Err(3));
    assert_eq!(r, Err(3));
    assert_eq!(map.get(&store, &k), None);
}

#[test]
fn swap_moves_and_keeps_absence() {
    let map = nmap();
    let other = StorageNMap {
        module_prefix: b"Other".to_vec(),
        storage_prefix: b"Map".to_vec(),
        schema: KeySchema { slots: vec![KeySlot { hasher: Hasher::Identity, encoded_len: 4 }] },
        query: QueryKind::OptionQuery,
    };
    let mut store = RawStore::new();
    let a = key(1, 1);
    let b = vec![encode_uint(8, 4)];
    map.insert(&mut store, &a, 77);
    map.swap(&other, &mut store, &a, &b);
    assert_eq!(map.get(&store, &a), None);
    assert_eq!(other.get(&store, &b), Some(77));
    let c = key(2, 2);
    let d = vec![encode_uint(9, 4)];
    map.swap(&other, &mut store, &c, &d);
    assert_eq!(map.get(&store, &c), None);
    assert_eq!(other.get(&store, &d), None);
    assert_eq!(other.get(&store, &b), Some(77));
    map.insert(&mut store, &c, 1);
    map.swap(&other, &mut store, &c, &b);
    assert_eq!(map.get(&store, &c), Some(77));
    assert_eq!(other.get(&store, &b), Some(1));
}

#[test]
fn migrate_keys_moves_once() {
    let map = nmap();
    let mut store = RawStore::new();
    let k = key(3, 4);
    let legacy = vec![Hasher::Twox64Concat, Hasher::Twox64Concat];
    let mut old_key = map.prefix_hash();
    old_key.extend(map.schema.migrate_key(&k, &legacy));
    put_u64(&mut store, &old_key, 99);
    assert_eq!(map.get(&store, &k), None);
    assert_eq!(map.migrate_keys(&mut store, &k, &legacy), Some(99));
    assert_eq!(map.get(&store, &k), Some(99));
    assert_eq!(store.get(&old_key), None);
    assert_eq!(map.migrate_keys(&mut store, &k, &legacy), None);
    assert_eq!(map.get(&store, &k), Some(99));
    assert_eq!(store.len(), 1);
}

#[test]
fn remove_prefix_with_and_without_limit() {
    let map = nmap();
    let mut store = RawStore::new();
    for i in 0..5u32 {
        map.insert(&mut store, &key(7, i), i as u64);
    }
    map.insert(&mut store, &key(8, 0), 100);
    let partial = vec![encode_uint(7, 2)];
    assert_eq!(map.remove_prefix(&mut store, &partial, Some(2)), KillOutcome::SomeRemaining(2));
    assert_eq!(map.iter_prefix_values(&mut store, &partial).len(), 3);
    assert_eq!(map.remove_prefix(&mut store, &partial, Some(3)), KillOutcome::AllRemoved(3));
    assert_eq!(map.iter_prefix_values(&mut store, &partial).len(), 0);
    map.insert(&mut store, &key(7, 1), 1);
    assert_eq!(map.remove_prefix(&mut store, &partial, None), KillOutcome::AllRemoved(1));
    assert_eq!(map.get(&store, &key(8, 0)), Some(100));
}

#[test]
fn translate_skips_corrupt_and_removes_on_none() {
    let map = nmap();
    let mut store = RawStore::new();
    map.insert(&mut store, &key(1, 1), 5);
    map.insert(&mut store, &key(2, 2), 6);
    let bad = map.storage_n_map_final_key(&key(3, 3));
    store.put(&bad, &[9, 9]);
    map.translate(&mut store, |k, v| if pair(&k) == (2, 2) { None } else { Some(v * 2) });
    assert_eq!(map.get(&store, &key(1, 1)), Some(10));
    assert_eq!(map.get(&store, &key(2, 2)), None);
    assert_eq!(store.get(&bad), Some(vec![9, 9]));
}

#[test]
fn store_orders_keys() {
    let mut store = RawStore::new();
    store.put(&[2], &[0]);
    store.put(&[1, 5], &[0]);
    store.put(&[1], &[0]);
    assert_eq!(store.next_key(&[]), Some(vec![1]));
    assert_eq!(store.next_key(&[1]), Some(vec![1, 5]));
    assert_eq!(store.next_key(&[1, 5]), Some(vec![2]));
    assert_eq!(store.next_key(&[2]), None);
    store.clear(&[1, 5]);
    assert_eq!(store.next_key(&[1]), Some(vec![2]));
    assert!(store.contains(&[1]));
    assert!(!store.contains(&[1, 5]));
}

#[test]
fn prefix_hash_of_known_names() {
    let map = StorageNMap {
        module_prefix: b"System".to_vec(),
        storage_prefix: b"Account".to_vec(),
        schema: KeySchema { slots: vec![KeySlot { hasher: Hasher::Blake2_128Concat, encoded_len: 32 }] },
        query: QueryKind::OptionQuery,
    };
    let expected: Vec<u8> = vec![
        0x26, 0xaa, 0x39, 0x4e, 0xea, 0x56, 0x30, 0xe0, 0x7c, 0x48, 0xae, 0x0c, 0x95, 0x58, 0xce, 0xf7,
        0xb9, 0x9d, 0x88, 0x0e, 0xc6, 0x81, 0x79, 0x9c, 0x0c, 0xf3, 0x0e, 0x88, 0x86, 0x37, 0x1d, 0xa9,
    ];
    assert_eq!(map.prefix_hash(), expected);
}

#[test]
fn remove_prefix_clears_the_partial_key_itself() {
    let map = nmap();
    let mut store = RawStore::new();
    let partial = vec![encode_uint(7, 2)];
    let pk = map.storage_n_map_partial_key(&partial);
    store.put(&pk, &[1]);
    assert_eq!(map.remove_prefix(&mut store, &partial, Some(0)), KillOutcome::SomeRemaining(0));
    assert!(store.contains(&pk));
    map.insert(&mut store, &key(7, 1), 1);
    assert_eq!(map.remove_prefix(&mut store, &partial, Some(1)), KillOutcome::SomeRemaining(1));
    assert!(!store.contains(&pk));
    assert_eq!(map.get(&store, &key(7, 1)), Some(1));
    store.put(&pk, &[1]);
    assert_eq!(map.remove_prefix(&mut store, &partial, None), KillOutcome::AllRemoved(2));
    assert_eq!(store.len(), 0);
}

#[test]
fn lazy_drain_removes_only_what_it_passed() {
    let map = nmap();
    let mut store = RawStore::new();
    for i in 0..4 {
        map.insert(&mut store, &key(i as u16, i as u32), i as u64);
    }
    let mut it = map.iterator(true);
    let (c, v) = it.next(&map, &mut store).unwrap();
    assert_eq!((pair(&c), v), ((3, 3), 3));
    assert_eq!(store.len(), 3);
    assert_eq!(map.get(&store, &key(3, 3)), None);
    assert_eq!(map.get(&store, &key(0, 0)), Some(0));
    drop(it);
    assert_eq!(typed(map.iter(&mut store)), vec![((0, 0), 0), ((2, 2), 2), ((1, 1), 1)]);

    let mut walk = map.iterator(false);
    let mut seen = Vec::new();
    while let Some((c, v)) = walk.next(&map, &mut store) {
        seen.push((pair(&c), v));
    }
    assert_eq!(seen, vec![((0, 0), 0), ((2, 2), 2), ((1, 1), 1)]);
    assert_eq!(store.len(), 3);
}

#[test]
fn lazy_prefix_walk_skips_undecodable() {
    let map = nmap();
    let mut store = RawStore::new();
    let k1: u16 = 3 << 8;
    for i in 0..4u32 {
        map.insert(&mut store, &key(k1, i), i as u64);
    }
    let bad = map.storage_n_map_final_key(&key(k1, 2));
    store.put(&bad, &[9]);
    let partial = vec![encode_uint(k1 as u64, 2)];
    let mut walk = map.prefix_iterator(&partial, true);
    let mut seen = Vec::new();
    while let Some((c, v)) = walk.next(&map, &mut store) {
        seen.push((decode_uint(&c[0], 4).unwrap(), v));
    }
    assert_eq!(seen, vec![(1, 1), (0, 0), (3, 3)]);
    assert_eq!(store.len(), 0);
}
