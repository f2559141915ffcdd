use swiss_archive::builder::SwissTableResolver;
use swiss_archive::hash::{hash_value, tag_of};
use swiss_archive::layout::EMPTY;
use swiss_archive::rc::{ArchiveContext, BoundsError, Shape, ValueError};
use swiss_archive::swiss_table::{
    bytes_eq, ArchivedSwissTable, Entry, EntryError, RawSwissTable, TableError,
};

fn entry(key: &str, value: u64) -> Entry {
    Entry { key: key.as_bytes().to_vec(), value }
}

fn key(text: &str) -> Vec<u8> {
    text.as_bytes().to_vec()
}

fn numbered(count: usize) -> Vec<Entry> {
    let mut pairs = Vec::new();
    for i in 0..count {
        pairs.push(entry(&format!("key-{}", i), (i as u64) * 3 + 1));
    }
    pairs
}

fn raw_table(pairs: &Vec<Entry>, load_factor: (usize, usize)) -> RawSwissTable {
    let resolver = ArchivedSwissTable::serialize_from_iter(pairs, load_factor);
    ArchivedSwissTable::resolve_from_len(pairs, pairs.len(), load_factor, resolver)
}

fn table(pairs: &Vec<Entry>, load_factor: (usize, usize)) -> ArchivedSwissTable {
    match ArchivedSwissTable::check(raw_table(pairs, load_factor), load_factor) {
        Ok(t) => t,
        Err(e) => panic!("a built table was refused: {:?}", e),
    }
}

fn refusal(raw: RawSwissTable, load_factor: (usize, usize)) -> Option<TableError> {
    ArchivedSwissTable::check(raw, load_factor).err()
}

#[test]
fn three_pairs_at_full_load() {
    let pairs = vec![entry("a", 1), entry("b", 2), entry("c", 3)];
    let t = table(&pairs, (1, 1));
    assert_eq!(t.len(), 3);
    assert!(t.capacity() >= 3);
    assert_eq!(t.get(&key("a")), Some(&1));
    assert_eq!(t.get(&key("b")), Some(&2));
    assert_eq!(t.get(&key("c")), Some(&3));
    assert_eq!(t.get(&key("z")), None);
    let mut it = t.iter();
    let mut count = 0;
    while it.next().is_some() {
        count += 1;
    }
    assert_eq!(count, 3);
    for _ in 0..5 {
        assert_eq!(t.get(&key("a")), Some(&1));
        assert_eq!(t.len(), 3);
    }
}

#[test]
fn round_trip_many_load_factors() {
    for load_factor in [(1usize, 1usize), (7, 8), (1, 2), (3, 4), (2, 1)] {
        for count in [0usize, 1, 2, 15, 16, 17, 33, 100] {
            let pairs = numbered(count);
            let t = table(&pairs, load_factor);
            assert_eq!(t.len(), count);
            for p in pairs.iter() {
                assert_eq!(t.get(&p.key), Some(&p.value));
                assert!(t.contains_key(&p.key));
            }
            for i in 0..40 {
                let absent = key(&format!("absent-{}", i));
                assert_eq!(t.get(&absent), None);
                assert!(!t.contains_key(&absent));
            }
        }
    }
}

#[test]
fn lookup_ends_in_full_tables_of_any_size() {
    for count in 1..70usize {
        let pairs = numbered(count);
        let t = table(&pairs, (1, 1));
        assert_eq!(t.capacity(), count);
        assert_eq!(t.get(&key("nowhere")), None);
        assert_eq!(t.get(&pairs[count - 1].key), Some(&pairs[count - 1].value));
    }
}

#[test]
fn insertion_order_does_not_change_equality() {
    let forward = numbered(40);
    let mut backward = numbered(40);
    backward.reverse();
    let a = table(&forward, (7, 8));
    let b = table(&backward, (7, 8));
    assert!(a.eq(&b));
    assert!(b.eq(&a));
    assert!(a == b);
    let mut changed = numbered(40);
    changed[7].value += 1;
    let c = table(&changed, (7, 8));
    assert!(!a.eq(&c));
    assert!(a != c);
    let shorter = table(&numbered(39), (7, 8));
    assert!(!a.eq(&shorter));
    assert!(!shorter.eq(&a));
}

#[test]
fn different_orders_give_different_buckets() {
    let names: Vec<String> = (0..400).map(|i| format!("key-{}", i)).collect();
    let hashes: Vec<u64> = names.iter().map(|n| hash_value(&key(n))).collect();
    let mut first = None;
    for i in 0..400 {
        for j in (i + 1)..400 {
            if first.is_none()
                && hashes[i] % 64 == hashes[j] % 64
                && hashes[i] % 64 < 63
                && tag_of(hashes[i]) != tag_of(hashes[j])
            {
                first = Some((i, j));
            }
        }
    }
    let (i, j) = first.expect("two of the keys start at one bucket");
    let start = (hashes[i] % 64) as usize;
    let mut one = vec![entry(&names[i], 1), entry(&names[j], 2)];
    let r1 = ArchivedSwissTable::serialize_from_iter(&one, (1, 32));
    one.reverse();
    let r2 = ArchivedSwissTable::serialize_from_iter(&one, (1, 32));
    assert_eq!(r1.bucket_count, 64);
    assert_eq!(r1.buckets, vec![start, start + 1]);
    assert_eq!(r2.buckets, vec![start, start + 1]);
    one.reverse();
    let a = ArchivedSwissTable::resolve_from_len(&one, 2, (1, 32), r1);
    one.reverse();
    let b = ArchivedSwissTable::resolve_from_len(&one, 2, (1, 32), r2);
    assert_ne!(a.ctrl, b.ctrl);
    let ta = ArchivedSwissTable::check(a, (1, 32)).ok().expect("valid");
    let tb = ArchivedSwissTable::check(b, (1, 32)).ok().expect("valid");
    assert!(ta.eq(&tb));
}

#[test]
fn first_entry_takes_its_start_bucket() {
    for name in ["a", "b", "key-7", "something longer"] {
        let pairs = vec![entry(name, 5)];
        let r = ArchivedSwissTable::serialize_from_iter(&pairs, (1, 10));
        assert_eq!(r.bucket_count, 10);
        assert_eq!(r.buckets, vec![(hash_value(&key(name)) % 10) as usize]);
    }
}

#[test]
fn probe_wraps_past_the_last_bucket() {
    let names: Vec<String> = (0..400).map(|i| format!("key-{}", i)).collect();
    let last: Vec<&String> =
        names.iter().filter(|n| hash_value(&key(n)) % 5 == 4).take(2).collect();
    assert_eq!(last.len(), 2);
    let pairs = vec![entry(last[0], 10), entry(last[1], 20)];
    let r = ArchivedSwissTable::serialize_from_iter(&pairs, (2, 5));
    assert_eq!(r.bucket_count, 5);
    assert_eq!(r.buckets, vec![4, 0]);
    let raw = ArchivedSwissTable::resolve_from_len(&pairs, 2, (2, 5), r);
    assert_eq!(raw.ctrl[5], raw.ctrl[0]);
    assert_ne!(raw.ctrl[5], EMPTY);
    let t = ArchivedSwissTable::check(raw, (2, 5)).ok().expect("valid");
    assert_eq!(t.get(&key(last[0])), Some(&10));
    assert_eq!(t.get(&key(last[1])), Some(&20));
    assert_eq!(t.get(&key("nowhere")), None);
}

#[test]
fn predicate_decides_what_is_found() {
    let pairs = numbered(40);
    let mut t = table(&pairs, (1, 1));
    for p in pairs.iter() {
        assert_eq!(t.get_key_value_with(&p.key, |_: &Vec<u8>, _: &Vec<u8>| false), None);
        assert_eq!(t.get_with(&p.key, |_: &Vec<u8>, _: &Vec<u8>| false), None);
        assert!(t.get_mut_with(&p.key, |_: &Vec<u8>, _: &Vec<u8>| false).is_none());
        assert!(t.get_key_value_mut_with(&p.key, |_: &Vec<u8>, _: &Vec<u8>| false).is_none());
        let any = t.get_key_value_with(&p.key, |_: &Vec<u8>, _: &Vec<u8>| true);
        let (stored, value) = any.expect("the entry itself carries the tag");
        assert_eq!(tag_of(hash_value(stored)), tag_of(hash_value(&p.key)));
        let at = pairs.iter().find(|q| &q.key == stored).expect("a stored key");
        assert_eq!(at.value, *value);
        let found = (stored.clone(), *value);
        match t.get_key_value_mut_with(&p.key, |_: &Vec<u8>, _: &Vec<u8>| true) {
            Some((k, v)) => assert_eq!((k.clone(), *v), found),
            None => panic!("the shared lookup found an entry"),
        }
    }
    let longer = |q: &Vec<u8>, k: &Vec<u8>| k.len() > q.len();
    assert_eq!(t.get_with(&key("key-1"), longer).is_some(), t.get_mut_with(&key("key-1"), longer).is_some());
    let single = table(&vec![entry("a", 1)], (1, 1));
    assert_eq!(single.get_with(&key("a"), |_: &Vec<u8>, _: &Vec<u8>| true), Some(&1));
    assert_eq!(single.get_with(&key("a"), |_: &Vec<u8>, _: &Vec<u8>| false), None);
}

#[test]
fn resolver_records_layout() {
    let pairs = numbered(3);
    let r: SwissTableResolver = ArchivedSwissTable::serialize_from_iter(&pairs, (1, 1));
    assert_eq!(r.bucket_count, 3);
    assert_eq!(r.tail, 13);
    assert_eq!(r.buckets.len(), 3);
    let mut seen = r.buckets.clone();
    seen.sort();
    assert_eq!(seen, vec![0, 1, 2]);
}

#[test]
fn entries_sit_where_the_resolver_says() {
    let pairs = numbered(20);
    let load_factor = (3, 4);
    let resolver = ArchivedSwissTable::serialize_from_iter(&pairs, load_factor);
    let buckets = resolver.buckets.clone();
    let raw = ArchivedSwissTable::resolve_from_len(&pairs, 20, load_factor, resolver);
    assert_eq!(raw.len, 20);
    assert_eq!(raw.slots.len(), 27);
    assert_eq!(raw.ctrl.len(), 32);
    for (m, b) in buckets.iter().enumerate() {
        assert_eq!(raw.slots[*b].key, pairs[m].key);
        assert_eq!(raw.slots[*b].value, pairs[m].value);
        assert_eq!(raw.ctrl[*b], tag_of(hash_value(&pairs[m].key)));
    }
    let full = raw.ctrl[..27].iter().filter(|c| **c != EMPTY).count();
    assert_eq!(full, 20);
}

#[test]
fn tail_repeats_head() {
    for count in [1usize, 3, 5, 17, 30] {
        let raw = raw_table(&numbered(count), (1, 1));
        assert_eq!(raw.ctrl.len() % 16, 0);
        for i in 0..raw.ctrl.len() {
            assert_eq!(raw.ctrl[i], raw.ctrl[i % count]);
        }
    }
}

#[test]
fn empty_table() {
    let t = table(&Vec::new(), (7, 8));
    assert!(t.is_empty());
    assert_eq!(t.len(), 0);
    assert_eq!(t.capacity(), 0);
    assert_eq!(t.get(&key("a")), None);
    assert!(t.iter().next().is_none());
    let raw = t.into_parts();
    assert!(raw.ctrl.is_empty());
    assert!(raw.slots.is_empty());
}

#[test]
fn key_value_and_custom_equality() {
    let pairs = numbered(10);
    let t = table(&pairs, (1, 2));
    let k = key("key-4");
    assert_eq!(t.get_key_value(&k), Some((&k, &13)));
    assert_eq!(t.get_key_value_with(&k, |q: &Vec<u8>, s: &Vec<u8>| q == s), Some((&k, &13)));
    assert_eq!(t.get_with(&k, |q: &Vec<u8>, s: &Vec<u8>| q == s), Some(&13));
    assert_eq!(t.get_with(&key("other"), |q: &Vec<u8>, s: &Vec<u8>| q == s), None);
    assert_eq!(*t.index(&k), 13);
    assert!(!t.is_empty());
}

#[test]
fn values_change_in_place() {
    let pairs = numbered(10);
    let mut t = table(&pairs, (1, 1));
    let k = key("key-2");
    match t.get_mut(&k) {
        Some(v) => *v = 700,
        None => panic!("key-2 is in the table"),
    }
    assert_eq!(t.get(&k), Some(&700));
    match t.get_key_value_mut(&key("key-3")) {
        Some((stored, v)) => {
            assert_eq!(stored, &key("key-3"));
            *v += 1;
        }
        None => panic!("key-3 is in the table"),
    }
    assert_eq!(t.get(&key("key-3")), Some(&11));
    assert!(t.get_mut(&key("missing")).is_none());
    assert!(t.get_mut_with(&k, bytes_eq).is_some());
    assert!(t.get_key_value_mut_with(&key("missing"), bytes_eq).is_none());
    assert_eq!(t.len(), 10);
    assert_eq!(t.get(&key("key-0")), Some(&1));
}

#[test]
fn iterators_walk_every_entry_once() {
    let pairs = numbered(21);
    let t = table(&pairs, (7, 8));
    let mut it = t.iter();
    assert_eq!(it.len(), 21);
    let mut seen: Vec<(Vec<u8>, u64)> = Vec::new();
    let mut left = 21;
    while let Some((k, v)) = it.next() {
        left -= 1;
        assert_eq!(it.len(), left);
        seen.push((k.clone(), *v));
    }
    assert!(it.next().is_none());
    let mut want: Vec<(Vec<u8>, u64)> = pairs.iter().map(|p| (p.key.clone(), p.value)).collect();
    seen.sort();
    want.sort();
    assert_eq!(seen, want);

    let mut keys = t.keys();
    assert_eq!(keys.len(), 21);
    let mut ks: Vec<Vec<u8>> = Vec::new();
    while let Some(k) = keys.next() {
        ks.push(k.clone());
    }
    ks.sort();
    assert_eq!(ks, want.iter().map(|p| p.0.clone()).collect::<Vec<_>>());

    let mut values = t.values();
    assert_eq!(values.len(), 21);
    let mut vs: Vec<u64> = Vec::new();
    while let Some(v) = values.next() {
        vs.push(*v);
    }
    vs.sort();
    let mut wv: Vec<u64> = pairs.iter().map(|p| p.value).collect();
    wv.sort();
    assert_eq!(vs, wv);
}

#[test]
fn iteration_follows_bucket_order() {
    let pairs = numbered(12);
    let raw = raw_table(&pairs, (1, 2));
    let order: Vec<Vec<u8>> = (0..raw.slots.len())
        .filter(|i| raw.ctrl[*i] != EMPTY)
        .map(|i| raw.slots[i].key.clone())
        .collect();
    let t = ArchivedSwissTable::check(raw, (1, 2)).ok().expect("valid");
    let mut keys = t.keys();
    let mut got = Vec::new();
    while let Some(k) = keys.next() {
        got.push(k.clone());
    }
    assert_eq!(got, order);
}

#[test]
fn check_refuses_wrong_layout() {
    let pairs = numbered(3);
    let mut raw = raw_table(&pairs, (1, 1));
    raw.slots.push(Entry { key: Vec::new(), value: 0 });
    assert_eq!(refusal(raw, (1, 1)), Some(TableError::InvalidLayout));
    let raw = raw_table(&pairs, (1, 1));
    assert_eq!(refusal(raw, (1, 2)), Some(TableError::InvalidLayout));
    let raw = raw_table(&pairs, (1, 1));
    assert_eq!(refusal(raw, (0, 1)), Some(TableError::InvalidLayout));
    let mut raw = raw_table(&pairs, (1, 1));
    raw.ctrl.pop();
    assert_eq!(refusal(raw, (1, 1)), Some(TableError::InvalidLayout));
    let mut raw = raw_table(&pairs, (1, 1));
    raw.len = 2;
    assert_eq!(refusal(raw, (1, 1)), Some(TableError::InvalidLayout));
}

#[test]
fn check_refuses_bad_control_byte() {
    let mut raw = raw_table(&numbered(3), (1, 1));
    raw.ctrl[1] = 0xff;
    assert_eq!(refusal(raw, (1, 1)), Some(TableError::InvalidControlByte(1)));
}

#[test]
fn check_refuses_tail_that_differs() {
    let mut raw = raw_table(&numbered(3), (1, 1));
    raw.ctrl[5] = EMPTY;
    assert_eq!(refusal(raw, (1, 1)), Some(TableError::TailMismatch(5)));
}

#[test]
fn check_refuses_wrong_count() {
    let mut raw = raw_table(&numbered(3), (1, 2));
    assert_eq!(raw.slots.len(), 6);
    let free = (0..6).find(|i| raw.ctrl[*i] == EMPTY).expect("three buckets are empty");
    raw.ctrl[free] = 0x01;
    raw.ctrl[free + 6] = 0x01;
    if free + 12 < 16 {
        raw.ctrl[free + 12] = 0x01;
    }
    assert_eq!(refusal(raw, (1, 2)), Some(TableError::LengthMismatch));
}

#[test]
fn check_accepts_what_was_built() {
    let pairs = numbered(50);
    let raw = raw_table(&pairs, (7, 8));
    let ctrl = raw.ctrl.clone();
    let t = ArchivedSwissTable::check(raw, (7, 8)).ok().expect("valid");
    let back = t.into_parts();
    assert_eq!(back.ctrl, ctrl);
    assert_eq!(back.len, 50);
}

#[test]
fn bytes_eq_compares_contents() {
    assert!(bytes_eq(&key("abc"), &key("abc")));
    assert!(!bytes_eq(&key("abc"), &key("abd")));
    assert!(!bytes_eq(&key("abc"), &key("ab")));
    assert!(bytes_eq(&Vec::new(), &Vec::new()));
}

#[test]
fn mutable_walks_change_values_only() {
    let pairs = numbered(9);
    let mut t = table(&pairs, (3, 4));
    {
        let mut it = t.iter_mut();
        assert_eq!(it.len(), 9);
        let mut seen = 0;
        while let Some((k, v)) = it.next() {
            assert!(k.starts_with(b"key-"));
            *v += 1000;
            seen += 1;
        }
        assert_eq!(seen, 9);
        assert_eq!(it.len(), 0);
        assert!(it.next().is_none());
    }
    for p in pairs.iter() {
        assert_eq!(t.get(&p.key), Some(&(p.value + 1000)));
    }
    {
        let mut values = t.values_mut();
        assert_eq!(values.len(), 9);
        while let Some(v) = values.next() {
            *v = 5;
        }
        assert_eq!(values.len(), 0);
    }
    for p in pairs.iter() {
        assert_eq!(t.get(&p.key), Some(&5));
    }
    assert_eq!(t.len(), 9);
}

#[test]
fn values_are_checked_with_the_claims_of_one_pass() {
    let types = vec![Shape::Shared(1), Shape::Leaf(2)];
    let mut buf = vec![0u8; 16];
    buf[0] = 1;
    buf[4..8].copy_from_slice(&(-4i32).to_le_bytes());
    buf[8..12].copy_from_slice(&(-8i32).to_le_bytes());
    let t = table(&vec![entry("a", 4), entry("b", 8)], (1, 1));
    let mut ctx = ArchiveContext::new(buf.len(), 2).expect("the claims fit");
    assert_eq!(t.check_values(&types, &buf, 0, &mut ctx), Ok(()));
    assert!(ctx.claim(1, 0));
    assert!(!ctx.claim(0, 4));
    buf[0] = 9;
    assert_eq!(t.check_values(&types, &buf, 0, &mut ctx), Ok(()));
    let mut fresh = ArchiveContext::new(buf.len(), 2).expect("the claims fit");
    assert_eq!(
        t.check_values(&types, &buf, 0, &mut fresh),
        Err(EntryError { bucket: 0, error: ValueError::Byte { offset: 0, byte: 9 } })
    );
    assert!(fresh.claim(1, 0));
    let far = table(&vec![entry("c", 1000)], (1, 1));
    let mut fresh = ArchiveContext::new(buf.len(), 2).expect("the claims fit");
    assert_eq!(
        far.check_values(&types, &buf, 0, &mut fresh),
        Err(EntryError {
            bucket: 0,
            error: ValueError::Bounds(BoundsError { offset: 1000, len: 4 })
        })
    );
    let none = table(&Vec::new(), (1, 1));
    assert_eq!(none.check_values(&types, &buf, 0, &mut fresh), Ok(()));
}

#[test]
fn strides_grow_from_group_to_group() {
    let names: Vec<String> = (0..8000).map(|i| format!("key-{}", i)).collect();
    let mut by_start: Vec<Vec<&String>> = vec![Vec::new(); 64];
    for n in names.iter() {
        by_start[(hash_value(&key(n)) % 64) as usize].push(n);
    }
    let start = (0..64).find(|s| by_start[*s].len() >= 33).expect("one start has 33 keys");
    let pairs: Vec<Entry> = by_start[start].iter().take(33).map(|n| entry(n, 1)).collect();
    let r = ArchivedSwissTable::serialize_from_iter(&pairs, (33, 64));
    assert_eq!(r.bucket_count, 64);
    for m in 0..32 {
        assert_eq!(r.buckets[m], (start + m) % 64);
    }
    assert_eq!(r.buckets[32], (start + 48) % 64);
    let raw = ArchivedSwissTable::resolve_from_len(&pairs, 33, (33, 64), r);
    let t = ArchivedSwissTable::check(raw, (33, 64)).ok().expect("valid");
    for p in pairs.iter() {
        assert_eq!(t.get(&p.key), Some(&1));
    }
    assert_eq!(t.get(&key("nowhere")), None);
}
