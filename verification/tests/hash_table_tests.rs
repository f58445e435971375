use redis::hash_table::{hash_bytes, HashDict, HashNode, HashTable, ResizeState};
use redis::redis_object::RedisObject;

#[test]
fn test_insert_lookup_and_delete() {
    struct TestData {
        key: &'static [u8],
        value: &'static [u8],
        expected: HashNode,
    }

    let tests = vec![
        TestData {
            key: b"key1",
            value: b"value1",
            expected: HashNode::new_from_bytes(b"key1", b"value1"),
        },
        TestData {
            key: b"key2",
            value: b"value2",
            expected: HashNode::new_from_bytes(b"key2", b"value2"),
        },
        TestData {
            key: b"key3",
            value: b"value3",
            expected: HashNode::new_from_bytes(b"key3", b"value3"),
        },
    ];

    let mut ht = HashTable::new(128);

    // insert nodes into hash table
    for test in &tests {
        ht.insert(HashNode::new_from_bytes(test.key, test.value));
    }

    assert_eq!(ht.used, 3);

    // extract nodes
    for test in &tests {
        let result = ht.lookup(test.key).unwrap();
        assert!(&test.expected.value == result);
    }

    // delete nodes
    for test in &tests {
        let result = ht.delete(test.key);
        assert_eq!(true, result);

        let lookup = ht.lookup(test.key);
        assert!(lookup.is_none());
    }
}

#[test]
fn test_overlapping_inserts() {
    struct TestData {
        key: &'static [u8],
        value: &'static [u8],
        expected: HashNode,
    }

    let tests = vec![
        TestData {
            key: b"key1",
            value: b"value1",
            expected: HashNode::new_from_bytes(b"key1", b"value1"),
        },
        TestData {
            key: b"key1",
            value: b"value2",
            expected: HashNode::new_from_bytes(b"key1", b"value2"),
        },
        TestData {
            key: b"key1",
            value: b"value3",
            expected: HashNode::new_from_bytes(b"key1", b"value3"),
        },
    ];

    let mut ht = HashTable::new(128);

    for test in tests {
        ht.insert(HashNode::new_from_bytes(test.key, test.value));
        let result = ht.lookup(test.key).unwrap();
        assert!(&test.expected.value == result);
        assert_eq!(ht.used, 1);
    }
}

#[test]
fn test_resizing_hash_dict() {
    let mut hash_dict = HashDict::new();
    let mut inserted = 0;

    // insert until resizing is triggerd
    loop {
        let key_str = format!("key{}", inserted);
        let value_str = format!("value{}", inserted);
        let node = HashNode::new_from_bytes(key_str.as_bytes(), value_str.as_bytes());
        hash_dict.insert(node);
        inserted += 1;

        match hash_dict.state {
            ResizeState::Resizing { .. } => {
                break;
            }
            ResizeState::NotResizing => {}
        }
    }

    // misc lookups until resizing is done
    loop {
        let key_str = format!("key{}", inserted);
        let _ = hash_dict.lookup(key_str.as_bytes());

        match hash_dict.state {
            ResizeState::Resizing { .. } => {}
            ResizeState::NotResizing => {
                break;
            }
        }
    }

    let expected_capacity = 2 * 4;
    assert_eq!(expected_capacity, hash_dict.main_ht.size_hint());

    for i in 0..inserted {
        let key_str = format!("key{}", i);

        let value_str = format!("value{}", i);
        let expected = RedisObject::new_from_bytes(value_str.as_bytes());

        let redis_object = hash_dict
            .lookup(key_str.as_bytes())
            .expect(&format!("Missing key {}", key_str));

        assert!(expected == redis_object.clone());
    }
}

#[test]
fn test_rehash_transparency_many_keys() {
    // Enough keys to force several table doublings; every key must still be
    // found with its last value afterwards.
    let mut dict = HashDict::new();
    for i in 0..500 {
        let key = format!("k{}", i);
        let val = format!("v{}", i);
        dict.insert(HashNode::new_from_bytes(key.as_bytes(), val.as_bytes()));
    }
    for i in 0..250 {
        let key = format!("k{}", i);
        let val = format!("w{}", i);
        dict.insert(HashNode::new_from_bytes(key.as_bytes(), val.as_bytes()));
    }
    for i in 0..500 {
        let key = format!("k{}", i);
        let val = if i < 250 { format!("w{}", i) } else { format!("v{}", i) };
        let expected = RedisObject::new_from_bytes(val.as_bytes());
        let got = dict.lookup(key.as_bytes()).expect("missing key");
        assert!(expected == got.clone());
    }
    for i in 0..500 {
        let key = format!("k{}", i);
        assert!(dict.delete(key.as_bytes()));
        assert!(dict.lookup(key.as_bytes()).is_none());
    }
    assert!(!dict.delete(b"k0"));
}

#[test]
fn test_fnv_hash_fixed_values() {
    // FNV-1a placement is part of the contract: same bytes, same hash, on
    // every run.
    assert_eq!(hash_bytes(b""), 0x811C9DC5);
    assert_eq!(hash_bytes(b"a"), ((0x811C9DC5u64 + 97) * 0x01000193) % 0x1_0000_0000);
    assert_eq!(hash_bytes(b"abc"), hash_bytes(b"abc"));
    assert!(hash_bytes(b"abc") < 0x1_0000_0000);
}
