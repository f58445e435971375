use redis::redis_object::RedisObject;

#[test]
fn test_get_redis_object() {
    struct TestData {
        bytes: &'static [u8],
        expected: RedisObject,
    }

    let tests = vec![
        TestData {
            bytes: b"hello",
            expected: RedisObject::String(b"hello".to_vec()),
        },
        TestData {
            bytes: b"",
            expected: RedisObject::String(b"".to_vec()),
        },
        TestData { bytes: b"123", expected: RedisObject::Int(123) },
        TestData { bytes: b"-123", expected: RedisObject::Int(-123) },
        TestData { bytes: b"0", expected: RedisObject::Int(0) },
        TestData { bytes: b"-0", expected: RedisObject::Int(0) },
        TestData {
            bytes: b"01",
            expected: RedisObject::String(b"01".to_vec()),
        },
        TestData { bytes: b"32767", expected: RedisObject::Int(32767) },
        TestData { bytes: b"52767", expected: RedisObject::Int(52767) },
        TestData { bytes: b"-52767", expected: RedisObject::Int(-52767) },
        TestData { bytes: b"-2147483648", expected: RedisObject::Int(-2147483648) },
        TestData { bytes: b"2147483647", expected: RedisObject::Int(2147483647) },
        TestData { bytes: b"2147483648", expected: RedisObject::Int(2147483648) },
        TestData { bytes: b"3147483647", expected: RedisObject::Int(3147483647) },
        TestData { bytes: b"-3147483647", expected: RedisObject::Int(-3147483647) },
        TestData {
            bytes: b"9223372036854775807",
            expected: RedisObject::Int(9223372036854775807),
        },
        TestData {
            bytes: b"-9223372036854775808",
            expected: RedisObject::Int(-9223372036854775808),
        },
        TestData {
            bytes: b"28399223372036854775808",
            expected: RedisObject::String(b"28399223372036854775808".to_vec()),
        },
    ];

    for test in tests {
        let result = RedisObject::get_redis_object(test.bytes);
        assert!(
            test.expected == result,
            "classification differed for bytes: {}",
            String::from_utf8_lossy(test.bytes),
        );
    }
}

#[test]
fn test_int_classification_boundaries() {
    // i64::MIN parses as an integer; one past i64::MAX falls back to String.
    assert!(
        RedisObject::get_redis_object(b"-9223372036854775808")
            == RedisObject::Int(i64::MIN)
    );
    assert!(
        RedisObject::get_redis_object(b"9223372036854775808")
            == RedisObject::String(b"9223372036854775808".to_vec())
    );
    assert!(
        RedisObject::get_redis_object(b"-9223372036854775809")
            == RedisObject::String(b"-9223372036854775809".to_vec())
    );
}

#[test]
fn test_to_resp_rendering() {
    let obj = RedisObject::Int(-42);
    assert_eq!(obj.to_resp(), b"$3\r\n-42\r\n".to_vec());
    let obj = RedisObject::Int(i64::MIN);
    assert_eq!(obj.to_resp(), b"$20\r\n-9223372036854775808\r\n".to_vec());
    let obj = RedisObject::String(b"bar".to_vec());
    assert_eq!(obj.to_resp(), b"$3\r\nbar\r\n".to_vec());
    let obj = RedisObject::String(b"".to_vec());
    assert_eq!(obj.to_resp(), b"$0\r\n\r\n".to_vec());
    assert_eq!(RedisObject::Int(0).to_bytes(), b"0".to_vec());
    assert_eq!(RedisObject::Int(1000).to_bytes(), b"1000".to_vec());
}
