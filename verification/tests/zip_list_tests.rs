use redis::redis_object::RedisObject;
use redis::zip_list::{EncodingType, ZipEntry, ZipList};

const INT8_TAG: u8 = 0b1111_1110;
const INT16_TAG: u8 = 0b1100_0000;
const INT24_TAG: u8 = 0b1111_0000;
const INT32_TAG: u8 = 0b1101_0000;
const INT64_TAG: u8 = 0b1110_0000;
const STR32_TAG: u8 = 0b1000_0000;

#[test]
fn test_zip_entry_from_redis_object() {
    struct TestData {
        obj: RedisObject,
        expected: ZipEntry,
    }

    let tests = vec![
        TestData {
            obj: RedisObject::new_from_bytes(b"5"),
            expected: ZipEntry::Int4BitsImmediate(5),
        },
        TestData {
            obj: RedisObject::new_from_bytes(b"12"),
            expected: ZipEntry::Int4BitsImmediate(12),
        },
        TestData {
            obj: RedisObject::new_from_bytes(b"0"),
            expected: ZipEntry::Int4BitsImmediate(0),
        },
        TestData { obj: RedisObject::new_from_bytes(b"100"), expected: ZipEntry::Int8(100) },
        TestData { obj: RedisObject::new_from_bytes(b"-100"), expected: ZipEntry::Int8(-100) },
        TestData { obj: RedisObject::new_from_bytes(b"127"), expected: ZipEntry::Int8(127) },
        TestData { obj: RedisObject::new_from_bytes(b"-128"), expected: ZipEntry::Int8(-128) },
        TestData { obj: RedisObject::new_from_bytes(b"1000"), expected: ZipEntry::Int16(1000) },
        TestData {
            obj: RedisObject::new_from_bytes(b"-1000"),
            expected: ZipEntry::Int16(-1000),
        },
        TestData {
            obj: RedisObject::new_from_bytes(b"32767"),
            expected: ZipEntry::Int16(32767),
        },
        TestData {
            obj: RedisObject::new_from_bytes(b"-32768"),
            expected: ZipEntry::Int16(-32768),
        },
        TestData {
            obj: RedisObject::new_from_bytes(b"100000"),
            expected: ZipEntry::Int24(100000),
        },
        TestData {
            obj: RedisObject::new_from_bytes(b"-100000"),
            expected: ZipEntry::Int24(-100000),
        },
        TestData {
            obj: RedisObject::new_from_bytes(b"8388607"),
            expected: ZipEntry::Int24(8388607),
        },
        TestData {
            obj: RedisObject::new_from_bytes(b"-8388608"),
            expected: ZipEntry::Int24(-8388608),
        },
        TestData {
            obj: RedisObject::new_from_bytes(b"10000000"),
            expected: ZipEntry::Int32(10000000),
        },
        TestData {
            obj: RedisObject::new_from_bytes(b"-10000000"),
            expected: ZipEntry::Int32(-10000000),
        },
        TestData {
            obj: RedisObject::new_from_bytes(b"2147483647"),
            expected: ZipEntry::Int32(2147483647),
        },
        TestData {
            obj: RedisObject::new_from_bytes(b"-2147483648"),
            expected: ZipEntry::Int32(-2147483648),
        },
        TestData {
            obj: RedisObject::new_from_bytes(b"5000000000"),
            expected: ZipEntry::Int64(5000000000),
        },
        TestData {
            obj: RedisObject::new_from_bytes(b"-5000000000"),
            expected: ZipEntry::Int64(-5000000000),
        },
        TestData {
            obj: RedisObject::new_from_bytes(b"9223372036854775807"),
            expected: ZipEntry::Int64(9223372036854775807),
        },
        TestData {
            obj: RedisObject::new_from_bytes(b"-9223372036854775808"),
            expected: ZipEntry::Int64(-9223372036854775808),
        },
        // strings
        TestData {
            obj: RedisObject::String(b"hello".to_vec()),
            expected: ZipEntry::Str6BitsLength(b"hello".to_vec()),
        },
        TestData {
            obj: RedisObject::String(vec![b'a'; 63]),
            expected: ZipEntry::Str6BitsLength(vec![b'a'; 63]),
        },
        TestData {
            obj: RedisObject::String(b"".to_vec()),
            expected: ZipEntry::Str6BitsLength(b"".to_vec()),
        },
        TestData {
            obj: RedisObject::String(vec![b'b'; 1000]),
            expected: ZipEntry::Str14BitsLength(vec![b'b'; 1000]),
        },
        TestData {
            obj: RedisObject::String(vec![b'c'; 16383]),
            expected: ZipEntry::Str14BitsLength(vec![b'c'; 16383]),
        },
        TestData {
            obj: RedisObject::String(vec![b'd'; 64]),
            expected: ZipEntry::Str14BitsLength(vec![b'd'; 64]),
        },
        TestData {
            obj: RedisObject::String(vec![b'e'; 100000]),
            expected: ZipEntry::Str32BitsLength(vec![b'e'; 100000]),
        },
        TestData {
            obj: RedisObject::String(vec![b'g'; 16384]),
            expected: ZipEntry::Str32BitsLength(vec![b'g'; 16384]),
        },
    ];

    for test in tests {
        let result = ZipEntry::from_redis_object(test.obj).unwrap();
        assert_eq!(test.expected, result);
    }
}

#[test]
fn test_get_encoding_from_header() {
    struct TestData {
        header: u8,
        expected: EncodingType,
    }

    let tests = vec![
        TestData { header: 0b0011_1011, expected: EncodingType::Str6BitsLength },
        TestData { header: 0b0110_1111, expected: EncodingType::Str14BitsLength },
        TestData { header: 0b1000_0000, expected: EncodingType::Str32BitsLength },
        TestData { header: 0b1111_0001, expected: EncodingType::Int4BitsImmediate },
        TestData { header: 0b1111_0010, expected: EncodingType::Int4BitsImmediate },
        TestData { header: 0b1111_1101, expected: EncodingType::Int4BitsImmediate },
        TestData { header: 0b1111_1110, expected: EncodingType::Int8 },
        TestData { header: 0b1111_1110, expected: EncodingType::Int8 },
        TestData { header: 0b1100_0000, expected: EncodingType::Int16 },
        TestData { header: 0b1111_0000, expected: EncodingType::Int24 },
        TestData { header: 0b1101_0000, expected: EncodingType::Int32 },
        TestData { header: 0b1110_0000, expected: EncodingType::Int64 },
    ];

    for test in tests {
        let result = EncodingType::from_header(test.header);
        assert_eq!(test.expected, result);
    }
}

#[test]
fn test_zip_list_push() {
    struct TestData {
        entries: Vec<ZipEntry>,
        expected: Vec<u8>,
    }

    let tests = vec![
        TestData {
            entries: vec![ZipEntry::Int4BitsImmediate(5)],
            expected: vec![
                13, 0, 0, 0, 10, 0, 0, 0, 1, 0,
                0, 0b1111_0110,
                0xFF,
            ],
        },
        TestData {
            entries: vec![ZipEntry::Int8(100)],
            expected: vec![
                14, 0, 0, 0, 10, 0, 0, 0, 1, 0,
                0, INT8_TAG, 100,
                0xFF,
            ],
        },
        TestData {
            entries: vec![ZipEntry::Int8(-100)],
            expected: vec![
                14, 0, 0, 0, 10, 0, 0, 0, 1, 0,
                0, INT8_TAG, 0b10011100,
                0xFF,
            ],
        },
        TestData {
            entries: vec![ZipEntry::Int16(1000)],
            expected: vec![
                15, 0, 0, 0, 10, 0, 0, 0, 1, 0,
                0, INT16_TAG, 0xE8, 0x03,
                0xFF,
            ],
        },
        TestData {
            entries: vec![ZipEntry::Int24(8388607)],
            expected: vec![
                16, 0, 0, 0, 10, 0, 0, 0, 1, 0,
                0, INT24_TAG, 0xFF, 0xFF, 0x7F,
                0xFF,
            ],
        },
        TestData {
            entries: vec![ZipEntry::Int32(2147483647)],
            expected: vec![
                17, 0, 0, 0, 10, 0, 0, 0, 1, 0,
                0, INT32_TAG, 0xFF, 0xFF, 0xFF, 0x7F,
                0xFF,
            ],
        },
        TestData {
            entries: vec![ZipEntry::Int64(5000000000)],
            expected: vec![
                21, 0, 0, 0, 10, 0, 0, 0, 1, 0,
                0, INT64_TAG, 0x00, 0xF2, 0x05, 0x2A, 0x01, 0x00, 0x00, 0x00,
                0xFF,
            ],
        },
        // all int tests together
        TestData {
            entries: vec![
                ZipEntry::Int4BitsImmediate(5),
                ZipEntry::Int8(100),
                ZipEntry::Int16(1000),
                ZipEntry::Int24(8388607),
                ZipEntry::Int32(2147483647),
                ZipEntry::Int64(5000000000),
            ],
            expected: vec![
                41, 0, 0, 0, 30, 0, 0, 0, 6, 0,
                0, 0b1111_0110,
                2, INT8_TAG, 100,
                3, INT16_TAG, 0xE8, 0x03,
                4, INT24_TAG, 0xFF, 0xFF, 0x7F,
                5, INT32_TAG, 0xFF, 0xFF, 0xFF, 0x7F,
                6, INT64_TAG, 0x00, 0xF2, 0x05, 0x2A, 0x01, 0x00, 0x00, 0x00,
                0xFF,
            ],
        },
        TestData {
            entries: vec![
                ZipEntry::Int8(-100),
                ZipEntry::Int16(-1000),
                ZipEntry::Int24(-8388607),
                ZipEntry::Int32(-2147483647),
                ZipEntry::Int64(-5000000000),
            ],
            expected: vec![
                39, 0, 0, 0, 28, 0, 0, 0, 5, 0,
                0, INT8_TAG, 156,
                3, INT16_TAG, 0x18, 0xFC,
                4, INT24_TAG, 0x01, 0x00, 0x80,
                5, INT32_TAG, 0x01, 0x00, 0x00, 0x80,
                6, INT64_TAG, 0x00, 0x0E, 0xFA, 0xD5, 0xFE, 0xFF, 0xFF, 0xFF,
                0xFF,
            ],
        },
        // string tests
        TestData {
            entries: vec![
                ZipEntry::Str6BitsLength(b"Hello World".to_vec()),
                ZipEntry::Str14BitsLength(vec![b'a'; 70]),
            ],
            expected: {
                let mut e = vec![
                    97, 0x00, 0x00, 0x00, 23, 0x00, 0x00, 0x00, 2, 0,
                    0,
                    0b00_001011,
                    0x48, 0x65, 0x6C, 0x6C, 0x6F, 0x20, 0x57, 0x6F, 0x72, 0x6C, 0x64,
                    13,
                    0b01_000000, 0b0_1000110,
                ];
                e.extend_from_slice(&[b'a'; 70]);
                e.push(0xFF);
                e
            },
        },
        // long string test
        TestData {
            entries: vec![
                ZipEntry::Str6BitsLength(b"Hello World".to_vec()),
                ZipEntry::Str14BitsLength(vec![b'a'; 70]),
                ZipEntry::Str32BitsLength(vec![b'b'; 70_000]),
                ZipEntry::Str32BitsLength(vec![b'c'; 70_000]),
            ],
            expected: {
                let mut e = vec![
                    0x51, 0x23, 0x02, 0x00, 0xD6, 0x11, 0x01, 0x00, 4, 0,
                    0,
                    0b00_001011,
                    0x48, 0x65, 0x6C, 0x6C, 0x6F, 0x20, 0x57, 0x6F, 0x72, 0x6C, 0x64,
                    13,
                    0b01_000000, 0b0_1000110,
                ];
                e.extend_from_slice(&[b'a'; 70]);
                e.extend_from_slice(&[
                    73,
                    STR32_TAG, 0x00, 0x01, 0x11, 0x70,
                ]);
                e.extend_from_slice(&[b'b'; 70_000]);
                e.extend_from_slice(&[
                    0xFE, 0x76, 0x11, 0x01, 0x00,
                    STR32_TAG, 0x00, 0x01, 0x11, 0x70,
                ]);
                e.extend_from_slice(&[b'c'; 70_000]);
                e.push(0xFF);
                e
            },
        },
    ];

    for test in tests {
        let mut zl = ZipList::new();
        for entry in test.entries {
            let _ = zl.push(entry);
        }

        assert_eq!(&test.expected, zl.as_bytes());
    }
}

#[test]
fn test_zip_list_insert() {
    struct InsertEntry {
        entry: ZipEntry,
        index: usize,
    }

    struct TestData {
        entries: Vec<InsertEntry>,
        expected: Vec<u8>,
    }

    let tests = vec![
        TestData {
            entries: vec![InsertEntry { entry: ZipEntry::Int4BitsImmediate(5), index: 0 }],
            expected: vec![
                13, 0, 0, 0, 10, 0, 0, 0, 1, 0,
                0, 0b1111_0110,
                0xFF,
            ],
        },
        TestData {
            entries: vec![
                InsertEntry { entry: ZipEntry::Int4BitsImmediate(5), index: 0 },
                InsertEntry { entry: ZipEntry::Int4BitsImmediate(4), index: 0 },
                InsertEntry { entry: ZipEntry::Int4BitsImmediate(3), index: 1 },
            ],
            expected: vec![
                17, 0, 0, 0, 14, 0, 0, 0, 3, 0,
                0, 0b1111_0101,
                2, 0b1111_0100,
                2, 0b1111_0110,
                0xFF,
            ],
        },
        TestData {
            entries: vec![
                InsertEntry { entry: ZipEntry::Int8(50), index: 0 },
                InsertEntry { entry: ZipEntry::Int16(300), index: 0 },
                InsertEntry { entry: ZipEntry::Int24(8388607), index: 1 },
                InsertEntry { entry: ZipEntry::Int32(2147483647), index: 2 },
                InsertEntry { entry: ZipEntry::Int64(5000000000), index: 1 },
                InsertEntry { entry: ZipEntry::Int4BitsImmediate(4), index: 3 },
            ],
            expected: vec![
                41, 0, 0, 0, 37, 0, 0, 0, 6, 0,
                0, INT16_TAG, 0x2C, 0x01,
                4, INT64_TAG, 0x00, 0xF2, 0x05, 0x2A, 0x01, 0x00, 0x00, 0x00,
                10, INT24_TAG, 0xFF, 0xFF, 0x7F,
                5, 0b1111_0101,
                2, INT32_TAG, 0xFF, 0xFF, 0xFF, 0x7F,
                6, INT8_TAG, 50,
                0xFF,
            ],
        },
        TestData {
            entries: vec![
                InsertEntry { entry: ZipEntry::Int24(-8388607), index: 0 },
                InsertEntry { entry: ZipEntry::Int8(-100), index: 0 },
                InsertEntry { entry: ZipEntry::Int64(-5000000000), index: 2 },
                InsertEntry { entry: ZipEntry::Int16(-1000), index: 1 },
                InsertEntry { entry: ZipEntry::Int32(-2147483647), index: 3 },
            ],
            expected: vec![
                39, 0, 0, 0, 28, 0, 0, 0, 5, 0,
                0, INT8_TAG, 156,
                3, INT16_TAG, 0x18, 0xFC,
                4, INT24_TAG, 0x01, 0x00, 0x80,
                5, INT32_TAG, 0x01, 0x00, 0x00, 0x80,
                6, INT64_TAG, 0x00, 0x0E, 0xFA, 0xD5, 0xFE, 0xFF, 0xFF, 0xFF,
                0xFF,
            ],
        },
        // string tests
        TestData {
            entries: vec![
                InsertEntry {
                    entry: ZipEntry::Str32BitsLength(vec![b'b'; 70_000]),
                    index: 0,
                },
                InsertEntry {
                    entry: ZipEntry::Str14BitsLength(vec![b'a'; 70]),
                    index: 0,
                },
                InsertEntry {
                    entry: ZipEntry::Str6BitsLength(b"Hello World".to_vec()),
                    index: 0,
                },
            ],
            expected: {
                let mut e = vec![
                    0xD7, 0x11, 0x01, 0x00, 0x60, 0x00, 0x00, 0x00, 3, 0,
                    0,
                    0b00_001011,
                    0x48, 0x65, 0x6C, 0x6C, 0x6F, 0x20, 0x57, 0x6F, 0x72, 0x6C, 0x64,
                    13,
                    0b01_000000, 0b0_1000110,
                ];
                e.extend_from_slice(&[b'a'; 70]);
                e.extend_from_slice(&[
                    73,
                    STR32_TAG, 0x00, 0x01, 0x11, 0x70,
                ]);
                e.extend_from_slice(&[b'b'; 70_000]);
                e.push(0xFF);
                e
            },
        },
        TestData {
            entries: vec![
                InsertEntry {
                    entry: ZipEntry::Str6BitsLength(b"Hello World".to_vec()),
                    index: 0,
                },
                InsertEntry {
                    entry: ZipEntry::Str14BitsLength(vec![b'a'; 70]),
                    index: 1,
                },
                InsertEntry {
                    entry: ZipEntry::Str32BitsLength(vec![b'b'; 70_000]),
                    index: 2,
                },
                InsertEntry {
                    entry: ZipEntry::Str32BitsLength(vec![b'c'; 70_000]),
                    index: 3,
                },
            ],
            expected: {
                let mut e = vec![
                    0x51, 0x23, 0x02, 0x00, 0xD6, 0x11, 0x01, 0x00, 4, 0,
                    0,
                    0b00_001011,
                    0x48, 0x65, 0x6C, 0x6C, 0x6F, 0x20, 0x57, 0x6F, 0x72, 0x6C, 0x64,
                    13,
                    0b01_000000, 0b0_1000110,
                ];
                e.extend_from_slice(&[b'a'; 70]);
                e.extend_from_slice(&[
                    73,
                    STR32_TAG, 0x00, 0x01, 0x11, 0x70,
                ]);
                e.extend_from_slice(&[b'b'; 70_000]);
                e.extend_from_slice(&[
                    0xFE, 0x76, 0x11, 0x01, 0x00,
                    STR32_TAG, 0x00, 0x01, 0x11, 0x70,
                ]);
                e.extend_from_slice(&[b'c'; 70_000]);
                e.push(0xFF);
                e
            },
        },
    ];

    for test in tests {
        let mut zl = ZipList::new();
        for entry in test.entries {
            let _ = zl.insert(entry.index, entry.entry);
        }

        assert_eq!(&test.expected, zl.as_bytes());
    }
}

#[test]
fn test_zip_list_delete() {
    struct TestData {
        init_state: Vec<u8>,
        deletions: Vec<usize>,
        expected: Vec<u8>,
    }

    let tests = vec![
        // int tests
        TestData {
            init_state: vec![
                13, 0, 0, 0, 10, 0, 0, 0, 1, 0,
                0, 0b1111_0110,
                0xFF,
            ],
            deletions: vec![0],
            expected: vec![
                11, 0, 0, 0, 10, 0, 0, 0, 0, 0,
                0xFF,
            ],
        },
        TestData {
            init_state: vec![
                41, 0, 0, 0, 30, 0, 0, 0, 6, 0,
                0, 0b1111_0110,
                2, INT8_TAG, 100,
                3, INT16_TAG, 0xE8, 0x03,
                4, INT24_TAG, 0xFF, 0xFF, 0x7F,
                5, INT32_TAG, 0xFF, 0xFF, 0xFF, 0x7F,
                6, INT64_TAG, 0x00, 0xF2, 0x05, 0x2A, 0x01, 0x00, 0x00, 0x00,
                0xFF,
            ],
            deletions: vec![1, 4],
            expected: vec![
                28, 0, 0, 0, 21, 0, 0, 0, 4, 0,
                0, 0b1111_0110,
                2, INT16_TAG, 0xE8, 0x03,
                4, INT24_TAG, 0xFF, 0xFF, 0x7F,
                5, INT32_TAG, 0xFF, 0xFF, 0xFF, 0x7F,
                0xFF,
            ],
        },
        TestData {
            init_state: vec![
                41, 0, 0, 0, 30, 0, 0, 0, 6, 0,
                0, 0b1111_0110,
                2, INT8_TAG, 100,
                3, INT16_TAG, 0xE8, 0x03,
                4, INT24_TAG, 0xFF, 0xFF, 0x7F,
                5, INT32_TAG, 0xFF, 0xFF, 0xFF, 0x7F,
                6, INT64_TAG, 0x00, 0xF2, 0x05, 0x2A, 0x01, 0x00, 0x00, 0x00,
                0xFF,
            ],
            deletions: vec![3, 4, 0, 1, 0, 0],
            expected: vec![
                11, 0, 0, 0, 10, 0, 0, 0, 0, 0,
                0xFF,
            ],
        },
        // string tests
        TestData {
            init_state: {
                let mut e = vec![
                    100, 0x00, 0x00, 0x00, 96, 0x00, 0x00, 0x00, 3, 0,
                    0,
                    0b00_001011,
                    0x48, 0x65, 0x6C, 0x6C, 0x6F, 0x20, 0x57, 0x6F, 0x72, 0x6C, 0x64,
                    13,
                    0b01_000000, 0b0_1000110,
                ];
                e.extend_from_slice(&[b'a'; 70]);
                e.extend_from_slice(&[
                    73,
                    INT8_TAG, 5,
                ]);
                e.push(0xFF);
                e
            },
            deletions: vec![1, 1],
            expected: {
                let mut e = vec![
                    24, 0x00, 0x00, 0x00, 10, 0x00, 0x00, 0x00, 1, 0,
                    0,
                    0b00_001011,
                    0x48, 0x65, 0x6C, 0x6C, 0x6F, 0x20, 0x57, 0x6F, 0x72, 0x6C, 0x64,
                ];
                e.push(0xFF);
                e
            },
        },
        TestData {
            init_state: vec![
                50, 0x00, 0x00, 0x00, 36, 0x00, 0x00, 0x00, 3, 0,
                0,
                0b00_001011,
                0x48, 0x65, 0x6C, 0x6C, 0x6F, 0x20, 0x57, 0x6F, 0x72, 0x6C, 0x64,
                13,
                0b00_001011,
                0x48, 0x65, 0x6C, 0x6C, 0x6F, 0x20, 0x57, 0x6F, 0x72, 0x6C, 0x64,
                13,
                0b00_001011,
                0x48, 0x65, 0x6C, 0x6C, 0x6F, 0x20, 0x57, 0x6F, 0x72, 0x6C, 0x64,
                0xFF,
            ],
            deletions: vec![1, 1],
            expected: vec![
                24, 0x00, 0x00, 0x00, 10, 0x00, 0x00, 0x00, 1, 0,
                0,
                0b00_001011,
                0x48, 0x65, 0x6C, 0x6C, 0x6F, 0x20, 0x57, 0x6F, 0x72, 0x6C, 0x64,
                0xFF,
            ],
        },
        TestData {
            init_state: {
                let mut e = vec![
                    0x51, 0x23, 0x02, 0x00, 0xD6, 0x11, 0x01, 0x00, 4, 0,
                    0,
                    0b00_001011,
                    0x48, 0x65, 0x6C, 0x6C, 0x6F, 0x20, 0x57, 0x6F, 0x72, 0x6C, 0x64,
                    13,
                    0b01_000000, 0b0_1000110,
                ];
                e.extend_from_slice(&[b'a'; 70]);
                e.extend_from_slice(&[
                    73,
                    STR32_TAG, 0x00, 0x01, 0x11, 0x70,
                ]);
                e.extend_from_slice(&[b'b'; 70_000]);
                e.extend_from_slice(&[
                    0xFE, 0x76, 0x11, 0x01, 0x00,
                    STR32_TAG, 0x00, 0x01, 0x11, 0x70,
                ]);
                e.extend_from_slice(&[b'c'; 70_000]);
                e.push(0xFF);
                e
            },
            deletions: vec![2, 2],
            expected: {
                let mut e = vec![
                    97, 0x00, 0x00, 0x00, 23, 0x00, 0x00, 0x00, 2, 0,
                    0,
                    0b00_001011,
                    0x48, 0x65, 0x6C, 0x6C, 0x6F, 0x20, 0x57, 0x6F, 0x72, 0x6C, 0x64,
                    13,
                    0b01_000000, 0b0_1000110,
                ];
                e.extend_from_slice(&[b'a'; 70]);
                e.push(0xFF);
                e
            },
        },
    ];

    for test in tests {
        let mut zl = ZipList::from_bytes(test.init_state).unwrap();
        for index in test.deletions {
            let _ = zl.delete(index);
        }

        assert_eq!(&test.expected, zl.as_bytes());
    }
}

#[test]
fn test_zip_list_get() {
    struct TestData {
        init_state: Vec<u8>,
        get: Vec<usize>,
        expected: Vec<RedisObject>,
    }

    let tests = vec![
        TestData {
            init_state: vec![
                41, 0, 0, 0, 30, 0, 0, 0, 6, 0,
                0, 0b1111_0110,
                2, INT8_TAG, 100,
                3, INT16_TAG, 0xE8, 0x03,
                4, INT24_TAG, 0xFF, 0xFF, 0x7F,
                5, INT32_TAG, 0xFF, 0xFF, 0xFF, 0x7F,
                6, INT64_TAG, 0x00, 0xF2, 0x05, 0x2A, 0x01, 0x00, 0x00, 0x00,
                0xFF,
            ],
            get: vec![0, 1, 2, 3, 4, 5],
            expected: vec![
                RedisObject::Int(5),
                RedisObject::Int(100),
                RedisObject::Int(1000),
                RedisObject::Int(8388607),
                RedisObject::Int(2147483647),
                RedisObject::Int(5000000000),
            ],
        },
        TestData {
            init_state: vec![
                39, 0, 0, 0, 28, 0, 0, 0, 5, 0,
                0, INT8_TAG, 156,
                3, INT16_TAG, 0x18, 0xFC,
                4, INT24_TAG, 0x01, 0x00, 0x80,
                5, INT32_TAG, 0x01, 0x00, 0x00, 0x80,
                6, INT64_TAG, 0x00, 0x0E, 0xFA, 0xD5, 0xFE, 0xFF, 0xFF, 0xFF,
                0xFF,
            ],
            get: vec![0, 1, 2, 3, 4],
            expected: vec![
                RedisObject::Int(-100),
                RedisObject::Int(-1000),
                RedisObject::Int(-8388607),
                RedisObject::Int(-2147483647),
                RedisObject::Int(-5000000000),
            ],
        },
        // get strings
        TestData {
            init_state: {
                let mut e = vec![
                    0x51, 0x23, 0x02, 0x00, 0xD6, 0x11, 0x01, 0x00, 4, 0,
                    0,
                    0b00_001011,
                    0x48, 0x65, 0x6C, 0x6C, 0x6F, 0x20, 0x57, 0x6F, 0x72, 0x6C, 0x64,
                    13,
                    0b01_000000, 0b0_1000110,
                ];
                e.extend_from_slice(&[b'a'; 70]);
                e.extend_from_slice(&[
                    73,
                    STR32_TAG, 0x00, 0x01, 0x11, 0x70,
                ]);
                e.extend_from_slice(&[b'b'; 70_000]);
                e.extend_from_slice(&[
                    0xFE, 0x76, 0x11, 0x01, 0x00,
                    STR32_TAG, 0x00, 0x01, 0x11, 0x70,
                ]);
                e.extend_from_slice(&[b'c'; 70_000]);
                e.push(0xFF);
                e
            },
            get: vec![2, 3, 1, 0],
            expected: vec![
                RedisObject::String([b'b'; 70_000].to_vec()),
                RedisObject::String([b'c'; 70_000].to_vec()),
                RedisObject::String([b'a'; 70].to_vec()),
                RedisObject::String(b"Hello World".to_vec()),
            ],
        },
    ];

    for test in tests {
        let zl = ZipList::from_bytes(test.init_state).unwrap();

        for (index, expected) in test.get.iter().zip(test.expected) {
            let result = zl.get(*index).unwrap();
            assert!(expected == result, "get({}) returned a different value", index);
        }
    }
}

#[test]
fn test_zip_list_round_trip_and_pops() {
    // Pushed entries come back in order via get; reverse order via pop_tail;
    // delete shifts later indices down by one.
    let mut zl = ZipList::new();
    let values: Vec<i64> = vec![7, 300, 90000, 2147483648, -5];
    for v in &values {
        let e = ZipEntry::from_redis_object(RedisObject::Int(*v)).unwrap();
        let _ = zl.push(e);
    }
    assert_eq!(zl.len(), 5);
    for (i, v) in values.iter().enumerate() {
        assert!(zl.get(i).unwrap() == RedisObject::Int(*v));
    }
    let _ = zl.delete(1);
    assert_eq!(zl.len(), 4);
    assert!(zl.get(0).unwrap() == RedisObject::Int(7));
    assert!(zl.get(1).unwrap() == RedisObject::Int(90000));
    assert!(zl.get(2).unwrap() == RedisObject::Int(2147483648));
    assert!(zl.pop_tail() == RedisObject::Int(-5));
    assert!(zl.pop_head() == RedisObject::Int(7));
    assert_eq!(zl.len(), 2);
    assert!(zl.get(0).unwrap() == RedisObject::Int(90000));
    assert!(zl.get(1).unwrap() == RedisObject::Int(2147483648));
    assert!(zl.get(2).is_err());
    assert_eq!(zl.len(), 2);
}

#[test]
fn test_zip_list_string_length_boundaries() {
    // 63 bytes takes the 6-bit class; 64 the 14-bit; 16383 the 14-bit;
    // 16384 the 32-bit.
    let mut zl = ZipList::new();
    let _ = zl.push(ZipEntry::from_redis_object(RedisObject::String(vec![b'x'; 63])).unwrap());
    let _ = zl.push(ZipEntry::from_redis_object(RedisObject::String(vec![b'x'; 64])).unwrap());
    let _ = zl.push(
        ZipEntry::from_redis_object(RedisObject::String(vec![b'x'; 16383])).unwrap(),
    );
    let _ = zl.push(
        ZipEntry::from_redis_object(RedisObject::String(vec![b'x'; 16384])).unwrap(),
    );
    let bytes = zl.as_bytes();
    // first entry: prevlen 0, 6-bit tag holding the length 63
    assert_eq!(bytes[10], 0);
    assert_eq!(bytes[11], 63);
    // second entry: prevlen 64, 14-bit tag 0b01....
    assert_eq!(bytes[10 + 64 + 1], 65);
    assert_eq!(bytes[10 + 64 + 2] & 0b1100_0000, 0b0100_0000);
    assert!(zl.get(2).unwrap() == RedisObject::String(vec![b'x'; 16383]));
    assert!(zl.get(3).unwrap() == RedisObject::String(vec![b'x'; 16384]));
}

#[test]
fn test_zip_list_prevlen_boundary() {
    // An entry of total size 253 keeps the 1-byte prevlen on its successor;
    // total size 254 forces the 5-byte form.
    let mut zl = ZipList::new();
    // 14-bit string of 251 bytes: 2 tag bytes + 251 = 253 payload, prevlen 1
    // byte -> total 254.
    let _ = zl.push(
        ZipEntry::from_redis_object(RedisObject::String(vec![b'p'; 251])).unwrap(),
    );
    let _ = zl.push(ZipEntry::from_redis_object(RedisObject::Int(1)).unwrap());
    let bytes = zl.as_bytes();
    // successor's prevlen field starts right after the 254-byte entry
    let off = 10 + 1 + 2 + 251;
    assert_eq!(bytes[off], 0xFE);
    assert_eq!(
        u32::from_le_bytes([bytes[off + 1], bytes[off + 2], bytes[off + 3], bytes[off + 4]]),
        254,
    );

    let mut zs = ZipList::new();
    let _ = zs.push(
        ZipEntry::from_redis_object(RedisObject::String(vec![b'p'; 250])).unwrap(),
    );
    let _ = zs.push(ZipEntry::from_redis_object(RedisObject::Int(1)).unwrap());
    let bs = zs.as_bytes();
    let offs = 10 + 1 + 2 + 250;
    assert_eq!(bs[offs], 253);

    // An insert in front forces the successor across the boundary and the
    // layout stays observably correct.
    let mut zi = ZipList::new();
    let _ = zi.push(ZipEntry::from_redis_object(RedisObject::Int(1)).unwrap());
    let _ = zi.insert(
        0,
        ZipEntry::from_redis_object(RedisObject::String(vec![b'q'; 251])).unwrap(),
    );
    assert!(zi.get(0).unwrap() == RedisObject::String(vec![b'q'; 251]));
    assert!(zi.get(1).unwrap() == RedisObject::Int(1));
    let bi = zi.as_bytes().clone();
    let reparsed = ZipList::from_bytes(bi).unwrap();
    assert!(reparsed.get(1).unwrap() == RedisObject::Int(1));
}

#[test]
fn test_zip_list_layout_integrity_basics() {
    // zl_bytes equals the buffer length and the terminator closes the buffer
    // after any mix of operations.
    let mut zl = ZipList::new();
    let _ = zl.push(ZipEntry::from_redis_object(RedisObject::Int(5)).unwrap());
    let _ = zl.push(ZipEntry::from_redis_object(RedisObject::String(b"abc".to_vec())).unwrap());
    let _ = zl.insert(1, ZipEntry::from_redis_object(RedisObject::Int(70000)).unwrap());
    let _ = zl.delete(0);
    let bytes = zl.as_bytes();
    let zl_bytes =
        u32::from_le_bytes([bytes[0], bytes[1], bytes[2], bytes[3]]) as usize;
    assert_eq!(zl_bytes, bytes.len());
    assert_eq!(bytes[bytes.len() - 1], 0xFF);
    let zl_len = u16::from_le_bytes([bytes[8], bytes[9]]);
    assert_eq!(zl_len as usize, zl.len());
    // a buffer with a corrupted tag byte is rejected
    let mut bad = bytes.clone();
    bad[11] = 0b1011_0000;
    assert!(ZipList::from_bytes(bad).is_none());
    // a buffer with a wrong header is rejected
    let mut bad2 = bytes.clone();
    bad2[0] = bad2[0].wrapping_add(1);
    assert!(ZipList::from_bytes(bad2).is_none());
}
