use redis::zip_list::EncodingType;

#[test]
fn encoding_test_get_encoding_from_header() {
    struct TestData {
        header: u8,
        expected: EncodingType,
    }

    let tests = vec![
        TestData { header: 0b0011_1011, expected: EncodingType::Str6BitsLength },
        TestData { header: 0b0110_1111, expected: EncodingType::Str14BitsLength },
        TestData { header: 0b1000_0000, expected: EncodingType::Str32BitsLength },
        TestData { header: 0b1111_0001, expected: EncodingType::Int4BitsImmediate },
        TestData { header: 0b1111_0010, expected: EncodingType::Int4BitsImmediate },
        TestData { header: 0b1111_1101, expected: EncodingType::Int4BitsImmediate },
        TestData { header: 0b1111_1110, expected: EncodingType::Int8 },
        TestData { header: 0b1111_1110, expected: EncodingType::Int8 },
        TestData { header: 0b1100_0000, expected: EncodingType::Int16 },
        TestData { header: 0b1111_0000, expected: EncodingType::Int24 },
        TestData { header: 0b1101_0000, expected: EncodingType::Int32 },
        TestData { header: 0b1110_0000, expected: EncodingType::Int64 },
    ];

    for test in tests {
        let result = EncodingType::from_header(test.header);
        assert_eq!(test.expected, result);
    }
}
