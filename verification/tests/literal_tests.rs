use treegp::literal::{decode_literal, encode_literal};

#[test]
fn encoding_round_trips() {
    for v in [
        0i64,
        1,
        -1,
        7,
        42,
        -42,
        1000,
        -1000,
        123456789,
        i64::MAX,
        i64::MIN,
        i64::MAX - 1,
        i64::MIN + 1,
    ] {
        let label = encode_literal(v);
        assert_eq!(decode_literal(&label), Some(v));
    }
}

#[test]
fn familiar_values_have_familiar_labels() {
    assert_eq!(encode_literal(0), "0");
    assert_eq!(encode_literal(7), "7");
    assert_eq!(encode_literal(-3), "-3");
    assert_eq!(encode_literal(1234), "1234");
    assert_eq!(encode_literal(-9876543210), "-9876543210");
}

#[test]
fn junk_labels_do_not_decode() {
    for bad in ["", "-", "x", "1.5", "+7", "12a", "a12", "--4", "1 2", " 1"] {
        assert_eq!(decode_literal(&bad.to_string()), None, "label {:?}", bad);
    }
}

#[test]
fn out_of_range_numerals_do_not_decode() {
    assert_eq!(decode_literal(&"9223372036854775808".to_string()), None);
    assert_eq!(decode_literal(&"-9223372036854775809".to_string()), None);
    assert_eq!(decode_literal(&"99999999999999999999999999".to_string()), None);
    assert_eq!(
        decode_literal(&"9223372036854775807".to_string()),
        Some(i64::MAX)
    );
    assert_eq!(
        decode_literal(&"-9223372036854775808".to_string()),
        Some(i64::MIN)
    );
}

#[test]
fn tolerant_of_leading_zeros() {
    assert_eq!(decode_literal(&"007".to_string()), Some(7));
    assert_eq!(decode_literal(&"-007".to_string()), Some(-7));
    assert_eq!(decode_literal(&"-0".to_string()), Some(0));
}
