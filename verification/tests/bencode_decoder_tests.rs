use metainfo::bencode_decoder::Bencode;
use metainfo::bencode_spec::DecodeError;

#[test]
fn decode_bencode_string() {
    assert_eq!(
        Bencode::decode_value(b"3:Hey".to_vec()),
        Ok((Bencode::String(b"Hey".to_vec()), vec![]))
    );
    assert_eq!(
        Bencode::decode_value(b"4:Test".to_vec()),
        Ok((Bencode::String(b"Test".to_vec()), vec![]))
    )
}

#[test]
fn decode_bencode_integer() {
    assert_eq!(
        Bencode::decode_value(b"i30e".to_vec()),
        Ok((Bencode::Integer(30), vec![]))
    );
    assert_eq!(
        Bencode::decode_value(b"i-42e".to_vec()),
        Ok((Bencode::Integer(-42), vec![]))
    );
}

#[test]
fn decode_bencode_list() {
    assert_eq!(
        Bencode::decode_value(b"l4:spam4:eggse".to_vec()),
        Ok((
            Bencode::List(vec![
                Bencode::String(b"spam".to_vec()),
                Bencode::String(b"eggs".to_vec())
            ]),
            vec![]
        ))
    );
    assert_eq!(
        Bencode::decode_value(b"l5:helloi52ee".to_vec()),
        Ok((
            Bencode::List(vec![
                Bencode::String(b"hello".to_vec()),
                Bencode::Integer(52)
            ]),
            vec![]
        ))
    )
}

#[test]
fn decode_bencode_nested_list() {
    assert_eq!(
        Bencode::decode_value(b"l4:spaml3:heyei52ee".to_vec()),
        Ok((
            Bencode::List(vec![
                Bencode::String(b"spam".to_vec()),
                Bencode::List(vec![Bencode::String(b"hey".to_vec())]),
                Bencode::Integer(52)
            ]),
            vec![]
        ))
    );
}

#[test]
fn decode_bencode_dictionary() {
    let mut test: Vec<(Vec<u8>, Bencode)> = Vec::new();
    test.push((b"foo".to_vec(), Bencode::String(b"bar".to_vec())));
    test.push((b"hello".to_vec(), Bencode::Integer(52)));

    assert_eq!(
        Bencode::decode_value(b"d3:foo3:bar5:helloi52ee".to_vec()),
        Ok((Bencode::Dictionary(test), vec![]))
    )
}

#[test]
fn decode_bencode_nested_dict() {
    let mut test_nested: Vec<(Vec<u8>, Bencode)> = Vec::new();
    test_nested.push((b"hello".to_vec(), Bencode::Integer(52)));

    let mut test: Vec<(Vec<u8>, Bencode)> = Vec::new();
    test.push((b"foo".to_vec(), Bencode::String(b"bar".to_vec())));
    test.push((b"hi".to_vec(), Bencode::Dictionary(test_nested)));

    assert_eq!(
        Bencode::decode_value(b"d3:foo3:bar2:hid5:helloi52eee".to_vec()),
        Ok((Bencode::Dictionary(test), vec![]))
    )
}

#[test]
fn encode_bencode_string() {
    assert_eq!(
        Bencode::String(b"Hello".to_vec()).encode_value(),
        b"5:Hello".to_vec()
    )
}

#[test]
fn encode_bencode_integer() {
    assert_eq!(Bencode::Integer(231).encode_value(), b"i231e".to_vec())
}

#[test]
fn encode_bencode_list() {
    assert_eq!(
        Bencode::List(vec![
            Bencode::String(b"Test".to_vec()),
            Bencode::List(vec![Bencode::String(b"Hey".to_vec())]),
            Bencode::Integer(32)
        ])
        .encode_value(),
        b"l4:Testl3:Heyei32ee".to_vec()
    )
}

#[test]
fn encode_bencode_dict() {
    let mut test_nested: Vec<(Vec<u8>, Bencode)> = Vec::new();
    test_nested.push((b"hello".to_vec(), Bencode::Integer(52)));

    let mut test: Vec<(Vec<u8>, Bencode)> = Vec::new();
    test.push((b"foo".to_vec(), Bencode::String(b"bar".to_vec())));
    test.push((b"hi".to_vec(), Bencode::Dictionary(test_nested)));

    assert_eq!(
        Bencode::Dictionary(test).encode_value(),
        b"d3:foo3:bar2:hid5:helloi52eee".to_vec()
    )
}

#[test]
fn decode_rejects_leading_zero_integer() {
    assert_eq!(
        Bencode::decode_value(b"i03e".to_vec()),
        Err(DecodeError::LeadingZero)
    );
    assert_eq!(
        Bencode::decode_value(b"i-03e".to_vec()),
        Err(DecodeError::LeadingZero)
    );
    assert_eq!(Bencode::decode_value(b"i0e".to_vec()), Ok((Bencode::Integer(0), vec![])));
}

#[test]
fn decode_rejects_minus_zero_integer() {
    assert_eq!(
        Bencode::decode_value(b"i-0e".to_vec()),
        Err(DecodeError::MinusZero)
    );
}

#[test]
fn decode_rejects_unterminated_integer() {
    assert_eq!(
        Bencode::decode_value(b"i5".to_vec()),
        Err(DecodeError::Truncated)
    );
}

#[test]
fn decode_rejects_truncated_input() {
    assert_eq!(Bencode::decode_value(vec![]), Err(DecodeError::Truncated));
    assert_eq!(
        Bencode::decode_value(b"3:ab".to_vec()),
        Err(DecodeError::Truncated)
    );
    assert_eq!(
        Bencode::decode_value(b"12".to_vec()),
        Err(DecodeError::Truncated)
    );
    assert_eq!(
        Bencode::decode_value(b"l3:abc".to_vec()),
        Err(DecodeError::Truncated)
    );
    assert_eq!(
        Bencode::decode_value(b"d3:foo3:bar".to_vec()),
        Err(DecodeError::Truncated)
    );
    assert_eq!(
        Bencode::decode_value(b"i".to_vec()),
        Err(DecodeError::Truncated)
    );
    assert_eq!(
        Bencode::decode_value(b"i-".to_vec()),
        Err(DecodeError::Truncated)
    );
}

#[test]
fn decode_rejects_bad_length_prefix() {
    assert_eq!(
        Bencode::decode_value(b"3x:abc".to_vec()),
        Err(DecodeError::BadLengthPrefix)
    );
    assert_eq!(
        Bencode::decode_value(b"12x".to_vec()),
        Err(DecodeError::BadLengthPrefix)
    );
}

#[test]
fn decode_rejects_bad_integer() {
    assert_eq!(
        Bencode::decode_value(b"ie".to_vec()),
        Err(DecodeError::BadInteger)
    );
    assert_eq!(
        Bencode::decode_value(b"i-e".to_vec()),
        Err(DecodeError::BadInteger)
    );
    assert_eq!(
        Bencode::decode_value(b"i1x2e".to_vec()),
        Err(DecodeError::BadInteger)
    );
}

#[test]
fn decode_rejects_integer_overflow() {
    assert_eq!(
        Bencode::decode_value(b"i9223372036854775808e".to_vec()),
        Err(DecodeError::IntegerOverflow)
    );
    assert_eq!(
        Bencode::decode_value(b"i-9223372036854775809e".to_vec()),
        Err(DecodeError::IntegerOverflow)
    );
    assert_eq!(
        Bencode::decode_value(b"i99999999999999999999999e".to_vec()),
        Err(DecodeError::IntegerOverflow)
    );
    assert_eq!(
        Bencode::decode_value(b"i9223372036854775807e".to_vec()),
        Ok((Bencode::Integer(i64::MAX), vec![]))
    );
    assert_eq!(
        Bencode::decode_value(b"i-9223372036854775808e".to_vec()),
        Ok((Bencode::Integer(i64::MIN), vec![]))
    );
}

#[test]
fn decode_rejects_non_string_key() {
    assert_eq!(
        Bencode::decode_value(b"di1ei2ee".to_vec()),
        Err(DecodeError::NonStringKey)
    );
}

#[test]
fn decode_rejects_unknown_tag() {
    assert_eq!(
        Bencode::decode_value(b"x".to_vec()),
        Err(DecodeError::UnknownTag)
    );
    assert_eq!(
        Bencode::decode_value(b"e3:foo".to_vec()),
        Err(DecodeError::UnknownTag)
    );
}

#[test]
fn decode_leaves_remainder() {
    assert_eq!(
        Bencode::decode_value(b"i7etrailing".to_vec()),
        Ok((Bencode::Integer(7), b"trailing".to_vec()))
    );
    assert_eq!(
        Bencode::decode_value(b"0:rest".to_vec()),
        Ok((Bencode::String(vec![]), b"rest".to_vec()))
    );
}

#[test]
fn decode_empty_list_and_dictionary() {
    assert_eq!(
        Bencode::decode_value(b"le".to_vec()),
        Ok((Bencode::List(vec![]), vec![]))
    );
    assert_eq!(
        Bencode::decode_value(b"de".to_vec()),
        Ok((Bencode::Dictionary(vec![]), vec![]))
    );
}

#[test]
fn decode_duplicate_key_keeps_place_takes_last_value() {
    let mut expected: Vec<(Vec<u8>, Bencode)> = Vec::new();
    expected.push((b"a".to_vec(), Bencode::Integer(2)));
    expected.push((b"b".to_vec(), Bencode::Integer(3)));
    assert_eq!(
        Bencode::decode_value(b"d1:ai1e1:bi3e1:ai2ee".to_vec()),
        Ok((Bencode::Dictionary(expected), vec![]))
    );
}

#[test]
fn decode_of_encode_round_trips() {
    let mut dict: Vec<(Vec<u8>, Bencode)> = Vec::new();
    dict.push((b"list".to_vec(), Bencode::List(vec![
        Bencode::Integer(-7),
        Bencode::String(b"x".to_vec()),
        Bencode::List(vec![]),
    ])));
    dict.push((b"n".to_vec(), Bencode::Integer(i64::MIN)));
    dict.push((b"raw".to_vec(), Bencode::String(vec![0, 255, 128])));
    let v = Bencode::Dictionary(dict);
    let encoded = v.encode_value();
    assert_eq!(Bencode::decode_value(encoded), Ok((v, vec![])));
}

#[test]
fn encode_is_deterministic() {
    let v = Bencode::List(vec![
        Bencode::Integer(0),
        Bencode::String(b"abc".to_vec()),
        Bencode::Dictionary(vec![(b"k".to_vec(), Bencode::Integer(-1))]),
    ]);
    assert_eq!(v.encode_value(), v.encode_value());
}

#[test]
fn clone_preserves_structure() {
    let v = Bencode::Dictionary(vec![(
        b"k".to_vec(),
        Bencode::List(vec![Bencode::Integer(1), Bencode::String(b"s".to_vec())]),
    )]);
    assert_eq!(v.clone(), v);
    assert_eq!(v.clone().encode_value(), v.encode_value());
}
