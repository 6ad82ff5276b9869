use bencode::decode::decode;
use bencode::decode::decode_bencoded_value;
use bencode::decode::decode_dict;
use bencode::decode::decode_int;
use bencode::decode::decode_list;
use bencode::decode::decode_str;
use bencode::decode::DecodeError;
use bencode::value::Bencode;

#[test]
fn test_string_decode() {
    let string = Vec::from("5:hello");
    let result = decode_bencoded_value(string.as_slice());
    assert_eq!(result, Bencode::Bytes(Vec::from("hello")));

    let long_string = Vec::from("15:hellohellohello");
    let result = decode_bencoded_value(long_string.as_slice());
    assert_eq!(result, Bencode::Bytes(Vec::from("hellohellohello")));
}

#[test]
fn test_integer_decode() {
    let integer_string = Vec::from("i127435439e");
    let result = decode_bencoded_value(integer_string.as_slice());
    assert_eq!(result, Bencode::Int(127435439));

    let integer_string = Vec::from("i-9e");
    let result = decode_bencoded_value(integer_string.as_slice());
    assert_eq!(result, Bencode::Int(-9));

    let integer_string = Vec::from("i0e");
    let result = decode_bencoded_value(integer_string.as_slice());
    assert_eq!(result, Bencode::Int(0));

    let integer_string = Vec::from("i-0e");
    let result = decode_bencoded_value(integer_string.as_slice());
    assert_eq!(result, Bencode::Int(0));
}

#[test]
#[should_panic]
fn test_integer_decode_invalid() {
    let integer_string = Vec::from("ie");
    let result = decode_bencoded_value(integer_string.as_slice());
    assert_eq!(result, Bencode::Int(0));
}

#[test]
fn test_list_decode() {
    let list_string = Vec::from("l5:helloi52ee");
    let result = decode_bencoded_value(list_string.as_slice());
    assert_eq!(
        result,
        Bencode::List(vec![Bencode::Bytes(Vec::from("hello")), Bencode::Int(52)])
    );

    let list_string = Vec::from("l15:hellohellohelloi52ee");
    let result = decode_bencoded_value(list_string.as_slice());
    assert_eq!(
        result,
        Bencode::List(vec![
            Bencode::Bytes(Vec::from("hellohellohello")),
            Bencode::Int(52)
        ])
    );

    let list_string = Vec::from("l5:helloi52el5:helloi52eee");
    let result = decode_bencoded_value(list_string.as_slice());
    assert_eq!(
        result,
        Bencode::List(vec![
            Bencode::Bytes(Vec::from("hello")),
            Bencode::Int(52),
            Bencode::List(vec![Bencode::Bytes(Vec::from("hello")), Bencode::Int(52)])
        ])
    );

    let list_string = Vec::from("llllll5:helloeeeeee");
    let result = decode_bencoded_value(list_string.as_slice());
    let expected = Bencode::List(vec![Bencode::List(vec![Bencode::List(vec![
        Bencode::List(vec![Bencode::List(vec![Bencode::List(vec![
            Bencode::Bytes(Vec::from("hello")),
        ])])]),
    ])])]);
    assert_eq!(result, expected);
}

#[test]
fn test_dict_decode() {
    let dict_string = Vec::from("d3:foo3:bar5:helloi52ee");
    let result = decode_bencoded_value(dict_string.as_slice());
    let expected = Bencode::Dict(vec![
        (Vec::from("foo"), Bencode::Bytes(Vec::from("bar"))),
        (Vec::from("hello"), Bencode::Int(52)),
    ]);
    assert_eq!(result, expected);
}

#[test]
fn test_roundtrip_consumed_prefix() {
    // Re-decoding exactly the consumed bytes yields the same value and count.
    for input in [
        &b"5:helloTRAILING"[..],
        b"i52e-extra",
        b"l5:helloi52eeTAIL",
        b"d3:fooi1eeREST",
        b"0:rest",
    ] {
        let (value, n) = decode(input).expect("well-formed prefix");
        let (again, m) = decode(&input[..n]).expect("prefix re-decodes");
        assert_eq!(value, again);
        assert_eq!(n, m);
    }
}

#[test]
fn test_decode_twice_equal() {
    // Decoding the same valid bytes twice yields structurally equal values.
    let input = b"d3:keyl5:helloi-42eee";
    let first = decode(input).expect("well-formed");
    let second = decode(input).expect("well-formed");
    assert_eq!(first, second);
}

#[test]
fn test_nested_list_consumes_all() {
    let input = b"llllll5:helloeeeeee";
    let (value, n) = decode(input).expect("well-formed");
    assert_eq!(n, input.len());
    let mut expected = Bencode::List(vec![Bencode::Bytes(Vec::from("hello"))]);
    for _ in 0..5 {
        expected = Bencode::List(vec![expected]);
    }
    assert_eq!(value, expected);
}

#[test]
fn test_integer_edge_cases() {
    assert_eq!(decode(b"i0e"), Ok((Bencode::Int(0), 3)));
    assert_eq!(decode(b"i-0e"), Ok((Bencode::Int(0), 4)));
    assert_eq!(decode(b"i-9e"), Ok((Bencode::Int(-9), 4)));
    assert_eq!(decode(b"ie"), Err(DecodeError::MalformedInput));
    assert_eq!(decode(b"i-e"), Err(DecodeError::MalformedInput));
    // Leading zeros are accepted leniently and read as their decimal value.
    assert_eq!(decode(b"i013e"), Ok((Bencode::Int(13), 5)));
    // A plus sign is not part of the grammar.
    assert_eq!(decode(b"i+5e"), Err(DecodeError::MalformedInput));
}

#[test]
fn test_integer_64_bit_range() {
    assert_eq!(
        decode(b"i9223372036854775807e"),
        Ok((Bencode::Int(i64::MAX), 21))
    );
    assert_eq!(
        decode(b"i-9223372036854775808e"),
        Ok((Bencode::Int(i64::MIN), 22))
    );
    assert_eq!(
        decode(b"i9223372036854775808e"),
        Err(DecodeError::MalformedInput)
    );
    assert_eq!(
        decode(b"i-9223372036854775809e"),
        Err(DecodeError::MalformedInput)
    );
}

#[test]
fn test_string_edge_cases() {
    assert_eq!(decode(b"5:hello"), Ok((Bencode::Bytes(Vec::from("hello")), 7)));
    assert_eq!(decode(b"0:"), Ok((Bencode::Bytes(Vec::new()), 2)));
    assert_eq!(decode(b"5:hi"), Err(DecodeError::MalformedInput));
    // Only `0` alone may start with a zero.
    assert_eq!(decode(b"01:a"), Err(DecodeError::MalformedInput));
    assert_eq!(decode(b"00:"), Err(DecodeError::MalformedInput));
    assert_eq!(decode(b"5x:hello"), Err(DecodeError::MalformedInput));
    assert_eq!(decode(b"5hello"), Err(DecodeError::MalformedInput));
}

#[test]
fn test_dispatch_errors() {
    assert_eq!(decode(b""), Err(DecodeError::MalformedInput));
    assert_eq!(decode(b"x"), Err(DecodeError::MalformedInput));
    assert_eq!(decode(b"l5:hello"), Err(DecodeError::MalformedInput));
    assert_eq!(decode(b"d3:foo"), Err(DecodeError::MalformedInput));
    assert_eq!(decode(b"di1ei2ee"), Err(DecodeError::MalformedInput));
}

#[test]
fn test_depth_limit() {
    // Sixty-four nested lists still decode; one more exceeds the limit.
    let mut ok_input: Vec<u8> = Vec::new();
    for _ in 0..64 {
        ok_input.push(b'l');
    }
    for _ in 0..64 {
        ok_input.push(b'e');
    }
    assert!(decode(&ok_input).is_ok());

    let mut deep_input: Vec<u8> = Vec::new();
    for _ in 0..65 {
        deep_input.push(b'l');
    }
    for _ in 0..65 {
        deep_input.push(b'e');
    }
    assert_eq!(decode(&deep_input), Err(DecodeError::DepthExceeded));
}

#[test]
fn test_duplicate_keys_overwrite() {
    // The later value wins; the entry keeps its first position.
    let (value, n) = decode(b"d1:ai1e1:ai2ee").expect("well-formed");
    assert_eq!(n, 14);
    assert_eq!(value, Bencode::Dict(vec![(Vec::from("a"), Bencode::Int(2))]));

    let (value, _) = decode(b"d1:bi1e1:ai2e1:bi3ee").expect("well-formed");
    assert_eq!(
        value,
        Bencode::Dict(vec![
            (Vec::from("b"), Bencode::Int(3)),
            (Vec::from("a"), Bencode::Int(2)),
        ])
    );
}

#[test]
fn test_dict_get() {
    let (value, _) = decode(b"d3:foo3:bar5:helloi52ee").expect("well-formed");
    assert_eq!(
        value.get(b"foo"),
        Some(&Bencode::Bytes(Vec::from("bar")))
    );
    assert_eq!(value.get(b"hello"), Some(&Bencode::Int(52)));
    // An absent key is an explicit not-found signal, never a default.
    assert_eq!(value.get(b"baz"), None);
    // Only dictionaries answer lookups.
    assert_eq!(Bencode::Int(3).get(b"foo"), None);
}

#[test]
fn test_as_text() {
    let (value, _) = decode(b"2:hi").expect("well-formed");
    assert_eq!(value.as_text(), Some("hi"));

    let raw = vec![b'2', b':', 0xff, 0xfe];
    let (value, _) = decode(&raw).expect("well-formed");
    assert_eq!(value, Bencode::Bytes(vec![0xff, 0xfe]));
    assert_eq!(value.as_text(), None);

    assert_eq!(Bencode::Int(7).as_text(), None);
}

#[test]
fn test_per_kind_decoders() {
    let (v, n) = decode_str(b"3:abcd").expect("string");
    assert_eq!((v, n), (Bencode::Bytes(Vec::from("abc")), 5));
    let (v, n) = decode_int(b"i-7e").expect("integer");
    assert_eq!((v, n), (Bencode::Int(-7), 4));
    let (v, n) = decode_list(b"lee").expect("list");
    assert_eq!((v, n), (Bencode::List(Vec::new()), 2));
    let (v, n) = decode_dict(b"de").expect("dictionary");
    assert_eq!((v, n), (Bencode::Dict(Vec::new()), 2));
    assert_eq!(decode_list(b"i1e"), Err(DecodeError::MalformedInput));
    assert_eq!(decode_dict(b"le"), Err(DecodeError::MalformedInput));
}
