//! Decoder and encoder tests over the bencode codec.

use torrent_core::bencode::{from_slice, BencodeDecoder, BencodeEncoder, BencodeError, Value};

#[test]
fn parse_valid_string() {
    let data = b"5:aboba";
    let mut parser = BencodeDecoder::new(data);
    let str = parser.parse_str();
    assert_eq!(str, Ok(Vec::from("aboba")));
    assert_eq!(parser.data.len(), 0);
}

#[test]
fn parse_zero_string() {
    let data = b"0:";
    let mut parser = BencodeDecoder::new(data);
    let str = parser.parse_str();
    assert_eq!(str, Ok(Vec::from("")));
    assert_eq!(parser.data.len(), 0);
}

#[test]
fn parse_invalid_string() {
    let data = b"5:abfd";
    let mut parser = BencodeDecoder::new(data);
    let str = parser.parse_str();
    assert_eq!(str, Err(BencodeError::UnexpectedEOF));
}

#[test]
fn parse_valid_int() {
    let data = b"i452e";
    let mut parser = BencodeDecoder::new(data);
    let int = parser.parse_int();
    assert_eq!(int, Ok(452));
    assert_eq!(parser.data.len(), 0);
}

#[test]
fn parse_invalid_int() {
    let data = b"i4f52e";
    let mut parser = BencodeDecoder::new(data);
    let int = parser.parse_int();
    assert_eq!(int, Err(BencodeError::InvalidInteger));
}

#[test]
fn parse_invalid_int_without_ending_e() {
    let data = b"i452";
    let mut parser = BencodeDecoder::new(data);
    let int = parser.parse_int();
    assert_eq!(int, Err(BencodeError::UnexpectedEOF));
}

#[test]
fn parse_valid_list() {
    let data = Vec::from(b"l4:spami42ee");
    let mut parser = BencodeDecoder::new(data.as_slice());
    let list = parser.parse_list();
    assert_eq!(
        list,
        Ok(vec![Value::String(Vec::from(b"spam")), Value::Int(42)])
    );
    assert_eq!(parser.data.len(), 0);
}

#[test]
fn parse_invalid_list_without_ending_e() {
    let data = Vec::from(b"l4:spami42e");
    let mut parser = BencodeDecoder::new(data.as_slice());
    let list = parser.parse_list();
    assert_eq!(list, Err(BencodeError::InvalidList));
}

#[test]
fn parse_invalid_list_with_incorrect_element() {
    let data = Vec::from(b"l4:spamuperi42ee");
    let mut parser = BencodeDecoder::new(data.as_slice());
    let list = parser.parse_list();
    // The byte `u` (code 117) can start no bencode value.
    assert_eq!(list, Err(BencodeError::InvalidFormat(117)));
}

#[test]
fn parse_shizo_inherit_structs() {
    let data = b"lli43e5:abobaed3:bari52eee";
    let list = from_slice(data);
    let map = vec![(b"bar".to_vec(), Value::Int(52))];
    assert_eq!(
        list,
        Ok(Value::List(vec![
            Value::List(vec![Value::Int(43), Value::String(b"aboba".to_vec())]),
            Value::Dict(map)
        ]))
    );
}

#[test]
fn parse_valid_dict() {
    let data = Vec::from(b"d3:bar4:spam3:fooi42ee");
    let mut parser = BencodeDecoder::new(data.as_slice());
    let map_dict = vec![
        (b"bar".to_vec(), Value::String(b"spam".to_vec())),
        (b"foo".to_vec(), Value::Int(42)),
    ];
    let dict = parser.parse_dict();
    assert_eq!(dict, Ok(map_dict));
    assert_eq!(parser.data.len(), 0);
}

#[test]
fn parse_invalid_dict_without_ending_e() {
    let data = Vec::from(b"d3:bar4:spam3:fooi42e");
    let mut parser = BencodeDecoder::new(data.as_slice());
    let dict = parser.parse_dict();
    assert_eq!(dict, Err(BencodeError::InvalidDictionary));
}

#[test]
fn encode_string() {
    let mut encoder = BencodeEncoder::new();
    encoder.encode(&Value::String(b"aboba".to_vec()));
    assert_eq!(encoder.data.as_slice(), b"5:aboba");
}

#[test]
fn encode_int_positive() {
    let mut encoder = BencodeEncoder::new();
    encoder.encode(&Value::Int(50));
    assert_eq!(encoder.data.as_slice(), b"i50e");
}

#[test]
fn encode_int_negative() {
    let mut encoder = BencodeEncoder::new();
    encoder.encode(&Value::Int(-354));
    assert_eq!(encoder.data.as_slice(), b"i-354e");
}

#[test]
fn encode_int_zero() {
    let mut encoder = BencodeEncoder::new();
    encoder.encode(&Value::Int(0));
    assert_eq!(encoder.data.as_slice(), b"i0e");
}

#[test]
fn encode_list() {
    let mut encoder = BencodeEncoder::new();
    encoder.encode(&Value::List(vec![Value::Int(345)]));
    assert_eq!(encoder.data.as_slice(), b"li345ee");
}

#[test]
fn encode_dict() {
    let mut encoder = BencodeEncoder::new();
    let map = vec![
        (b"first".to_vec(), Value::Int(3546)),
        (b"second".to_vec(), Value::String(b"go here dgf".to_vec())),
    ];
    encoder.encode(&Value::Dict(map));
    assert_eq!(encoder.data.as_slice(), b"d5:firsti3546e6:second11:go here dgfe");
}

#[test]
fn into_vec() {
    let map = vec![
        (b"first".to_vec(), Value::Int(3546)),
        (b"second".to_vec(), Value::String(b"go here dgf".to_vec())),
    ];
    assert_eq!(
        torrent_core::bencode::into_vec(&Value::Dict(map)).as_slice(),
        b"d5:firsti3546e6:second11:go here dgfe"
    );
}

#[test]
fn decode_of_encode_round_trip() {
    // Decoding the canonical encoding of a nested value gives it back.
    let value = Value::List(vec![
        Value::Dict(vec![
            (b"a".to_vec(), Value::Int(-7)),
            (b"b".to_vec(), Value::String(b"\x00\xffraw".to_vec())),
        ]),
        Value::Int(0),
        Value::String(Vec::new()),
    ]);
    let bytes = torrent_core::bencode::into_vec(&value);
    assert_eq!(from_slice(bytes.as_slice()), Ok(value));
}

#[test]
fn encode_of_decode_round_trip() {
    // Re-encoding a decoded canonical stream reproduces it byte for byte.
    let data = b"d3:bar4:spam3:fooi42ee";
    let value = from_slice(data).unwrap();
    assert_eq!(torrent_core::bencode::into_vec(&value).as_slice(), data.as_slice());
}

#[test]
fn dict_keys_must_ascend() {
    // The decoder holds dictionaries to strictly ascending key order.
    let unsorted = b"d3:foo0:3:bar0:e";
    assert_eq!(from_slice(unsorted), Err(BencodeError::InvalidDictionary));
    let duplicate = b"d3:foo0:3:foo0:e";
    assert_eq!(from_slice(duplicate), Err(BencodeError::InvalidDictionary));
}

#[test]
fn decode_boundary_integers() {
    // `i0e` is zero and `i-354e` is negative three hundred fifty-four.
    assert_eq!(from_slice(b"i0e"), Ok(Value::Int(0)));
    assert_eq!(from_slice(b"i-354e"), Ok(Value::Int(-354)));
    // `-0` and redundant leading zeros are not canonical.
    assert_eq!(from_slice(b"i-0e"), Err(BencodeError::InvalidInteger));
    assert_eq!(from_slice(b"i042e"), Err(BencodeError::InvalidInteger));
}

#[test]
fn decode_int64_limits() {
    assert_eq!(
        from_slice(b"i9223372036854775807e"),
        Ok(Value::Int(i64::MAX))
    );
    assert_eq!(
        from_slice(b"i-9223372036854775808e"),
        Ok(Value::Int(i64::MIN))
    );
    assert_eq!(
        from_slice(b"i9223372036854775808e"),
        Err(BencodeError::InvalidInteger)
    );
}

#[test]
fn empty_input_is_eof() {
    assert_eq!(from_slice(b""), Err(BencodeError::UnexpectedEOF));
}

#[test]
fn string_without_colon_is_invalid() {
    let mut parser = BencodeDecoder::new(b"abc");
    assert_eq!(parser.parse_str(), Err(BencodeError::InvalidString));
}
