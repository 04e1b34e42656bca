//! A second pass over the codec: the same inputs exercised through the
//! library API, checking success and failure without pinning error kinds.

use torrent_core::bencode::{from_slice, BencodeDecoder, BencodeEncoder, Value};

#[test]
fn lib_parse_valid_string() {
    let data = b"5:aboba";
    let mut parser = BencodeDecoder::new(data);
    let str = parser.parse_str();
    assert_eq!(str, Ok(Vec::from("aboba")));
    assert_eq!(parser.data.len(), 0);
}

#[test]
fn lib_parse_zero_string() {
    let data = b"0:";
    let mut parser = BencodeDecoder::new(data);
    let str = parser.parse_str();
    assert_eq!(str, Ok(Vec::from("")));
    assert_eq!(parser.data.len(), 0);
}

#[test]
fn lib_parse_invalid_string() {
    let data = b"5:abfd";
    let mut parser = BencodeDecoder::new(data);
    let str = parser.parse_str();
    assert!(str.is_err());
}

#[test]
fn lib_parse_valid_int() {
    let data = b"i452e";
    let mut parser = BencodeDecoder::new(data);
    let int = parser.parse_int();
    assert_eq!(int, Ok(452));
    assert_eq!(parser.data.len(), 0);
}

#[test]
fn lib_parse_invalid_int() {
    let data = b"i4f52e";
    let mut parser = BencodeDecoder::new(data);
    let int = parser.parse_int();
    assert!(int.is_err());
}

#[test]
fn lib_parse_invalid_int_without_ending_e() {
    let data = b"i452";
    let mut parser = BencodeDecoder::new(data);
    let int = parser.parse_int();
    assert!(int.is_err());
}

#[test]
fn lib_parse_valid_list() {
    let data = Vec::from(b"l4:spami42ee");
    let mut parser = BencodeDecoder::new(data.as_slice());
    let list = parser.parse_list();
    assert_eq!(
        list,
        Ok(vec![Value::String(Vec::from(b"spam")), Value::Int(42)])
    );
    assert_eq!(parser.data.len(), 0);
}

#[test]
fn lib_parse_invalid_list_without_ending_e() {
    let data = Vec::from(b"l4:spami42e");
    let mut parser = BencodeDecoder::new(data.as_slice());
    let list = parser.parse_list();
    assert!(list.is_err());
}

#[test]
fn lib_parse_invalid_list_with_incorrect_element() {
    let data = Vec::from(b"l4:spamuperi42ee");
    let mut parser = BencodeDecoder::new(data.as_slice());
    let list = parser.parse_list();
    assert!(list.is_err());
}

#[test]
fn lib_parse_shizo_inherit_structs() {
    let data = b"lli43e5:abobaed3:bari52eee";
    let list = from_slice(data);
    let mut map: Vec<(Vec<u8>, Value)> = Vec::new();
    map.push((b"bar".to_vec(), Value::Int(52)));
    assert_eq!(
        list,
        Ok(Value::List(vec![
            Value::List(vec![Value::Int(43), Value::String(b"aboba".to_vec())]),
            Value::Dict(map)
        ]))
    );
}

#[test]
fn lib_parse_valid_dict() {
    let data = Vec::from(b"d3:bar4:spam3:fooi42ee");
    let mut parser = BencodeDecoder::new(data.as_slice());
    let mut map_dict: Vec<(Vec<u8>, Value)> = Vec::new();
    map_dict.push((b"bar".to_vec(), Value::String(b"spam".to_vec())));
    map_dict.push((b"foo".to_vec(), Value::Int(42)));
    let dict = parser.parse_dict();
    assert_eq!(dict, Ok(map_dict));
    assert_eq!(parser.data.len(), 0);
}

#[test]
fn lib_parse_invalid_dict_without_ending_e() {
    let data = Vec::from(b"d3:bar4:spam3:fooi42e");
    let mut parser = BencodeDecoder::new(data.as_slice());
    let dict = parser.parse_dict();
    assert!(dict.is_err());
}

#[test]
fn lib_encode_string() {
    let mut encoder = BencodeEncoder::new();
    encoder.encode(&Value::String(b"aboba".to_vec()));
    assert_eq!(encoder.data.as_slice(), b"5:aboba");
}

#[test]
fn lib_encode_int_positive() {
    let mut encoder = BencodeEncoder::new();
    encoder.encode(&Value::Int(50));
    assert_eq!(encoder.data.as_slice(), b"i50e");
}

#[test]
fn lib_encode_int_negative() {
    let mut encoder = BencodeEncoder::new();
    encoder.encode(&Value::Int(-354));
    assert_eq!(encoder.data.as_slice(), b"i-354e");
}

#[test]
fn lib_encode_int_zero() {
    let mut encoder = BencodeEncoder::new();
    encoder.encode(&Value::Int(0));
    assert_eq!(encoder.data.as_slice(), b"i0e");
}

#[test]
fn lib_encode_list() {
    let mut encoder = BencodeEncoder::new();
    encoder.encode(&Value::List(vec![Value::Int(345)]));
    assert_eq!(encoder.data.as_slice(), b"li345ee");
}

#[test]
fn lib_encode_dict() {
    let mut encoder = BencodeEncoder::new();
    let mut map: Vec<(Vec<u8>, Value)> = Vec::new();
    map.push((b"first".to_vec(), Value::Int(3546)));
    map.push((b"second".to_vec(), Value::String(b"go here dgf".to_vec())));
    encoder.encode(&Value::Dict(map));
    assert_eq!(encoder.data.as_slice(), b"d5:firsti3546e6:second11:go here dgfe");
}

#[test]
fn lib_into_vec() {
    let mut map: Vec<(Vec<u8>, Value)> = Vec::new();
    map.push((b"first".to_vec(), Value::Int(3546)));
    map.push((b"second".to_vec(), Value::String(b"go here dgf".to_vec())));
    assert_eq!(
        torrent_core::bencode::into_vec(&Value::Dict(map)).as_slice(),
        b"d5:firsti3546e6:second11:go here dgfe"
    );
}
