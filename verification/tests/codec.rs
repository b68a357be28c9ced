use bittorrent::bencode::decode;
use bittorrent::bencode::decode_bencoded_value;
use bittorrent::bencode::dictionary_parser;
use bittorrent::bencode::encode;
use bittorrent::bencode::list_parser;
use bittorrent::bencode::number_parser;
use bittorrent::bencode::string_parser;
use bittorrent::bencode::Bencode;
use bittorrent::errors::TorrentError;

fn bytes(s: &str) -> Vec<u8> {
    s.as_bytes().to_vec()
}

#[test]
fn decode_byte_string() {
    let (v, consumed) = decode(b"4:spam").unwrap();
    assert_eq!(v, Bencode::Bytes(bytes("spam")));
    assert_eq!(consumed, 6);
}

#[test]
fn decode_integer() {
    let (v, consumed) = decode(b"i42e").unwrap();
    assert_eq!(v, Bencode::Int(42));
    assert_eq!(consumed, 4);
}

#[test]
fn decode_negative_integer() {
    let (v, _) = decode(b"i-3e").unwrap();
    assert_eq!(v, Bencode::Int(-3));
}

#[test]
fn decode_list() {
    let (v, consumed) = decode(b"l4:spami42ee").unwrap();
    assert_eq!(
        v,
        Bencode::List(vec![Bencode::Bytes(bytes("spam")), Bencode::Int(42)])
    );
    assert_eq!(consumed, 12);
}

#[test]
fn decode_dictionary() {
    let (v, _) = decode(b"d3:cow3:moo4:spam4:eggse").unwrap();
    assert_eq!(
        v,
        Bencode::Dict(vec![
            (bytes("cow"), Bencode::Bytes(bytes("moo"))),
            (bytes("spam"), Bencode::Bytes(bytes("eggs"))),
        ])
    );
}

#[test]
fn decode_empty_values() {
    assert_eq!(decode(b"0:").unwrap().0, Bencode::Bytes(vec![]));
    assert_eq!(decode(b"le").unwrap().0, Bencode::List(vec![]));
    assert_eq!(decode(b"de").unwrap().0, Bencode::Dict(vec![]));
    assert_eq!(decode(b"i0e").unwrap().0, Bencode::Int(0));
}

#[test]
fn decode_accepts_leading_zeros() {
    assert_eq!(decode(b"i007e").unwrap().0, Bencode::Int(7));
    assert_eq!(decode(b"02:ab").unwrap().0, Bencode::Bytes(bytes("ab")));
    assert_eq!(decode(b"i-0e").unwrap().0, Bencode::Int(0));
}

#[test]
fn decode_binary_safe_payload() {
    // the payload bytes are raw, not text: they may hold anything
    let mut input = bytes("6:");
    input.extend_from_slice(&[0, 255, b'e', b'i', b'l', b'd']);
    let (v, consumed) = decode(&input).unwrap();
    assert_eq!(v, Bencode::Bytes(vec![0, 255, b'e', b'i', b'l', b'd']));
    assert_eq!(consumed, 8);
}

#[test]
fn decode_nested_structures() {
    let (v, _) = decode(b"d1:al1:bi-1ee1:bd1:ci2ee1:ddee").unwrap();
    // {"a": ["b", -1], "b": {"c": 2}, "d": {}}
    match v {
        Bencode::Dict(pairs) => {
            assert_eq!(pairs.len(), 3);
            assert_eq!(pairs[0].0, bytes("a"));
            assert_eq!(
                pairs[0].1,
                Bencode::List(vec![Bencode::Bytes(bytes("b")), Bencode::Int(-1)])
            );
            assert_eq!(
                pairs[1],
                (
                    bytes("b"),
                    Bencode::Dict(vec![(bytes("c"), Bencode::Int(2))])
                )
            );
            assert_eq!(pairs[2], (bytes("d"), Bencode::Dict(vec![])));
        }
        other => panic!("expected a dictionary, got {:?}", other),
    }
}

#[test]
fn decode_rejects_malformed_inputs() {
    let cases: Vec<Vec<u8>> = vec![
        bytes(""),
        bytes("ie"),
        bytes("i-e"),
        bytes("i12"),
        bytes("4:spa"),
        bytes("5:spam"),
        bytes("x"),
        bytes("l4:spam"),
        bytes("d3:cow"),
        bytes("d3:cow3:moo"),
        bytes("di1e3:mooe"),
        bytes("-3:ab"),
    ];
    for input in cases {
        match decode(&input) {
            Err(TorrentError::MalformedEncoding) => {}
            other => panic!("{:?} should be malformed, got {:?}", input, other),
        }
    }
}

#[test]
fn decode_integer_bounds() {
    assert_eq!(
        decode(b"i9223372036854775807e").unwrap().0,
        Bencode::Int(i64::MAX)
    );
    assert_eq!(
        decode(b"i-9223372036854775808e").unwrap().0,
        Bencode::Int(i64::MIN)
    );
    assert!(matches!(
        decode(b"i9223372036854775808e"),
        Err(TorrentError::MalformedEncoding)
    ));
    assert!(matches!(
        decode(b"i-9223372036854775809e"),
        Err(TorrentError::MalformedEncoding)
    ));
}

#[test]
fn decode_bencoded_value_drops_count() {
    let v = decode_bencoded_value(b"4:spam").unwrap();
    assert_eq!(v, Bencode::Bytes(bytes("spam")));
}

#[test]
fn number_parser_reads_integer_production() {
    let (v, end) = number_parser(b"i42ei1e", 0).unwrap();
    assert_eq!(v, Bencode::Int(42));
    assert_eq!(end, 4);
}

#[test]
fn string_parser_reads_string_production() {
    let (v, end) = string_parser(b"4:spami1e", 0).unwrap();
    assert_eq!(v, Bencode::Bytes(bytes("spam")));
    assert_eq!(end, 6);
}

#[test]
fn list_parser_reads_list_production() {
    let (v, end) = list_parser(b"l4:spami42ee", 0).unwrap();
    assert_eq!(
        v,
        Bencode::List(vec![Bencode::Bytes(bytes("spam")), Bencode::Int(42)])
    );
    assert_eq!(end, 12);
}

#[test]
fn dictionary_parser_reads_dictionary_production() {
    let (v, end) = dictionary_parser(b"d3:cow3:mooe", 0).unwrap();
    assert_eq!(
        v,
        Bencode::Dict(vec![(bytes("cow"), Bencode::Bytes(bytes("moo")))])
    );
    assert_eq!(end, 12);
}

#[test]
fn encode_writes_canonical_productions() {
    assert_eq!(encode(&Bencode::Int(42)), bytes("i42e"));
    assert_eq!(encode(&Bencode::Int(-3)), bytes("i-3e"));
    assert_eq!(encode(&Bencode::Int(0)), bytes("i0e"));
    assert_eq!(encode(&Bencode::Bytes(bytes("spam"))), bytes("4:spam"));
    assert_eq!(encode(&Bencode::Bytes(vec![])), bytes("0:"));
    assert_eq!(
        encode(&Bencode::List(vec![
            Bencode::Bytes(bytes("spam")),
            Bencode::Int(42)
        ])),
        bytes("l4:spami42ee")
    );
    assert_eq!(
        encode(&Bencode::Dict(vec![
            (bytes("cow"), Bencode::Bytes(bytes("moo"))),
            (bytes("spam"), Bencode::Bytes(bytes("eggs"))),
        ])),
        bytes("d3:cow3:moo4:spam4:eggse")
    );
}

#[test]
fn round_trip_decode_then_encode_preserves_bytes() {
    // key order is not sorted here; the round trip must keep it
    let original = bytes("d4:spam4:eggs3:cow3:mooe");
    let (v, consumed) = decode(&original).unwrap();
    assert_eq!(consumed, original.len());
    assert_eq!(encode(&v), original);
}

#[test]
fn round_trip_encode_then_decode_preserves_value() {
    let value = Bencode::Dict(vec![
        (bytes("z"), Bencode::List(vec![Bencode::Int(i64::MIN)])),
        (bytes("a"), Bencode::Bytes(vec![0, 1, 255])),
    ]);
    let encoded = encode(&value);
    let (back, consumed) = decode(&encoded).unwrap();
    assert_eq!(consumed, encoded.len());
    assert_eq!(back, value);
}

#[test]
fn reencode_normalizes_noncanonical_digits() {
    // leading zeros are accepted on the way in but never written back
    let (v, _) = decode(b"i007e").unwrap();
    assert_eq!(encode(&v), bytes("i7e"));
    let (v2, _) = decode(b"02:ab").unwrap();
    assert_eq!(encode(&v2), bytes("2:ab"));
}

#[test]
fn decode_reads_one_value_and_reports_consumed() {
    let (v, consumed) = decode(b"i7e4:spam").unwrap();
    assert_eq!(v, Bencode::Int(7));
    assert_eq!(consumed, 3);
}
