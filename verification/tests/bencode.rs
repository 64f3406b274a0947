use torrex::bencode::{Bencode, ListValue};
use torrex::bytes_bencode::{decode_prefix, BencodeValue, BytesBencode};

#[test]
fn test_decode_string() {
    let ben = Bencode::new();
    let encoded_string = "5:hello";
    let output = ben.decode_string(encoded_string);
    assert_eq!("hello", output.0);
}

#[test]
fn test_decode_int() {
    let ben = Bencode::new();
    let encoded_string = "i-5e";
    let output = ben.decode_integer(encoded_string);
    assert_eq!(-5, output.0);
}

#[test]
fn decode_string_leaves_the_rest() {
    let output = Bencode::new().decode_string("3:abci42e");
    assert_eq!(output.0, "abc");
    assert_eq!(output.1, "i42e");
}

#[test]
fn decode_integer_leaves_the_rest() {
    let output = Bencode::new().decode_integer("i0e4:spam");
    assert_eq!(output.0, 0);
    assert_eq!(output.1, "4:spam");
}

#[test]
fn list_value_text() {
    assert_eq!(ListValue::Int(-42).to_text(), "-42");
    assert_eq!(ListValue::Int(7).to_text(), "7");
    assert_eq!(ListValue::Str("eggs".to_string()).to_text(), "eggs");
    assert_eq!(ListValue::Int(i64::MIN).to_text(), "-9223372036854775808");
}

fn bytes(v: &BencodeValue) -> Vec<u8> {
    match v {
        BencodeValue::Bytes(b) => b.clone(),
        other => panic!("not a string: {:?}", other),
    }
}

#[test]
fn test_decoder() {
    let bencoding = BytesBencode::new();
    let output = bencoding.decoder("d4:spaml1:a1:bee".as_bytes());
    println!("decoder output is: {:?}", output.0);
    match &output.0 {
        BencodeValue::Dict(entries) => {
            assert_eq!(entries.len(), 1);
            assert_eq!(entries[0].0, b"spam".to_vec());
            match &entries[0].1 {
                BencodeValue::List(items) => {
                    assert_eq!(items.len(), 2);
                    assert_eq!(bytes(&items[0]), b"a".to_vec());
                    assert_eq!(bytes(&items[1]), b"b".to_vec());
                }
                other => panic!("not a list: {:?}", other),
            }
        }
        other => panic!("not a dictionary: {:?}", other),
    }
    assert!(output.1.is_empty());
}

#[test]
fn bytes_decode_string_and_integer() {
    let b = BytesBencode::new();
    let (v, rest) = b.clone().decode_string(b"5:hello world");
    assert_eq!(bytes(&v), b"hello".to_vec());
    assert_eq!(rest, b" world");
    let (v, rest) = b.decode_integer(b"i52eabc");
    assert!(matches!(v, BencodeValue::Int(52)));
    assert_eq!(rest, b"abc");
}

#[test]
fn integers_in_a_list_are_read_whole() {
    let (v, n) = decode_prefix(b"li1ei-2ei0ee").unwrap();
    assert_eq!(n, 12);
    match v {
        BencodeValue::List(items) => {
            assert_eq!(items.len(), 3);
            assert!(matches!(items[0], BencodeValue::Int(1)));
            assert!(matches!(items[1], BencodeValue::Int(-2)));
            assert!(matches!(items[2], BencodeValue::Int(0)));
        }
        other => panic!("not a list: {:?}", other),
    }
}

#[test]
fn leading_zeros_are_rejected() {
    assert!(decode_prefix(b"i05e").is_none());
    assert!(decode_prefix(b"i-0e").is_none());
    assert!(decode_prefix(b"i0e").is_some());
    assert!(decode_prefix(b"i-10e").is_some());
}

#[test]
fn malformed_input_is_rejected() {
    assert!(decode_prefix(b"").is_none());
    assert!(decode_prefix(b"x").is_none());
    assert!(decode_prefix(b"5:abc").is_none());
    assert!(decode_prefix(b"l1:a").is_none());
    assert!(decode_prefix(b"di1e1:ae").is_none());
    assert!(decode_prefix(b"i99999999999999999999e").is_none());
    assert!(decode_prefix(b"ie").is_none());
}

#[test]
fn trailing_bytes_do_not_change_a_value() {
    let (a, n) = decode_prefix(b"d1:xli1eee").unwrap();
    let (b, m) = decode_prefix(b"d1:xli1eeeGARBAGE").unwrap();
    assert_eq!(n, m);
    assert_eq!(format!("{:?}", a), format!("{:?}", b));
}

#[test]
fn copy_keeps_the_value() {
    let (v, _) = decode_prefix(b"d1:ali1e2:bce1:bi-3ee").unwrap();
    let c = v.copy();
    assert_eq!(format!("{:?}", v), format!("{:?}", c));
}

#[test]
fn a_written_string_reads_back_with_its_rest() {
    for (s, rest) in [("a:b", "i1e"), ("", "x"), ("héllo", ""), ("12", "3:abc")] {
        let input = format!("{}:{}{}", s.len(), s, rest);
        assert_eq!(Bencode::new().decode_string(&input), (s, rest));
    }
}

#[test]
fn a_written_integer_reads_back_with_its_rest() {
    for n in [0i64, 7, -7, 10, -10, i64::MAX, i64::MIN] {
        for rest in ["", "e", "3:abc"] {
            let input = format!("i{}e{}", n, rest);
            assert_eq!(Bencode::new().decode_integer(&input), (n, rest));
        }
    }
}
