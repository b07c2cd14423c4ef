use mktorrent_rs::bencode::{BencodeDict, BencodeValue};

#[test]
fn integer_extremes() {
    assert_eq!(
        BencodeValue::Integer(i64::MAX).serialize(),
        b"i9223372036854775807e"
    );
    assert_eq!(
        BencodeValue::Integer(i64::MIN).serialize(),
        b"i-9223372036854775808e"
    );
    assert_eq!(BencodeValue::Integer(10).serialize(), b"i10e");
    assert_eq!(BencodeValue::Integer(-1).serialize(), b"i-1e");
    assert_eq!(BencodeValue::from(1234567890i64).serialize(), b"i1234567890e");
}

#[test]
fn byte_string_length_has_no_leading_zeros() {
    let out = BencodeValue::Bytes(vec![b'x'; 100]).serialize();
    assert_eq!(&out[..4], b"100:");
    assert_eq!(out.len(), 104);
    let out = BencodeValue::Bytes(vec![b'y'; 10]).serialize();
    assert_eq!(out, b"10:yyyyyyyyyy");
}

#[test]
fn bytes_are_raw() {
    let raw = vec![0xffu8, 0x00, 0x80, b':', b'e'];
    assert_eq!(BencodeValue::Bytes(raw).serialize(), b"5:\xff\x00\x80:e");
}

#[test]
fn dictionary_keys_come_out_in_byte_order() {
    let mut d = BencodeDict::new();
    for k in ["zz", "a", "b", "", "aa", "Z", "ab", "\u{e9}"] {
        d.insert(k.as_bytes().to_vec(), BencodeValue::Integer(0));
    }
    assert_eq!(d.len(), 8);
    assert_eq!(
        BencodeValue::Dict(d).serialize(),
        b"d0:i0e1:Zi0e1:ai0e2:aai0e2:abi0e1:bi0e2:zzi0e2:\xc3\xa9i0ee".to_vec()
    );
}

#[test]
fn keys_in_output_are_strictly_increasing() {
    let mut d = BencodeDict::new();
    let keys: Vec<Vec<u8>> = (0..200u32)
        .map(|i| {
            let x = i.wrapping_mul(2654435761) % 1000;
            format!("{}", x).into_bytes()
        })
        .collect();
    for k in &keys {
        d.insert(k.clone(), BencodeValue::Bytes(vec![]));
    }
    let out = BencodeValue::Dict(d).serialize();
    // Walk the encoding: every value is "0:".
    let mut seen: Vec<Vec<u8>> = vec![];
    let mut i = 1;
    while out[i] != b'e' {
        let colon = i + out[i..].iter().position(|c| *c == b':').unwrap();
        let len: usize = std::str::from_utf8(&out[i..colon]).unwrap().parse().unwrap();
        seen.push(out[colon + 1..colon + 1 + len].to_vec());
        i = colon + 1 + len;
        assert_eq!(&out[i..i + 2], b"0:");
        i += 2;
    }
    assert_eq!(i, out.len() - 1);
    let mut distinct = keys.clone();
    distinct.sort();
    distinct.dedup();
    assert_eq!(seen, distinct);
    for w in seen.windows(2) {
        assert!(w[0] < w[1]);
    }
}

#[test]
fn insert_replaces_and_hands_back_the_old_value() {
    let mut d = BencodeDict::new();
    assert!(d.insert(b"k".to_vec(), BencodeValue::Integer(1)).is_none());
    let old = d.insert(b"k".to_vec(), BencodeValue::Integer(2));
    assert!(matches!(old, Some(BencodeValue::Integer(1))));
    assert_eq!(d.len(), 1);
    assert!(matches!(d.get(b"k"), Some(BencodeValue::Integer(2))));
    assert!(d.get(b"j").is_none());
    assert_eq!(BencodeValue::Dict(d).serialize(), b"d1:ki2ee");
}

#[test]
fn put_is_insert_without_the_old_value() {
    let mut d = BencodeDict::new();
    d.put(b"b".to_vec(), BencodeValue::Integer(1));
    d.put(b"a".to_vec(), BencodeValue::Integer(2));
    d.put(b"b".to_vec(), BencodeValue::Integer(3));
    assert_eq!(BencodeValue::Dict(d).serialize(), b"d1:ai2e1:bi3ee");
}

#[test]
fn remove_takes_the_entry_out() {
    let mut d = BencodeDict::new();
    d.insert(b"a".to_vec(), BencodeValue::Integer(1));
    d.insert(b"b".to_vec(), BencodeValue::Integer(2));
    d.insert(b"c".to_vec(), BencodeValue::Integer(3));
    assert!(matches!(d.remove(b"b"), Some(BencodeValue::Integer(2))));
    assert!(d.remove(b"b").is_none());
    assert!(d.remove(b"x").is_none());
    assert_eq!(d.len(), 2);
    assert_eq!(BencodeValue::Dict(d).serialize(), b"d1:ai1e1:ci3ee");
}

#[test]
fn prefix_key_comes_first() {
    let mut d = BencodeDict::new();
    d.insert(b"piece length".to_vec(), BencodeValue::Integer(1));
    d.insert(b"pieces".to_vec(), BencodeValue::Integer(2));
    d.insert(b"piece".to_vec(), BencodeValue::Integer(3));
    assert_eq!(
        BencodeValue::Dict(d).serialize(),
        b"d5:piecei3e12:piece lengthi1e6:piecesi2ee".to_vec()
    );
}

#[test]
fn nested_values() {
    let mut inner = BencodeDict::new();
    inner.insert(b"y".to_vec(), BencodeValue::List(vec![BencodeValue::Integer(-5)]));
    inner.insert(b"x".to_vec(), BencodeValue::from("v"));
    let mut outer = BencodeDict::new();
    outer.insert(b"d".to_vec(), BencodeValue::Dict(inner));
    let v = BencodeValue::List(vec![BencodeValue::Dict(outer), BencodeValue::Integer(7)]);
    assert_eq!(v.serialize(), b"ld1:dd1:x1:v1:yli-5eeeei7ee");
}

#[test]
fn collect_appends_to_what_is_there() {
    let mut out = b"head".to_vec();
    BencodeValue::collect_bytes(b"ab", &mut out);
    BencodeValue::Integer(3).collect_segments(&mut out);
    assert_eq!(out, b"head2:abi3e");
}
