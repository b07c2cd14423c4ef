use mktorrent_rs::bencode::{BencodeDict, BencodeValue};

#[test]
fn integer() {
    assert_eq!(BencodeValue::Integer(04).serialize(), b"i4e");
    assert_eq!(BencodeValue::Integer(0).serialize(), b"i0e");
    assert_eq!(BencodeValue::Integer(-0).serialize(), b"i0e");
    assert_eq!(BencodeValue::Integer(-42).serialize(), b"i-42e");
}

#[test]
fn bytes() {
    assert_eq!(BencodeValue::Bytes(vec![]).serialize(), b"0:");
    assert_eq!(BencodeValue::Bytes(vec![0]).serialize(), b"1:\0");
    assert_eq!(BencodeValue::from("ascii").serialize(), b"5:ascii");
    assert_eq!(
        BencodeValue::from("\u{4e07}\u{56fd}\u{7801}").serialize(),
        b"9:\xe4\xb8\x87\xe5\x9b\xbd\xe7\xa0\x81"
    );
}

#[test]
fn list() {
    assert_eq!(BencodeValue::List(vec![]).serialize(), b"le");
    assert_eq!(
        BencodeValue::List(vec![BencodeValue::Integer(42), BencodeValue::from("foo")])
            .serialize(),
        b"li42e3:fooe"
    );
    assert_eq!(
        BencodeValue::List(vec![
            BencodeValue::List(vec![]),
            BencodeValue::Dict(BencodeDict::new())
        ])
        .serialize(),
        b"lledee"
    );
}

#[test]
fn map() {
    assert_eq!(BencodeValue::Dict(BencodeDict::new()).serialize(), b"de");

    let mut map1 = BencodeDict::new();
    map1.insert(b"foo".to_vec(), BencodeValue::Integer(42));
    map1.insert(b"bar".to_vec(), BencodeValue::from("foo"));
    assert_eq!(
        BencodeValue::Dict(map1).serialize(),
        b"d3:bar3:foo3:fooi42ee"
    );

    let mut map2 = BencodeDict::new();
    map2.insert(b"buz".to_vec(), BencodeValue::List(vec![]));
    map2.insert(b"foo".to_vec(), BencodeValue::Integer(42));
    map2.insert(b"bar".to_vec(), BencodeValue::Dict(BencodeDict::new()));
    assert_eq!(
        BencodeValue::Dict(map2).serialize(),
        b"d3:barde3:buzle3:fooi42ee"
    );
}
