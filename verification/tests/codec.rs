use std::str;

use fix::{parse, serialize, serialize_body, to_fix_hash, FieldMap, FixErrorKind, Message};

#[test]
fn test_to_fix_hash() {
    let data = b"8=FIX4.2\x0135=D\x0155=AAPL\x0139=100\x0111=CLORDID1\x0144=134.56\x0159=SENDER\x0110=101\x01";
    let data = str::from_utf8(data).unwrap();
    let fix = to_fix_hash(&data).unwrap();
    for (key, value) in fix.entries().iter() {
        println!("{}: \"{}\"", key, value);
    }
    assert_eq!(fix.get(8).map(|s| s.as_str()), Some("FIX4.2"));
}

#[test]
fn test_parse_new_order() {
    let data = b"8=FIX4.2\x0135=D\x0155=AAPL\x0139=100\x0111=CLORDID1\x0154=2\x0144=134.56\x0138=600\x0159=SENDER\x0110=101\x01";
    let data = str::from_utf8(data).unwrap();
    let out = parse(data);
    println!("{:?}", out);
    assert!(out.is_ok());
    let (_, msg) = out.unwrap();
    match msg {
        Message::New(no) => {
            assert_eq!(no.qty, 600);
            assert_eq!(no.price, 1345600);
            assert_eq!(no.clordid, "CLORDID1");
        },
        _ => panic!("expected New"),
    }
}

#[test]
fn test_parse_cancel() {
    let data = b"8=FIX4.2\x0135=F\x0155=AAPL\x0139=100\x0111=CXL-CLORDID1\x0141=CLORDID1\x0144=134.56\x0159=SENDER\x0110=101\x01";
    let bytes = data.len();
    let data = str::from_utf8(data).unwrap();
    let out = parse(data);
    assert!(out.is_ok());
    println!("{:?}", out);
    let is_cancel = |m| match m {
        Message::Cancel { .. } => true,
        _ => false,
    };
    let (bytes_eaten, msg) = out.unwrap();
    assert_eq!(bytes_eaten, bytes);
    assert!(is_cancel(msg));
}

#[test]
fn test_parse_ack() {
    let data = b"8=FIX4.2\x0135=8\x0155=AAPL\x01150=0\x0111=CLORDID1\x0144=134.56\x0159=SENDER\x0110=101\x01";
    let data = str::from_utf8(data).unwrap();
    let out = parse(data);
    assert!(out.is_ok());
    println!("{:?}", out);
    let (_, msg) = out.unwrap();
    assert!(matches!(msg, Message::NewAck { .. }));
}

#[test]
fn test_parse_fill() {
    let data = b"8=FIX4.2\x0135=8\x0155=AAPL\x01150=1\x0111=CLORDID1\x0131=134.55\x0132=300\x0154=1\x0144=134.56\x0159=SENDER\x0110=101\x01";
    let data = str::from_utf8(data).unwrap();
    let out = parse(data);
    println!("{:?}", out);
    assert!(out.is_ok());
    let (_, msg) = out.unwrap();
    assert!(matches!(msg, Message::Fill { .. }));
}

#[test]
fn test_parse_fill_fail() {
    let data = b"8=FIX4.2\x0135=8\x0155=AAPL\x01150=1\x0111=CLORDID1\x0131=134.55\x0132=ABCD\x0154=1\x0144=134.56\x0159=SENDER\x0110=101\x01";
    let data = str::from_utf8(data).unwrap();
    let out = parse(data);
    println!("{:?}", out);
    assert!(out.is_err());
    let err = out.err().unwrap();
    assert_eq!(err.kind, FixErrorKind::InvalidFormat);
}

#[test]
fn test_parse_fail() {
    // no symbol
    let data = b"8=FIX4.2\x0135=D\x0139=100\x0111=CLORDID1\x0144=134.56\x0159=SENDER\x0110=101\x01";
    let data = str::from_utf8(data).unwrap();
    let out = parse(data);
    assert!(out.is_err());
    println!("{}", out.err().expect("").describe());
}

#[test]
fn test_atoi() {
    let num = b"12345";
    let the_string = str::from_utf8(num).expect("not utf-8");
    let the_number: i32 = the_string.parse().expect("not a number");
    assert_eq!(the_number, 12345);
}

fn sample_fields() -> FieldMap {
    let mut msg = FieldMap::new();
    msg.insert(8, "FIX4.2".to_string());
    msg.insert(9, "1234".to_string());
    msg.insert(52, "BAH".to_string());
    msg.insert(54, "QUX".to_string());
    msg.insert(99, "FOOBAR".to_string());
    msg
}

#[test]
fn test_serialize_body() {
    let msg = sample_fields();
    let body = serialize_body(&msg);
    let body_str = str::from_utf8(&body).unwrap();
    assert!(
        body_str.contains("52=BAH\x01") && body_str.contains("54=QUX\x01") && body_str.contains(
            "99=FOOBAR\x01"
        )
    );
}

#[test]
fn test_serialize() {
    let msg = sample_fields();
    let buf = serialize("0", "SENDERCOMP", "TARGETCOMP", 1234, &msg);
    println!("{}", str::from_utf8(&buf).unwrap());
}
