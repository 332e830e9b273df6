use std::str;

use fix::price::{parse_price, price_to_string};
use fix::{
    get_checksum, get_or_fail, parse, serialize_with_time, to_fix_hash, CancelOrderAck, FieldMap,
    Fill, FixError, FixErrorKind, Heartbeat, Login, Message, NewOrderAck, OrderReject,
    SequenceReset,
};

#[test]
fn test_login_frame() {
    let data = "8=FIX4.2\x0135=A\x0134=1234\x0149=FOOBAR\x0156=BAZQUX\x0110=000\x01";
    let (eaten, msg) = parse(data).unwrap();
    assert_eq!(eaten, data.len());
    match msg {
        Message::Login(l) => {
            assert_eq!(l.sendercompid, "FOOBAR");
            assert_eq!(l.targetcompid, "BAZQUX");
            assert_eq!(l.seqno, 1234);
        },
        _ => panic!("expected Login"),
    }
}

#[test]
fn test_new_order_frame_values() {
    let data = "8=FIX4.2\x0135=D\x0155=AAPL\x0111=CLORDID1\x0154=2\x0144=134.56\x0138=600\x0110=101\x01";
    let (_, msg) = parse(data).unwrap();
    match msg {
        Message::New(no) => {
            assert_eq!(no.symbol, "AAPL");
            assert_eq!(no.clordid, "CLORDID1");
            assert_eq!(no.price, 1345600);
            assert_eq!(no.qty, 600);
            assert_eq!(no.side, 'S');
        },
        _ => panic!("expected New"),
    }
}

#[test]
fn test_fill_bad_shares_field() {
    let data = "8=FIX4.2\x0135=8\x0155=AAPL\x01150=1\x0111=CLORDID1\x0131=134.55\x0132=ABCD\x0154=1\x0144=134.56\x0110=101\x01";
    let err = parse(data).unwrap_err();
    assert_eq!(err.kind, FixErrorKind::InvalidFormat);
    assert_eq!(err.field, 32);
}

#[test]
fn test_incomplete_then_complete() {
    let whole = "8=FIX4.2\x0135=A\x0134=1234\x0149=FOOBAR\x0156=BAZQUX\x0110=000\x01";
    // no checksum-field marker at all
    let err = parse(&whole[..44]).unwrap_err();
    assert_eq!(err.kind, FixErrorKind::Incomplete);
    assert_eq!(err.field, 10);
    // marker present but fewer than eight bytes from its start
    let err = parse(&whole[..whole.len() - 2]).unwrap_err();
    assert_eq!(err.kind, FixErrorKind::Incomplete);
    assert_eq!(err.field, 10);
    // the empty buffer is incomplete too
    let err = parse("").unwrap_err();
    assert_eq!(err.kind, FixErrorKind::Incomplete);
    // appending the remaining bytes makes framing succeed
    let (eaten, msg) = parse(whole).unwrap();
    assert_eq!(eaten, whole.len());
    assert!(matches!(msg, Message::Login { .. }));
}

#[test]
fn test_exec_report_exec_type_missing() {
    let data = "8=FIX4.2\x0135=8\x0155=AAPL\x0111=CLORDID1\x0110=101\x01";
    let err = parse(data).unwrap_err();
    assert_eq!(err.kind, FixErrorKind::MissingField);
    assert_eq!(err.field, 150);
}

#[test]
fn test_exec_report_exec_type_unrecognized() {
    let data = "8=FIX4.2\x0135=8\x0155=AAPL\x01150=9\x0111=CLORDID1\x0110=101\x01";
    let err = parse(data).unwrap_err();
    assert_eq!(err.kind, FixErrorKind::MissingField);
    assert_eq!(err.field, 150);
}

/// The trailer of a serialized frame must hold exactly the three-digit
/// zero-padded checksum of everything before it, as the checksum
/// calculator computes it independently.
fn assert_trailer_consistent(buf: &[u8]) {
    let n = buf.len();
    assert!(n >= 7);
    let head_body = &buf[..n - 7];
    let trailer = &buf[n - 7..];
    assert_eq!(&trailer[..3], b"10=");
    assert_eq!(trailer[6], 0x01);
    let digits = str::from_utf8(&trailer[3..6]).unwrap();
    let declared: u32 = digits.parse().unwrap();
    let computed = get_checksum(head_body, b"");
    assert_eq!(declared, computed as u32);
}

#[test]
fn test_checksum_consistent_every_kind() {
    assert_trailer_consistent(&Login::serialize("SND", "TGT", 7));
    assert_trailer_consistent(&Heartbeat::serialize("SND", "TGT", 8));
    assert_trailer_consistent(&NewOrderAck::serialize(
        "SND", "TGT", 9, "CLORD", "ORD1", "AAPL", 1345600, 600, 'B',
    ));
    assert_trailer_consistent(&CancelOrderAck::serialize(
        "SND", "TGT", 10, "CXL1", "CLORD", "ORD1", "AAPL",
    ));
    assert_trailer_consistent(&OrderReject::serialize(
        "SND", "TGT", 11, "CLORD", "AAPL", "busted",
    ));
    assert_trailer_consistent(&Fill::serialize(
        "SND", "TGT", 12, "CLORD", "ORD1", "AAPL", 42, 1345500, 300, 0, 'B',
    ));
    assert_trailer_consistent(&SequenceReset::serialize("SND", "TGT", 13, 77, true));
}

#[test]
fn test_serialize_with_time_exact_bytes() {
    let fm = FieldMap::new();
    let buf = serialize_with_time("A", "S", "T", 1, &fm, "20240101-00:00:00.000");
    let expected =
        "8=FIX4.2\x019=51\x0135=A\x0152=20240101-00:00:00.000\x0149=S\x0156=T\x0134=0000001\x0110=084\x01";
    assert_eq!(str::from_utf8(&buf).unwrap(), expected);
}

#[test]
fn test_serialized_frame_extracts_protocol_id() {
    let buf = NewOrderAck::serialize("SND", "TGT", 9, "CLORD", "ORD1", "AAPL", 1345600, 600, 'B');
    let text = str::from_utf8(&buf).unwrap();
    let fm = to_fix_hash(text).unwrap();
    assert_eq!(fm.get(8).map(|s| s.as_str()), Some("FIX4.2"));
    assert_eq!(fm.get(55).map(|s| s.as_str()), Some("AAPL"));
    assert_eq!(fm.get(44).map(|s| s.as_str()), Some("134.5600"));
    assert_eq!(fm.get(54).map(|s| s.as_str()), Some("B"));
    assert_eq!(fm.get(38).map(|s| s.as_str()), Some("600"));
}

#[test]
fn test_serialize_then_parse_login() {
    let buf = Login::serialize("FOOBAR", "BAZQUX", 1234);
    let text = str::from_utf8(&buf).unwrap();
    let (eaten, msg) = parse(text).unwrap();
    assert_eq!(eaten, buf.len());
    match msg {
        Message::Login(l) => {
            assert_eq!(l.sendercompid, "FOOBAR");
            assert_eq!(l.targetcompid, "BAZQUX");
            assert_eq!(l.seqno, 1234);
        },
        _ => panic!("expected Login"),
    }
}

#[test]
fn test_price_parse_exact() {
    assert_eq!(parse_price("134.56"), Some(1345600));
    assert_eq!(parse_price("0.0001"), Some(1));
    assert_eq!(parse_price("600"), Some(6000000));
    assert_eq!(parse_price("-2.5"), Some(-25000));
}

#[test]
fn test_price_truncates_toward_zero() {
    assert_eq!(parse_price("1.23456"), Some(12345));
    assert_eq!(parse_price("1.23459"), Some(12345));
    assert_eq!(parse_price("-1.23456"), Some(-12345));
}

#[test]
fn test_price_rejects_garbage() {
    assert_eq!(parse_price(""), None);
    assert_eq!(parse_price("abc"), None);
    assert_eq!(parse_price("1.2.3"), None);
    assert_eq!(parse_price("5."), None);
    assert_eq!(parse_price(".5"), None);
    assert_eq!(parse_price("999999999"), None);
}

#[test]
fn test_price_round_trip_values() {
    for p in [0, 1, -1, 1345600, -1345600, 2147483647, -2147483648] {
        let text = price_to_string(p);
        assert_eq!(parse_price(&text), Some(p));
    }
    assert_eq!(price_to_string(1345600), "134.5600");
    assert_eq!(price_to_string(-25000), "-2.5000");
}

#[test]
fn test_extractor_duplicate_tag_last_wins() {
    let fm = to_fix_hash("55=FIRST\x0155=SECOND\x01").unwrap();
    assert_eq!(fm.get(55).map(|s| s.as_str()), Some("SECOND"));
}

#[test]
fn test_extractor_parse_errors() {
    // a segment without `=`
    let err = to_fix_hash("8=FIX4.2\x01garbage\x01").unwrap_err();
    assert_eq!(err.kind, FixErrorKind::Parse);
    assert_eq!(err.field, 0);
    // a tag that is not an integer
    let err = to_fix_hash("8x=FIX4.2\x01").unwrap_err();
    assert_eq!(err.kind, FixErrorKind::Parse);
    // an empty segment in the middle is not a trailing one
    let err = to_fix_hash("8=a\x01\x019=b\x01").unwrap_err();
    assert_eq!(err.kind, FixErrorKind::Parse);
    // empty trailing segments are fine
    let fm = to_fix_hash("8=a\x01").unwrap();
    assert_eq!(fm.get(8).map(|s| s.as_str()), Some("a"));
}

#[test]
fn test_decoder_error_table() {
    // type tag absent
    let err = parse("8=FIX4.2\x0110=000\x01").unwrap_err();
    assert_eq!(err.kind, FixErrorKind::MissingField);
    assert_eq!(err.field, 35);
    // unrecognized type code
    let err = parse("8=FIX4.2\x0135=Z\x0110=000\x01").unwrap_err();
    assert_eq!(err.kind, FixErrorKind::UnexpectedMessage);
    assert_eq!(err.field, 0);
    // login with a bad sequence number
    let err = parse("8=FIX4.2\x0135=A\x0134=abc\x0149=S\x0156=T\x0110=000\x01").unwrap_err();
    assert_eq!(err.kind, FixErrorKind::InvalidFormat);
    assert_eq!(err.field, 34);
    // new order with a bad quantity
    let err = parse("8=FIX4.2\x0135=D\x0155=A\x0111=C\x0154=1\x0144=1.5\x0138=xy\x0110=000\x01")
        .unwrap_err();
    assert_eq!(err.kind, FixErrorKind::InvalidFormat);
    assert_eq!(err.field, 38);
    // new order with a bad price
    let err = parse("8=FIX4.2\x0135=D\x0155=A\x0111=C\x0154=1\x0144=a.b\x0138=5\x0110=000\x01")
        .unwrap_err();
    assert_eq!(err.kind, FixErrorKind::InvalidFormat);
    assert_eq!(err.field, 44);
    // cancel without the original order id
    let err = parse("8=FIX4.2\x0135=F\x0111=C\x0110=000\x01").unwrap_err();
    assert_eq!(err.kind, FixErrorKind::MissingField);
    assert_eq!(err.field, 41);
    // resend request without its end sequence number
    let err = parse("8=FIX4.2\x0135=2\x0110=000\x01").unwrap_err();
    assert_eq!(err.kind, FixErrorKind::MissingField);
    assert_eq!(err.field, 16);
}

#[test]
fn test_decoder_shell_kinds() {
    let data = "8=FIX4.2\x0135=5\x0110=000\x01";
    assert!(matches!(parse(data).unwrap().1, Message::Logout { .. }));
    let data = "8=FIX4.2\x0135=0\x0110=000\x01";
    assert!(matches!(parse(data).unwrap().1, Message::Heartbeat { .. }));
    let data = "8=FIX4.2\x0135=4\x0136=99\x0110=000\x01";
    assert!(matches!(parse(data).unwrap().1, Message::SequenceReset { .. }));
    let data = "8=FIX4.2\x0135=2\x0116=77\x0110=000\x01";
    match parse(data).unwrap().1 {
        Message::ResendRequest(rr) => assert_eq!(rr.end_seqno, 77),
        _ => panic!("expected ResendRequest"),
    }
}

#[test]
fn test_describe_texts() {
    let e = FixError { kind: FixErrorKind::Parse, field: 0 };
    assert_eq!(e.describe(), "Parse error");
    let e = FixError { kind: FixErrorKind::Incomplete, field: 10 };
    assert_eq!(e.describe(), "Incomplete message missing #10");
    let e = FixError { kind: FixErrorKind::MissingField, field: 55 };
    assert_eq!(e.describe(), "Message is missing field #55");
    let e = FixError { kind: FixErrorKind::InvalidFormat, field: 32 };
    assert_eq!(e.describe(), "Message field #32 has an invalid format");
    let e = FixError { kind: FixErrorKind::UnexpectedMessage, field: 0 };
    assert_eq!(e.describe(), "Message kind is unexpected");
}

#[test]
fn test_get_or_fail() {
    let fm = to_fix_hash("8=FIX4.2\x0135=A\x01").unwrap();
    assert_eq!(get_or_fail(&fm, 35).unwrap(), "A");
    let err = get_or_fail(&fm, 49).unwrap_err();
    assert_eq!(err.kind, FixErrorKind::MissingField);
    assert_eq!(err.field, 49);
}

#[test]
fn test_field_map_insert_and_get() {
    let mut fm = FieldMap::new();
    assert!(fm.get(35).is_none());
    fm.insert(35, "A".to_string());
    fm.insert(8, "FIX4.2".to_string());
    fm.insert(35, "D".to_string());
    assert_eq!(fm.len(), 2);
    assert_eq!(fm.get(35).map(|s| s.as_str()), Some("D"));
    assert_eq!(fm.get(8).map(|s| s.as_str()), Some("FIX4.2"));
    // entries come out in ascending tag order
    let entries = fm.entries();
    assert_eq!(entries[0].0, 8);
    assert_eq!(entries[1].0, 35);
}

#[test]
fn test_parse_cancel_fields() {
    let data = "8=FIX4.2\x0135=F\x0111=CXL-1\x0141=ORIG-1\x0110=000\x01";
    match parse(data).unwrap().1 {
        Message::Cancel(c) => {
            assert_eq!(c.clordid, "CXL-1");
            assert_eq!(c.origclordid, "ORIG-1");
        },
        _ => panic!("expected Cancel"),
    }
}

#[test]
fn test_parse_fill_fields() {
    let data = "8=FIX4.2\x0135=8\x0155=AAPL\x01150=2\x0111=CLORDID1\x0131=134.55\x0132=300\x0154=1\x0110=101\x01";
    match parse(data).unwrap().1 {
        Message::Fill(f) => {
            assert_eq!(f.symbol, "AAPL");
            assert_eq!(f.clorid, "CLORDID1");
            assert_eq!(f.exec_price, 1345500);
            assert_eq!(f.exec_qty, 300);
            assert_eq!(f.side, 'B');
            assert_eq!(f.aggr_ind, 'A');
        },
        _ => panic!("expected Fill"),
    }
}
